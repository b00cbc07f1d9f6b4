use tools::instance::Input;
use tools::judge::{
    build_graph, simulate, CommentedOp, CopySignals, JudgeError, Op, OpError, Output, State, VisData,
};
use tools::program::judge;
use tools::text::{parse_input, ErrKind, Field};

const TWO_VERTICES: &str = "2 1 0 1 1\n0 1\n0 0\n10 10\n";

fn run(input_s: &str, output_s: &str) -> (Result<usize, JudgeError>, Vec<VisData>, Input) {
    let mut vis = vec![];
    let mut inp = Input::new();
    let r = judge(input_s, output_s, &mut vis, &mut inp, 10).map(|r| r.score);
    (r, vis, inp)
}

fn program(a: Vec<usize>, ops: Vec<Op>) -> Output {
    Output {
        initial_comments: vec![],
        initial_a: a,
        commented_ops: ops.into_iter().map(|op| CommentedOp { op, comments: vec![] }).collect(),
    }
}

fn lights_match(state: &State, n: usize) -> bool {
    (0..n).all(|v| state.traffic_light[v] == state.b.iter().filter(|&&x| x == v as isize).count())
}

#[test]
fn copy_then_move_scores_one() {
    let (r, vis, inp) = run(TWO_VERTICES, "1\ns 1 0 0\nm 1\n");
    assert_eq!(r, Ok(1));
    assert_eq!(vis.len(), 3);
    assert_eq!(inp.n, 2);
    assert_eq!(vis[2].state.cur_v, 1);
}

#[test]
fn move_without_light_fails() {
    let (r, _, _) = run(TWO_VERTICES, "1\nm 1\n");
    assert_eq!(r, Err(JudgeError::Op(1, OpError::NotGreen(1))));
}

#[test]
fn copy_beyond_palette_fails() {
    let inp = parse_input(TWO_VERTICES).unwrap();
    let out = program(vec![1], vec![Op::CopySignals(CopySignals { len: 2, p_a: 0, p_b: 0 })]);
    let mut vis = vec![];
    let r = simulate(&inp, &out, &mut vis, 10).map(|r| r.score);
    assert_eq!(r, Err(JudgeError::Op(1, OpError::SourceOutOfPalette)));
}

#[test]
fn copy_beyond_palette_from_text() {
    let inst = "3 2 0 1 2\n0 1\n1 2\n0 0\n10 0\n20 0\n";
    let (r, _, _) = run(inst, "2\ns 2 0 0\n");
    assert_eq!(r, Err(JudgeError::Op(1, OpError::SourceOutOfPalette)));
}

#[test]
fn copy_beyond_buffer_fails() {
    let inst = "3 2 0 2 1\n0 1\n1 2\n0 0\n10 0\n20 0\n";
    let (r, _, _) = run(inst, "1 2\ns 2 0 0\n");
    assert_eq!(r, Err(JudgeError::Op(1, OpError::DestOutOfBuffer)));
}

#[test]
fn move_to_green_but_not_adjacent_fails() {
    // path 0 - 1 - 2; vertex 2 is green but not next to 0
    let inst = "3 2 0 1 1\n0 1\n1 2\n0 0\n10 0\n20 0\n";
    let (r, _, _) = run(inst, "2\ns 1 0 0\nm 2\n");
    assert_eq!(r, Err(JudgeError::Op(2, OpError::NotAdjacent(2, 0))));
}

#[test]
fn move_succeeds_iff_green_and_adjacent() {
    let inst = "3 2 0 2 2\n0 1\n1 2\n0 0\n10 0\n20 0\n";
    let (r, _, _) = run(inst, "1 2\ns 2 0 0\nm 1\nm 2\nm 1\n");
    assert_eq!(r, Ok(1));
}

#[test]
fn lights_count_buffer_entries_after_every_operation() {
    let inst = "3 2 0 3 2\n0 1\n1 2\n0 0\n10 0\n20 0\n";
    let (r, vis, _) = run(inst, "1 1 2\ns 2 0 0\ns 1 2 1\ns 2 1 0\nm 1\nm 2\n");
    assert_eq!(r, Ok(3));
    assert_eq!(vis.len(), 6);
    for v in &vis {
        assert!(lights_match(&v.state, 3));
    }
    // buffer after "s 2 0 0" is [1, 1]: vertex 1 counted twice
    assert_eq!(vis[1].state.traffic_light, vec![0, 2, 0]);
    // overlapping copy "s 2 1 0" writes [1, 2]
    assert_eq!(vis[3].state.b, vec![1, 2]);
    assert_eq!(vis[3].state.traffic_light, vec![0, 1, 1]);
}

#[test]
fn targets_advance_only_on_exact_match_in_order() {
    // path 0 - 1 - 2 with targets 2 then 1
    let inst = "3 2 2 2 2\n0 1\n1 2\n2 1\n0 0\n10 0\n20 0\n";
    let (r, vis, _) = run(inst, "1 2\ns 2 0 0\nm 1\nm 2\nm 1\n");
    assert_eq!(r, Ok(1));
    let idx: Vec<usize> = vis.iter().map(|v| v.state.target_idx).collect();
    assert_eq!(idx, vec![0, 0, 0, 1, 2]);
}

#[test]
fn unvisited_targets_fail() {
    let inst = "3 2 2 2 2\n0 1\n1 2\n2 1\n0 0\n10 0\n20 0\n";
    let (r, _, _) = run(inst, "1 2\ns 2 0 0\nm 1\n");
    assert_eq!(r, Err(JudgeError::TargetsLeft));
}

#[test]
fn score_counts_copies_not_moves() {
    let (r, _, _) = run(TWO_VERTICES, "1\ns 1 0 0\ns 1 0 0\nm 1\nm 0\n");
    assert_eq!(r, Err(JudgeError::Op(4, OpError::NotGreen(0))));
    let inst = "2 1 0 2 1\n0 1\n0 0\n10 10\n";
    let (r, _, _) = run(inst, "1 0\ns 1 0 0\nm 1\ns 1 1 0\nm 0\ns 1 0 0\nm 1\n");
    assert_eq!(r, Ok(3));
}

#[test]
fn too_many_operations_fail() {
    let inp = parse_input(TWO_VERTICES).unwrap();
    let ops = vec![Op::CopySignals(CopySignals { len: 1, p_a: 0, p_b: 0 }); 100001];
    let out = program(vec![1], ops);
    let mut vis = vec![];
    let r = simulate(&inp, &out, &mut vis, 10).map(|r| r.score);
    assert_eq!(r, Err(JudgeError::TooManyOperations));
    let ops = vec![Op::CopySignals(CopySignals { len: 1, p_a: 0, p_b: 0 }); 100000];
    let out = program(vec![1], ops);
    let mut vis = vec![];
    let r = simulate(&inp, &out, &mut vis, 10).map(|r| r.score);
    assert_eq!(r, Ok(100000));
}

#[test]
fn comments_attach_to_next_operation() {
    let (r, vis, _) = run(TWO_VERTICES, "# start\n1\n\n#  copy it  \ns 1 0 0\nm 1\n");
    assert_eq!(r, Ok(1));
    assert_eq!(vis[0].initial_comments, Some(vec!["start".to_string()]));
    assert_eq!(vis[1].commented_op.as_ref().unwrap().comments, vec!["copy it".to_string()]);
    assert!(vis[2].commented_op.as_ref().unwrap().comments.is_empty());
}

#[test]
fn program_errors_name_line_and_field() {
    let (r, _, _) = run(TWO_VERTICES, "1 1\n");
    match r {
        Err(JudgeError::Output(e)) => {
            assert_eq!(e.line, 1);
            assert_eq!(e.field, Field::Palette);
            assert_eq!(e.kind, ErrKind::TooManyTokens);
        }
        other => panic!("unexpected {:?}", other),
    }
    let (r, _, _) = run(TWO_VERTICES, "1\nx 1\n");
    match r {
        Err(JudgeError::Output(e)) => {
            assert_eq!(e.line, 2);
            assert_eq!(e.kind, ErrKind::UnknownOp);
        }
        other => panic!("unexpected {:?}", other),
    }
    let (r, _, _) = run(TWO_VERTICES, "1\nm 2\n");
    match r {
        Err(JudgeError::Output(e)) => {
            assert_eq!(e.field, Field::Vertex);
            assert_eq!(e.kind, ErrKind::OutOfRange);
        }
        other => panic!("unexpected {:?}", other),
    }
    let (r, _, _) = run(TWO_VERTICES, "2\n");
    assert!(matches!(r, Err(JudgeError::Output(_))));
}

#[test]
fn neighbour_lists_are_symmetric() {
    let inp = parse_input("3 2 0 1 1\n0 1\n2 1\n0 0\n10 0\n20 0\n").unwrap();
    let g = build_graph(&inp);
    assert_eq!(g[0], vec![1]);
    assert_eq!(g[1], vec![0, 2]);
    assert_eq!(g[2], vec![1]);
}

#[test]
fn bad_instance_is_reported() {
    let (r, _, _) = run("2 1 0 1 1\n0 5\n0 0\n10 10\n", "1\n");
    match r {
        Err(JudgeError::Input(e)) => {
            assert_eq!(e.field, Field::V(0));
            assert_eq!(e.kind, ErrKind::OutOfRange);
        }
        other => panic!("unexpected {:?}", other),
    }
}

#[test]
fn empty_palette_needs_no_palette_line() {
    let inst = "2 1 0 0 1\n0 1\n0 0\n10 10\n";
    let (r, vis, _) = run(inst, "");
    assert_eq!(r, Ok(0));
    assert_eq!(vis.len(), 1);
    let (r, _, _) = run(inst, "\n\n# only a note\n");
    assert_eq!(r, Ok(0));
}

#[test]
fn missing_palette_line_fails() {
    let (r, _, _) = run(TWO_VERTICES, "# nothing else\n");
    match r {
        Err(JudgeError::Output(e)) => {
            assert_eq!(e.field, Field::Palette);
            assert_eq!(e.kind, ErrKind::UnexpectedEof);
        }
        other => panic!("unexpected {:?}", other),
    }
}

#[test]
fn crlf_lines_and_blank_lines_are_accepted() {
    let (r, _, _) = run(TWO_VERTICES, "\r\n  1 \r\n\r\n s 1 0 0 \r\nm 1\r\n");
    assert_eq!(r, Ok(1));
}

#[test]
fn operation_arity_is_checked() {
    let (r, _, _) = run(TWO_VERTICES, "1\ns 1 0 0 0\n");
    match r {
        Err(JudgeError::Output(e)) => assert_eq!(e.kind, ErrKind::TooManyTokens),
        other => panic!("unexpected {:?}", other),
    }
    let (r, _, _) = run(TWO_VERTICES, "1\ns 1 0\n");
    match r {
        Err(JudgeError::Output(e)) => {
            assert_eq!(e.field, Field::PB);
            assert_eq!(e.kind, ErrKind::UnexpectedEof);
        }
        other => panic!("unexpected {:?}", other),
    }
    let (r, _, _) = run(TWO_VERTICES, "1\nmove 1\n");
    match r {
        Err(JudgeError::Output(e)) => assert_eq!(e.kind, ErrKind::UnknownOp),
        other => panic!("unexpected {:?}", other),
    }
}

#[test]
fn program_errors_name_the_first_bad_line() {
    let (r, vis, _) = run(TWO_VERTICES, "\n# note\n1\n\ns 1 0 0\nm 7\nm 1\n");
    match r {
        Err(JudgeError::Output(e)) => {
            assert_eq!(e.line, 6);
            assert_eq!(e.field, Field::Vertex);
            assert_eq!(e.kind, ErrKind::OutOfRange);
        }
        other => panic!("unexpected {:?}", other),
    }
    assert!(vis.is_empty());
}

#[test]
fn failed_operation_leaves_the_state() {
    let inp = parse_input(TWO_VERTICES).unwrap();
    let out = program(vec![1], vec![]);
    let mut st = State::new(&inp, &out);
    let g = build_graph(&inp);
    assert_eq!(st.move_(&inp, &g, 1, 10), Err(OpError::NotGreen(1)));
    assert_eq!((st.op_cnt, st.score, st.cur_v), (0, 0, 0));
    assert_eq!(st.copy_signals(&inp, CopySignals { len: 2, p_a: 0, p_b: 0 }), Err(OpError::SourceOutOfPalette));
    assert_eq!(st.b, vec![-1]);
    assert_eq!(st.traffic_light, vec![0, 0]);
}
