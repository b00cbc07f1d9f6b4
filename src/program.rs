//! The text form of programs, line by line, and judging and generating
//! through text.
use vstd::prelude::*;
use vstd::string::StringSliceAdditionalSpecFns;
use crate::generator::{gen, gen_outcome, GenError};
use crate::instance::Input;
use crate::judge::{CommentedOp, CopySignals, JudgeError, JudgeResult, Op, Output, VisData, ops_of, outcome, simulate, traced};
use crate::text::{
    ErrKind, Field, ParseError, input_err, is_space, num_of, owed, parse_input, parse_valid, prefix_matches,
    read_span, render, span_text, split_tokens_in, tokens, utf8_string,
};

verus! {

fn is_space_byte(c: u8) -> (r: bool)
    ensures
        r == is_space(c),
{
    c == 32 || (9 <= c && c <= 13)
}

/// The bytes `s[lo..hi]` as a string.
fn text_of(s: &[u8], lo: usize, hi: usize) -> (r: String)
    requires
        lo <= hi <= s@.len(),
    ensures
        (forall|k: int| lo <= k < hi ==> #[trigger] s@[k] < 128) ==> r@ == s@.subrange(
            lo as int,
            hi as int,
        ).map_values(|c: u8| c as char),
{
    let mut v: Vec<u8> = Vec::new();
    let mut i = lo;
    while i < hi
        invariant
            lo <= i <= hi <= s@.len(),
            v@ == s@.subrange(lo as int, i as int),
        decreases hi - i,
    {
        v.push(s[i]);
        i = i + 1;
        assert(v@ =~= s@.subrange(lo as int, i as int));
    }
    proof {
        assert forall|k: int| 0 <= k < v@.len() && (forall|j: int| lo <= j < hi ==> #[trigger] s@[j] < 128) implies #[trigger] v@[k] < 128 by {
            assert(v@[k] == s@[lo + k]);
        }
    }
    utf8_string(v)
}

/// The lines of `s`: the runs between line feeds, the last one possibly empty.
pub open spec fn split_lines(s: Seq<u8>) -> Seq<Seq<u8>>
    decreases s.len(),
{
    if s.len() == 0 {
        seq![Seq::empty()]
    } else {
        let l = split_lines(s.drop_last());
        if s.last() == 10 {
            l.push(Seq::empty())
        } else {
            l.drop_last().push(l.last().push(s.last()))
        }
    }
}

proof fn lemma_lines_nonempty(s: Seq<u8>)
    ensures
        split_lines(s).len() >= 1,
    decreases s.len(),
{
    if s.len() > 0 {
        lemma_lines_nonempty(s.drop_last());
    }
}

/// Appending bytes without a line feed extends the last line.
proof fn lemma_lines_extend(a: Seq<u8>, w: Seq<u8>)
    requires
        forall|k: int| 0 <= k < w.len() ==> #[trigger] w[k] != 10,
    ensures
        split_lines(a + w) == split_lines(a).drop_last().push(split_lines(a).last() + w),
    decreases w.len(),
{
    lemma_lines_nonempty(a);
    if w.len() == 0 {
        assert(a + w =~= a);
        assert(split_lines(a).last() + w =~= split_lines(a).last());
        assert(split_lines(a).drop_last().push(split_lines(a).last()) =~= split_lines(a));
    } else {
        lemma_lines_extend(a, w.drop_last());
        assert((a + w).drop_last() =~= a + w.drop_last());
        assert((a + w).last() == w.last());
        let l = split_lines(a);
        let l1 = split_lines(a + w.drop_last());
        assert(l1.drop_last() =~= l.drop_last());
        assert((l.last() + w.drop_last()).push(w.last()) =~= l.last() + w);
    }
}

/// The state of reading a program line by line: whether the palette line
/// was seen, the palette and the operations so far.
pub struct ProgramSoFar {
    pub started: bool,
    pub palette: Seq<usize>,
    pub ops: Seq<Op>,
}

/// The palette that a line's tokens give: exactly `al` vertices.
pub open spec fn palette_of(input: Input, toks: Seq<Seq<u8>>) -> Option<Seq<usize>> {
    if toks.len() == input.al && forall|k: int|
        0 <= k < toks.len() ==> (#[trigger] num_of(toks[k]) matches Some(v) && v < input.n) {
        Some(Seq::new(input.al as nat, |k: int| num_of(toks[k])->Some_0 as usize))
    } else {
        None
    }
}

/// Token `k` of a line is a number in `[lo, hi]`.
pub open spec fn tok_in(toks: Seq<Seq<u8>>, k: int, lo: int, hi: int) -> bool {
    0 <= k < toks.len() && (num_of(toks[k]) matches Some(v) && lo <= v <= hi)
}

/// The value of token `k` of a line.
pub open spec fn tok_val(toks: Seq<Seq<u8>>, k: int) -> usize {
    num_of(toks[k])->Some_0 as usize
}

/// The operation that a line's tokens give: `s len p_a p_b` or `m v`.
pub open spec fn op_of(input: Input, toks: Seq<Seq<u8>>) -> Option<Op> {
    if toks.len() == 4 && toks[0] == seq![115u8] && tok_in(toks, 1, 1, input.n - 1) && tok_in(
        toks,
        2,
        0,
        input.al as int,
    ) && tok_in(toks, 3, 0, input.bl as int) {
        Some(
            Op::CopySignals(
                CopySignals { len: tok_val(toks, 1), p_a: tok_val(toks, 2), p_b: tok_val(toks, 3) },
            ),
        )
    } else if toks.len() == 2 && toks[0] == seq![109u8] && tok_in(toks, 1, 0, input.n - 1) {
        Some(Op::Move(tok_val(toks, 1)))
    } else {
        None
    }
}

/// One line of a program: blank and `#` lines change nothing, the first other
/// line is the palette, later ones are operations. `None` once a line is bad.
pub open spec fn read_line(input: Input, st: Option<ProgramSoFar>, line: Seq<u8>) -> Option<ProgramSoFar> {
    match st {
        None => None,
        Some(st) => {
            let toks = tokens(line);
            if toks.len() == 0 || toks[0][0] == 35 {
                Some(st)
            } else if !st.started {
                match palette_of(input, toks) {
                    Some(p) => Some(ProgramSoFar { started: true, palette: p, ops: st.ops }),
                    None => None,
                }
            } else {
                match op_of(input, toks) {
                    Some(op) => Some(ProgramSoFar { ops: st.ops.push(op), ..st }),
                    None => None,
                }
            }
        },
    }
}

/// Reads the lines in order.
pub open spec fn read_lines(input: Input, lines: Seq<Seq<u8>>) -> Option<ProgramSoFar>
    decreases lines.len(),
{
    if lines.len() == 0 {
        Some(ProgramSoFar { started: false, palette: Seq::empty(), ops: Seq::empty() })
    } else {
        read_line(input, read_lines(input, lines.drop_last()), lines.last())
    }
}

/// The palette and operations of a program text, if it is well formed. With
/// an empty palette the palette line may be left out.
pub open spec fn program(input: Input, s: Seq<u8>) -> Option<(Seq<usize>, Seq<Op>)> {
    match read_lines(input, split_lines(s)) {
        None => None,
        Some(st) => if !st.started && input.al > 0 {
            None
        } else {
            Some((st.palette, st.ops))
        },
    }
}

/// The operation is within the bounds that the program text demands.
pub open spec fn op_valid(input: Input, op: Op) -> bool {
    match op {
        Op::CopySignals(cs) => 1 <= cs.len < input.n && cs.p_a <= input.al && cs.p_b <= input.bl,
        Op::Move(v) => v < input.n,
    }
}

/// The program fits the instance: a full palette of vertices and
/// operations within bounds.
pub open spec fn output_valid(input: Input, out: Output) -> bool {
    &&& out.initial_a@.len() == input.al
    &&& forall|i: int| 0 <= i < out.initial_a@.len() ==> #[trigger] out.initial_a@[i] < input.n
    &&& forall|i: int| 0 <= i < ops_of(out).len() ==> op_valid(input, #[trigger] ops_of(out)[i])
}

/// Reads token `idx` of a line as a number in `[lo, hi]`.
fn read_at(s: &[u8], toks: &Vec<(usize, usize)>, idx: usize, lo: usize, hi: usize, line: usize, field: Field) -> (r: Result<usize, ParseError>)
    requires
        forall|k: int| #![trigger toks@[k]] 0 <= k < toks@.len() ==> toks@[k].0 <= toks@[k].1 <= s@.len(),
    ensures
        match r {
            Ok(v) => idx < toks@.len() && num_of(span_text(s@, toks@[idx as int])) == Some(v as nat) && lo <= v
                <= hi,
            Err(_) => !(idx < toks@.len() && (num_of(span_text(s@, toks@[idx as int])) matches Some(v)
                && lo <= v <= hi)),
        },
        r matches Err(e) ==> e.line == line && e.field == field,
{
    if idx >= toks.len() {
        return Err(ParseError { line, field, kind: ErrKind::UnexpectedEof });
    }
    let (a, b) = toks[idx];
    match read_span(s, a, b, lo as u64, hi as u64) {
        Ok(v) => Ok(v as usize),
        Err(kind) => Err(ParseError { line, field, kind }),
    }
}

fn parse_op(s: &[u8], toks: &Vec<(usize, usize)>, input: &Input, line: usize, lo: usize, hi: usize) -> (r: Result<Op, ParseError>)
    requires
        parse_valid(*input),
        lo <= hi <= s@.len(),
        toks@.len() >= 1,
        toks@.len() == tokens(s@.subrange(lo as int, hi as int)).len(),
        forall|k: int| #![trigger toks@[k]] 0 <= k < toks@.len() ==> lo <= toks@[k].0 <= toks@[k].1 && toks@[k].1 <= hi,
        forall|k: int| 0 <= k < toks@.len() ==> #[trigger] span_text(s@, toks@[k]) == tokens(s@.subrange(lo as int, hi as int))[k],
    ensures
        match op_of(*input, tokens(s@.subrange(lo as int, hi as int))) {
            Some(op) => r == Ok::<Op, ParseError>(op),
            None => r is Err,
        },
        r matches Err(e) ==> e.line == line,
{
    let ghost tk = tokens(s@.subrange(lo as int, hi as int));
    let (a, b) = toks[0];
    assert(span_text(s@, toks@[0]) == tk[0]);
    let kind = if b - a == 1 { s[a] } else { 0 };
    proof {
        if b - a == 1 {
            assert(tk[0] =~= seq![s@[a as int]]);
        } else {
            assert(tk[0].len() != 1);
        }
    }
    if kind == 115 {
        assert(tk[0] =~= seq![115u8]);
        assert(tk[0] != seq![109u8]) by {
            assert(seq![109u8][0] == 109);
        }
        let len = read_at(s, toks, 1, 1, input.n - 1, line, Field::Len);
        let len = match len {
            Ok(v) => v,
            Err(e) => {
                proof {
                    if toks@.len() > 1 {
                        assert(span_text(s@, toks@[1]) == tk[1]);
                    }
                }
                return Err(e);
            },
        };
        assert(span_text(s@, toks@[1]) == tk[1]);
        let p_a = match read_at(s, toks, 2, 0, input.al, line, Field::PA) {
            Ok(v) => v,
            Err(e) => {
                proof {
                    if toks@.len() > 2 {
                        assert(span_text(s@, toks@[2]) == tk[2]);
                    }
                }
                return Err(e);
            },
        };
        assert(span_text(s@, toks@[2]) == tk[2]);
        let p_b = match read_at(s, toks, 3, 0, input.bl, line, Field::PB) {
            Ok(v) => v,
            Err(e) => {
                proof {
                    if toks@.len() > 3 {
                        assert(span_text(s@, toks@[3]) == tk[3]);
                    }
                }
                return Err(e);
            },
        };
        assert(span_text(s@, toks@[3]) == tk[3]);
        if toks.len() > 4 {
            return Err(ParseError { line, field: Field::OpType, kind: ErrKind::TooManyTokens });
        }
        Ok(Op::CopySignals(CopySignals { len, p_a, p_b }))
    } else if kind == 109 {
        assert(tk[0] =~= seq![109u8]);
        assert(tk[0] != seq![115u8]) by {
            assert(seq![115u8][0] == 115);
        }
        let v = match read_at(s, toks, 1, 0, input.n - 1, line, Field::Vertex) {
            Ok(v) => v,
            Err(e) => {
                proof {
                    if toks@.len() > 1 {
                        assert(span_text(s@, toks@[1]) == tk[1]);
                    }
                }
                return Err(e);
            },
        };
        assert(span_text(s@, toks@[1]) == tk[1]);
        if toks.len() > 2 {
            return Err(ParseError { line, field: Field::OpType, kind: ErrKind::TooManyTokens });
        }
        Ok(Op::Move(v))
    } else {
        proof {
            if tk[0] == seq![115u8] {
                assert(tk[0].len() == 1 && tk[0][0] == 115);
            }
            if tk[0] == seq![109u8] {
                assert(tk[0].len() == 1 && tk[0][0] == 109);
            }
        }
        Err(ParseError { line, field: Field::OpType, kind: ErrKind::UnknownOp })
    }
}

/// Lines that are complete in `a` stay as they are whatever follows.
proof fn lemma_lines_prefix(a: Seq<u8>, b: Seq<u8>)
    ensures
        split_lines(a + b).len() >= split_lines(a).len(),
        split_lines(a + b).take(split_lines(a).len() - 1) == split_lines(a).drop_last(),
    decreases b.len(),
{
    lemma_lines_nonempty(a);
    if b.len() == 0 {
        assert(a + b =~= a);
        assert(split_lines(a).take(split_lines(a).len() - 1) =~= split_lines(a).drop_last());
    } else {
        lemma_lines_prefix(a, b.drop_last());
        lemma_lines_nonempty(a + b.drop_last());
        assert((a + b).drop_last() =~= a + b.drop_last());
        let l = split_lines(a + b.drop_last());
        let k = split_lines(a).len() - 1;
        if b.last() == 10 {
            assert(split_lines(a + b).take(k) =~= l.take(k));
        } else {
            assert(split_lines(a + b).take(k) =~= l.take(k));
        }
    }
}

/// Once a line is bad, the whole program is.
proof fn lemma_read_none_extends(input: Input, lines: Seq<Seq<u8>>, k: int)
    requires
        0 <= k <= lines.len(),
        read_lines(input, lines.take(k)) is None,
    ensures
        read_lines(input, lines) is None,
    decreases lines.len() - k,
{
    if k < lines.len() {
        assert(lines.take(k + 1).drop_last() =~= lines.take(k));
        lemma_read_none_extends(input, lines, k + 1);
    } else {
        assert(lines.take(k) =~= lines);
    }
}

/// The operations of a list of annotated operations.
pub open spec fn ops_seq(c: Seq<CommentedOp>) -> Seq<Op> {
    c.map_values(|x: CommentedOp| x.op)
}

/// Reads the palette line: exactly `al` vertices.
fn read_palette(s: &[u8], toks: &Vec<(usize, usize)>, input: &Input, line: usize, lo: usize, hi: usize) -> (r: Result<Vec<usize>, ParseError>)
    requires
        parse_valid(*input),
        lo <= hi <= s@.len(),
        toks@.len() >= 1,
        toks@.len() == tokens(s@.subrange(lo as int, hi as int)).len(),
        forall|k: int| #![trigger toks@[k]] 0 <= k < toks@.len() ==> lo <= toks@[k].0 < toks@[k].1 && toks@[k].1 <= hi,
        forall|k: int| 0 <= k < toks@.len() ==> #[trigger] span_text(s@, toks@[k]) == tokens(s@.subrange(lo as int, hi as int))[k],
    ensures
        match palette_of(*input, tokens(s@.subrange(lo as int, hi as int))) {
            Some(p) => r is Ok && r->Ok_0@ == p,
            None => r is Err,
        },
        r matches Ok(p) ==> p@.len() == input.al && forall|j: int| 0 <= j < p@.len() ==> #[trigger] p@[j] < input.n,
        r matches Err(e) ==> e.line == line && e.field == Field::Palette,
{
    let ghost tk = tokens(s@.subrange(lo as int, hi as int));
    let mut a: Vec<usize> = Vec::new();
    let mut i: usize = 0;
    while i < input.al
        invariant
            parse_valid(*input),
            i <= input.al,
            a@.len() == i,
            tk == tokens(s@.subrange(lo as int, hi as int)),
            toks@.len() == tk.len(),
            forall|k: int| #![trigger toks@[k]] 0 <= k < toks@.len() ==> lo <= toks@[k].0 < toks@[k].1 && toks@[k].1 <= hi,
            hi <= s@.len(),
            forall|k: int| 0 <= k < toks@.len() ==> #[trigger] span_text(s@, toks@[k]) == tk[k],
            forall|j: int| 0 <= j < i ==> #[trigger] a@[j] < input.n && j < tk.len() && num_of(tk[j]) == Some(a@[j] as nat),
            i == 0 || i <= toks@.len(),
        decreases input.al - i,
    {
        let v = match read_at(s, toks, i, 0, input.n - 1, line, Field::Palette) {
            Ok(v) => v,
            Err(e) => {
                proof {
                    if i < toks@.len() {
                        assert(span_text(s@, toks@[i as int]) == tk[i as int]);
                        assert(!(num_of(tk[i as int]) matches Some(v) && v < input.n));
                    } else {
                        assert(tk.len() != input.al);
                    }
                    assert(palette_of(*input, tk) is None);
                }
                return Err(e);
            },
        };
        assert(span_text(s@, toks@[i as int]) == tk[i as int]);
        a.push(v);
        i = i + 1;
    }
    if toks.len() > input.al {
        return Err(ParseError { line, field: Field::Palette, kind: ErrKind::TooManyTokens });
    }
    proof {
        assert(tk.len() == input.al);
        assert forall|k: int| 0 <= k < tk.len() implies (#[trigger] num_of(tk[k]) matches Some(v) && v
            < input.n) by {
            assert(a@[k] < input.n && num_of(tk[k]) == Some(a@[k] as nat));
        }
        assert(Seq::new(input.al as nat, |k: int| num_of(tk[k])->Some_0 as usize) =~= a@);
    }
    Ok(a)
}

/// A line count as a line number, which stops at `usize::MAX`.
pub open spec fn line_no(k: int) -> int {
    if k < usize::MAX {
        k
    } else {
        usize::MAX as int
    }
}

/// The error names the first bad line of the program text, or says that the
/// palette line is missing.
pub open spec fn program_err(input: Input, s: Seq<u8>, e: ParseError) -> bool {
    let lines = split_lines(s);
    ||| exists|k: int|
        1 <= k <= lines.len() && e.line == line_no(k) && read_lines(input, lines.take(k - 1)) is Some
            && #[trigger] read_lines(input, lines.take(k)) is None
    ||| e.field == Field::Palette && e.kind == ErrKind::UnexpectedEof && input.al > 0 && (read_lines(
        input,
        lines,
    ) matches Some(st) && !st.started)
}

/// Reads a program for `input`: lines whose first token starts with `#` are
/// annotations of the next other line, blank lines are skipped, the first
/// other line is the palette and the rest are operations.
#[verifier::rlimit(40)]
pub fn parse_output(s: &str, input: &Input) -> (r: Result<Output, ParseError>)
    requires
        parse_valid(*input),
    ensures
        match program(*input, s.spec_bytes()) {
            Some((p, ops)) => r is Ok && r->Ok_0.initial_a@ == p && ops_of(r->Ok_0) == ops,
            None => r is Err,
        },
        r matches Ok(out) ==> output_valid(*input, out),
        r matches Err(e) ==> program_err(*input, s.spec_bytes(), e),
{
    let b = s.as_bytes();
    let len = b.len();
    let mut pos: usize = 0;
    let mut finished = false;
    let mut initial_comments: Vec<String> = Vec::new();
    let mut initial_a: Vec<usize> = Vec::new();
    let mut commented_ops: Vec<CommentedOp> = Vec::new();
    let mut comments: Vec<String> = Vec::new();
    let mut initialized = false;
    let mut line: usize = 0;
    let ghost mut done: Seq<Seq<u8>> = Seq::empty();
    proof {
        assert(b@.take(0) =~= Seq::<u8>::empty());
        assert(ops_seq(commented_ops@) =~= Seq::<Op>::empty());
        assert(initial_a@ =~= Seq::<usize>::empty());
    }
    while !finished
        invariant
            parse_valid(*input),
            b@ == s.spec_bytes(),
            pos <= len == b@.len(),
            line == line_no(done.len() as int),
            !finished ==> split_lines(b@.take(pos as int)) == done.push(Seq::empty()),
            finished ==> split_lines(b@) == done,
            read_lines(*input, done) == Some(
                ProgramSoFar { started: initialized, palette: initial_a@, ops: ops_seq(commented_ops@) },
            ),
            initialized ==> initial_a@.len() == input.al,
            !initialized ==> initial_a@.len() == 0,
            forall|i: int| 0 <= i < initial_a@.len() ==> #[trigger] initial_a@[i] < input.n,
            forall|i: int| 0 <= i < commented_ops@.len() ==> op_valid(*input, #[trigger] commented_ops@[i].op),
        decreases len - pos + if finished {
            0int
        } else {
            1int
        },
    {
        let mut le = pos;
        while le < len && b[le] != 10
            invariant
                pos <= le <= len == b@.len(),
                forall|k: int| pos <= k < le ==> #[trigger] b@[k] != 10,
            decreases len - le,
        {
            le = le + 1;
        }
        let ghost ln = b@.subrange(pos as int, le as int);
        let ghost lines_now = done.push(ln);
        proof {
            assert forall|k: int| 0 <= k < ln.len() implies #[trigger] ln[k] != 10 by {
                assert(b@[pos + k] != 10);
            }
            lemma_lines_extend(b@.take(pos as int), ln);
            assert(b@.take(pos as int) + ln =~= b@.take(le as int));
            assert(Seq::<u8>::empty() + ln =~= ln);
            assert(split_lines(b@.take(le as int)) =~= lines_now);
            if le < len {
                assert(b@.take(le + 1).drop_last() =~= b@.take(le as int));
                lemma_lines_prefix(b@.take(le + 1), b@.skip(le + 1));
                assert(b@.take(le + 1) + b@.skip(le + 1) =~= b@);
                assert(split_lines(b@.take(le + 1)) == lines_now.push(Seq::empty()));
                assert(split_lines(b@).take(lines_now.len() as int) =~= lines_now);
            } else {
                assert(b@.take(le as int) =~= b@);
                assert(split_lines(b@).take(lines_now.len() as int) =~= lines_now);
            }
            assert(lines_now.drop_last() =~= done);
            assert(lines_now.len() <= split_lines(b@).len());
        }
        line = if line < usize::MAX {
            line + 1
        } else {
            line
        };
        let toks = split_tokens_in(b, pos, le);
        let ghost tk = tokens(ln);
        proof {
            assert(line == line_no(lines_now.len() as int));
            assert(split_lines(b@).take(lines_now.len() - 1) =~= done) by {
                assert(split_lines(b@).take(lines_now.len() as int) == lines_now);
                assert(split_lines(b@).take(lines_now.len() - 1) =~= lines_now.take(lines_now.len() - 1));
                assert(lines_now.take(lines_now.len() - 1) =~= done);
            }
        }
        let ghost before = read_lines(*input, done)->Some_0;
        if toks.len() > 0 {
            let (a0, _) = toks[0];
            assert(span_text(b@, toks@[0]) == tk[0]);
            assert(tk[0][0] == b@[a0 as int]);
            if b[a0] == 35 {
                let mut cs = a0 + 1;
                while cs < le && is_space_byte(b[cs])
                    invariant
                        a0 < cs <= le <= b@.len(),
                    decreases le - cs,
                {
                    cs = cs + 1;
                }
                let mut ce = le;
                while ce > cs && is_space_byte(b[ce - 1])
                    invariant
                        cs <= ce <= le <= b@.len(),
                    decreases ce,
                {
                    ce = ce - 1;
                }
                comments.push(text_of(b, cs, ce));
            } else if !initialized {
                initial_a = match read_palette(b, &toks, input, line, pos, le) {
                    Ok(p) => p,
                    Err(e) => {
                        proof {
                            assert(lines_now.drop_last() =~= done);
                            assert(lines_now.last() == ln);
                            assert(read_lines(*input, lines_now) is None);
                            lemma_read_none_extends(*input, split_lines(b@), lines_now.len() as int);
                            assert(program(*input, b@) is None);
                            assert(read_lines(*input, split_lines(b@).take(lines_now.len() as int)) is None);
                            assert(read_lines(*input, split_lines(b@).take(lines_now.len() - 1)) is Some);
                        }
                        return Err(e);
                    },
                };
                initial_comments = comments;
                comments = Vec::new();
                initialized = true;
            } else {
                let op = match parse_op(b, &toks, input, line, pos, le) {
                    Ok(op) => op,
                    Err(e) => {
                        proof {
                            assert(read_lines(*input, lines_now) is None);
                            lemma_read_none_extends(*input, split_lines(b@), lines_now.len() as int);
                                assert(read_lines(*input, split_lines(b@)) is None);
                                assert(program(*input, b@) is None);
                                assert(read_lines(*input, split_lines(b@).take(lines_now.len() as int)) is None);
                                assert(read_lines(*input, split_lines(b@).take(lines_now.len() - 1)) is Some);
                        }
                        return Err(e);
                    },
                };
                let ghost old_ops = commented_ops@;
                commented_ops.push(CommentedOp { op, comments });
                comments = Vec::new();
                proof {
                    assert(ops_seq(commented_ops@) =~= ops_seq(old_ops).push(op));
                    assert forall|i: int| 0 <= i < commented_ops@.len() implies op_valid(*input, #[trigger] commented_ops@[i].op) by {
                        if i < old_ops.len() {
                            assert(commented_ops@[i] == old_ops[i]);
                        }
                    }
                }
            }
        }
        if le < len {
            proof {
                assert(split_lines(b@.take(le + 1)) == lines_now.push(Seq::empty()));
            }
            pos = le + 1;
            proof {
                done = lines_now;
            }
        } else {
            finished = true;
            proof {
                done = lines_now;
                assert(b@.take(le as int) =~= b@);
            }
        }
    }
    if !initialized && input.al > 0 {
        return Err(ParseError { line, field: Field::Palette, kind: ErrKind::UnexpectedEof });
    }
    let out = Output { initial_comments, initial_a, commented_ops };
    proof {
        assert(ops_of(out) == ops_seq(out.commented_ops@));
        assert forall|i: int| 0 <= i < ops_of(out).len() implies op_valid(*input, #[trigger] ops_of(out)[i]) by {
            assert(ops_of(out)[i] == out.commented_ops@[i].op);
        }
    }
    Ok(out)
}

/// The judge's verdict on the program text `s` for instance `inp` is `r`:
/// an error for a malformed program, otherwise the outcome of the run.
pub open spec fn verdict_is(inp: Input, s: Seq<u8>, r: Result<JudgeResult, JudgeError>) -> bool {
    match program(inp, s) {
        None => r matches Err(JudgeError::Output(_)),
        Some((a, ops)) => match outcome(inp, a, ops) {
            Ok(score) => r is Ok && r->Ok_0.score == score,
            Err(e) => r == Err::<JudgeResult, JudgeError>(e),
        },
    }
}

/// Reads an instance and a program and judges the program. The instance read
/// is stored in `input_res`, and the states of the run in `vis_data_vec`
/// (see `simulate`).
pub fn judge(
    input_s: &str,
    output_s: &str,
    vis_data_vec: &mut Vec<VisData>,
    input_res: &mut Input,
    k: usize,
) -> (r: Result<JudgeResult, JudgeError>)
    ensures
        r matches Err(JudgeError::Input(_)) <==> !owed(input_s.spec_bytes()),
        !(r matches Err(JudgeError::Input(_))) ==> parse_valid(*final(input_res)) && prefix_matches(
            input_s.spec_bytes(),
            *final(input_res),
        ) && verdict_is(*final(input_res), output_s.spec_bytes(), r),
        r matches Err(JudgeError::Input(e)) ==> input_err(input_s.spec_bytes(), e) && *final(input_res)
            == *old(input_res) && final(vis_data_vec)@ == old(vis_data_vec)@,
        r matches Err(JudgeError::Output(_)) ==> final(vis_data_vec)@ == old(vis_data_vec)@,
        !(r matches Err(JudgeError::Input(_))) ==> match program(*final(input_res), output_s.spec_bytes()) {
            Some((a, ops)) => traced(*final(input_res), a, ops, old(vis_data_vec)@, final(vis_data_vec)@),
            None => final(vis_data_vec)@ == old(vis_data_vec)@,
        },
{
    let input = match parse_input(input_s) {
        Ok(i) => i,
        Err(e) => {
            return Err(JudgeError::Input(e));
        },
    };
    let output = match parse_output(output_s, &input) {
        Ok(o) => o,
        Err(e) => {
            *input_res = input;
            return Err(JudgeError::Output(e));
        },
    };
    proof {
        assert forall|i: int| 0 <= i < ops_of(output).len() implies match #[trigger] ops_of(output)[i] {
            Op::Move(v) => v < input.n,
            _ => true,
        } by {
            assert(op_valid(input, ops_of(output)[i]));
        }
    }
    let r = simulate(&input, &output, vis_data_vec, k);
    *input_res = input;
    proof {
        assert(verdict_is(*input_res, output_s.spec_bytes(), r));
    }
    r
}

/// A size of 0 stands for "not given".
pub open spec fn given(v: Option<usize>) -> Option<usize> {
    match v {
        Some(0) => None,
        _ => v,
    }
}

/// Generates an instance from `seed` and returns its text form. A size of 0
/// counts as not given.
pub fn generate(seed: u64, al: Option<usize>, bl: Option<usize>) -> (r: Result<String, GenError>)
    ensures
        exists|g: Result<Input, GenError>|
            gen_outcome(given(al), given(bl), g) && match g {
                Ok(inp) => r is Ok && r->Ok_0@ == render(inp).map_values(|b: u8| b as char),
                Err(e) => r == Err::<String, GenError>(e),
            },
{
    let al = match al {
        Some(0) => None,
        _ => al,
    };
    let bl = match bl {
        Some(0) => None,
        _ => bl,
    };
    let g = gen(seed, al, bl);
    match g {
        Ok(inp) => {
            let r = inp.to_text();
            Ok(r)
        },
        Err(e) => Err(e),
    }
}

} // verus!
