//! The judge: replays a program of operations against an instance.
use vstd::prelude::*;
use crate::instance::Input;
use crate::text::ParseError;

verus! {

/// Largest number of operations a program may hold.
pub const MAX_OPERATION_CNT: usize = 100000;

/// Copy `len` palette entries starting at `p_a` into the buffer at `p_b`.
#[derive(Clone, Copy, Debug)]
pub struct CopySignals {
    pub len: usize,
    pub p_a: usize,
    pub p_b: usize,
}

/// One operation of a program.
#[derive(Clone, Copy, Debug)]
pub enum Op {
    CopySignals(CopySignals),
    Move(usize),
}

/// An operation with the annotation lines written above it.
#[derive(Clone, Debug)]
pub struct CommentedOp {
    pub op: Op,
    pub comments: Vec<String>,
}

/// A parsed program: the initial palette and the operations.
#[derive(Clone, Debug)]
pub struct Output {
    pub initial_comments: Vec<String>,
    pub initial_a: Vec<usize>,
    pub commented_ops: Vec<CommentedOp>,
}

/// Why an operation failed.
#[derive(Clone, Copy, Debug, PartialEq, Eq)]
pub enum OpError {
    /// The source range leaves the palette.
    SourceOutOfPalette,
    /// The destination range leaves the buffer.
    DestOutOfBuffer,
    /// The vertex moved to has no light in the buffer.
    NotGreen(usize),
    /// The vertex moved to (first) is not adjacent to the current one (second).
    NotAdjacent(usize, usize),
}

/// The simulation state.
#[derive(Clone, Debug)]
pub struct State {
    pub score: usize,
    pub op_cnt: usize,
    pub target_idx: usize,
    pub cur_v: usize,
    pub a: Vec<usize>,
    pub b: Vec<isize>,
    pub visited: Vec<usize>,
    pub traffic_light: Vec<usize>,
}

/// What a run of the judge is about: the counters, the current vertex and
/// the buffer.
pub struct Model {
    pub score: nat,
    pub target_idx: nat,
    pub cur_v: nat,
    pub b: Seq<isize>,
}

/// Number of positions of `s` that hold `v`.
pub open spec fn count(s: Seq<isize>, v: int) -> nat
    decreases s.len(),
{
    if s.len() == 0 {
        0
    } else {
        count(s.drop_last(), v) + if s.last() == v {
            1nat
        } else {
            0nat
        }
    }
}

proof fn lemma_count_concat(s: Seq<isize>, t: Seq<isize>, v: int)
    ensures
        count(s + t, v) == count(s, v) + count(t, v),
    decreases t.len(),
{
    if t.len() == 0 {
        assert(s + t =~= s);
    } else {
        assert((s + t).drop_last() =~= s + t.drop_last());
        lemma_count_concat(s, t.drop_last(), v);
    }
}

proof fn lemma_count_le_len(s: Seq<isize>, v: int)
    ensures
        count(s, v) <= s.len(),
        (exists|k: int| 0 <= k < s.len() && s[k] != v) ==> count(s, v) < s.len(),
    decreases s.len(),
{
    if s.len() > 0 {
        lemma_count_le_len(s.drop_last(), v);
        if exists|k: int| 0 <= k < s.len() && s[k] != v {
            let k = choose|k: int| 0 <= k < s.len() && s[k] != v;
            if k < s.len() - 1 {
                assert(s.drop_last()[k] != v);
            }
        }
    }
}

/// Splitting `s` at `lo` and `hi` splits the count.
proof fn lemma_count_split(s: Seq<isize>, lo: int, hi: int, v: int)
    requires
        0 <= lo <= hi <= s.len(),
    ensures
        count(s, v) == count(s.subrange(0, lo), v) + count(s.subrange(lo, hi), v) + count(
            s.subrange(hi, s.len() as int),
            v,
        ),
{
    assert(s =~= s.subrange(0, lo) + s.subrange(lo, hi) + s.subrange(hi, s.len() as int));
    lemma_count_concat(s.subrange(0, lo) + s.subrange(lo, hi), s.subrange(hi, s.len() as int), v);
    lemma_count_concat(s.subrange(0, lo), s.subrange(lo, hi), v);
}

proof fn lemma_count_update(s: Seq<isize>, k: int, x: isize, v: int)
    requires
        0 <= k < s.len(),
    ensures
        count(s.update(k, x), v) + (if s[k] == v {
            1int
        } else {
            0int
        }) == count(s, v) + (if x == v {
            1int
        } else {
            0int
        }),
{
    let t = s.update(k, x);
    lemma_count_split(s, k, k + 1, v);
    lemma_count_split(t, k, k + 1, v);
    assert(t.subrange(0, k) =~= s.subrange(0, k));
    assert(t.subrange(k + 1, t.len() as int) =~= s.subrange(k + 1, s.len() as int));
    assert(s.subrange(k, k + 1).drop_last() =~= Seq::<isize>::empty());
    assert(t.subrange(k, k + 1).drop_last() =~= Seq::<isize>::empty());
}

/// The buffer after copying `len` palette entries from `p_a` to `p_b`.
pub open spec fn copied(b: Seq<isize>, a: Seq<usize>, cs: CopySignals) -> Seq<isize> {
    Seq::new(
        b.len(),
        |i: int|
            if cs.p_b <= i < cs.p_b + cs.len {
                a[i - cs.p_b + cs.p_a] as isize
            } else {
                b[i]
            },
    )
}

/// What one operation does to the model, given the instance and the palette.
pub open spec fn step(input: Input, a: Seq<usize>, s: Model, op: Op) -> Result<Model, OpError> {
    match op {
        Op::CopySignals(cs) => {
            if cs.p_a + cs.len > input.al {
                Err(OpError::SourceOutOfPalette)
            } else if cs.p_b + cs.len > input.bl {
                Err(OpError::DestOutOfBuffer)
            } else {
                Ok(Model { score: s.score + 1, b: copied(s.b, a, cs), ..s })
            }
        },
        Op::Move(v) => {
            if count(s.b, v as int) == 0 {
                Err(OpError::NotGreen(v))
            } else if !input.adjacent(s.cur_v as int, v as int) {
                Err(OpError::NotAdjacent(v, s.cur_v as usize))
            } else {
                let hit = s.target_idx < input.t_sz && input.t@[s.target_idx as int] == v;
                Ok(
                    Model {
                        target_idx: if hit {
                            s.target_idx + 1
                        } else {
                            s.target_idx
                        },
                        cur_v: v as nat,
                        ..s
                    },
                )
            }
        },
    }
}

/// The model before any operation.
pub open spec fn initial_model(input: Input) -> Model {
    Model { score: 0, target_idx: 0, cur_v: 0, b: Seq::new(input.bl as nat, |i: int| -1isize) }
}

/// Runs the operations in order: the final model, or the 0-based index of
/// the first failing operation with its error.
pub open spec fn run(input: Input, a: Seq<usize>, ops: Seq<Op>) -> Result<Model, (nat, OpError)>
    decreases ops.len(),
{
    if ops.len() == 0 {
        Ok(initial_model(input))
    } else {
        match run(input, a, ops.drop_last()) {
            Err(e) => Err(e),
            Ok(s) => match step(input, a, s, ops.last()) {
                Ok(s2) => Ok(s2),
                Err(e) => Err(((ops.len() - 1) as nat, e)),
            },
        }
    }
}

impl State {
    /// The model this state stands for.
    pub open spec fn model(&self) -> Model {
        Model {
            score: self.score as nat,
            target_idx: self.target_idx as nat,
            cur_v: self.cur_v as nat,
            b: self.b@,
        }
    }

    /// Each vertex's light is the number of buffer positions holding it.
    pub open spec fn lights_agree(&self) -> bool {
        forall|v: int|
            0 <= v < self.traffic_light@.len() ==> #[trigger] self.traffic_light@[v] == count(
                self.b@,
                v,
            )
    }

    /// The state fits the instance and its lights agree with its buffer.
    pub open spec fn wf(&self, input: &Input) -> bool {
        &&& self.traffic_light@.len() == input.n
        &&& self.a@.len() == input.al
        &&& self.b@.len() == input.bl
        &&& forall|i: int| 0 <= i < self.a@.len() ==> #[trigger] self.a@[i] < input.n
        &&& forall|i: int|
            0 <= i < self.b@.len() ==> #[trigger] self.b@[i] == -1 || 0 <= self.b@[i] < input.n
        &&& self.lights_agree()
        &&& self.cur_v < input.n
        &&& self.target_idx <= input.t_sz
        &&& self.score <= self.op_cnt
        &&& input.n <= isize::MAX
        &&& input.t@.len() == input.t_sz
    }

    /// A copy of the state.
    pub fn snapshot(&self) -> (r: State)
        ensures
            r.model() == self.model(),
            r.op_cnt == self.op_cnt,
            r.a@ == self.a@,
            r.b@ == self.b@,
            r.visited@ == self.visited@,
            r.traffic_light@ == self.traffic_light@,
    {
        let a = self.a.clone();
        let b = self.b.clone();
        let visited = self.visited.clone();
        let traffic_light = self.traffic_light.clone();
        assert(a@ =~= self.a@);
        assert(b@ =~= self.b@);
        assert(visited@ =~= self.visited@);
        assert(traffic_light@ =~= self.traffic_light@);
        State {
            score: self.score,
            op_cnt: self.op_cnt,
            target_idx: self.target_idx,
            cur_v: self.cur_v,
            a,
            b,
            visited,
            traffic_light,
        }
    }

    /// The state before the first operation.
    pub fn new(input: &Input, output: &Output) -> (r: State)
        requires
            input.wf(),
            0 < input.n <= isize::MAX,
            output.initial_a@.len() == input.al,
            forall|i: int| 0 <= i < output.initial_a@.len() ==> #[trigger] output.initial_a@[i] < input.n,
        ensures
            r.wf(input),
            r.model() == initial_model(*input),
            r.a@ == output.initial_a@,
            r.op_cnt == 0,
            r.visited@ == seq![0usize],
            r.traffic_light@ == Seq::new(input.n as nat, |v: int| 0usize),
    {
        let b: Vec<isize> = vec![-1isize; input.bl];
        let traffic_light: Vec<usize> = vec![0usize; input.n];
        let r = State {
            score: 0,
            op_cnt: 0,
            target_idx: 0,
            cur_v: 0,
            a: output.initial_a.clone(),
            b,
            visited: vec![0usize],
            traffic_light,
        };
        proof {
            assert forall|v: int| 0 <= v < r.traffic_light@.len() implies #[trigger] r.traffic_light@[v]
                == count(r.b@, v) by {
                lemma_no_light(r.b@, v);
            }
            assert(r.b@ =~= initial_model(*input).b);
            assert(r.visited@ =~= seq![0usize]);
            assert(r.traffic_light@ =~= Seq::new(input.n as nat, |v: int| 0usize));
        }
        r
    }

    /// Copies palette entries into the buffer, keeping every light equal to
    /// the number of buffer positions holding its vertex.
    pub fn copy_signals(&mut self, input: &Input, cs: CopySignals) -> (r: Result<(), OpError>)
        requires
            old(self).wf(input),
            old(self).op_cnt < MAX_OPERATION_CNT,
        ensures
            r is Ok ==> final(self).wf(input) && final(self).op_cnt == old(self).op_cnt + 1,
            r is Ok ==> final(self).lights_agree(),
            r is Err ==> *final(self) == *old(self),
            match step(*input, old(self).a@, old(self).model(), Op::CopySignals(cs)) {
                Ok(m) => r is Ok && final(self).model() == m,
                Err(e) => r == Err::<(), OpError>(e),
            },
            final(self).a@ == old(self).a@,
    {
        if cs.len > input.al || cs.p_a > input.al - cs.len {
            return Err(OpError::SourceOutOfPalette);
        }
        if cs.len > input.bl || cs.p_b > input.bl - cs.len {
            return Err(OpError::DestOutOfBuffer);
        }
        self.op_cnt = self.op_cnt + 1;
        self.score = self.score + 1;
        let ghost b0 = self.b@;
        let ghost lo = cs.p_b as int;
        let ghost hi = cs.p_b + cs.len;
        let mut i: usize = 0;
        while i < cs.len
            invariant
                0 <= i <= cs.len,
                lo == cs.p_b,
                hi == cs.p_b + cs.len,
                cs.p_b + cs.len <= input.bl,
                self.a@ == old(self).a@,
                self.a@.len() == input.al,
                forall|j: int| 0 <= j < self.a@.len() ==> #[trigger] self.a@[j] < input.n,
                input.n <= isize::MAX,
                self.score == old(self).score + 1,
                self.score <= self.op_cnt,
                self.op_cnt == old(self).op_cnt + 1,
                self.target_idx == old(self).target_idx,
                self.cur_v == old(self).cur_v,
                self.b@ == b0,
                self.b@.len() == input.bl,
                self.traffic_light@.len() == input.n,
                forall|j: int| 0 <= j < b0.len() ==> #[trigger] b0[j] == -1 || 0 <= b0[j] < input.n,
                forall|v: int|
                    0 <= v < input.n ==> #[trigger] self.traffic_light@[v] + count(
                        b0.subrange(lo, lo + i),
                        v,
                    ) == count(b0, v),
            decreases cs.len - i,
        {
            let x = self.b[i + cs.p_b];
            if x >= 0 {
                proof {
                    assert(b0.subrange(lo, lo + i + 1).drop_last() =~= b0.subrange(lo, lo + i));
                    lemma_count_split(b0, lo, lo + i + 1, x as int);
                }
                let xv = x as usize;
                let c = self.traffic_light[xv];
                self.traffic_light.set(xv, c - 1);
            }
            proof {
                assert forall|v: int| 0 <= v < input.n implies #[trigger] self.traffic_light@[v]
                    + count(b0.subrange(lo, lo + i + 1), v) == count(b0, v) by {
                    assert(b0.subrange(lo, lo + i + 1).drop_last() =~= b0.subrange(lo, lo + i));
                }
            }
            i = i + 1;
        }
        let mut i: usize = 0;
        while i < cs.len
            invariant
                0 <= i <= cs.len,
                lo == cs.p_b,
                hi == cs.p_b + cs.len,
                b0.len() == input.bl,
                cs.p_a + cs.len <= input.al,
                cs.p_b + cs.len <= input.bl,
                self.a@ == old(self).a@,
                input.n <= isize::MAX,
                self.score == old(self).score + 1,
                self.score <= self.op_cnt,
                self.op_cnt == old(self).op_cnt + 1,
                self.target_idx == old(self).target_idx,
                self.cur_v == old(self).cur_v,
                self.a@.len() == input.al,
                forall|j: int| 0 <= j < self.a@.len() ==> #[trigger] self.a@[j] < input.n,
                self.b@.len() == input.bl,
                self.traffic_light@.len() == input.n,
                forall|j: int|
                    0 <= j < self.b@.len() ==> #[trigger] self.b@[j] == -1 || 0 <= self.b@[j]
                        < input.n,
                forall|j: int|
                    0 <= j < self.b@.len() ==> #[trigger] self.b@[j] == if lo <= j < lo + i {
                        self.a@[j - lo + cs.p_a] as isize
                    } else {
                        b0[j]
                    },
                forall|v: int|
                    0 <= v < input.n ==> #[trigger] self.traffic_light@[v] + count(
                        self.b@.subrange(lo + i, hi),
                        v,
                    ) == count(self.b@, v),
            decreases cs.len - i,
        {
            let val = self.a[i + cs.p_a];
            let ghost bb = self.b@;
            let ghost k = lo + i;
            proof {
                lemma_count_split(bb, k, hi, val as int);
                lemma_count_split(bb.subrange(k, hi), 0, 1, val as int);
                assert(bb.subrange(k, hi).subrange(0, 1).drop_last() =~= Seq::<isize>::empty());
                lemma_count_le_len(bb, val as int);
            }
            let ghost tl0 = self.traffic_light@;
            let c = self.traffic_light[val];
            self.traffic_light.set(val, c + 1);
            self.b.set(i + cs.p_b, val as isize);
            proof {
                assert(val < input.n);
                assert(self.b@ == bb.update(k, val as isize));
                assert(self.traffic_light@ == tl0.update(val as int, (c + 1) as usize));
                assert forall|v: int| 0 <= v < input.n implies #[trigger] self.traffic_light@[v]
                    + count(self.b@.subrange(k + 1, hi), v) == count(self.b@, v) by {
                    let sub = bb.subrange(k, hi);
                    assert(tl0[v] + count(sub, v) == count(bb, v));
                    lemma_count_update(bb, k, val as isize, v);
                    lemma_count_split(sub, 0, 1, v);
                    assert(sub.subrange(0, 1).drop_last() =~= Seq::<isize>::empty());
                    assert(count(Seq::<isize>::empty(), v) == 0);
                    assert(sub.subrange(1, hi - k) =~= self.b@.subrange(k + 1, hi));
                    assert(sub.subrange(0, 0) =~= Seq::<isize>::empty());
                }
                assert forall|j: int| 0 <= j < self.b@.len() implies #[trigger] self.b@[j] == -1 || 0
                    <= self.b@[j] < input.n by {
                    if j != k {
                        assert(self.b@[j] == bb[j]);
                    }
                }
            }
            i = i + 1;
        }
        proof {
            assert(self.b@ =~= copied(b0, self.a@, cs));
            assert(self.b@.subrange(hi, hi) =~= Seq::<isize>::empty());
            assert(count(Seq::<isize>::empty(), 0) == 0);
            assert forall|v: int| 0 <= v < self.traffic_light@.len() implies #[trigger] self.traffic_light@[v]
                == count(self.b@, v) by {
                assert(count(Seq::<isize>::empty(), v) == 0);
                assert(self.traffic_light@[v] + count(self.b@.subrange(hi, hi), v) == count(self.b@, v));
            }
        }
        Ok(())
    }

    /// Moves the agent to `v`, advancing the target pointer on an exact match.
    /// `g[u]` lists the neighbours of `u`.
    pub fn move_(&mut self, input: &Input, g: &Vec<Vec<usize>>, v: usize, k: usize) -> (r: Result<
        (),
        OpError,
    >)
        requires
            old(self).wf(input),
            old(self).op_cnt < MAX_OPERATION_CNT,
            v < input.n,
            neighbours(input, g),
        ensures
            r is Ok ==> final(self).wf(input) && final(self).op_cnt == old(self).op_cnt + 1,
            r is Ok ==> final(self).lights_agree(),
            r is Err ==> *final(self) == *old(self),
            match step(*input, old(self).a@, old(self).model(), Op::Move(v)) {
                Ok(m) => r is Ok && final(self).model() == m,
                Err(e) => r == Err::<(), OpError>(e),
            },
            final(self).a@ == old(self).a@,
    {
        if self.traffic_light[v] == 0 {
            return Err(OpError::NotGreen(v));
        }
        if !contains(&g[self.cur_v], v) {
            return Err(OpError::NotAdjacent(v, self.cur_v));
        }
        self.op_cnt = self.op_cnt + 1;
        if self.target_idx < input.t_sz && input.t[self.target_idx] == v {
            self.target_idx = self.target_idx + 1;
        }
        self.cur_v = v;
        self.visited.push(v);
        if self.visited.len() > k {
            self.visited.remove(0);
        }
        Ok(())
    }
}

/// `g[u]` holds exactly the neighbours of `u`, for every vertex `u`.
pub open spec fn neighbours(input: &Input, g: &Vec<Vec<usize>>) -> bool {
    &&& g@.len() == input.n
    &&& forall|u: int, w: usize|
        0 <= u < input.n ==> (#[trigger] g@[u]@.contains(w) <==> input.adjacent(u, w as int))
}

proof fn lemma_no_light(b: Seq<isize>, v: int)
    requires
        v >= 0,
        forall|i: int| 0 <= i < b.len() ==> b[i] == -1,
    ensures
        count(b, v) == 0,
    decreases b.len(),
{
    if b.len() > 0 {
        lemma_no_light(b.drop_last(), v);
    }
}

fn contains(xs: &Vec<usize>, v: usize) -> (r: bool)
    ensures
        r == xs@.contains(v),
{
    let mut i: usize = 0;
    while i < xs.len()
        invariant
            0 <= i <= xs@.len(),
            forall|j: int| 0 <= j < i ==> xs@[j] != v,
        decreases xs@.len() - i,
    {
        if xs[i] == v {
            return true;
        }
        i = i + 1;
    }
    false
}

/// The score of a successful run.
#[derive(Clone, Copy, Debug)]
pub struct JudgeResult {
    pub score: usize,
}

/// Why a program was rejected by the judge.
#[derive(Clone, Debug, PartialEq, Eq)]
pub enum JudgeError {
    /// The instance text is malformed.
    Input(ParseError),
    /// The program text is malformed.
    Output(ParseError),
    /// The operation with this 1-based index failed.
    Op(usize, OpError),
    /// The program has more operations than allowed.
    TooManyOperations,
    /// The program ended before every target was visited.
    TargetsLeft,
}

/// A snapshot of the state for display, with the annotations that led to it.
#[derive(Clone, Debug)]
pub struct VisData {
    pub state: State,
    pub initial_comments: Option<Vec<String>>,
    pub commented_op: Option<CommentedOp>,
}

/// The operations of a program, without their annotations.
pub open spec fn ops_of(output: Output) -> Seq<Op> {
    output.commented_ops@.map_values(|c: CommentedOp| c.op)
}

/// Every operation of the program moves to a vertex of the instance.
pub open spec fn moves_in_range(input: Input, ops: Seq<Op>) -> bool {
    forall|i: int|
        0 <= i < ops.len() ==> match #[trigger] ops[i] {
            Op::Move(v) => v < input.n,
            _ => true,
        }
}

/// The judge's verdict on a program: the 1-based index and error of the first
/// failing operation, too many operations, unvisited targets, or the score.
pub open spec fn outcome(input: Input, a: Seq<usize>, ops: Seq<Op>) -> Result<nat, JudgeError> {
    let cut = if ops.len() > MAX_OPERATION_CNT {
        MAX_OPERATION_CNT as int
    } else {
        ops.len() as int
    };
    match run(input, a, ops.take(cut)) {
        Err((i, e)) => Err(JudgeError::Op((i + 1) as usize, e)),
        Ok(m) => if ops.len() > MAX_OPERATION_CNT {
            Err(JudgeError::TooManyOperations)
        } else if m.target_idx != input.t_sz {
            Err(JudgeError::TargetsLeft)
        } else {
            Ok(m.score)
        },
    }
}

/// How many operations of `ops` run successfully: all up to the first
/// failing one, and at most `MAX_OPERATION_CNT`.
pub open spec fn executed(input: Input, a: Seq<usize>, ops: Seq<Op>) -> nat {
    let cut = if ops.len() > MAX_OPERATION_CNT {
        MAX_OPERATION_CNT as int
    } else {
        ops.len() as int
    };
    match run(input, a, ops.take(cut)) {
        Err((i, _)) => i,
        Ok(_) => cut as nat,
    }
}

/// `new_vis` is `old_vis` followed by the state after initialisation and
/// after each operation that ran: each with the model that `run` gives for
/// its prefix and lights that agree with its buffer.
pub open spec fn traced(input: Input, a: Seq<usize>, ops: Seq<Op>, old_vis: Seq<VisData>, new_vis: Seq<VisData>) -> bool {
    let l = old_vis.len();
    &&& new_vis.len() == l + 1 + executed(input, a, ops)
    &&& forall|j: int| 0 <= j < l ==> #[trigger] new_vis[j] == old_vis[j]
    &&& forall|j: int|
        0 <= j <= executed(input, a, ops) ==> {
            &&& run(input, a, ops.take(j)) == Ok::<Model, (nat, OpError)>(#[trigger] new_vis[l + j].state.model())
            &&& new_vis[l + j].state.lights_agree()
            &&& new_vis[l + j].state.traffic_light@.len() == input.n
        }
}

/// A failure in a prefix of the operations is the failure of every longer prefix.
pub proof fn lemma_run_err_extends(input: Input, a: Seq<usize>, ops: Seq<Op>, j: int, k: int)
    requires
        0 <= j <= k <= ops.len(),
        run(input, a, ops.take(j)) is Err,
    ensures
        run(input, a, ops.take(k)) == run(input, a, ops.take(j)),
    decreases k - j,
{
    if j < k {
        lemma_run_err_extends(input, a, ops, j, k - 1);
        assert(ops.take(k).drop_last() =~= ops.take(k - 1));
    }
}

proof fn lemma_push_contains(s: Seq<usize>, e: usize, w: usize)
    ensures
        s.push(e).contains(w) <==> s.contains(w) || e == w,
{
    if s.contains(w) {
        let k = choose|k: int| 0 <= k < s.len() && s[k] == w;
        assert(s.push(e)[k] == w);
    }
    if e == w {
        assert(s.push(e)[s.len() as int] == w);
    }
    if s.push(e).contains(w) {
        let k = choose|k: int| 0 <= k < s.len() + 1 && s.push(e)[k] == w;
        if k < s.len() {
            assert(s[k] == w);
        }
    }
}

/// Builds the neighbour lists of the instance's graph.
pub fn build_graph(input: &Input) -> (g: Vec<Vec<usize>>)
    requires
        input.wf(),
    ensures
        neighbours(input, &g),
{
    let mut g: Vec<Vec<usize>> = Vec::new();
    let mut u: usize = 0;
    while u < input.n
        invariant
            u <= input.n,
            g@.len() == u,
            forall|x: int| 0 <= x < u ==> #[trigger] g@[x]@.len() == 0,
        decreases input.n - u,
    {
        g.push(Vec::new());
        u = u + 1;
    }
    let mut j: usize = 0;
    while j < input.edges.len()
        invariant
            input.wf(),
            j <= input.edges@.len(),
            g@.len() == input.n,
            forall|x: int, w: usize|
                0 <= x < input.n ==> (#[trigger] g@[x]@.contains(w) <==> exists|jj: int|
                    0 <= jj < j && ((#[trigger] input.edges@[jj].0 == x && input.edges@[jj].1 == w)
                        || (input.edges@[jj].0 == w && input.edges@[jj].1 == x))),
        decreases input.edges@.len() - j,
    {
        let (a, b) = input.edges[j];
        let ghost g0 = g@;
        let mut la = g[a].clone();
        assert(la@ =~= g0[a as int]@);
        la.push(b);
        g.set(a, la);
        let ghost g1 = g@;
        let mut lb = g[b].clone();
        assert(lb@ =~= g1[b as int]@);
        lb.push(a);
        g.set(b, lb);
        proof {
            assert forall|x: int, w: usize| 0 <= x < input.n implies (#[trigger] g@[x]@.contains(w)
                <==> exists|jj: int|
                0 <= jj < j + 1 && ((#[trigger] input.edges@[jj].0 == x && input.edges@[jj].1 == w)
                    || (input.edges@[jj].0 == w && input.edges@[jj].1 == x))) by {
                let fresh = (a == x && b == w) || (b == x && a == w);
                let old_has = g0[x]@.contains(w);
                lemma_push_contains(g0[x]@, b, w);
                lemma_push_contains(g1[x]@, a, w);
                assert(g@[x]@.contains(w) <==> old_has || fresh);
                if fresh {
                    assert(input.edges@[j as int].0 == a);
                }
                if old_has || fresh {
                } else {
                    assert forall|jj: int| 0 <= jj < j + 1 implies !((#[trigger] input.edges@[jj].0
                        == x && input.edges@[jj].1 == w) || (input.edges@[jj].0 == w
                        && input.edges@[jj].1 == x)) by {
                        if jj < j {
                        }
                    }
                }
            }
        }
        j = j + 1;
    }
    g
}

/// Replays the program against the instance. Pushes the state after
/// initialisation and after each successful operation onto `vis_data_vec`;
/// `k` is how many of the last visited vertices a state keeps for display.
pub fn simulate(input: &Input, output: &Output, vis_data_vec: &mut Vec<VisData>, k: usize) -> (r:
    Result<JudgeResult, JudgeError>)
    requires
        input.wf(),
        0 < input.n <= isize::MAX,
        output.initial_a@.len() == input.al,
        forall|i: int| 0 <= i < output.initial_a@.len() ==> #[trigger] output.initial_a@[i] < input.n,
        moves_in_range(*input, ops_of(*output)),
    ensures
        match outcome(*input, output.initial_a@, ops_of(*output)) {
            Ok(score) => r is Ok && r->Ok_0.score == score,
            Err(e) => r == Err::<JudgeResult, JudgeError>(e),
        },
        traced(*input, output.initial_a@, ops_of(*output), old(vis_data_vec)@, final(vis_data_vec)@),
{
    let ghost l = vis_data_vec@.len();
    let g = build_graph(input);
    let mut state = State::new(input, output);
    vis_data_vec.push(
        VisData {
            state: state.snapshot(),
            initial_comments: Some(output.initial_comments.clone()),
            commented_op: None,
        },
    );
    proof {
        assert(ops_of(*output).take(0) =~= Seq::<Op>::empty());
    }
    let ghost ops = ops_of(*output);
    let ghost a = output.initial_a@;
    let mut i: usize = 0;
    while i < output.commented_ops.len()
        invariant
            input.wf(),
            neighbours(input, &g),
            i <= output.commented_ops@.len(),
            i <= MAX_OPERATION_CNT,
            ops == ops_of(*output),
            ops.len() == output.commented_ops@.len(),
            moves_in_range(*input, ops),
            state.wf(input),
            state.op_cnt == i,
            state.a@ == a,
            a == output.initial_a@,
            run(*input, a, ops.take(i as int)) == Ok::<Model, (nat, OpError)>(state.model()),
            vis_data_vec@.len() == l + 1 + i,
            l == old(vis_data_vec)@.len(),
            forall|j: int| 0 <= j < l ==> #[trigger] vis_data_vec@[j] == old(vis_data_vec)@[j],
            forall|j: int|
                0 <= j <= i ==> {
                    &&& run(*input, a, ops.take(j)) == Ok::<Model, (nat, OpError)>(
                        #[trigger] vis_data_vec@[l + j].state.model(),
                    )
                    &&& vis_data_vec@[l + j].state.lights_agree()
                    &&& vis_data_vec@[l + j].state.traffic_light@.len() == input.n
                },
        decreases output.commented_ops@.len() - i,
    {
        if i >= MAX_OPERATION_CNT {
            proof {
                assert(ops.take(i as int) =~= ops.take(MAX_OPERATION_CNT as int));
            }
            return Err(JudgeError::TooManyOperations);
        }
        let op = output.commented_ops[i].op;
        assert(op == ops[i as int]);
        let res = match op {
            Op::CopySignals(cs) => state.copy_signals(input, cs),
            Op::Move(v) => state.move_(input, &g, v, k),
        };
        proof {
            assert(ops.take(i + 1).drop_last() =~= ops.take(i as int));
        }
        match res {
            Err(e) => {
                proof {
                    let cut = if ops.len() > MAX_OPERATION_CNT {
                        MAX_OPERATION_CNT as int
                    } else {
                        ops.len() as int
                    };
                    lemma_run_err_extends(*input, a, ops, i + 1, cut);
                }
                return Err(JudgeError::Op(i + 1, e));
            },
            Ok(()) => {},
        }
        vis_data_vec.push(
            VisData {
                state: state.snapshot(),
                initial_comments: None,
                commented_op: Some(output.commented_ops[i].clone()),
            },
        );
        i = i + 1;
    }
    proof {
        assert(ops.take(i as int) =~= ops);
        assert(ops.take(ops.len() as int) =~= ops);
    }
    if state.target_idx != input.t_sz {
        return Err(JudgeError::TargetsLeft);
    }
    Ok(JudgeResult { score: state.score })
}

/// Number of copy operations in `ops`.
pub open spec fn copies(ops: Seq<Op>) -> nat
    decreases ops.len(),
{
    if ops.len() == 0 {
        0
    } else {
        copies(ops.drop_last()) + if ops.last() is CopySignals {
            1nat
        } else {
            0nat
        }
    }
}

/// A move succeeds exactly when its vertex is green and adjacent to the
/// current vertex.
pub proof fn lemma_move_succeeds_iff(input: Input, a: Seq<usize>, s: Model, v: usize)
    ensures
        step(input, a, s, Op::Move(v)) is Ok <==> count(s.b, v as int) > 0 && input.adjacent(
            s.cur_v as int,
            v as int,
        ),
{
}

/// A successful operation advances the target pointer by one exactly when it
/// is a move onto the current target, and leaves it alone otherwise.
pub proof fn lemma_target_step(input: Input, a: Seq<usize>, s: Model, op: Op)
    requires
        step(input, a, s, op) is Ok,
    ensures
        step(input, a, s, op)->Ok_0.target_idx == s.target_idx + match op {
            Op::Move(v) => if s.target_idx < input.t_sz && input.t@[s.target_idx as int] == v {
                1int
            } else {
                0int
            },
            Op::CopySignals(_) => 0int,
        },
{
}

/// Along a successful run the target pointer never goes back.
pub proof fn lemma_target_monotone(input: Input, a: Seq<usize>, ops: Seq<Op>, i: int, j: int)
    requires
        0 <= i <= j <= ops.len(),
        run(input, a, ops.take(j)) is Ok,
    ensures
        run(input, a, ops.take(i)) is Ok,
        run(input, a, ops.take(i))->Ok_0.target_idx <= run(input, a, ops.take(j))->Ok_0.target_idx,
    decreases j - i,
{
    if i < j {
        assert(ops.take(j).drop_last() =~= ops.take(j - 1));
        lemma_target_monotone(input, a, ops, i, j - 1);
        let s = run(input, a, ops.take(j - 1))->Ok_0;
        lemma_target_step(input, a, s, ops[j - 1]);
    }
}

/// The score of a successful run is the number of its copy operations; moves
/// never change it.
pub proof fn lemma_score_counts_copies(input: Input, a: Seq<usize>, ops: Seq<Op>)
    requires
        run(input, a, ops) is Ok,
    ensures
        run(input, a, ops)->Ok_0.score == copies(ops),
    decreases ops.len(),
{
    if ops.len() > 0 {
        lemma_score_counts_copies(input, a, ops.drop_last());
    }
}

} // verus!
