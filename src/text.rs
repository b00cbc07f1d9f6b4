//! The text form of instances: whitespace-separated decimal tokens.
use vstd::prelude::*;
use vstd::string::StringSliceAdditionalSpecFns;
use crate::geometry::{COORD_MAX, COORD_MIN};
use crate::instance::Input;

verus! {

/// The value a parse error is about.
#[derive(Clone, Copy, Debug, PartialEq, Eq)]
pub enum Field {
    N,
    M,
    T,
    LA,
    LB,
    U(usize),
    V(usize),
    Target(usize),
    X(usize),
    Y(usize),
    /// The initial palette line.
    Palette,
    /// The letter that names an operation.
    OpType,
    /// The length of a copy.
    Len,
    /// The palette start of a copy.
    PA,
    /// The buffer start of a copy.
    PB,
    /// The vertex of a move.
    Vertex,
}

/// What is wrong with a field.
#[derive(Clone, Copy, Debug, PartialEq, Eq)]
pub enum ErrKind {
    UnexpectedEof,
    NotANumber,
    OutOfRange,
    TooManyTokens,
    UnknownOp,
}

/// Why a text could not be read. `line` is the 1-based line of a program
/// text, and 0 for an instance text.
#[derive(Clone, Copy, Debug, PartialEq, Eq)]
pub struct ParseError {
    pub line: usize,
    pub field: Field,
    pub kind: ErrKind,
}

/// ASCII whitespace: space, tab, line feed, vertical tab, form feed, carriage return.
pub open spec fn is_space(b: u8) -> bool {
    b == 32 || (9 <= b <= 13)
}

/// The maximal runs of non-whitespace bytes of `s`, in order.
pub open spec fn tokens(s: Seq<u8>) -> Seq<Seq<u8>>
    decreases s.len(),
{
    if s.len() == 0 {
        Seq::empty()
    } else {
        let t = tokens(s.drop_last());
        let c = s.last();
        if is_space(c) {
            t
        } else if s.len() >= 2 && !is_space(s[s.len() - 2]) {
            t.drop_last().push(t.last().push(c))
        } else {
            t.push(seq![c])
        }
    }
}

/// The bytes of `s` that a span covers.
pub open spec fn span_text(s: Seq<u8>, sp: (usize, usize)) -> Seq<u8> {
    s.subrange(sp.0 as int, sp.1 as int)
}

/// Splits `s` into its tokens, given as spans of `s`.
pub fn split_tokens(s: &[u8]) -> (r: Vec<(usize, usize)>)
    ensures
        forall|k: int| #![trigger r@[k]] 0 <= k < r@.len() ==> r@[k].0 <= r@[k].1 && r@[k].1 <= s@.len(),
        r@.len() == tokens(s@).len(),
        forall|k: int| 0 <= k < r@.len() ==> #[trigger] span_text(s@, r@[k]) == tokens(s@)[k],
{
    let r = split_tokens_in(s, 0, s.len());
    assert(s@.subrange(0, s@.len() as int) =~= s@);
    r
}

/// Splits `s[lo..hi]` into its tokens, given as spans of `s`.
pub fn split_tokens_in(s: &[u8], lo: usize, hi: usize) -> (r: Vec<(usize, usize)>)
    requires
        lo <= hi <= s@.len(),
    ensures
        forall|k: int| #![trigger r@[k]] 0 <= k < r@.len() ==> lo <= r@[k].0 < r@[k].1 && r@[k].1 <= hi,
        r@.len() == tokens(s@.subrange(lo as int, hi as int)).len(),
        forall|k: int|
            0 <= k < r@.len() ==> #[trigger] span_text(s@, r@[k]) == tokens(
                s@.subrange(lo as int, hi as int),
            )[k],
{
    let mut r: Vec<(usize, usize)> = Vec::new();
    let mut i: usize = lo;
    while i < hi
        invariant
            lo <= i <= hi <= s@.len(),
            forall|k: int| #![trigger r@[k]] 0 <= k < r@.len() ==> lo <= r@[k].0 < r@[k].1 && r@[k].1 <= i,
            r@.len() == tokens(s@.subrange(lo as int, i as int)).len(),
            forall|k: int|
                0 <= k < r@.len() ==> #[trigger] span_text(s@, r@[k]) == tokens(
                    s@.subrange(lo as int, i as int),
                )[k],
            i > lo && !is_space(s@[i - 1]) ==> r@.len() >= 1 && r@.last().1 == i,
        decreases hi - i,
    {
        let c = s[i];
        let ghost r_before = r@;
        let ghost pre = s@.subrange(lo as int, i as int);
        let ghost cur = s@.subrange(lo as int, i + 1);
        proof {
            assert(cur.drop_last() =~= pre);
        }
        if c == 32 || (9 <= c && c <= 13) {
        } else if i > lo && !(s[i - 1] == 32 || (9 <= s[i - 1] && s[i - 1] <= 13)) {
            let last = r.len() - 1;
            let (a, _) = r[last];
            let ghost r0 = r@;
            r.set(last, (a, i + 1));
            proof {
                assert(cur[cur.len() - 2] == s@[i - 1]);
                assert forall|k: int| 0 <= k < r@.len() implies #[trigger] span_text(s@, r@[k])
                    == tokens(cur)[k] by {
                    if k == last {
                        assert(span_text(s@, r@[k]) =~= span_text(s@, r0[k]).push(c));
                    }
                }
            }
        } else {
            r.push((i, i + 1));
            proof {
                if i > lo {
                    assert(cur[cur.len() - 2] == s@[i - 1]);
                }
                assert forall|k: int| 0 <= k < r@.len() implies #[trigger] span_text(s@, r@[k])
                    == tokens(cur)[k] by {
                    if k == r@.len() - 1 {
                        assert(span_text(s@, r@[k]) =~= seq![c]);
                    }
                }
            }
        }
        proof {
            assert forall|k: int| #![trigger r@[k]] 0 <= k < r@.len() implies lo <= r@[k].0 < r@[k].1
                && r@[k].1 <= i + 1 by {
                if k < r_before.len() {
                    let x = r_before[k];
                    assert(lo <= x.0 < x.1 && x.1 <= i);
                }
            }
        }
        i = i + 1;
    }
    r
}

/// `t` is a non-empty run of decimal digits.
pub open spec fn all_digits(t: Seq<u8>) -> bool {
    t.len() >= 1 && forall|k: int| 0 <= k < t.len() ==> 48 <= #[trigger] t[k] <= 57
}

/// The value of a run of decimal digits.
pub open spec fn digits_value(t: Seq<u8>) -> nat
    decreases t.len(),
{
    if t.len() == 0 {
        0
    } else {
        digits_value(t.drop_last()) * 10 + (t.last() - 48) as nat
    }
}

/// The number a token stands for: decimal digits with an optional leading `+`.
pub open spec fn num_of(t: Seq<u8>) -> Option<nat> {
    if all_digits(t) {
        Some(digits_value(t))
    } else if t.len() >= 2 && t[0] == 43 && all_digits(t.skip(1)) {
        Some(digits_value(t.skip(1)))
    } else {
        None
    }
}

proof fn lemma_digits_grow(t: Seq<u8>, k: int)
    requires
        0 <= k <= t.len(),
        forall|j: int| 0 <= j < t.len() ==> 48 <= #[trigger] t[j] <= 57,
    ensures
        digits_value(t.take(k)) <= digits_value(t),
    decreases t.len() - k,
{
    if k < t.len() {
        lemma_digits_grow(t, k + 1);
        assert(t.take(k + 1).drop_last() =~= t.take(k));
    } else {
        assert(t.take(k) =~= t);
    }
}

/// What reading a token as a number in `[lo, hi]` gives: its value, or why not.
pub open spec fn check_num(t: Seq<u8>, lo: int, hi: int) -> Result<nat, ErrKind> {
    match num_of(t) {
        None => Err(ErrKind::NotANumber),
        Some(v) => if lo <= v <= hi {
            Ok(v)
        } else {
            Err(ErrKind::OutOfRange)
        },
    }
}

/// Reads token `s[a..b]` as a number in `[lo, hi]`.
pub(crate) fn read_span(s: &[u8], a: usize, b: usize, lo: u64, hi: u64) -> (r: Result<u64, ErrKind>)
    requires
        a <= b <= s@.len(),
    ensures
        match check_num(s@.subrange(a as int, b as int), lo as int, hi as int) {
            Ok(v) => r == Ok::<u64, ErrKind>(v as u64),
            Err(k) => r == Err::<u64, ErrKind>(k),
        },
{
    let ghost t = s@.subrange(a as int, b as int);
    let mut i = a;
    if b - a >= 2 && s[a] == 43 {
        i = a + 1;
    }
    let ghost d = s@.subrange(i as int, b as int);
    proof {
        if i == a + 1 {
            assert(d =~= t.skip(1));
            assert(t[0] == 43);
            assert(!all_digits(t));
        } else {
            assert(d =~= t);
        }
    }
    if i == b {
        return Err(ErrKind::NotANumber);
    }
    let start = i;
    let mut v: u64 = 0;
    let mut big = false;
    let ghost mut kb: int = 0;
    while i < b
        invariant
            start <= i <= b <= s@.len(),
            start < b,
            d == s@.subrange(start as int, b as int),
            t == s@.subrange(a as int, b as int),
            (start == a && d == t && !(t.len() >= 2 && t[0] == 43)) || (start == a + 1 && d == t.skip(1)
                && t[0] == 43 && t.len() >= 2),
            forall|j: int| start <= j < i ==> 48 <= #[trigger] s@[j] <= 57,
            !big ==> v <= hi && v == digits_value(s@.subrange(start as int, i as int)),
            big ==> start < kb <= i && digits_value(s@.subrange(start as int, kb)) > hi,
        decreases b - i,
    {
        let c = s[i];
        if c < 48 || c > 57 {
            proof {
                assert(d[i - start] == c);
            }
            return Err(ErrKind::NotANumber);
        }
        let dg = (c - 48) as u64;
        proof {
            assert(s@.subrange(start as int, i + 1).drop_last() =~= s@.subrange(start as int, i as int));
        }
        if !big {
            if dg > hi || v > (hi - dg) / 10 {
                big = true;
                proof {
                    kb = i + 1;
                    assert(v * 10 + dg > hi) by (nonlinear_arith)
                        requires
                            dg > hi || v > (hi - dg) / 10,
                            dg <= 9,
                    ;
                }
            } else {
                proof {
                    assert(v * 10 + dg <= hi) by (nonlinear_arith)
                        requires
                            dg <= hi,
                            v <= (hi - dg) / 10,
                    ;
                }
                v = v * 10 + dg;
            }
        }
        i = i + 1;
    }
    proof {
        assert(s@.subrange(start as int, i as int) =~= d);
        assert(all_digits(d));
        if big {
            assert(d.take(kb - start) =~= s@.subrange(start as int, kb));
            lemma_digits_grow(d, kb - start);
        }
    }
    if big || v < lo {
        return Err(ErrKind::OutOfRange);
    }
    Ok(v)
}


/// The numbers of an instance in the order of its text form: the header
/// `n m t_sz al bl`, the edges, the targets, then the coordinates.
pub open spec fn numbers(inp: Input) -> Seq<int> {
    seq![inp.n as int, inp.m as int, inp.t_sz as int, inp.al as int, inp.bl as int] + Seq::new(
        2 * inp.edges@.len(),
        |k: int|
            if k % 2 == 0 {
                inp.edges@[k / 2].0 as int
            } else {
                inp.edges@[k / 2].1 as int
            },
    ) + inp.t@.map_values(|v: usize| v as int) + Seq::new(
        2 * inp.coordinates@.len(),
        |k: int|
            if k % 2 == 0 {
                inp.coordinates@[k / 2].0 as int
            } else {
                inp.coordinates@[k / 2].1 as int
            },
    )
}

/// The first tokens of `s` are the numbers of `inp`.
pub open spec fn prefix_matches(s: Seq<u8>, inp: Input) -> bool {
    let toks = tokens(s);
    let nums = numbers(inp);
    &&& nums.len() <= toks.len()
    &&& forall|k: int| 0 <= k < nums.len() ==> num_of(#[trigger] toks[k]) == Some(nums[k] as nat)
}

/// The ranges that the instance text demands beyond well-formedness. Vertex
/// ids are kept as `isize` in the buffer, so they fit it.
pub open spec fn parse_valid(inp: Input) -> bool {
    &&& inp.wf()
    &&& 1 <= inp.n <= isize::MAX
    &&& inp.n - 1 <= inp.m <= inp.n * (inp.n - 1)
}

/// The number of token `k` of `s`, if there is such a token.
pub open spec fn token_num(s: Seq<u8>, k: int) -> Option<nat> {
    if 0 <= k < tokens(s).len() {
        num_of(tokens(s)[k])
    } else {
        None
    }
}

/// Some instance that the text form allows has its numbers at the start of `s`.
pub open spec fn owed(s: Seq<u8>) -> bool {
    exists|w: Input| parse_valid(w) && prefix_matches(s, w)
}

proof fn lemma_numbers_index(w: Input)
    requires
        w.wf(),
    ensures
        numbers(w).len() == 5 + 2 * w.m + w.t_sz + 2 * w.n,
        numbers(w)[0] == w.n && numbers(w)[1] == w.m && numbers(w)[2] == w.t_sz,
        numbers(w)[3] == w.al && numbers(w)[4] == w.bl,
        forall|j: int|
            0 <= j < w.m ==> numbers(w)[5 + 2 * j] == #[trigger] w.edges@[j].0 && numbers(w)[6 + 2
                * j] == w.edges@[j].1,
        forall|j: int| 0 <= j < w.t_sz ==> numbers(w)[5 + 2 * w.m + j] == #[trigger] w.t@[j],
        forall|j: int|
            0 <= j < w.n ==> numbers(w)[5 + 2 * w.m + w.t_sz + 2 * j] == #[trigger] w.coordinates@[j].0
                && numbers(w)[5 + 2 * w.m + w.t_sz + 2 * j + 1] == w.coordinates@[j].1,
{
    let nums = numbers(w);
    assert forall|j: int| 0 <= j < w.m implies nums[5 + 2 * j] == #[trigger] w.edges@[j].0 && nums[6
        + 2 * j] == w.edges@[j].1 by {
        assert((2 * j) / 2 == j && (2 * j) % 2 == 0);
        assert((2 * j + 1) / 2 == j && (2 * j + 1) % 2 == 1);
    }
    assert forall|j: int|
        0 <= j < w.n implies nums[5 + 2 * w.m + w.t_sz + 2 * j] == #[trigger] w.coordinates@[j].0
        && nums[5 + 2 * w.m + w.t_sz + 2 * j + 1] == w.coordinates@[j].1 by {
        assert((2 * j) / 2 == j && (2 * j) % 2 == 0);
        assert((2 * j + 1) / 2 == j && (2 * j + 1) % 2 == 1);
    }
}

proof fn lemma_owed_at(s: Seq<u8>, w: Input, pos: int)
    requires
        prefix_matches(s, w),
        0 <= pos < numbers(w).len(),
    ensures
        token_num(s, pos) == Some(numbers(w)[pos] as nat),
{
    assert(num_of(tokens(s)[pos]) == Some(numbers(w)[pos] as nat));
}

/// `spans` are the spans of the tokens of `s`, in order.
pub open spec fn spans_ok(s: Seq<u8>, spans: Seq<(usize, usize)>) -> bool {
    &&& spans.len() == tokens(s).len()
    &&& forall|k: int| #![trigger spans[k]] 0 <= k < spans.len() ==> spans[k].0 <= spans[k].1 && spans[k].1 <= s.len()
    &&& forall|k: int| 0 <= k < spans.len() ==> #[trigger] span_text(s, spans[k]) == tokens(s)[k]
}

/// Token `pos` of `s` is a number in `[lo, hi]`.
pub open spec fn token_in(s: Seq<u8>, pos: int, lo: int, hi: int) -> bool {
    token_num(s, pos) matches Some(v) && lo <= v <= hi
}

/// What reading token `pos` of `s` as a number in `[lo, hi]` gives.
pub open spec fn field_check(s: Seq<u8>, pos: int, lo: int, hi: int) -> Result<nat, ErrKind> {
    if 0 <= pos < tokens(s).len() {
        check_num(tokens(s)[pos], lo, hi)
    } else {
        Err(ErrKind::UnexpectedEof)
    }
}

/// The value of header token `k` of an instance text.
pub open spec fn header(s: Seq<u8>, k: int) -> int {
    token_num(s, k)->Some_0 as int
}

/// The largest edge count for `n` vertices: `n (n - 1)`, at most `usize::MAX`.
pub open spec fn max_edges(n: int) -> int {
    if n * (n - 1) > usize::MAX {
        usize::MAX as int
    } else {
        n * (n - 1)
    }
}

/// Where a field of an instance text stands, and its range: the token
/// position, the least and the largest value. Later fields are placed by the
/// header values.
pub open spec fn field_spot(s: Seq<u8>, f: Field) -> (int, int, int) {
    let n = header(s, 0);
    let m = header(s, 1);
    let t = header(s, 2);
    match f {
        Field::N => (0, 1, isize::MAX as int),
        Field::M => (1, n - 1, max_edges(n)),
        Field::T => (2, 0, usize::MAX as int),
        Field::LA => (3, 0, usize::MAX as int),
        Field::LB => (4, 0, usize::MAX as int),
        Field::U(i) => (5 + 2 * i, 0, n - 1),
        Field::V(i) => (6 + 2 * i, 0, n - 1),
        Field::Target(i) => (5 + 2 * m + i, 0, n - 1),
        Field::X(i) => (5 + 2 * m + t + 2 * i, 0, 1000),
        Field::Y(i) => (5 + 2 * m + t + 2 * i + 1, 0, 1000),
        _ => (-1, 0, -1),
    }
}

/// The error names a field of the instance text and what is wrong with it.
pub open spec fn input_err(s: Seq<u8>, e: ParseError) -> bool {
    let spot = field_spot(s, e.field);
    &&& e.line == 0
    &&& 0 <= spot.0
    &&& field_check(s, spot.0, spot.1, spot.2) == Err::<nat, ErrKind>(e.kind)
}

fn read_field(s: &[u8], spans: &Vec<(usize, usize)>, pos: usize, lo: usize, hi: usize, line: usize, field: Field) -> (r: Result<usize, ParseError>)
    requires
        spans_ok(s@, spans@),
    ensures
        match field_check(s@, pos as int, lo as int, hi as int) {
            Ok(v) => r == Ok::<usize, ParseError>(v as usize),
            Err(k) => r == Err::<usize, ParseError>(ParseError { line, field, kind: k }),
        },
        r is Ok ==> pos < spans@.len(),
        match token_num(s@, pos as int) {
            Some(v) => if lo <= v <= hi {
                r == Ok::<usize, ParseError>(v as usize)
            } else {
                r is Err
            },
            None => r is Err,
        },
{
    if pos >= spans.len() {
        return Err(ParseError { line, field, kind: ErrKind::UnexpectedEof });
    }
    let (a, b) = spans[pos];
    assert(span_text(s@, spans@[pos as int]) == tokens(s@)[pos as int]);
    match read_span(s, a, b, lo as u64, hi as u64) {
        Ok(v) => Ok(v as usize),
        Err(kind) => Err(ParseError { line, field, kind }),
    }
}

fn read_edges(s: &[u8], spans: &Vec<(usize, usize)>, n: usize, m: usize) -> (r: Result<Vec<(usize, usize)>, ParseError>)
    requires
        1 <= n,
        5 <= spans@.len(),
        spans_ok(s@, spans@),
    ensures
        r matches Ok(e) ==> 5 + 2 * m <= spans@.len() && e@.len() == m && forall|j: int|
            0 <= j < m ==> #[trigger] e@[j].0 < n && e@[j].1 < n && token_num(s@, 5 + 2 * j) == Some(
                e@[j].0 as nat,
            ) && token_num(s@, 6 + 2 * j) == Some(e@[j].1 as nat),
        (forall|j: int|
            0 <= j < m ==> #[trigger] token_in(s@, 5 + 2 * j, 0, n - 1) && token_in(s@, 6 + 2 * j, 0, n - 1))
            ==> r is Ok,
        r matches Err(e) ==> e.line == 0 && match e.field {
            Field::U(i) => i < m && field_check(s@, 5 + 2 * i, 0, n - 1) == Err::<nat, ErrKind>(e.kind),
            Field::V(i) => i < m && field_check(s@, 6 + 2 * i, 0, n - 1) == Err::<nat, ErrKind>(e.kind),
            _ => false,
        },
{
    let mut edges: Vec<(usize, usize)> = Vec::new();
    let total = spans.len();
    let mut i: usize = 0;
    while i < m
        invariant
            total == spans@.len(),
            i <= m,
            1 <= n,
            5 + 2 * i <= spans@.len(),
            spans_ok(s@, spans@),
            edges@.len() == i,
            forall|j: int|
                0 <= j < i ==> #[trigger] edges@[j].0 < n && edges@[j].1 < n && token_num(s@, 5 + 2 * j)
                    == Some(edges@[j].0 as nat) && token_num(s@, 6 + 2 * j) == Some(edges@[j].1 as nat),
        decreases m - i,
    {
        let u = match read_field(s, spans, 5 + 2 * i, 0, n - 1, 0, Field::U(i)) {
            Ok(v) => v,
            Err(e) => {
                proof {
                    if forall|j: int|
                        0 <= j < m ==> #[trigger] token_in(s@, 5 + 2 * j, 0, n - 1) && token_in(s@, 6 + 2 * j, 0, n - 1) {
                        assert(token_in(s@, 5 + 2 * i, 0, n - 1));
                    }
                }
                return Err(e);
            },
        };
        let v = match read_field(s, spans, 6 + 2 * i, 0, n - 1, 0, Field::V(i)) {
            Ok(v) => v,
            Err(e) => {
                proof {
                    if forall|j: int|
                        0 <= j < m ==> #[trigger] token_in(s@, 5 + 2 * j, 0, n - 1) && token_in(s@, 6 + 2 * j, 0, n - 1) {
                        assert(token_in(s@, 5 + 2 * i, 0, n - 1));
                    }
                }
                return Err(e);
            },
        };
        edges.push((u, v));
        i = i + 1;
    }
    Ok(edges)
}

fn read_targets(s: &[u8], spans: &Vec<(usize, usize)>, n: usize, base: usize, t_sz: usize) -> (r: Result<Vec<usize>, ParseError>)
    requires
        1 <= n,
        base <= spans@.len(),
        spans_ok(s@, spans@),
    ensures
        r matches Ok(t) ==> base + t_sz <= spans@.len() && t@.len() == t_sz && forall|j: int|
            0 <= j < t_sz ==> #[trigger] t@[j] < n && token_num(s@, base + j) == Some(t@[j] as nat),
        (forall|j: int| 0 <= j < t_sz ==> #[trigger] token_in(s@, base + j, 0, n - 1)) ==> r is Ok,
        r matches Err(e) ==> e.line == 0 && match e.field {
            Field::Target(i) => i < t_sz && field_check(s@, base + i, 0, n - 1) == Err::<nat, ErrKind>(e.kind),
            _ => false,
        },
{
    let mut t: Vec<usize> = Vec::new();
    let total = spans.len();
    let mut i: usize = 0;
    while i < t_sz
        invariant
            total == spans@.len(),
            i <= t_sz,
            base + i <= spans@.len(),
            1 <= n,
            spans_ok(s@, spans@),
            t@.len() == i,
            forall|j: int| 0 <= j < i ==> #[trigger] t@[j] < n && token_num(s@, base + j) == Some(t@[j] as nat),
        decreases t_sz - i,
    {
        let x = match read_field(s, spans, base + i, 0, n - 1, 0, Field::Target(i)) {
            Ok(v) => v,
            Err(e) => {
                proof {
                    if forall|j: int| 0 <= j < t_sz ==> #[trigger] token_in(s@, base + j, 0, n - 1) {
                        assert(token_in(s@, base + i, 0, n - 1));
                    }
                }
                return Err(e);
            },
        };
        t.push(x);
        i = i + 1;
    }
    Ok(t)
}

fn read_coordinates(s: &[u8], spans: &Vec<(usize, usize)>, n: usize, base: usize) -> (r: Result<Vec<(i64, i64)>, ParseError>)
    requires
        base <= spans@.len(),
        spans_ok(s@, spans@),
    ensures
        r matches Ok(c) ==> c@.len() == n && forall|j: int|
            0 <= j < n ==> #[trigger] crate::geometry::in_box(c@[j]) && token_num(s@, base + 2 * j)
                == Some(c@[j].0 as nat) && token_num(s@, base + 2 * j + 1) == Some(c@[j].1 as nat),
        (forall|j: int|
            0 <= j < n ==> #[trigger] token_in(s@, base + 2 * j, 0, 1000) && token_in(s@, base + 2 * j + 1, 0, 1000))
            ==> r is Ok,
        r matches Err(e) ==> e.line == 0 && match e.field {
            Field::X(i) => i < n && field_check(s@, base + 2 * i, 0, 1000) == Err::<nat, ErrKind>(e.kind),
            Field::Y(i) => i < n && field_check(s@, base + 2 * i + 1, 0, 1000) == Err::<nat, ErrKind>(e.kind),
            _ => false,
        },
{
    let mut coordinates: Vec<(i64, i64)> = Vec::new();
    let total = spans.len();
    let mut i: usize = 0;
    while i < n
        invariant
            total == spans@.len(),
            i <= n,
            base + 2 * i <= spans@.len(),
            spans_ok(s@, spans@),
            coordinates@.len() == i,
            forall|j: int|
                0 <= j < i ==> #[trigger] crate::geometry::in_box(coordinates@[j]) && token_num(s@, base + 2 * j)
                    == Some(coordinates@[j].0 as nat) && token_num(s@, base + 2 * j + 1) == Some(
                    coordinates@[j].1 as nat,
                ),
        decreases n - i,
    {
        let x = match read_field(s, spans, base + 2 * i, COORD_MIN as usize, COORD_MAX as usize, 0, Field::X(i)) {
            Ok(v) => v,
            Err(e) => {
                proof {
                    if forall|j: int|
                        0 <= j < n ==> #[trigger] token_in(s@, base + 2 * j, 0, 1000) && token_in(s@, base + 2 * j + 1, 0, 1000) {
                        assert(token_in(s@, base + 2 * i, 0, 1000));
                    }
                }
                return Err(e);
            },
        };
        let y = match read_field(s, spans, base + 2 * i + 1, COORD_MIN as usize, COORD_MAX as usize, 0, Field::Y(i)) {
            Ok(v) => v,
            Err(e) => {
                proof {
                    if forall|j: int|
                        0 <= j < n ==> #[trigger] token_in(s@, base + 2 * j, 0, 1000) && token_in(s@, base + 2 * j + 1, 0, 1000) {
                        assert(token_in(s@, base + 2 * i, 0, 1000));
                    }
                }
                return Err(e);
            },
        };
        coordinates.push((x as i64, y as i64));
        i = i + 1;
    }
    Ok(coordinates)
}

proof fn lemma_owed_tokens(s: Seq<u8>, w: Input)
    requires
        parse_valid(w),
        prefix_matches(s, w),
    ensures
        forall|j: int|
            0 <= j < w.m ==> #[trigger] token_in(s, 5 + 2 * j, 0, w.n - 1) && token_in(s, 6 + 2 * j, 0, w.n - 1),
        forall|j: int| 0 <= j < w.t_sz ==> #[trigger] token_in(s, 5 + 2 * w.m + j, 0, w.n - 1),
        forall|j: int|
            0 <= j < w.n ==> #[trigger] token_in(s, 5 + 2 * w.m + w.t_sz + 2 * j, 0, 1000) && token_in(
                s,
                5 + 2 * w.m + w.t_sz + 2 * j + 1,
                0,
                1000,
            ),
{
    lemma_numbers_index(w);
    let base = 5 + 2 * w.m;
    let base2 = base + w.t_sz;
    assert forall|j: int| 0 <= j < w.m implies #[trigger] token_in(s, 5 + 2 * j, 0, w.n - 1) && token_in(
        s,
        6 + 2 * j,
        0,
        w.n - 1,
    ) by {
        assert(w.edges@[j].0 < w.n);
        lemma_owed_at(s, w, 5 + 2 * j);
        lemma_owed_at(s, w, 6 + 2 * j);
    }
    assert forall|j: int| 0 <= j < w.t_sz implies #[trigger] token_in(s, base + j, 0, w.n - 1) by {
        assert(w.t@[j] < w.n);
        lemma_owed_at(s, w, base + j);
    }
    assert forall|j: int| 0 <= j < w.n implies #[trigger] token_in(s, base2 + 2 * j, 0, 1000) && token_in(
        s,
        base2 + 2 * j + 1,
        0,
        1000,
    ) by {
        assert(crate::geometry::in_box(w.coordinates@[j]));
        lemma_owed_at(s, w, base2 + 2 * j);
        lemma_owed_at(s, w, base2 + 2 * j + 1);
    }
}

proof fn lemma_parsed_matches(s: Seq<u8>, inp: Input, base: int, base2: int)
    requires
        base == 5 + 2 * inp.m,
        base2 == base + inp.t_sz,
        1 <= inp.n <= isize::MAX,
        inp.n - 1 <= inp.m <= inp.n * (inp.n - 1),
        token_num(s, 0) == Some(inp.n as nat),
        token_num(s, 1) == Some(inp.m as nat),
        token_num(s, 2) == Some(inp.t_sz as nat),
        token_num(s, 3) == Some(inp.al as nat),
        token_num(s, 4) == Some(inp.bl as nat),
        inp.edges@.len() == inp.m && forall|j: int|
            0 <= j < inp.m ==> #[trigger] inp.edges@[j].0 < inp.n && inp.edges@[j].1 < inp.n && token_num(
                s,
                5 + 2 * j,
            ) == Some(inp.edges@[j].0 as nat) && token_num(s, 6 + 2 * j) == Some(inp.edges@[j].1 as nat),
        inp.t@.len() == inp.t_sz && forall|j: int|
            0 <= j < inp.t_sz ==> #[trigger] inp.t@[j] < inp.n && token_num(s, base + j) == Some(
                inp.t@[j] as nat,
            ),
        inp.coordinates@.len() == inp.n && forall|j: int|
            0 <= j < inp.n ==> #[trigger] crate::geometry::in_box(inp.coordinates@[j]) && token_num(
                s,
                base2 + 2 * j,
            ) == Some(inp.coordinates@[j].0 as nat) && token_num(s, base2 + 2 * j + 1)
                == Some(inp.coordinates@[j].1 as nat),
    ensures
        parse_valid(inp),
        prefix_matches(s, inp),
{
    let toks = tokens(s);
    let nums = numbers(inp);
    let n = inp.n as int;
    lemma_numbers_index(inp);
    assert(crate::geometry::in_box(inp.coordinates@[n - 1]));
    assert(token_num(s, base2 + 2 * (n - 1) + 1) is Some);
    assert forall|k: int| 0 <= k < nums.len() implies num_of(#[trigger] toks[k]) == Some(nums[k] as nat) by {
        if k < 5 {
        } else if k < base {
            let j = (k - 5) / 2;
            assert(token_num(s, 5 + 2 * j) == Some(inp.edges@[j].0 as nat));
        } else if k < base2 {
            assert(token_num(s, base + (k - base)) == Some(inp.t@[k - base] as nat));
        } else {
            let j = (k - base2) / 2;
            assert(crate::geometry::in_box(inp.coordinates@[j]));
        }
    }
}

/// Reads the header `n m t_sz al bl` of an instance text.
fn read_header(s: &[u8], spans: &Vec<(usize, usize)>) -> (r: Result<(usize, usize, usize, usize, usize), ParseError>)
    requires
        spans_ok(s@, spans@),
    ensures
        r matches Ok((n, m, t_sz, al, bl)) ==> {
            &&& 1 <= n <= isize::MAX
            &&& n - 1 <= m <= n * (n - 1)
            &&& 5 <= spans@.len()
            &&& token_num(s@, 0) == Some(n as nat)
            &&& token_num(s@, 1) == Some(m as nat)
            &&& token_num(s@, 2) == Some(t_sz as nat)
            &&& token_num(s@, 3) == Some(al as nat)
            &&& token_num(s@, 4) == Some(bl as nat)
        },
        owed(s@) ==> r is Ok,
        r matches Err(e) ==> input_err(s@, e),
{
    let ghost w = choose|w: Input| parse_valid(w) && prefix_matches(s@, w);
    proof {
        if owed(s@) {
            lemma_numbers_index(w);
            lemma_owed_at(s@, w, 0);
            lemma_owed_at(s@, w, 1);
            lemma_owed_at(s@, w, 2);
            lemma_owed_at(s@, w, 3);
            lemma_owed_at(s@, w, 4);
        }
    }
    let n = read_field(s, spans, 0, 1, isize::MAX as usize, 0, Field::N)?;
    proof {
        if n - 1 <= usize::MAX / n {
            assert(n * (n - 1) <= usize::MAX) by (nonlinear_arith)
                requires
                    n >= 1,
                    n - 1 <= usize::MAX / n,
            ;
        } else {
            assert(n * (n - 1) > usize::MAX) by (nonlinear_arith)
                requires
                    n >= 1,
                    n - 1 > usize::MAX / n,
            ;
        }
    }
    let m_hi = if n - 1 > usize::MAX / n {
        usize::MAX
    } else {
        n * (n - 1)
    };
    assert(m_hi == max_edges(n as int));
    let m = read_field(s, spans, 1, n - 1, m_hi, 0, Field::M)?;
    let t_sz = read_field(s, spans, 2, 0, usize::MAX, 0, Field::T)?;
    let al = read_field(s, spans, 3, 0, usize::MAX, 0, Field::LA)?;
    let bl = read_field(s, spans, 4, 0, usize::MAX, 0, Field::LB)?;
    Ok((n, m, t_sz, al, bl))
}

/// Reads an instance from its text form. Tokens after the instance are ignored.
pub fn parse_input_bytes(s: &[u8]) -> (r: Result<Input, ParseError>)
    ensures
        r matches Ok(inp) ==> parse_valid(inp) && prefix_matches(s@, inp),
        owed(s@) ==> r is Ok,
        r matches Err(e) ==> input_err(s@, e),
{
    let spans = split_tokens(s);
    let ghost w = choose|w: Input| parse_valid(w) && prefix_matches(s@, w);
    let (n, m, t_sz, al, bl) = read_header(s, &spans)?;
    proof {
        if owed(s@) {
            lemma_numbers_index(w);
            lemma_owed_at(s@, w, 0);
            lemma_owed_at(s@, w, 1);
            lemma_owed_at(s@, w, 2);
            lemma_owed_tokens(s@, w);
        }
    }
    let edges = read_edges(s, &spans, n, m)?;
    let total = spans.len();
    assert(5 + 2 * m <= total);
    let base = 5 + 2 * m;
    let t = read_targets(s, &spans, n, base, t_sz)?;
    let base2 = base + t_sz;
    let coordinates = read_coordinates(s, &spans, n, base2)?;
    let inp = Input { n, m, t_sz, al, bl, edges, t, coordinates };
    proof {
        lemma_parsed_matches(s@, inp, base as int, base2 as int);
    }
    Ok(inp)
}

/// Reads an instance from its text form.
pub fn parse_input(s: &str) -> (r: Result<Input, ParseError>)
    ensures
        r matches Ok(inp) ==> parse_valid(inp) && prefix_matches(s.spec_bytes(), inp),
        owed(s.spec_bytes()) ==> r is Ok,
        r matches Err(e) ==> input_err(s.spec_bytes(), e),
{
    parse_input_bytes(s.as_bytes())
}

/// The decimal digits of `v`, without leading zeros.
pub open spec fn dec(v: nat) -> Seq<u8>
    decreases v,
{
    if v < 10 {
        seq![(48 + v) as u8]
    } else {
        dec(v / 10).push((48 + v % 10) as u8)
    }
}

/// The numbers written in decimal, number `k` followed by the byte `seps[k]`.
pub open spec fn join(nums: Seq<int>, seps: Seq<u8>) -> Seq<u8>
    decreases nums.len(),
{
    if nums.len() == 0 || seps.len() < nums.len() {
        Seq::empty()
    } else {
        join(nums.drop_last(), seps.take(nums.len() - 1)) + dec(nums.last() as nat) + seq![
            seps[nums.len() - 1],
        ]
    }
}

/// The separator after number `k` of an instance's text form: a line break
/// ends the header, each edge, the target line and each coordinate pair.
pub open spec fn sep_at(inp: Input, k: int) -> u8 {
    let base = 5 + 2 * inp.m;
    let base2 = base + inp.t_sz;
    if k == 4 || (5 <= k < base && (k - 5) % 2 == 1) || (inp.t_sz > 0 && k == base2 - 1) || (
    base2 <= k && (k - base2) % 2 == 1) {
        10
    } else {
        32
    }
}

/// The text form of an instance.
pub open spec fn render(inp: Input) -> Seq<u8> {
    let nums = numbers(inp);
    join(nums, Seq::new(nums.len(), |k: int| sep_at(inp, k)))
}

proof fn lemma_dec_digits(v: nat)
    ensures
        all_digits(dec(v)),
        digits_value(dec(v)) == v,
        num_of(dec(v)) == Some(v),
    decreases v,
{
    let d = dec(v);
    if v < 10 {
        assert(d.drop_last() =~= Seq::<u8>::empty());
        assert(digits_value(Seq::<u8>::empty()) == 0);
    }
    if v >= 10 {
        lemma_dec_digits(v / 10);
        assert(d.drop_last() =~= dec(v / 10));
        assert(d.last() as int == 48 + v % 10);
        assert(v == (v / 10) * 10 + v % 10);
        assert forall|k: int| 0 <= k < d.len() implies 48 <= #[trigger] d[k] <= 57 by {
            if k < d.len() - 1 {
                assert(d[k] == dec(v / 10)[k]);
            }
        }
    }
}

/// Appending a word to a text that is empty or ends in whitespace adds that
/// word as one more token.
proof fn lemma_tokens_append_word(a: Seq<u8>, w: Seq<u8>)
    requires
        a.len() == 0 || is_space(a.last()),
        w.len() >= 1,
        forall|k: int| 0 <= k < w.len() ==> !is_space(#[trigger] w[k]),
    ensures
        tokens(a + w) == tokens(a).push(w),
    decreases w.len(),
{
    let x = a + w;
    assert(x.drop_last() =~= a + w.drop_last());
    assert(x.last() == w.last());
    if w.len() == 1 {
        assert(a + w.drop_last() =~= a);
        if a.len() > 0 {
            assert(x[x.len() - 2] == a.last());
        }
        assert(w =~= seq![w.last()]);
    } else {
        lemma_tokens_append_word(a, w.drop_last());
        assert(x[x.len() - 2] == w[w.len() - 2]);
        assert(w.drop_last().push(w.last()) =~= w);
    }
}

proof fn lemma_tokens_append_space(a: Seq<u8>, c: u8)
    requires
        is_space(c),
    ensures
        tokens(a + seq![c]) == tokens(a),
{
    assert((a + seq![c]).drop_last() =~= a);
}

/// The tokens of numbers written in decimal with whitespace separators are
/// their decimal forms.
pub proof fn lemma_join_tokens(nums: Seq<int>, seps: Seq<u8>)
    requires
        seps.len() == nums.len(),
        forall|k: int| 0 <= k < nums.len() ==> 0 <= #[trigger] nums[k],
        forall|k: int| 0 <= k < seps.len() ==> is_space(#[trigger] seps[k]),
    ensures
        tokens(join(nums, seps)) == nums.map_values(|v: int| dec(v as nat)),
        join(nums, seps).len() == 0 || is_space(join(nums, seps).last()),
    decreases nums.len(),
{
    if nums.len() == 0 {
        assert(nums.map_values(|v: int| dec(v as nat)) =~= Seq::<Seq<u8>>::empty());
    } else {
        let n0 = nums.drop_last();
        let s0 = seps.take(nums.len() - 1);
        lemma_join_tokens(n0, s0);
        let a = join(n0, s0);
        let w = dec(nums.last() as nat);
        lemma_dec_digits(nums.last() as nat);
        assert forall|k: int| 0 <= k < w.len() implies !is_space(#[trigger] w[k]) by {
            assert(48 <= w[k] <= 57);
        }
        lemma_tokens_append_word(a, w);
        lemma_tokens_append_space(a + w, seps[nums.len() - 1]);
        assert(nums.map_values(|v: int| dec(v as nat)) =~= n0.map_values(|v: int| dec(v as nat)).push(w));
    }
}

/// Writing a parsed instance back gives the same numbers: the tokens of its
/// text form are exactly its numbers, so reading that text is owed to
/// succeed, and each token has the value of the token at the same place in
/// the text the instance was read from.
pub proof fn lemma_round_trip(s: Seq<u8>, inp: Input)
    requires
        parse_valid(inp),
        prefix_matches(s, inp),
    ensures
        tokens(render(inp)).len() == numbers(inp).len(),
        prefix_matches(render(inp), inp),
        owed(render(inp)),
        forall|k: int|
            0 <= k < numbers(inp).len() ==> num_of(#[trigger] tokens(render(inp))[k]) == num_of(
                tokens(s)[k],
            ),
{
    let nums = numbers(inp);
    let seps = Seq::new(nums.len(), |k: int| sep_at(inp, k));
    assert forall|k: int| 0 <= k < nums.len() implies 0 <= #[trigger] nums[k] by {
        let base = 5 + 2 * inp.m;
        let base2 = base + inp.t_sz;
        if k >= base2 {
            let j = (k - base2) / 2;
            assert(crate::geometry::in_box(inp.coordinates@[j]));
        }
    }
    lemma_join_tokens(nums, seps);
    assert forall|k: int| 0 <= k < nums.len() implies num_of(#[trigger] tokens(render(inp))[k])
        == num_of(tokens(s)[k]) && num_of(tokens(render(inp))[k]) == Some(nums[k] as nat) by {
        lemma_dec_digits(nums[k] as nat);
    }
    assert(prefix_matches(render(inp), inp));
}

/// Appends the decimal digits of `v`.
fn push_decimal(out: &mut Vec<u8>, v: u64)
    ensures
        final(out)@ == old(out)@ + dec(v as nat),
    decreases v,
{
    if v >= 10 {
        push_decimal(out, v / 10);
    }
    out.push((48 + v % 10) as u8);
    proof {
        if v >= 10 {
            assert(old(out)@ + dec(v as nat) =~= old(out)@ + dec((v / 10) as nat) + seq![
                (48 + v % 10) as u8,
            ]);
        }
    }
}

/// Relies on std's `String::from_utf8`: ASCII bytes are valid UTF-8, one
/// character per byte. Bytes that are not UTF-8 give the empty string.
#[verifier::external_body]
pub(crate) fn utf8_string(bytes: Vec<u8>) -> (r: String)
    ensures
        (forall|k: int| 0 <= k < bytes@.len() ==> #[trigger] bytes@[k] < 128) ==> r@
            == bytes@.map_values(|b: u8| b as char),
{
    match String::from_utf8(bytes) {
        Ok(s) => s,
        Err(_) => String::new(),
    }
}

impl Input {
    /// The numbers of the instance in text order.
    pub fn numbers_vec(&self) -> (r: Vec<u64>)
        requires
            self.wf(),
            forall|k: int| 0 <= k < self.coordinates@.len() ==> crate::geometry::in_box(#[trigger] self.coordinates@[k]),
        ensures
            r@.len() == numbers(*self).len(),
            forall|k: int| 0 <= k < r@.len() ==> #[trigger] r@[k] as int == numbers(*self)[k],
    {
        let ghost nums = numbers(*self);
        let mut r: Vec<u64> = Vec::new();
        r.push(self.n as u64);
        r.push(self.m as u64);
        r.push(self.t_sz as u64);
        r.push(self.al as u64);
        r.push(self.bl as u64);
        let ghost base = 5 + 2 * self.m;
        let ghost base2 = base + self.t_sz;
        let mut i: usize = 0;
        while i < self.edges.len()
            invariant
                self.wf(),
                nums == numbers(*self),
                i <= self.edges@.len(),
                r@.len() == 5 + 2 * i,
                forall|k: int| 0 <= k < r@.len() ==> #[trigger] r@[k] as int == nums[k],
            decreases self.edges@.len() - i,
        {
            let (u, v) = self.edges[i];
            r.push(u as u64);
            r.push(v as u64);
            i = i + 1;
        }
        let mut i: usize = 0;
        while i < self.t.len()
            invariant
                self.wf(),
                nums == numbers(*self),
                i <= self.t@.len(),
                r@.len() == base + i,
                base == 5 + 2 * self.m,
                forall|k: int| 0 <= k < r@.len() ==> #[trigger] r@[k] as int == nums[k],
            decreases self.t@.len() - i,
        {
            r.push(self.t[i] as u64);
            i = i + 1;
        }
        let mut i: usize = 0;
        while i < self.coordinates.len()
            invariant
                self.wf(),
                nums == numbers(*self),
                i <= self.coordinates@.len(),
                r@.len() == base2 + 2 * i,
                base2 == 5 + 2 * self.m + self.t_sz,
                forall|k: int| 0 <= k < r@.len() ==> #[trigger] r@[k] as int == nums[k],
            decreases self.coordinates@.len() - i,
        {
            let (x, y) = self.coordinates[i];
            assert(crate::geometry::in_box(self.coordinates@[i as int]));
            r.push(x as u64);
            r.push(y as u64);
            i = i + 1;
        }
        r
    }

    /// The text form of the instance as bytes.
    pub fn to_bytes(&self) -> (r: Vec<u8>)
        requires
            self.wf(),
        ensures
            r@ == render(*self),
    {
        let nums = self.numbers_vec();
        let ghost gn = numbers(*self);
        let ghost seps = Seq::new(gn.len(), |k: int| sep_at(*self, k));
        assert(gn.len() == 5 + 2 * self.m + self.t_sz + 2 * self.n);
        let total = nums.len();
        assert(total == gn.len());
        let base = 5 + 2 * self.m;
        let base2 = base + self.t_sz;
        let mut out: Vec<u8> = Vec::new();
        let mut k: usize = 0;
        while k < nums.len()
            invariant
                k <= nums@.len(),
                nums@.len() == gn.len(),
                gn == numbers(*self),
                seps == Seq::new(gn.len(), |k: int| sep_at(*self, k)),
                base == 5 + 2 * self.m,
                base2 == base + self.t_sz,
                forall|j: int| 0 <= j < nums@.len() ==> #[trigger] nums@[j] as int == gn[j],
                out@ == join(gn.take(k as int), seps.take(k as int)),
            decreases nums@.len() - k,
        {
            push_decimal(&mut out, nums[k]);
            let sep: u8 = if k == 4 || (5 <= k && k < base && (k - 5) % 2 == 1) || (self.t_sz > 0 && k
                == base2 - 1) || (base2 <= k && (k - base2) % 2 == 1) {
                10
            } else {
                32
            };
            out.push(sep);
            proof {
                let n1 = gn.take(k + 1);
                let s1 = seps.take(k + 1);
                assert(n1.drop_last() =~= gn.take(k as int));
                assert(s1.take(k as int) =~= seps.take(k as int));
            }
            k = k + 1;
        }
        proof {
            assert(gn.take(k as int) =~= gn);
            assert(seps.take(k as int) =~= seps);
        }
        out
    }

    /// The text form of the instance.
    pub fn to_text(&self) -> (r: String)
        requires
            self.wf(),
        ensures
            r@ == render(*self).map_values(|b: u8| b as char),
    {
        let bytes = self.to_bytes();
        proof {
            lemma_render_ascii(*self);
        }
        utf8_string(bytes)
    }
}

proof fn lemma_join_ascii(nums: Seq<int>, seps: Seq<u8>)
    requires
        forall|k: int| 0 <= k < seps.len() ==> #[trigger] seps[k] < 128,
    ensures
        forall|k: int| 0 <= k < join(nums, seps).len() ==> #[trigger] join(nums, seps)[k] < 128,
    decreases nums.len(),
{
    if nums.len() > 0 && seps.len() >= nums.len() {
        lemma_join_ascii(nums.drop_last(), seps.take(nums.len() - 1));
        lemma_dec_digits(nums.last() as nat);
        let a = join(nums.drop_last(), seps.take(nums.len() - 1));
        let d = dec(nums.last() as nat);
        let j = join(nums, seps);
        assert forall|k: int| 0 <= k < j.len() implies #[trigger] j[k] < 128 by {
            if k < a.len() {
                assert(j[k] == a[k]);
            } else if k < a.len() + d.len() {
                assert(j[k] == d[k - a.len()]);
            }
        }
    }
}

proof fn lemma_render_ascii(inp: Input)
    ensures
        forall|k: int| 0 <= k < render(inp).len() ==> #[trigger] render(inp)[k] < 128,
{
    let nums = numbers(inp);
    lemma_join_ascii(nums, Seq::new(nums.len(), |k: int| sep_at(inp, k)));
}

} // verus!
