//! Seeded generation of instances: spread-out points, crossing-free edges,
//! a connectivity check and random thinning of the edges.
use vstd::prelude::*;
use rand::Rng;
use rand::seq::SliceRandom;
use rand_chacha::ChaCha20Rng;
use rand_chacha::rand_core::SeedableRng;
use crate::geometry::{Point, Segment, crosses, dist2, distance2, in_box, is_crossing, lemma_crosses_symmetric, COORD_MAX};
use crate::instance::Input;
use crate::union_find::{check_connectivity, connected, kept};

verus! {

/// Number of vertices of a generated instance.
pub const N: usize = 600;

/// Number of targets of a generated instance.
pub const T_SZ: usize = 600;

/// Smallest palette size.
pub const AL_LB: usize = 600;

/// Largest palette size.
pub const AL_UB: usize = 1200;

/// Smallest buffer size.
pub const BL_LB: usize = 4;

/// Buffer sizes stay below this.
pub const BL_UB: usize = 25;

/// Fixed-point scale of the square root drawn for the buffer size.
pub const SQRT_SCALE: u64 = 1048576;

/// Probabilities are drawn as fractions with this denominator.
pub const RATIO_DEN: u64 = 4294967296;

/// Default number of graph construction attempts.
pub const MAX_ATTEMPTS: usize = 1000;

/// Default number of point draws within one construction attempt.
pub const MAX_POINT_DRAWS: usize = 1000000;

#[verifier::external_type_specification]
#[verifier::external_body]
pub struct ExChaCha20Rng(ChaCha20Rng);

/// Relies on rand_chacha's `ChaCha20Rng::seed_from_u64`: a generator whose
/// stream is fixed by the seed.
#[verifier::external_body]
fn seeded_rng(seed: u64) -> ChaCha20Rng {
    ChaCha20Rng::seed_from_u64(seed)
}

/// Relies on rand's `Rng::gen_range` over `lo..=hi`: the value lies in the
/// range. It panics on an empty range, which `requires` leaves out.
#[verifier::external_body]
fn gen_range_inclusive(rng: &mut ChaCha20Rng, lo: u64, hi: u64) -> (r: u64)
    requires
        lo <= hi,
    ensures
        lo <= r <= hi,
{
    rng.gen_range(lo..=hi)
}

/// Relies on rand's `SliceRandom::shuffle`: the items are permuted.
#[verifier::external_body]
fn shuffle_edges(v: &mut Vec<(usize, usize)>, rng: &mut ChaCha20Rng)
    ensures
        final(v)@.len() == old(v)@.len(),
        final(v)@.to_multiset() == old(v)@.to_multiset(),
{
    v.shuffle(rng)
}

/// Why generation failed.
#[derive(Clone, Copy, Debug, PartialEq, Eq)]
pub enum GenError {
    /// The palette size asked for is outside `[AL_LB, AL_UB]`.
    AlOutOfRange(usize),
    /// The buffer size asked for is outside `[BL_LB, BL_UB)`.
    BlOutOfRange(usize),
    /// No construction attempt gave a connected graph.
    AttemptsExhausted,
}

/// The segment that edge `e` stands for.
pub open spec fn seg_of(coords: Seq<Point>, e: (usize, usize)) -> Segment {
    (coords[e.0 as int], coords[e.1 as int])
}

/// No two distinct edges of `es` cross.
pub open spec fn non_crossing(coords: Seq<Point>, es: Set<(usize, usize)>) -> bool {
    forall|e: (usize, usize), f: (usize, usize)|
        #[trigger] es.contains(e) && #[trigger] es.contains(f) && e != f ==> !crosses(
            seg_of(coords, e),
            seg_of(coords, f),
        )
}

/// Any two points are at least `d` apart.
pub open spec fn spread(coords: Seq<Point>, d: int) -> bool {
    forall|i: int, j: int|
        0 <= i < j < coords.len() ==> dist2(#[trigger] coords[i], #[trigger] coords[j]) >= d * d
}

/// Every point lies in the coordinate box.
pub open spec fn all_in_box(coords: Seq<Point>) -> bool {
    forall|i: int| 0 <= i < coords.len() ==> in_box(#[trigger] coords[i])
}

/// Every edge joins a smaller vertex to a larger one below `n`.
pub open spec fn ordered_edges(n: int, es: Seq<(usize, usize)>) -> bool {
    forall|k: int| 0 <= k < es.len() ==> #[trigger] es[k].0 < es[k].1 && es[k].1 < n
}

/// No edge of `es` is longer than `dmax`.
pub open spec fn within(coords: Seq<Point>, es: Seq<(usize, usize)>, dmax: int) -> bool {
    forall|k: int|
        0 <= k < es.len() ==> dist2(coords[#[trigger] es[k].0 as int], coords[es[k].1 as int]) <= dmax
            * dmax
}

/// The first target is not the start vertex and no target repeats the one
/// before it.
pub open spec fn targets_alternate(t: Seq<usize>) -> bool {
    &&& (t.len() > 0 ==> t[0] != 0)
    &&& forall|k: int| 0 < k < t.len() ==> #[trigger] t[k] != t[k - 1]
}

/// What every generated instance satisfies.
pub open spec fn generated(inp: Input) -> bool {
    &&& inp.wf()
    &&& inp.n == N
    &&& inp.t_sz == T_SZ
    &&& AL_LB <= inp.al <= AL_UB
    &&& BL_LB <= inp.bl < BL_UB
    &&& ordered_edges(inp.n as int, inp.edges@)
    &&& within(inp.coordinates@, inp.edges@, 140)
    &&& spread(inp.coordinates@, 20)
    &&& inp.edges@.no_duplicates()
    &&& connected(inp.n as int, inp.edges@.to_set())
    &&& non_crossing(inp.coordinates@, inp.edges@.to_set())
    &&& targets_alternate(inp.t@)
}

fn too_close(coords: &Vec<Point>, p: Point, d2: i64) -> (r: bool)
    requires
        all_in_box(coords@),
        in_box(p),
    ensures
        r == exists|k: int| 0 <= k < coords@.len() && dist2(#[trigger] coords@[k], p) < d2,
{
    let mut k: usize = 0;
    while k < coords.len()
        invariant
            k <= coords@.len(),
            all_in_box(coords@),
            in_box(p),
            forall|j: int| 0 <= j < k ==> dist2(#[trigger] coords@[j], p) >= d2,
        decreases coords@.len() - k,
    {
        if distance2(coords[k], p) < d2 {
            return true;
        }
        k = k + 1;
    }
    false
}

/// Draws points in the box until `n` of them are pairwise at least `d` apart;
/// `None` once `max_draws` draws did not suffice.
pub fn place_points(n: usize, rng: &mut ChaCha20Rng, d: i64, max_draws: usize) -> (r: Option<Vec<Point>>)
    requires
        0 <= d <= COORD_MAX,
    ensures
        r matches Some(c) ==> c@.len() == n && all_in_box(c@) && spread(c@, d as int),
{
    assert(0 <= d * d <= 1000000) by (nonlinear_arith)
        requires
            0 <= d <= 1000,
    ;
    let d2 = d * d;
    let mut coords: Vec<Point> = Vec::new();
    let mut draws: usize = 0;
    while coords.len() < n
        invariant
            d2 == d * d,
            0 <= d <= COORD_MAX,
            coords@.len() <= n,
            draws <= max_draws,
            all_in_box(coords@),
            spread(coords@, d as int),
        decreases max_draws - draws,
    {
        if draws >= max_draws {
            return None;
        }
        draws = draws + 1;
        let x = gen_range_inclusive(rng, 0, 1000) as i64;
        let y = gen_range_inclusive(rng, 0, 1000) as i64;
        if !too_close(&coords, (x, y), d2) {
            let ghost old_c = coords@;
            coords.push((x, y));
            proof {
                assert forall|i: int, j: int| 0 <= i < j < coords@.len() implies dist2(
                    #[trigger] coords@[i],
                    #[trigger] coords@[j],
                ) >= d * d by {
                    if j == old_c.len() {
                        assert(dist2(old_c[i], (x, y)) >= d2);
                    } else {
                        assert(dist2(old_c[i], old_c[j]) >= d * d);
                    }
                }
            }
        }
    }
    Some(coords)
}

/// The pair `(a, b)` stands in the list that its length calls for, if it is
/// no longer than `dmax`.
pub open spec fn listed(
    short: Seq<(usize, usize)>,
    long: Seq<(usize, usize)>,
    coords: Seq<Point>,
    dmax: int,
    a: usize,
    b: usize,
) -> bool {
    let d = dist2(coords[a as int], coords[b as int]);
    d <= dmax * dmax ==> if 4 * d <= dmax * dmax {
        short.contains((a, b))
    } else {
        long.contains((a, b))
    }
}

proof fn lemma_push_keeps(s: Seq<(usize, usize)>, e: (usize, usize), x: (usize, usize))
    ensures
        s.contains(x) ==> s.push(e).contains(x),
        s.push(e).contains(e),
{
    if s.contains(x) {
        let k = choose|k: int| 0 <= k < s.len() && s[k] == x;
        assert(s.push(e)[k] == x);
    }
    assert(s.push(e)[s.len() as int] == e);
}

/// Pairs `i < j` of points at most `dmax` apart: those at most `dmax / 2`
/// apart first, the others second.
pub fn candidates(coords: &Vec<Point>, dmax: i64) -> (r: (Vec<(usize, usize)>, Vec<(usize, usize)>))
    requires
        all_in_box(coords@),
        0 <= dmax <= 2 * COORD_MAX,
    ensures
        ordered_edges(coords@.len() as int, r.0@),
        ordered_edges(coords@.len() as int, r.1@),
        within(coords@, r.0@, dmax as int),
        within(coords@, r.1@, dmax as int),
        forall|k: int| 0 <= k < r.0@.len() ==> 4 * dist2(coords@[r.0@[k].0 as int], coords@[#[trigger] r.0@[k].1 as int]) <= dmax * dmax,
        forall|k: int|
            0 <= k < r.1@.len() ==> dmax * dmax < 4 * dist2(coords@[r.1@[k].0 as int], coords@[#[trigger] r.1@[k].1 as int])
                && dist2(coords@[r.1@[k].0 as int], coords@[r.1@[k].1 as int]) <= dmax * dmax,
        forall|a: usize, b: usize|
            a < b < coords@.len() ==> #[trigger] listed(r.0@, r.1@, coords@, dmax as int, a, b),
{
    let n = coords.len();
    assert(0 <= dmax * dmax <= 4000000) by (nonlinear_arith)
        requires
            0 <= dmax <= 2000,
    ;
    let lim = dmax * dmax;
    let mut short: Vec<(usize, usize)> = Vec::new();
    let mut long: Vec<(usize, usize)> = Vec::new();
    let mut i: usize = 0;
    while i < n
        invariant
            n == coords@.len(),
            lim == dmax * dmax,
            0 <= dmax <= 2 * COORD_MAX,
            all_in_box(coords@),
            ordered_edges(n as int, short@),
            ordered_edges(n as int, long@),
            within(coords@, short@, dmax as int),
            within(coords@, long@, dmax as int),
            forall|k: int| 0 <= k < short@.len() ==> 4 * dist2(coords@[short@[k].0 as int], coords@[#[trigger] short@[k].1 as int]) <= dmax * dmax,
            forall|k: int|
                0 <= k < long@.len() ==> dmax * dmax < 4 * dist2(coords@[long@[k].0 as int], coords@[#[trigger] long@[k].1 as int])
                    && dist2(coords@[long@[k].0 as int], coords@[long@[k].1 as int]) <= dmax * dmax,
            forall|a: usize, b: usize|
                a < i && a < b < n ==> #[trigger] listed(short@, long@, coords@, dmax as int, a, b),
        decreases n - i,
    {
        let mut j: usize = i + 1;
        while j < n
            invariant
                n == coords@.len(),
                i < n,
                i + 1 <= j <= n,
                lim == dmax * dmax,
                0 <= dmax <= 2 * COORD_MAX,
                all_in_box(coords@),
                ordered_edges(n as int, short@),
                ordered_edges(n as int, long@),
                within(coords@, short@, dmax as int),
                within(coords@, long@, dmax as int),
                forall|k: int| 0 <= k < short@.len() ==> 4 * dist2(coords@[short@[k].0 as int], coords@[#[trigger] short@[k].1 as int]) <= dmax * dmax,
                forall|k: int|
                    0 <= k < long@.len() ==> dmax * dmax < 4 * dist2(coords@[long@[k].0 as int], coords@[#[trigger] long@[k].1 as int])
                        && dist2(coords@[long@[k].0 as int], coords@[long@[k].1 as int]) <= dmax * dmax,
                forall|a: usize, b: usize|
                    ((a < i && a < b < n) || (a == i && i < b < j)) ==> #[trigger] listed(
                        short@,
                        long@,
                        coords@,
                        dmax as int,
                        a,
                        b,
                    ),
            decreases n - j,
        {
            let d = distance2(coords[i], coords[j]);
            let ghost s0 = short@;
            let ghost l0 = long@;
            if d <= lim {
                if 4 * d <= lim {
                    short.push((i, j));
                } else {
                    long.push((i, j));
                }
            }
            proof {
                assert forall|a: usize, b: usize|
                    ((a < i && a < b < n) || (a == i && i < b < j + 1)) implies #[trigger] listed(
                    short@,
                    long@,
                    coords@,
                    dmax as int,
                    a,
                    b,
                ) by {
                    lemma_push_keeps(s0, (i, j), (a, b));
                    lemma_push_keeps(l0, (i, j), (a, b));
                    if !(a == i && b == j) {
                        assert(listed(s0, l0, coords@, dmax as int, a, b));
                    }
                }
            }
            j = j + 1;
        }
        i = i + 1;
    }
    (short, long)
}

/// Whether the segment of `(u, v)` crosses the segment of some edge of `edges`.
fn crosses_any(coords: &Vec<Point>, edges: &Vec<(usize, usize)>, u: usize, v: usize) -> (r: bool)
    requires
        all_in_box(coords@),
        u < coords@.len(),
        v < coords@.len(),
        ordered_edges(coords@.len() as int, edges@),
    ensures
        r == exists|k: int|
            0 <= k < edges@.len() && crosses(
                seg_of(coords@, (u, v)),
                seg_of(coords@, #[trigger] edges@[k]),
            ),
{
    let mut k: usize = 0;
    while k < edges.len()
        invariant
            k <= edges@.len(),
            all_in_box(coords@),
            u < coords@.len(),
            v < coords@.len(),
            ordered_edges(coords@.len() as int, edges@),
            forall|j: int|
                0 <= j < k ==> !crosses(seg_of(coords@, (u, v)), seg_of(coords@, #[trigger] edges@[j])),
        decreases edges@.len() - k,
    {
        let (e0, e1) = edges[k];
        if is_crossing(&(coords[u], coords[v]), &(coords[e0], coords[e1])) {
            return true;
        }
        k = k + 1;
    }
    false
}

proof fn lemma_distinct_ends(coords: Seq<Point>, d: int, i: int, j: int)
    requires
        spread(coords, d),
        d >= 1,
        0 <= i < j < coords.len(),
    ensures
        coords[i] != coords[j],
{
    assert(dist2(coords[i], coords[j]) >= d * d);
    assert(d * d >= 1) by (nonlinear_arith)
        requires
            d >= 1,
    ;
    let (p, q) = (coords[i], coords[j]);
    if p == q {
        assert(dist2(p, q) == 0) by (nonlinear_arith)
            requires
                p == q,
        ;
    }
}

/// Some edge of `es` crosses the segment of `c`.
pub open spec fn crosses_some(coords: Seq<Point>, es: Seq<(usize, usize)>, c: (usize, usize)) -> bool {
    exists|k: int| 0 <= k < es.len() && crosses(seg_of(coords, c), seg_of(coords, #[trigger] es[k]))
}

/// `taken` followed by each candidate, in order, whose segment crosses no
/// edge taken before it.
pub open spec fn greedy(coords: Seq<Point>, taken: Seq<(usize, usize)>, cands: Seq<(usize, usize)>) -> Seq<
    (usize, usize),
>
    decreases cands.len(),
{
    if cands.len() == 0 {
        taken
    } else {
        let prev = greedy(coords, taken, cands.drop_last());
        if crosses_some(coords, prev, cands.last()) {
            prev
        } else {
            prev.push(cands.last())
        }
    }
}

/// A segment crosses itself.
proof fn lemma_self_crosses(s: Segment)
    ensures
        crosses(s, s),
{
    let (p, q) = s;
    assert(crate::geometry::orient(p, q, p) == 0) by (nonlinear_arith);
    assert(crate::geometry::orient(p, q, q) == 0) by (nonlinear_arith);
}

/// Appends, in order, each candidate whose segment crosses no edge taken so far.
pub fn insert_non_crossing(coords: &Vec<Point>, d: Ghost<int>, dmax: Ghost<int>, cands: &Vec<(usize, usize)>, edges: &mut Vec<(usize, usize)>)
    requires
        all_in_box(coords@),
        spread(coords@, d@),
        d@ >= 1,
        ordered_edges(coords@.len() as int, cands@),
        ordered_edges(coords@.len() as int, old(edges)@),
        non_crossing(coords@, old(edges)@.to_set()),
    ensures
        final(edges)@ == greedy(coords@, old(edges)@, cands@),
        ordered_edges(coords@.len() as int, final(edges)@),
        within(coords@, cands@, dmax@) && within(coords@, old(edges)@, dmax@) ==> within(
            coords@,
            final(edges)@,
            dmax@,
        ),
        non_crossing(coords@, final(edges)@.to_set()),
        old(edges)@.no_duplicates() ==> final(edges)@.no_duplicates(),
{
    let ghost e0 = edges@;
    proof {
        assert(cands@.take(0) =~= Seq::<(usize, usize)>::empty());
    }
    let mut c: usize = 0;
    while c < cands.len()
        invariant
            c <= cands@.len(),
            all_in_box(coords@),
            spread(coords@, d@),
            d@ >= 1,
            ordered_edges(coords@.len() as int, cands@),
            ordered_edges(coords@.len() as int, edges@),
            within(coords@, cands@, dmax@) && within(coords@, e0, dmax@) ==> within(coords@, edges@, dmax@),
            non_crossing(coords@, edges@.to_set()),
            edges@ == greedy(coords@, e0, cands@.take(c as int)),
            e0.no_duplicates() ==> edges@.no_duplicates(),
        decreases cands@.len() - c,
    {
        let (u, v) = cands[c];
        proof {
            assert(cands@.take(c + 1).drop_last() =~= cands@.take(c as int));
            assert(cands@.take(c + 1).last() == (u, v));
        }
        if !crosses_any(coords, edges, u, v) {
            let ghost old_e = edges@;
            edges.push((u, v));
            proof {
                if e0.no_duplicates() {
                    assert forall|i: int, j: int| 0 <= i < edges@.len() && 0 <= j < edges@.len() && i != j
                        implies edges@[i] != edges@[j] by {
                        if i == old_e.len() || j == old_e.len() {
                            let k = if i == old_e.len() { j } else { i };
                            if edges@[i] == edges@[j] {
                                lemma_self_crosses(seg_of(coords@, (u, v)));
                                assert(old_e[k] == (u, v));
                                assert(crosses(seg_of(coords@, (u, v)), seg_of(coords@, old_e[k])));
                            }
                        } else {
                            assert(old_e[i] != old_e[j]);
                        }
                    }
                }
                let s = edges@.to_set();
                assert forall|e: (usize, usize), f: (usize, usize)|
                    #[trigger] s.contains(e) && #[trigger] s.contains(f) && e != f implies !crosses(
                    seg_of(coords@, e),
                    seg_of(coords@, f),
                ) by {
                    let ke = choose|k: int| 0 <= k < edges@.len() && edges@[k] == e;
                    let kf = choose|k: int| 0 <= k < edges@.len() && edges@[k] == f;
                    assert(edges@[ke].0 < edges@[ke].1);
                    assert(edges@[kf].0 < edges@[kf].1);
                    lemma_distinct_ends(coords@, d@, e.0 as int, e.1 as int);
                    lemma_distinct_ends(coords@, d@, f.0 as int, f.1 as int);
                    if ke < old_e.len() && kf < old_e.len() {
                        assert(old_e.to_set().contains(e) && old_e.to_set().contains(f));
                        assert(old_e[ke] == e);
                    } else if ke < old_e.len() {
                        assert(f == (u, v));
                        assert(!crosses(seg_of(coords@, (u, v)), seg_of(coords@, old_e[ke])));
                        lemma_crosses_symmetric(seg_of(coords@, e), seg_of(coords@, f));
                    } else if kf < old_e.len() {
                        assert(e == (u, v));
                        assert(!crosses(seg_of(coords@, (u, v)), seg_of(coords@, old_e[kf])));
                    } else {
                        assert(e == f);
                    }
                }
            }
        }
        c = c + 1;
    }
    proof {
        assert(cands@.take(c as int) =~= cands@);
    }
}

/// A draw `val` out of `RATIO_DEN` erases an edge when it exceeds the erase
/// ratio `ratio`.
pub open spec fn erase(val: u64, ratio: u64) -> bool {
    val > ratio
}

/// Any two points at least `a` apart are at least `b <= a` apart.
proof fn lemma_spread_weaker(coords: Seq<Point>, a: int, b: int)
    requires
        spread(coords, a),
        0 <= b <= a,
    ensures
        spread(coords, b),
{
    assert(b * b <= a * a) by (nonlinear_arith)
        requires
            0 <= b <= a,
    ;
}

/// The crossing-free edges that the two candidate lists give: first the
/// short candidates, then the long ones, each taken in order when it crosses
/// no edge taken before it.
pub fn planar_edges(coords: &Vec<Point>, short: &Vec<(usize, usize)>, long: &Vec<(usize, usize)>) -> (r: Vec<
    (usize, usize),
>)
    requires
        all_in_box(coords@),
        spread(coords@, 1),
        ordered_edges(coords@.len() as int, short@),
        ordered_edges(coords@.len() as int, long@),
    ensures
        r@ == greedy(coords@, greedy(coords@, Seq::empty(), short@), long@),
        ordered_edges(coords@.len() as int, r@),
        non_crossing(coords@, r@.to_set()),
        r@.no_duplicates(),
        forall|dmax: int| within(coords@, short@, dmax) && within(coords@, long@, dmax) ==> #[trigger] within(coords@, r@, dmax),
{
    let mut edges: Vec<(usize, usize)> = Vec::new();
    proof {
        assert(edges@.to_set() =~= Set::<(usize, usize)>::empty());
        assert(edges@.no_duplicates());
    }
    let ghost e1 = edges@;
    insert_non_crossing(coords, Ghost(1), Ghost(0), short, &mut edges);
    let ghost e2 = edges@;
    insert_non_crossing(coords, Ghost(1), Ghost(0), long, &mut edges);
    proof {
        assert(e1 =~= Seq::<(usize, usize)>::empty());
        assert forall|dmax: int| within(coords@, short@, dmax) && within(coords@, long@, dmax) implies #[trigger] within(coords@, edges@, dmax) by {
            assert(within(coords@, e1, dmax));
            assert(greedy(coords@, e1, short@) == e2);
            lemma_greedy_within(coords@, e1, short@, dmax);
            lemma_greedy_within(coords@, e2, long@, dmax);
        }
    }
    edges
}

/// Greedy insertion keeps every edge no longer than `dmax`.
proof fn lemma_greedy_within(coords: Seq<Point>, taken: Seq<(usize, usize)>, cands: Seq<(usize, usize)>, dmax: int)
    requires
        within(coords, taken, dmax),
        within(coords, cands, dmax),
    ensures
        within(coords, greedy(coords, taken, cands), dmax),
    decreases cands.len(),
{
    if cands.len() > 0 {
        let c = cands.drop_last();
        assert forall|k: int| 0 <= k < c.len() implies dist2(coords[#[trigger] c[k].0 as int], coords[c[k].1 as int]) <= dmax * dmax by {
            assert(c[k] == cands[k]);
        }
        lemma_greedy_within(coords, taken, c, dmax);
        let prev = greedy(coords, taken, c);
        assert(dist2(coords[cands[cands.len() - 1].0 as int], coords[cands[cands.len() - 1].1 as int]) <= dmax * dmax);
        if !crosses_some(coords, prev, cands.last()) {
            let g = prev.push(cands.last());
            assert forall|k: int| 0 <= k < g.len() implies dist2(coords[#[trigger] g[k].0 as int], coords[g[k].1 as int]) <= dmax * dmax by {
                if k < prev.len() {
                    assert(g[k] == prev[k]);
                }
            }
        }
    }
}

/// One thinning step on edge `i`, which is kept so far, with the draw `val`:
/// the edge is erased exactly when the other kept edges still connect all of
/// `[0, n)` and the draw exceeds `ratio`; otherwise it stays.
pub fn sparsify_step(
    n: usize,
    edges: &Vec<(usize, usize)>,
    sel: &mut Vec<bool>,
    i: usize,
    val: u64,
    ratio: u64,
)
    requires
        1 <= n <= i32::MAX,
        ordered_edges(n as int, edges@),
        old(sel)@.len() == edges@.len(),
        i < edges@.len(),
        old(sel)@[i as int],
        connected(n as int, kept(edges@, old(sel)@)),
    ensures
        final(sel)@ == old(sel)@.update(
            i as int,
            !(connected(n as int, kept(edges@, old(sel)@.update(i as int, false))) && erase(val, ratio)),
        ),
        connected(n as int, kept(edges@, final(sel)@)),
{
    let ghost before = sel@;
    sel.set(i, false);
    let still = check_connectivity(n, edges, sel);
    if !(still && val > ratio) {
        sel.set(i, true);
        assert(sel@ =~= before);
    }
}

/// Thins a connected edge list at random: for each edge in order, a draw out
/// of `RATIO_DEN` and one `sparsify_step`. The kept edges connect all of
/// `[0, n)` after every step.
pub fn sparsify(n: usize, edges: &Vec<(usize, usize)>, rng: &mut ChaCha20Rng, ratio: u64) -> (sel: Vec<bool>)
    requires
        1 <= n <= i32::MAX,
        ordered_edges(n as int, edges@),
        connected(n as int, kept(edges@, Seq::new(edges@.len(), |j: int| true))),
    ensures
        sel@.len() == edges@.len(),
        connected(n as int, kept(edges@, sel@)),
{
    let mut sel: Vec<bool> = vec![true; edges.len()];
    proof {
        assert(sel@ =~= Seq::new(edges@.len(), |j: int| true));
    }
    let mut i: usize = 0;
    while i < edges.len()
        invariant
            1 <= n <= i32::MAX,
            ordered_edges(n as int, edges@),
            i <= edges@.len(),
            sel@.len() == edges@.len(),
            forall|j: int| i <= j < sel@.len() ==> #[trigger] sel@[j],
            connected(n as int, kept(edges@, sel@)),
        decreases edges@.len() - i,
    {
        let val = gen_range_inclusive(rng, 0, RATIO_DEN - 1);
        sparsify_step(n, edges, &mut sel, i, val, ratio);
        i = i + 1;
    }
    sel
}

/// The next target from a draw `nxt` in `[0, n - 2]`: the draw itself when it
/// is below the current target `now`, else one more, so it never equals `now`.
pub fn next_target(now: usize, nxt: usize) -> (r: usize)
    requires
        nxt < usize::MAX,
    ensures
        r == if nxt < now {
            nxt as int
        } else {
            nxt + 1
        },
        r != now,
{
    if nxt < now {
        nxt
    } else {
        nxt + 1
    }
}

/// The targets: `t_sz` vertices below `n`, none equal to the one before it,
/// the first different from vertex 0.
pub fn draw_targets(n: usize, t_sz: usize, rng: &mut ChaCha20Rng) -> (t: Vec<usize>)
    requires
        2 <= n,
    ensures
        t@.len() == t_sz,
        forall|k: int| 0 <= k < t@.len() ==> #[trigger] t@[k] < n,
        targets_alternate(t@),
{
    let mut t: Vec<usize> = Vec::new();
    let mut now: usize = 0;
    let mut k: usize = 0;
    while k < t_sz
        invariant
            2 <= n,
            k <= t_sz,
            t@.len() == k,
            now < n,
            k == 0 ==> now == 0,
            k > 0 ==> now == t@[k - 1],
            forall|j: int| 0 <= j < t@.len() ==> #[trigger] t@[j] < n,
            targets_alternate(t@),
        decreases t_sz - k,
    {
        let nxt = gen_range_inclusive(rng, 0, (n - 2) as u64) as usize;
        now = next_target(now, nxt);
        t.push(now);
        k = k + 1;
    }
    t
}

/// One attempt at a crossing-free connected graph on `n` points at least
/// `dmin` apart, with edges no longer than `dmax`, thinned with erase ratio
/// `ratio` out of `RATIO_DEN`. `None` when the points could not be placed in
/// `max_draws` draws or the crossing-free edges do not connect the points.
pub fn construct_planar_graph(
    n: usize,
    rng: &mut ChaCha20Rng,
    vertex_min_distance: i64,
    edge_max_distance: i64,
    edge_erasing_ratio: u64,
    max_draws: usize,
) -> (r: Option<(Vec<(usize, usize)>, Vec<Point>)>)
    requires
        1 <= n <= i32::MAX,
        1 <= vertex_min_distance <= COORD_MAX,
        0 <= edge_max_distance <= 2 * COORD_MAX,
    ensures
        r matches Some((es, cs)) ==> {
            &&& cs@.len() == n
            &&& all_in_box(cs@)
            &&& spread(cs@, vertex_min_distance as int)
            &&& ordered_edges(n as int, es@)
            &&& within(cs@, es@, edge_max_distance as int)
            &&& es@.no_duplicates()
            &&& connected(n as int, es@.to_set())
            &&& non_crossing(cs@, es@.to_set())
        },
{
    let coords = match place_points(n, rng, vertex_min_distance, max_draws) {
        Some(c) => c,
        None => {
            return None;
        },
    };
    let ghost d = vertex_min_distance as int;
    let (short_cands, long_cands) = candidates(&coords, edge_max_distance);
    let mut short_cands = short_cands;
    let mut long_cands = long_cands;
    let ghost before = short_cands@;
    shuffle_edges(&mut short_cands, rng);
    proof {
        lemma_shuffle_ordered(n as int, coords@, edge_max_distance as int, before, short_cands@);
    }
    let ghost before = long_cands@;
    shuffle_edges(&mut long_cands, rng);
    proof {
        lemma_shuffle_ordered(n as int, coords@, edge_max_distance as int, before, long_cands@);
    }
    proof {
        lemma_spread_weaker(coords@, d, 1);
    }
    let mut edges = planar_edges(&coords, &short_cands, &long_cands);
    assert(within(coords@, edges@, edge_max_distance as int));
    let ghost before = edges@;
    shuffle_edges(&mut edges, rng);
    proof {
        lemma_same_set(before, edges@);
        before.lemma_multiset_has_no_duplicates();
        edges@.lemma_multiset_has_no_duplicates_conv();
        lemma_shuffle_ordered(n as int, coords@, edge_max_distance as int, before, edges@);
    }
    let all: Vec<bool> = vec![true; edges.len()];
    if !check_connectivity(n, &edges, &all) {
        return None;
    }
    proof {
        assert(all@ =~= Seq::new(edges@.len(), |j: int| true));
    }
    let sel = sparsify(n, &edges, rng, edge_erasing_ratio);
    let mut res_edges: Vec<(usize, usize)> = Vec::new();
    let mut i: usize = 0;
    while i < edges.len()
        invariant
            i <= edges@.len(),
            sel@.len() == edges@.len(),
            ordered_edges(n as int, edges@),
            ordered_edges(n as int, res_edges@),
            within(coords@, edges@, edge_max_distance as int),
            within(coords@, res_edges@, edge_max_distance as int),
            edges@.no_duplicates(),
            res_edges@.no_duplicates(),
            forall|e: (usize, usize)|
                res_edges@.contains(e) <==> exists|j: int| 0 <= j < i && #[trigger] sel@[j] && edges@[j] == e,
        decreases edges@.len() - i,
    {
        if sel[i] {
            let ghost old_r = res_edges@;
            res_edges.push(edges[i]);
            proof {
                assert forall|p: int, q: int| 0 <= p < res_edges@.len() && 0 <= q < res_edges@.len() && p != q
                    implies res_edges@[p] != res_edges@[q] by {
                    if p == old_r.len() || q == old_r.len() {
                        let k = if p == old_r.len() { q } else { p };
                        if res_edges@[p] == res_edges@[q] {
                            assert(old_r[k] == edges@[i as int]);
                            assert(old_r.contains(edges@[i as int]));
                            let j = choose|j: int| 0 <= j < i && #[trigger] sel@[j] && edges@[j] == edges@[i as int];
                        }
                    } else {
                        assert(old_r[p] != old_r[q]);
                    }
                }
                assert forall|e: (usize, usize)|
                    res_edges@.contains(e) <==> exists|j: int| 0 <= j < i + 1 && #[trigger] sel@[j] && edges@[j] == e by {
                    if res_edges@.contains(e) {
                        let k = choose|k: int| 0 <= k < res_edges@.len() && res_edges@[k] == e;
                        if k < old_r.len() {
                            assert(old_r.contains(e));
                        }
                    }
                    if exists|j: int| 0 <= j < i + 1 && #[trigger] sel@[j] && edges@[j] == e {
                        let j = choose|j: int| 0 <= j < i + 1 && #[trigger] sel@[j] && edges@[j] == e;
                        if j < i {
                            assert(old_r.contains(e));
                            let k = choose|k: int| 0 <= k < old_r.len() && old_r[k] == e;
                            assert(res_edges@[k] == e);
                        } else {
                            assert(res_edges@[old_r.len() as int] == e);
                        }
                    }
                }
            }
        } else {
            proof {
                assert forall|e: (usize, usize)|
                    res_edges@.contains(e) <==> exists|j: int| 0 <= j < i + 1 && #[trigger] sel@[j] && edges@[j] == e by {
                    if exists|j: int| 0 <= j < i + 1 && #[trigger] sel@[j] && edges@[j] == e {
                        let j = choose|j: int| 0 <= j < i + 1 && #[trigger] sel@[j] && edges@[j] == e;
                        assert(j < i);
                    }
                }
            }
        }
        i = i + 1;
    }
    proof {
        assert(res_edges@.to_set() =~= kept(edges@, sel@));
        assert forall|e: (usize, usize), f: (usize, usize)|
            #[trigger] res_edges@.to_set().contains(e) && #[trigger] res_edges@.to_set().contains(f) && e != f implies !crosses(
            seg_of(coords@, e),
            seg_of(coords@, f),
        ) by {
            let je = choose|j: int| 0 <= j < sel@.len() && #[trigger] sel@[j] && edges@[j] == e;
            let jf = choose|j: int| 0 <= j < sel@.len() && #[trigger] sel@[j] && edges@[j] == f;
            assert(edges@.to_set().contains(edges@[je]));
            assert(edges@.to_set().contains(edges@[jf]));
        }
    }
    Some((res_edges, coords))
}

/// Reordering keeps every edge ordered and no longer than `dmax`.
proof fn lemma_shuffle_ordered(n: int, coords: Seq<Point>, dmax: int, a: Seq<(usize, usize)>, b: Seq<(usize, usize)>)
    requires
        a.to_multiset() == b.to_multiset(),
        ordered_edges(n, a),
        within(coords, a, dmax),
    ensures
        ordered_edges(n, b),
        within(coords, b, dmax),
{
    assert forall|k: int| 0 <= k < b.len() implies #[trigger] b[k].0 < b[k].1 && b[k].1 < n && dist2(
        coords[b[k].0 as int],
        coords[b[k].1 as int],
    ) <= dmax * dmax by {
        vstd::seq_lib::to_multiset_contains(a, b[k]);
        vstd::seq_lib::to_multiset_contains(b, b[k]);
        assert(b.contains(b[k]));
        let j = choose|j: int| 0 <= j < a.len() && a[j] == b[k];
        assert(a[j].0 < a[j].1);
        assert(dist2(coords[a[j].0 as int], coords[a[j].1 as int]) <= dmax * dmax);
    }
}

/// Two sequences with the same items hold the same set of items.
proof fn lemma_same_set(a: Seq<(usize, usize)>, b: Seq<(usize, usize)>)
    requires
        a.to_multiset() == b.to_multiset(),
    ensures
        a.to_set() == b.to_set(),
{
    assert forall|e: (usize, usize)| a.to_set().contains(e) <==> b.to_set().contains(e) by {
        vstd::seq_lib::to_multiset_contains(a, e);
        vstd::seq_lib::to_multiset_contains(b, e);
    }
    assert(a.to_set() =~= b.to_set());
}

/// The palette size asked for, if any, is in `[AL_LB, AL_UB]`.
pub open spec fn al_ok(al: Option<usize>) -> bool {
    match al {
        Some(a) => AL_LB <= a <= AL_UB,
        None => true,
    }
}

/// The buffer size asked for, if any, is in `[BL_LB, BL_UB)`.
pub open spec fn bl_ok(bl: Option<usize>) -> bool {
    match bl {
        Some(b) => BL_LB <= b < BL_UB,
        None => true,
    }
}

/// What generation returns for the sizes asked for: an error naming the first
/// bad size, else a generated instance with the sizes asked for, unless every
/// construction attempt failed.
pub open spec fn gen_outcome(al: Option<usize>, bl: Option<usize>, r: Result<Input, GenError>) -> bool {
    if !al_ok(al) {
        r == Err::<Input, GenError>(GenError::AlOutOfRange(al->Some_0))
    } else if !bl_ok(bl) {
        r == Err::<Input, GenError>(GenError::BlOutOfRange(bl->Some_0))
    } else {
        match r {
            Ok(inp) => {
                &&& generated(inp)
                &&& (al is Some ==> inp.al == al->Some_0)
                &&& (al is None ==> inp.al < AL_UB)
                &&& (bl is Some ==> inp.bl == bl->Some_0)
            },
            Err(e) => e == GenError::AttemptsExhausted,
        }
    }
}

/// The buffer size from a fixed-point draw `s` of its square root: the floor
/// of `(s / SQRT_SCALE)^2`.
pub fn bl_from_sqrt(s: u64) -> (bl: usize)
    requires
        2 * SQRT_SCALE <= s < 5 * SQRT_SCALE,
    ensures
        bl * SQRT_SCALE * SQRT_SCALE <= s * s < (bl + 1) * SQRT_SCALE * SQRT_SCALE,
        BL_LB <= bl < BL_UB,
{
    let sq: u64 = SQRT_SCALE * SQRT_SCALE;
    assert(s * s < 25 * sq) by (nonlinear_arith)
        requires
            s < 5 * SQRT_SCALE,
            sq == SQRT_SCALE * SQRT_SCALE,
            SQRT_SCALE == 1048576,
    ;
    assert(4 * sq <= s * s) by (nonlinear_arith)
        requires
            2 * SQRT_SCALE <= s,
            sq == SQRT_SCALE * SQRT_SCALE,
            SQRT_SCALE == 1048576,
    ;
    let ss: u64 = s * s;
    let q: u64 = ss / sq;
    assert(q * sq <= ss < (q + 1) * sq) by (nonlinear_arith)
        requires
            q == ss as int / sq as int,
            sq > 0,
    ;
    assert(4 <= q < 25) by (nonlinear_arith)
        requires
            q * sq <= s * s < (q + 1) * sq,
            4 * sq <= s * s,
            s * s < 25 * sq,
            sq > 0,
    ;
    q as usize
}

/// Generates an instance from `seed`, with at most `max_attempts` graph
/// constructions of at most `max_point_draws` point draws each. A palette or
/// buffer size that is given is checked and used; one that is not is drawn.
pub fn gen_with_limits(
    seed: u64,
    al: Option<usize>,
    bl: Option<usize>,
    max_attempts: usize,
    max_point_draws: usize,
) -> (r: Result<Input, GenError>)
    ensures
        gen_outcome(al, bl, r),
{
    let mut rng = seeded_rng(seed ^ 94);
    let al = match al {
        Some(v) => v,
        None => gen_range_inclusive(&mut rng, AL_LB as u64, (AL_UB - 1) as u64) as usize,
    };
    if al < AL_LB || al > AL_UB {
        return Err(GenError::AlOutOfRange(al));
    }
    let bl = match bl {
        Some(v) => v,
        None => {
            let s = gen_range_inclusive(&mut rng, 2 * SQRT_SCALE, 5 * SQRT_SCALE - 1);
            bl_from_sqrt(s)
        },
    };
    if bl < BL_LB || bl >= BL_UB {
        return Err(GenError::BlOutOfRange(bl));
    }
    let vertex_min_distance = gen_range_inclusive(&mut rng, 20, 30) as i64;
    let edge_max_distance = gen_range_inclusive(&mut rng, 80, 140) as i64;
    let edge_erasing_ratio = gen_range_inclusive(&mut rng, 0, RATIO_DEN / 2 - 1);
    let mut found: Option<(Vec<(usize, usize)>, Vec<Point>)> = None;
    let mut attempt: usize = 0;
    while attempt < max_attempts
        invariant
            20 <= vertex_min_distance <= 30,
            80 <= edge_max_distance <= 140,
            attempt <= max_attempts,
            found matches Some((es, cs)) ==> {
                &&& cs@.len() == N
                &&& all_in_box(cs@)
                &&& ordered_edges(N as int, es@)
                &&& within(cs@, es@, 140)
                &&& spread(cs@, 20)
                &&& es@.no_duplicates()
                &&& connected(N as int, es@.to_set())
                &&& non_crossing(cs@, es@.to_set())
            },
        decreases max_attempts - attempt,
    {
        found = construct_planar_graph(
            N,
            &mut rng,
            vertex_min_distance,
            edge_max_distance,
            edge_erasing_ratio,
            max_point_draws,
        );
        proof {
            assert(edge_max_distance * edge_max_distance <= 140 * 140) by (nonlinear_arith)
                requires
                    80 <= edge_max_distance <= 140,
            ;
            assert(vertex_min_distance * vertex_min_distance >= 20 * 20) by (nonlinear_arith)
                requires
                    20 <= vertex_min_distance <= 30,
            ;
        }
        if found.is_some() {
            break;
        }
        attempt = attempt + 1;
    }
    let (edges, coordinates) = match found {
        Some(x) => x,
        None => {
            return Err(GenError::AttemptsExhausted);
        },
    };
    let t = draw_targets(N, T_SZ, &mut rng);
    Ok(Input { n: N, m: edges.len(), t_sz: T_SZ, al, bl, edges, t, coordinates })
}

/// Generates an instance from `seed` with the default limits on attempts.
pub fn gen(seed: u64, al: Option<usize>, bl: Option<usize>) -> (r: Result<Input, GenError>)
    ensures
        gen_outcome(al, bl, r),
{
    gen_with_limits(seed, al, bl, MAX_ATTEMPTS, MAX_POINT_DRAWS)
}

} // verus!
