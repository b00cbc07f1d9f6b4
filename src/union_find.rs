//! Disjoint sets with path compression and union by size, and the
//! connectivity test built on them.
use vstd::prelude::*;

verus! {

/// `u` and `v` are the two ends of some edge of `es`, in either order.
pub open spec fn linked(es: Set<(usize, usize)>, u: int, v: int) -> bool {
    exists|e: (usize, usize)|
        #[trigger] es.contains(e) && ((e.0 == u && e.1 == v) || (e.0 == v && e.1 == u))
}

/// `p` is a walk along edges of `es`.
pub open spec fn is_walk(es: Set<(usize, usize)>, p: Seq<int>) -> bool {
    &&& p.len() >= 1
    &&& forall|k: int| 0 <= k < p.len() - 1 ==> linked(es, #[trigger] p[k], p[k + 1])
}

/// Some walk along edges of `es` leads from `u` to `v`.
pub open spec fn reachable(es: Set<(usize, usize)>, u: int, v: int) -> bool {
    exists|p: Seq<int>| #[trigger] is_walk(es, p) && p[0] == u && p.last() == v
}

/// Every vertex of `[0, n)` is reachable from vertex 0.
pub open spec fn connected(n: int, es: Set<(usize, usize)>) -> bool {
    forall|v: int| 0 <= v < n ==> #[trigger] reachable(es, 0, v)
}

/// The edges whose flag in `sel` is set.
pub open spec fn kept(edges: Seq<(usize, usize)>, sel: Seq<bool>) -> Set<(usize, usize)> {
    Set::new(
        |e: (usize, usize)| exists|j: int| 0 <= j < sel.len() && #[trigger] sel[j] && edges[j] == e,
    )
}

pub proof fn lemma_reach_refl(es: Set<(usize, usize)>, u: int)
    ensures
        reachable(es, u, u),
{
    let p = seq![u];
    assert(is_walk(es, p));
}

pub proof fn lemma_reach_edge(es: Set<(usize, usize)>, u: int, v: int)
    requires
        linked(es, u, v),
    ensures
        reachable(es, u, v),
{
    let p = seq![u, v];
    assert(is_walk(es, p));
}

pub proof fn lemma_reach_sym(es: Set<(usize, usize)>, u: int, v: int)
    requires
        reachable(es, u, v),
    ensures
        reachable(es, v, u),
{
    let p = choose|p: Seq<int>| #[trigger] is_walk(es, p) && p[0] == u && p.last() == v;
    let q = Seq::new(p.len(), |k: int| p[p.len() - 1 - k]);
    assert forall|k: int| 0 <= k < q.len() - 1 implies linked(es, #[trigger] q[k], q[k + 1]) by {
        let kk = p.len() - 2 - k;
        assert(linked(es, p[kk], p[kk + 1]));
    }
    assert(is_walk(es, q));
}

pub proof fn lemma_reach_trans(es: Set<(usize, usize)>, u: int, v: int, w: int)
    requires
        reachable(es, u, v),
        reachable(es, v, w),
    ensures
        reachable(es, u, w),
{
    let p = choose|p: Seq<int>| #[trigger] is_walk(es, p) && p[0] == u && p.last() == v;
    let q = choose|q: Seq<int>| #[trigger] is_walk(es, q) && q[0] == v && q.last() == w;
    let r = p + q.skip(1);
    assert forall|k: int| 0 <= k < r.len() - 1 implies linked(es, #[trigger] r[k], r[k + 1]) by {
        if k < p.len() - 1 {
            assert(linked(es, p[k], p[k + 1]));
        } else if k == p.len() - 1 {
            assert(linked(es, q[0], q[1]));
        } else {
            let kk = k - p.len() + 1;
            assert(linked(es, q[kk], q[kk + 1]));
        }
    }
    assert(is_walk(es, r));
}

/// A labelling that gives both ends of every edge the same label gives every
/// vertex on a walk the label of its first vertex.
proof fn lemma_walk_keeps_label(es: Set<(usize, usize)>, label: Seq<int>, p: Seq<int>, n: int)
    requires
        is_walk(es, p),
        label.len() == n,
        forall|e: (usize, usize)|
            #[trigger] es.contains(e) ==> e.0 < n && e.1 < n && label[e.0 as int] == label[e.1 as int],
        0 <= p[0] < n,
    ensures
        0 <= p.last() < n,
        label[p.last()] == label[p[0]],
    decreases p.len(),
{
    if p.len() > 1 {
        let q = p.drop_last();
        assert forall|k: int| 0 <= k < q.len() - 1 implies linked(es, #[trigger] q[k], q[k + 1]) by {
            assert(linked(es, p[k], p[k + 1]));
        }
        lemma_walk_keeps_label(es, label, q, n);
        assert(linked(es, p[p.len() - 2], p[p.len() - 1]));
    }
}

/// Number of positions of `s` that hold `r`.
pub open spec fn occurrences(s: Seq<int>, r: int) -> nat
    decreases s.len(),
{
    if s.len() == 0 {
        0
    } else {
        occurrences(s.drop_last(), r) + if s.last() == r {
            1nat
        } else {
            0nat
        }
    }
}

proof fn lemma_occ_two(s: Seq<int>, x: int, y: int)
    requires
        x != y,
    ensures
        occurrences(s, x) + occurrences(s, y) <= s.len(),
    decreases s.len(),
{
    if s.len() > 0 {
        lemma_occ_two(s.drop_last(), x, y);
    }
}

proof fn lemma_occ_all(s: Seq<int>, r: int)
    ensures
        occurrences(s, r) == s.len() <==> forall|i: int| 0 <= i < s.len() ==> s[i] == r,
    decreases s.len(),
{
    if s.len() > 0 {
        lemma_occ_all(s.drop_last(), r);
        lemma_occ_two(s.drop_last(), r, r + 1);
        if forall|i: int| 0 <= i < s.len() ==> s[i] == r {
            assert forall|i: int| 0 <= i < s.len() - 1 implies s.drop_last()[i] == r by {
                assert(s[i] == r);
            }
        }
        if occurrences(s, r) == s.len() {
            assert(s.last() == r);
            assert forall|i: int| 0 <= i < s.len() implies s[i] == r by {
                if i < s.len() - 1 {
                    assert(s.drop_last()[i] == r);
                }
            }
        }
    }
}

/// Relabelling `x` as `y` moves the occurrences of `x` onto `y`.
proof fn lemma_occ_merge(s: Seq<int>, x: int, y: int, r: int)
    requires
        x != y,
    ensures
        occurrences(relabel(s, x, y), r) == if r == y {
            occurrences(s, x) + occurrences(s, y)
        } else if r == x {
            0
        } else {
            occurrences(s, r)
        },
    decreases s.len(),
{
    if s.len() > 0 {
        assert(relabel(s, x, y).drop_last() =~= relabel(s.drop_last(), x, y));
        lemma_occ_merge(s.drop_last(), x, y, r);
    }
}

/// `s` with every `x` replaced by `y`.
pub open spec fn relabel(s: Seq<int>, x: int, y: int) -> Seq<int> {
    s.map_values(|z: int| if z == x { y } else { z })
}

/// `par` is a disjoint-set forest whose elements lead to the roots in `rep`:
/// a root holds minus the size of its set, any other element the index of
/// an element of the same set.
pub open spec fn forest(par: Seq<i32>, rep: Seq<int>) -> bool {
    &&& par.len() == rep.len()
    &&& forall|x: int| 0 <= x < par.len() ==> 0 <= #[trigger] rep[x] < par.len() && rep[rep[x]] == rep[x]
    &&& forall|x: int| 0 <= x < par.len() ==> (#[trigger] par[x] < 0 <==> rep[x] == x)
    &&& forall|x: int|
        0 <= x < par.len() && #[trigger] par[x] >= 0 ==> par[x] < par.len() && rep[par[x] as int] == rep[x]
    &&& forall|x: int| 0 <= x < par.len() && #[trigger] par[x] < 0 ==> -par[x] == occurrences(rep, x)
}

/// A disjoint-set forest over `[0, n)`. `par[x]` is the parent of `x`, or
/// minus the size of its set when `x` is a root.
pub struct UnionFind {
    par: Vec<i32>,
    /// The root that each element leads to.
    rep: Ghost<Seq<int>>,
    /// Strictly increasing along parent links.
    rank: Ghost<Seq<int>>,
}

impl UnionFind {
    /// Number of elements.
    pub closed spec fn size(&self) -> nat {
        self.par@.len()
    }

    /// The representative of each element's set.
    pub closed spec fn parents(&self) -> Seq<i32> {
        self.par@
    }

    pub closed spec fn reps(&self) -> Seq<int> {
        self.rep@
    }

    /// How far `x` is below its representative.
    pub closed spec fn height(&self, x: int) -> int {
        self.rank@[self.rep@[x]] - self.rank@[x]
    }

    /// The ranks, which only grow along parent links.
    pub closed spec fn ranks(&self) -> Seq<int> {
        self.rank@
    }

    pub closed spec fn wf(&self) -> bool {
        let n = self.par@.len() as int;
        &&& n <= i32::MAX
        &&& self.rep@.len() == n
        &&& self.rank@.len() == n
        &&& forall|x: int| 0 <= x < n ==> 0 <= #[trigger] self.rep@[x] < n
        &&& forall|x: int| 0 <= x < n ==> self.rep@[#[trigger] self.rep@[x]] == self.rep@[x]
        &&& forall|x: int| 0 <= x < n ==> (#[trigger] self.par@[x] < 0 <==> self.rep@[x] == x)
        &&& forall|x: int| 0 <= x < n ==> self.rank@[x] <= self.rank@[#[trigger] self.rep@[x]]
        &&& forall|x: int|
            0 <= x < n && #[trigger] self.par@[x] >= 0 ==> self.par@[x] < n && self.rep@[self.par@[x] as int]
                == self.rep@[x] && self.rank@[x] < self.rank@[self.par@[x] as int]
        &&& forall|x: int|
            0 <= x < n && #[trigger] self.par@[x] < 0 ==> -self.par@[x] == occurrences(self.rep@, x)
    }

    /// `n` singleton sets.
    pub fn new(n: usize) -> (r: Self)
        requires
            n <= i32::MAX,
        ensures
            r.wf(),
            r.size() == n,
            forall|x: int| 0 <= x < n ==> #[trigger] r.reps()[x] == x,
            r.parents() == Seq::new(n as nat, |x: int| -1i32),
            forest(r.parents(), r.reps()),
    {
        let par: Vec<i32> = vec![-1i32; n];
        let ghost rep = Seq::new(n as nat, |x: int| x);
        let r = UnionFind { par, rep: Ghost(rep), rank: Ghost(Seq::new(n as nat, |x: int| 0)) };
        assert(r.par@ =~= Seq::new(n as nat, |x: int| -1i32));
        proof {
            assert forall|x: int| 0 <= x < n implies -r.par@[x] == occurrences(rep, x) by {
                lemma_occ_single(rep, x, n as int);
            }
        }
        r
    }

    /// The representative of `x`'s set; flattens the path from `x` to it.
    pub fn root(&mut self, x: usize) -> (r: usize)
        requires
            old(self).wf(),
            x < old(self).size(),
        ensures
            final(self).wf(),
            final(self).size() == old(self).size(),
            final(self).reps() == old(self).reps(),
            final(self).ranks() == old(self).ranks(),
            r == old(self).reps()[x as int],
            forest(final(self).parents(), final(self).reps()),
            final(self).parents().len() == old(self).parents().len(),
            old(self).parents()[x as int] >= 0 ==> final(self).parents()[x as int] == r,
            forall|z: int|
                0 <= z < old(self).parents().len() ==> #[trigger] final(self).parents()[z] == old(self).parents()[z]
                    || (old(self).parents()[z] >= 0 && final(self).parents()[z] == r && old(self).reps()[z] == r),
        decreases old(self).height(x as int),
    {
        if self.par[x] < 0 {
            x
        } else {
            let p = self.par[x] as usize;
            let r = self.root(p);
            let ghost n = self.par@.len() as int;
            assert(self.rank@[x as int] < self.rank@[r as int]);
            let ghost mid = self.par@;
            self.par.set(x, r as i32);
            proof {
                assert forall|z: int|
                    0 <= z < n && #[trigger] self.par@[z] >= 0 implies self.par@[z] < n
                    && self.rep@[self.par@[z] as int] == self.rep@[z] && self.rank@[z]
                    < self.rank@[self.par@[z] as int] by {
                    if z != x as int {
                        assert(mid[z] == self.par@[z]);
                    }
                }
                assert forall|z: int| 0 <= z < n implies (#[trigger] self.par@[z] < 0
                    <==> self.rep@[z] == z) by {
                    if z != x as int {
                        assert(mid[z] == self.par@[z]);
                    }
                }
            }
            r
        }
    }

    /// Merges the sets of `x` and `y`, hanging the smaller under the larger.
    #[verifier::rlimit(40)]
    pub fn unite(&mut self, x: usize, y: usize)
        requires
            old(self).wf(),
            x < old(self).size(),
            y < old(self).size(),
        ensures
            final(self).wf(),
            final(self).size() == old(self).size(),
            ({
                let (o, f) = (old(self).reps(), final(self).reps());
                &&& f[x as int] == f[y as int]
                &&& (f[x as int] == o[x as int] || f[x as int] == o[y as int])
                &&& forall|z: int|
                    0 <= z < o.len() ==> #[trigger] f[z] == if o[z] == o[x as int] || o[z]
                        == o[y as int] {
                        f[x as int]
                    } else {
                        o[z]
                    }
            }),
            forest(final(self).parents(), final(self).reps()),
            final(self).parents().len() == old(self).parents().len(),
            ({
                let (o, f, op) = (old(self).reps(), final(self).parents(), old(self).parents());
                let (rx, ry) = (o[x as int], o[y as int]);
                let (px, py) = (op[rx], op[ry]);
                let (win, lose) = if px < py {
                    (rx, ry)
                } else {
                    (ry, rx)
                };
                &&& rx != ry ==> f[win] == px + py && f[lose] == win && final(self).reps()[x as int] == win
                &&& forall|z: int|
                    0 <= z < op.len() && (rx == ry || (z != lose && z != win)) ==> #[trigger] f[z]
                        == op[z] || (op[z] >= 0 && f[z] == o[z])
            }),
    {
        let ghost op = self.par@;
        let ghost o = self.rep@;
        let ghost (x0, y0) = (x as int, y as int);
        let mut x = self.root(x);
        let ghost p1 = self.par@;
        let mut y = self.root(y);
        let ghost mid = self.par@;
        proof {
            assert forall|z: int| 0 <= z < op.len() implies #[trigger] mid[z] == op[z] || (op[z] >= 0
                && mid[z] == o[z]) by {
                assert(p1[z] == op[z] || (op[z] >= 0 && p1[z] == o[z]));
                assert(mid[z] == p1[z] || (p1[z] >= 0 && mid[z] == o[z]));
            }
            assert(mid[x as int] == op[x as int]);
            assert(mid[y as int] == op[y as int]);
        }
        if x == y {
            return;
        }
        if self.par[x] < self.par[y] {
            let t = x;
            x = y;
            y = t;
        }
        let ghost rep0 = self.rep@;
        let ghost n = self.par@.len() as int;
        proof {
            lemma_occ_two(rep0, x as int, y as int);
        }
        let px = self.par[x];
        let py = self.par[y];
        self.par.set(y, py + px);
        self.par.set(x, y as i32);
        proof {
            assert forall|z: int| 0 <= z < op.len() && z != x as int && z != y as int implies #[trigger] self.par@[z]
                == op[z] || (op[z] >= 0 && self.par@[z] == o[z]) by {
                assert(self.par@[z] == mid[z]);
            }
            let rk = self.rank@;
            let new_rank = if rk[y as int] > rk[x as int] {
                rk[y as int]
            } else {
                rk[x as int] + 1
            };
            self.rank@ = rk.update(y as int, new_rank);
            self.rep@ = relabel(rep0, x as int, y as int);
            assert forall|z: int| 0 <= z < n && #[trigger] self.par@[z] < 0 implies -self.par@[z]
                == occurrences(self.rep@, z) by {
                lemma_occ_merge(rep0, x as int, y as int, z);
            }
            assert forall|z: int|
                0 <= z < n && #[trigger] self.par@[z] >= 0 implies self.par@[z] < n
                && self.rep@[self.par@[z] as int] == self.rep@[z] && self.rank@[z]
                < self.rank@[self.par@[z] as int] by {
                if z != x as int {
                    assert(rep0[self.par@[z] as int] == rep0[z]);
                }
            }
            assert forall|z: int| 0 <= z < n implies self.rank@[z] <= self.rank@[
                #[trigger] self.rep@[z]] by {
                assert(rk[z] <= rk[rep0[z]]);
            }
        }
    }
}

proof fn lemma_occ_single(s: Seq<int>, x: int, n: int)
    requires
        s.len() == n,
        0 <= x < n,
        forall|i: int| 0 <= i < n ==> s[i] == i,
    ensures
        occurrences(s, x) == 1,
    decreases s.len(),
{
    if s.len() - 1 > x {
        lemma_occ_single(s.drop_last(), x, n - 1);
    } else {
        lemma_occ_none(s.drop_last(), x);
    }
}

proof fn lemma_occ_none(s: Seq<int>, x: int)
    requires
        forall|i: int| 0 <= i < s.len() ==> s[i] < x,
    ensures
        occurrences(s, x) == 0,
    decreases s.len(),
{
    if s.len() > 0 {
        lemma_occ_none(s.drop_last(), x);
    }
}

/// Decides whether the edges flagged in `sel` connect all of `[0, n)`.
pub fn check_connectivity(n: usize, edges: &Vec<(usize, usize)>, sel: &Vec<bool>) -> (r: bool)
    requires
        1 <= n <= i32::MAX,
        sel@.len() <= edges@.len(),
        forall|j: int| 0 <= j < edges@.len() ==> #[trigger] edges@[j].0 < n && edges@[j].1 < n,
    ensures
        r == connected(n as int, kept(edges@, sel@)),
{
    let ghost es = kept(edges@, sel@);
    let mut uf = UnionFind::new(n);
    proof {
        assert forall|x: int| 0 <= x < n implies #[trigger] reachable(es, x, uf.reps()[x]) by {
            lemma_reach_refl(es, x);
        }
    }
    let mut i: usize = 0;
    while i < sel.len()
        invariant
            uf.wf(),
            uf.size() == n,
            i <= sel@.len(),
            sel@.len() <= edges@.len(),
            es == kept(edges@, sel@),
            forall|j: int| 0 <= j < edges@.len() ==> #[trigger] edges@[j].0 < n && edges@[j].1 < n,
            forall|x: int| 0 <= x < n ==> #[trigger] reachable(es, x, uf.reps()[x]),
            forall|j: int|
                0 <= j < i && #[trigger] sel@[j] ==> uf.reps()[edges@[j].0 as int] == uf.reps()[
                    edges@[j].1 as int],
        decreases sel@.len() - i,
    {
        if sel[i] {
            let (u, v) = edges[i];
            let ghost o = uf.reps();
            uf.unite(u, v);
            proof {
                let f = uf.reps();
                assert(es.contains(edges@[i as int]));
                assert(linked(es, u as int, v as int));
                lemma_reach_edge(es, u as int, v as int);
                assert forall|x: int| 0 <= x < n implies #[trigger] reachable(es, x, f[x]) by {
                    if o[x] == o[u as int] || o[x] == o[v as int] {
                        // x reaches o[x], which is one of o[u], o[v]; both reach f[u].
                        assert(reachable(es, x, o[x]));
                        assert(reachable(es, u as int, o[u as int]));
                        assert(reachable(es, v as int, o[v as int]));
                        lemma_reach_sym(es, u as int, o[u as int]);
                        lemma_reach_sym(es, v as int, o[v as int]);
                        lemma_reach_trans(es, o[u as int], u as int, v as int);
                        lemma_reach_trans(es, o[u as int], v as int, o[v as int]);
                        lemma_reach_sym(es, o[u as int], o[v as int]);
                        lemma_reach_refl(es, o[u as int]);
                        lemma_reach_refl(es, o[v as int]);
                        if f[u as int] == o[u as int] {
                            lemma_reach_trans(es, x, o[x], o[u as int]);
                        } else {
                            lemma_reach_trans(es, x, o[x], o[v as int]);
                        }
                    } else {
                        assert(reachable(es, x, o[x]));
                    }
                }
                assert forall|j: int|
                    0 <= j < i + 1 && #[trigger] sel@[j] implies f[edges@[j].0 as int] == f[
                    edges@[j].1 as int] by {
                    if j < i {
                        assert(o[edges@[j].0 as int] == o[edges@[j].1 as int]);
                    }
                }
            }
        }
        i = i + 1;
    }
    let r = uf.root(0);
    let full = uf.par[r] == -(n as i32);
    proof {
        let rep = uf.reps();
        lemma_occ_all(rep, r as int);
        if full {
            assert forall|v: int| 0 <= v < n implies #[trigger] reachable(es, 0, v) by {
                assert(reachable(es, v, rep[v]));
                assert(reachable(es, 0, rep[0]));
                lemma_reach_sym(es, v, rep[v]);
                lemma_reach_trans(es, 0, r as int, v);
            }
        } else {
            let v = choose|v: int| 0 <= v < n && rep[v] != r;
            if reachable(es, 0, v) {
                let p = choose|p: Seq<int>| #[trigger] is_walk(es, p) && p[0] == 0 && p.last() == v;
                assert forall|e: (usize, usize)| #[trigger] es.contains(e) implies e.0 < n && e.1 < n
                    && rep[e.0 as int] == rep[e.1 as int] by {
                    let j = choose|j: int| 0 <= j < sel@.len() && #[trigger] sel@[j] && edges@[j] == e;
                }
                lemma_walk_keeps_label(es, rep, p, n as int);
            }
            assert(!reachable(es, 0, v));
        }
    }
    full
}

} // verus!
