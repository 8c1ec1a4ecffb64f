//! Vietoris-Rips complexes: the clique complex of a distance-threshold
//! adjacency relation, built from scratch or incrementally from the
//! complex of a smaller threshold.

use vstd::prelude::*;

use crate::simplex::{strictly_increasing, Simplex};
use crate::simplicial_complex::{
    copy_simplices, insert_simplex_sorted, lex_sorted, lemma_lex_trichotomy, max_dim,
    simplex_seq_wf, views_of, SimplicialComplex,
};

verus! {

/// The adjacency relation of a point set under a distance threshold:
/// `at(i, j)` holds when points `i` and `j` lie within the threshold.
/// Well-formed relations are symmetric and reflexive, as thresholding a
/// distance matrix at a non-negative epsilon makes them.
pub struct Adjacency {
    pub n: usize,
    pub data: Vec<bool>,
}

impl Adjacency {
    /// Entry `(i, j)` of the relation, row-major.
    pub open spec fn at(&self, i: int, j: int) -> bool {
        self.data@[i * self.n + j]
    }

    /// Square storage, symmetric, reflexive.
    pub open spec fn wf(&self) -> bool {
        &&& self.data@.len() == self.n * self.n
        &&& forall|i: int, j: int| 0 <= i < self.n && 0 <= j < self.n ==> #[trigger] self.at(i, j)
            == self.at(j, i)
        &&& forall|i: int| 0 <= i < self.n ==> #[trigger] self.at(i, i)
    }

    /// Wrap a flat row-major relation over `n` points.
    pub fn new(n: usize, data: Vec<bool>) -> (r: Adjacency)
        requires
            data@.len() == n * n,
        ensures
            r.n == n,
            r.data@ == data@,
    {
        Adjacency { n, data }
    }

    /// Read entry `(i, j)`.
    pub fn get(&self, i: usize, j: usize) -> (r: bool)
        requires
            self.wf(),
            i < self.n,
            j < self.n,
        ensures
            r == self.at(i as int, j as int),
    {
        let _len = self.data.len();
        proof {
            assert(0 <= i * self.n + j < self.n * self.n) by (nonlinear_arith)
                requires
                    0 <= i < self.n,
                    0 <= j < self.n,
            ;
        }
        self.data[i * self.n + j]
    }
}

/// `w` is a simplex of the clique complex of `a`: a non-empty increasing
/// sequence of pairwise adjacent points below `a.n`.
pub open spec fn clique_member(a: &Adjacency, w: Seq<usize>) -> bool {
    &&& simplex_seq_wf(w)
    &&& forall|q: int| 0 <= q < w.len() ==> (#[trigger] w[q]) < a.n
    &&& forall|p: int, q: int|
        0 <= p < w.len() && 0 <= q < w.len() ==> #[trigger] a.at(w[p] as int, w[q] as int)
}

/// A clique of at most `b` vertices.
pub open spec fn clique_upto(a: &Adjacency, w: Seq<usize>, b: int) -> bool {
    clique_member(a, w) && w.len() <= b
}

/// `w` holds exactly the vertices of `inn[m]` together with `v`, where
/// `v` is adjacent to all of `inn[m]` — and, when `dim` is set, `inn[m]`
/// has the largest dimension in `inn`.
pub open spec fn extension_of(
    a: &Adjacency,
    inn: Seq<Seq<usize>>,
    dim: bool,
    m: int,
    v: usize,
    w: Seq<usize>,
) -> bool {
    &&& 0 <= m < inn.len()
    &&& (dim ==> inn[m].len() - 1 == max_dim(inn))
    &&& v < a.n
    &&& forall|q: int| 0 <= q < inn[m].len() ==> #[trigger] a.at(v as int, inn[m][q] as int)
    &&& simplex_seq_wf(w)
    &&& forall|y: usize| #[trigger] w.contains(y) <==> (inn[m].contains(y) || y == v)
}

proof fn lemma_increasing_ge(w: Seq<usize>, i: int)
    requires
        strictly_increasing(w),
        0 <= i < w.len(),
    ensures
        w[i] >= i,
    decreases i,
{
    if i > 0 {
        lemma_increasing_ge(w, i - 1);
        assert(w[i - 1] < w[i]);
    }
}

/// A clique has at most as many vertices as there are points.
proof fn lemma_clique_size(a: &Adjacency, w: Seq<usize>)
    requires
        clique_member(a, w),
    ensures
        w.len() <= a.n,
{
    lemma_increasing_ge(w, w.len() - 1);
    assert(w[w.len() - 1] < a.n);
}

/// A non-empty prefix of a clique is a clique.
proof fn lemma_clique_take(a: &Adjacency, w: Seq<usize>, m: int)
    requires
        clique_member(a, w),
        1 <= m <= w.len(),
    ensures
        clique_member(a, w.take(m)),
{
    let u = w.take(m);
    assert forall|p: int, q: int| 0 <= p < u.len() && 0 <= q < u.len() implies #[trigger] a.at(
        u[p] as int,
        u[q] as int,
    ) by {
        assert(u[p] == w[p] && u[q] == w[q]);
        assert(a.at(w[p] as int, w[q] as int));
    }
}

/// Two strictly increasing sequences with the same members are equal.
proof fn lemma_sorted_same_set(a: Seq<usize>, b: Seq<usize>)
    requires
        strictly_increasing(a),
        strictly_increasing(b),
        forall|y: usize| #[trigger] a.contains(y) <==> b.contains(y),
    ensures
        a == b,
    decreases a.len(),
{
    if a.len() == 0 {
        if b.len() > 0 {
            assert(b.contains(b[0]));
            assert(a.contains(b[0]));
            assert(false);
        }
        assert(a =~= b);
    } else {
        assert(a.contains(a[0]));
        assert(b.contains(a[0]));
        assert(b.len() > 0);
        let mb = choose|m: int| 0 <= m < b.len() && b[m] == a[0];
        assert(b[0] <= b[mb]);
        assert(b.contains(b[0]));
        assert(a.contains(b[0]));
        let ma = choose|m: int| 0 <= m < a.len() && a[m] == b[0];
        assert(a[0] <= a[ma]);
        assert(a[0] == b[0]);
        let ta = a.drop_first();
        let tb = b.drop_first();
        assert forall|y: usize| #[trigger] ta.contains(y) <==> tb.contains(y) by {
            assert(ta.contains(y) <==> (a.contains(y) && y > a[0])) by {
                if ta.contains(y) {
                    let q = choose|q: int| 0 <= q < ta.len() && ta[q] == y;
                    assert(a[q + 1] == y);
                    assert(a.contains(y));
                    assert(a[0] < a[q + 1]);
                }
                if a.contains(y) && y > a[0] {
                    let q = choose|q: int| 0 <= q < a.len() && a[q] == y;
                    assert(q > 0);
                    assert(ta[q - 1] == y);
                    assert(ta.contains(y));
                }
            }
            assert(tb.contains(y) <==> (b.contains(y) && y > b[0])) by {
                if tb.contains(y) {
                    let q = choose|q: int| 0 <= q < tb.len() && tb[q] == y;
                    assert(b[q + 1] == y);
                    assert(b.contains(y));
                    assert(b[0] < b[q + 1]);
                }
                if b.contains(y) && y > b[0] {
                    let q = choose|q: int| 0 <= q < b.len() && b[q] == y;
                    assert(q > 0);
                    assert(tb[q - 1] == y);
                    assert(tb.contains(y));
                }
            }
        }
        lemma_sorted_same_set(ta, tb);
        assert forall|i: int| 0 <= i < a.len() implies a[i] == b[i] by {
            if i > 0 {
                assert(ta[i - 1] == a[i]);
                assert(tb[i - 1] == b[i]);
            }
        }
        assert(a =~= b);
    }
}

/// Adding to a clique a vertex adjacent to all of it gives a clique with
/// at most one more vertex.
proof fn lemma_clique_extend(a: &Adjacency, u: Seq<usize>, v: usize, w: Seq<usize>)
    requires
        clique_member(a, u),
        v < a.n,
        forall|q: int| 0 <= q < u.len() ==> #[trigger] a.at(v as int, u[q] as int),
        simplex_seq_wf(w),
        forall|y: usize| #[trigger] w.contains(y) <==> (u.contains(y) || y == v),
        a.wf(),
    ensures
        clique_member(a, w),
        w.len() <= u.len() + 1,
{
    broadcast use vstd::seq_lib::seq_to_set_is_finite;
    broadcast use vstd::set_lib::group_set_properties;

    assert forall|q: int| 0 <= q < w.len() implies (#[trigger] w[q]) < a.n by {
        assert(w.contains(w[q]));
        if u.contains(w[q]) {
            let m = choose|m: int| 0 <= m < u.len() && u[m] == w[q];
        }
    }
    assert forall|p: int, q: int| 0 <= p < w.len() && 0 <= q < w.len() implies #[trigger] a.at(
        w[p] as int,
        w[q] as int,
    ) by {
        assert(w.contains(w[p]));
        assert(w.contains(w[q]));
        let x = w[p];
        let y = w[q];
        if u.contains(x) && u.contains(y) {
            let mx = choose|m: int| 0 <= m < u.len() && u[m] == x;
            let my = choose|m: int| 0 <= m < u.len() && u[m] == y;
            assert(a.at(u[mx] as int, u[my] as int));
        } else if u.contains(x) {
            // y == v
            let mx = choose|m: int| 0 <= m < u.len() && u[m] == x;
            assert(a.at(v as int, u[mx] as int));
        } else if u.contains(y) {
            let my = choose|m: int| 0 <= m < u.len() && u[m] == y;
            assert(a.at(v as int, u[my] as int));
        } else {
            assert(x == v && y == v);
            assert(a.at(v as int, v as int));
        }
    }
    // the vertex set grows by at most one element
    crate::simplex::lemma_strictly_increasing_no_duplicates(u);
    crate::simplex::lemma_strictly_increasing_no_duplicates(w);
    u.unique_seq_to_set();
    w.unique_seq_to_set();
    assert(w.to_set().subset_of(u.to_set().insert(v)));
    vstd::set_lib::lemma_len_subset(w.to_set(), u.to_set().insert(v));
    assert(u.to_set().insert(v).len() <= u.to_set().len() + 1);
}

/// A set of cliques that contains every single point and every one-vertex
/// extension of its members contains every clique.
proof fn lemma_closed_cliques(a: &Adjacency, vv: Seq<Seq<usize>>, w: Seq<usize>)
    requires
        a.wf(),
        forall|u: Seq<usize>| clique_upto(a, u, 1) ==> #[trigger] vv.contains(u),
        forall|m: int, v: usize, x: Seq<usize>| #[trigger] extension_of(a, vv, false, m, v, x)
            ==> vv.contains(x),
        clique_member(a, w),
    ensures
        vv.contains(w),
    decreases w.len(),
{
    if w.len() <= 1 {
        assert(clique_upto(a, w, 1));
    } else {
        let u = w.take(w.len() - 1);
        lemma_clique_take(a, w, w.len() - 1);
        lemma_closed_cliques(a, vv, u);
        let m = choose|m: int| 0 <= m < vv.len() && vv[m] == u;
        let v = w.last();
        assert(extension_of(a, vv, false, m, v, w)) by {
            assert(vv[m] == u);
            assert forall|q: int| 0 <= q < u.len() implies #[trigger] a.at(
                v as int,
                u[q] as int,
            ) by {
                assert(u[q] == w[q]);
                assert(a.at(w[w.len() - 1] as int, w[q] as int));
            }
            assert(v < a.n) by {
                assert(w[w.len() - 1] < a.n);
            }
            assert forall|y: usize| #[trigger] w.contains(y) <==> (u.contains(y) || y == v) by {
                if w.contains(y) {
                    let q = choose|q: int| 0 <= q < w.len() && w[q] == y;
                    if q < w.len() - 1 {
                        assert(u[q] == y);
                        assert(u.contains(y));
                    }
                }
                if u.contains(y) {
                    let q = choose|q: int| 0 <= q < u.len() && u[q] == y;
                    assert(w[q] == y);
                    assert(w.contains(y));
                }
                if y == v {
                    assert(w[w.len() - 1] == y);
                    assert(w.contains(y));
                }
            }
        }
        assert(vv.contains(w));
    }
}

/// Bounds and attainment of the maximal dimension of a set of simplices.
proof fn lemma_max_dim_bounds(vv: Seq<Seq<usize>>)
    requires
        forall|k: int| 0 <= k < vv.len() ==> (#[trigger] vv[k]).len() >= 1,
    ensures
        max_dim(vv) >= 0,
        forall|k: int| 0 <= k < vv.len() ==> (#[trigger] vv[k]).len() - 1 <= max_dim(vv),
        vv.len() > 0 ==> exists|k: int| 0 <= k < vv.len() && (#[trigger] vv[k]).len() - 1
            == max_dim(vv),
    decreases vv.len(),
{
    if vv.len() > 0 {
        assert forall|k: int| 0 <= k < vv.drop_last().len() implies (
        #[trigger] vv.drop_last()[k]).len() >= 1 by {
            assert(vv.drop_last()[k] == vv[k]);
        }
        lemma_max_dim_bounds(vv.drop_last());
        assert forall|k: int| 0 <= k < vv.len() implies (#[trigger] vv[k]).len() - 1 <= max_dim(
            vv,
        ) by {
            if k < vv.len() - 1 {
                assert(vv.drop_last()[k] == vv[k]);
            }
        }
        if max_dim(vv) == vv.last().len() - 1 {
            assert(vv[vv.len() - 1].len() - 1 == max_dim(vv));
        } else {
            assert(vv.drop_last().len() > 0) by {
                if vv.len() == 1 {
                    assert(max_dim(vv.drop_last()) == 0);
                    assert(vv.last().len() - 1 >= 0);
                    assert(max_dim(vv) == vv.last().len() - 1 || max_dim(vv) == 0);
                }
            }
            let k = choose|k: int|
                0 <= k < vv.drop_last().len() && (#[trigger] vv.drop_last()[k]).len() - 1
                    == max_dim(vv.drop_last());
            assert(vv[k].len() - 1 == max_dim(vv));
        }
    }
}

/// Whether `v` is adjacent to every vertex of `s`.
fn all_adjacent(adj: &Adjacency, s: &Simplex, v: usize) -> (r: bool)
    requires
        adj.wf(),
        v < adj.n,
        forall|q: int| 0 <= q < s.vertices@.len() ==> (#[trigger] s.vertices@[q]) < adj.n,
    ensures
        r == forall|q: int|
            0 <= q < s.vertices@.len() ==> #[trigger] adj.at(v as int, s.vertices@[q] as int),
{
    let mut q: usize = 0;
    while q < s.vertices.len()
        invariant
            q <= s.vertices@.len(),
            adj.wf(),
            v < adj.n,
            forall|p: int| 0 <= p < s.vertices@.len() ==> (#[trigger] s.vertices@[p]) < adj.n,
            forall|p: int| 0 <= p < q ==> #[trigger] adj.at(v as int, s.vertices@[p] as int),
        decreases s.vertices@.len() - q,
    {
        if !adj.get(v, s.vertices[q]) {
            return false;
        }
        q += 1;
    }
    true
}

/// One pass of the closure: extend the current simplices (all of them, or
/// only those of maximal dimension) by every adjacent vertex.
fn vr_simplex_step(adj: &Adjacency, simplices: &Vec<Simplex>, dim: bool) -> (out: Vec<Simplex>)
    requires
        adj.wf(),
        simplices@.len() >= 1,
        lex_sorted(views_of(simplices@)),
        forall|k: int| 0 <= k < simplices@.len() ==> (#[trigger] simplices@[k]).wf(),
        forall|k: int, q: int|
            0 <= k < simplices@.len() && 0 <= q < simplices@[k].vertices@.len() ==> (
            #[trigger] simplices@[k].vertices@[q]) < adj.n,
    ensures
        lex_sorted(views_of(out@)),
        forall|k: int| 0 <= k < out@.len() ==> (#[trigger] out@[k]).wf(),
        out@.len() >= simplices@.len(),
        out@.len() == simplices@.len() ==> views_of(out@) == views_of(simplices@),
        forall|w: Seq<usize>| #[trigger] views_of(out@).contains(w) <==> (views_of(
            simplices@,
        ).contains(w) || (exists|m: int, v: usize|
            extension_of(adj, views_of(simplices@), dim, m, v, w))),
{
    let ghost inn = views_of(simplices@);
    // the maximal dimension of the current simplices
    let mut d: usize = 0;
    let mut t: usize = 0;
    while t < simplices.len()
        invariant
            t <= simplices@.len(),
            inn == views_of(simplices@),
            forall|k: int| 0 <= k < simplices@.len() ==> (#[trigger] simplices@[k]).wf(),
            d as int == max_dim(inn.take(t as int)),
            d < usize::MAX,
        decreases simplices@.len() - t,
    {
        let s = &simplices[t];
        let sd = s.dim();
        proof {
            assert(inn.take(t as int + 1).drop_last() =~= inn.take(t as int));
            assert(inn.take(t as int + 1).last() == inn[t as int]);
            assert(inn[t as int] == s.vertices@);
        }
        if sd > d {
            d = sd;
        }
        t += 1;
    }
    proof {
        assert(inn.take(inn.len() as int) =~= inn);
    }
    let mut out = copy_simplices(simplices);
    proof {
        assert(views_of(out@).len() == out@.len());
        assert(views_of(simplices@).len() == simplices@.len());
        assert forall|k: int| 0 <= k < out@.len() implies (#[trigger] out@[k]).wf() by {
            assert(simplices@[k].wf());
        }
    }
    let mut m: usize = 0;
    while m < simplices.len()
        invariant
            m <= simplices@.len(),
            adj.wf(),
            inn == views_of(simplices@),
            simplices@.len() >= 1,
            lex_sorted(inn),
            forall|k: int| 0 <= k < simplices@.len() ==> (#[trigger] simplices@[k]).wf(),
            forall|k: int, q: int|
                0 <= k < simplices@.len() && 0 <= q < simplices@[k].vertices@.len() ==> (
                #[trigger] simplices@[k].vertices@[q]) < adj.n,
            d as int == max_dim(inn),
            lex_sorted(views_of(out@)),
            forall|k: int| 0 <= k < out@.len() ==> (#[trigger] out@[k]).wf(),
            out@.len() >= simplices@.len(),
            out@.len() == simplices@.len() ==> views_of(out@) == views_of(simplices@),
            forall|w: Seq<usize>| #[trigger] views_of(out@).contains(w) ==> (inn.contains(w) || (
            exists|mm: int, v: usize| extension_of(adj, inn, dim, mm, v, w))),
            forall|w: Seq<usize>| inn.contains(w) ==> #[trigger] views_of(out@).contains(w),
            forall|w: Seq<usize>, mm: int, v: usize|
                #[trigger] extension_of(adj, inn, dim, mm, v, w) && mm < m ==> views_of(
                    out@,
                ).contains(w),
        decreases simplices@.len() - m,
    {
        let s = &simplices[m];
        let sd = s.dim();
        let eligible = !dim || sd == d;
        proof {
            assert(inn[m as int] == s.vertices@);
        }
        if eligible {
            let mut v: usize = 0;
            while v < adj.n
                invariant
                    v <= adj.n,
                    m < simplices@.len(),
                    adj.wf(),
                    inn == views_of(simplices@),
                    simplices@.len() >= 1,
                    lex_sorted(inn),
                    forall|k: int| 0 <= k < simplices@.len() ==> (#[trigger] simplices@[k]).wf(),
                    forall|k: int, q: int|
                        0 <= k < simplices@.len() && 0 <= q < simplices@[k].vertices@.len() ==> (
                        #[trigger] simplices@[k].vertices@[q]) < adj.n,
                    d as int == max_dim(inn),
                    inn[m as int] == s.vertices@,
                    s.wf(),
                    !dim || s.vertices@.len() - 1 == d as int,
                    lex_sorted(views_of(out@)),
                    forall|k: int| 0 <= k < out@.len() ==> (#[trigger] out@[k]).wf(),
                    out@.len() >= simplices@.len(),
                    out@.len() == simplices@.len() ==> views_of(out@) == views_of(simplices@),
                    forall|w: Seq<usize>| #[trigger] views_of(out@).contains(w) ==> (inn.contains(
                        w,
                    ) || (exists|mm: int, vv2: usize|
                        extension_of(adj, inn, dim, mm, vv2, w))),
                    forall|w: Seq<usize>| inn.contains(w) ==> #[trigger] views_of(out@).contains(
                        w,
                    ),
                    forall|w: Seq<usize>, mm: int, vv2: usize|
                        #[trigger] extension_of(adj, inn, dim, mm, vv2, w) && (mm < m || (mm == m
                            && vv2 < v)) ==> views_of(out@).contains(w),
                decreases adj.n - v,
            {
                if all_adjacent(adj, s, v) {
                    let t2 = s.add_vertex(v);
                    insert_simplex_sorted(&mut out, t2);
                    proof {
                        assert forall|w: Seq<usize>, mm: int, vv2: usize|
                            #[trigger] extension_of(adj, inn, dim, mm, vv2, w) && (mm < m || (mm
                                == m && vv2 < v + 1)) implies views_of(out@).contains(w) by {
                            if mm == m && vv2 == v {
                                // `w` and the inserted simplex carry the same
                                // vertex set, so they are the same sequence
                                assert forall|y: usize| #[trigger] w.contains(y)
                                    <==> t2.vertices@.contains(y) by {
                                    assert(w.contains(y) <==> (inn[m as int].contains(y) || y
                                        == vv2));
                                }
                                lemma_sorted_same_set(w, t2.vertices@);
                                assert(views_of(out@).contains(t2.vertices@));
                            }
                        }
                        assert forall|w: Seq<usize>| #[trigger] views_of(out@).contains(w)
                            implies (inn.contains(w) || (exists|mm: int, vv2: usize|
                            extension_of(adj, inn, dim, mm, vv2, w))) by {
                            if w == t2.vertices@ {
                                assert(extension_of(adj, inn, dim, m as int, v, w));
                            }
                        }
                    }
                } else {
                    proof {
                        assert forall|w: Seq<usize>, mm: int, vv2: usize|
                            #[trigger] extension_of(adj, inn, dim, mm, vv2, w) && (mm < m || (mm
                                == m && vv2 < v + 1)) implies views_of(out@).contains(w) by {
                            if mm == m && vv2 == v {
                                let q = choose|q: int|
                                    0 <= q < s.vertices@.len() && !adj.at(
                                        v as int,
                                        s.vertices@[q] as int,
                                    );
                                assert(false);
                            }
                        }
                    }
                }
                v += 1;
            }
        } else {
            proof {
                assert forall|w: Seq<usize>, mm: int, vv2: usize|
                    #[trigger] extension_of(adj, inn, dim, mm, vv2, w) && mm < m + 1 implies
                    views_of(out@).contains(w) by {
                    if mm == m {
                        assert(inn[m as int].len() - 1 == max_dim(inn));
                        assert(s.vertices@.len() - 1 == d as int);
                        assert(false);
                    }
                }
            }
        }
        m += 1;
    }
    out
}

/// The closure fixpoint: extend repeatedly until a pass adds nothing.
fn vr_simplices(adj: &Adjacency, simplices: Vec<Simplex>, dim: bool) -> (out: Vec<Simplex>)
    requires
        adj.wf(),
        adj.n >= 1,
        simplices@.len() >= 1,
        lex_sorted(views_of(simplices@)),
        forall|k: int| 0 <= k < simplices@.len() ==> (#[trigger] simplices@[k]).wf(),
        forall|w: Seq<usize>| #[trigger] views_of(simplices@).contains(w) ==> clique_member(
            adj,
            w,
        ),
        forall|w: Seq<usize>| clique_upto(adj, w, 1) ==> #[trigger] views_of(
            simplices@,
        ).contains(w),
        dim ==> forall|w: Seq<usize>| #[trigger] views_of(simplices@).contains(w) <==>
            clique_upto(adj, w, 1),
    ensures
        lex_sorted(views_of(out@)),
        forall|k: int| 0 <= k < out@.len() ==> (#[trigger] out@[k]).wf(),
        forall|w: Seq<usize>| #[trigger] views_of(out@).contains(w) <==> clique_member(adj, w),
{
    let mut cur = simplices;
    let mut pass: usize = 0;
    loop
        invariant
            adj.wf(),
            adj.n >= 1,
            pass < adj.n,
            cur@.len() >= 1,
            lex_sorted(views_of(cur@)),
            forall|k: int| 0 <= k < cur@.len() ==> (#[trigger] cur@[k]).wf(),
            forall|w: Seq<usize>| #[trigger] views_of(cur@).contains(w) ==> clique_member(adj, w),
            forall|w: Seq<usize>| clique_upto(adj, w, pass + 1) ==> #[trigger] views_of(
                cur@,
            ).contains(w),
            dim ==> forall|w: Seq<usize>| #[trigger] views_of(cur@).contains(w) <==> clique_upto(
                adj,
                w,
                pass + 1,
            ),
        decreases adj.n - pass,
    {
        let ghost inn = views_of(cur@);
        proof {
            assert forall|k: int, q: int|
                0 <= k < cur@.len() && 0 <= q < cur@[k].vertices@.len() implies (
            #[trigger] cur@[k].vertices@[q]) < adj.n by {
                assert(inn.contains(inn[k]));
                assert(clique_member(adj, inn[k]));
                assert(inn[k] == cur@[k].vertices@);
            }
        }
        let next = vr_simplex_step(adj, &cur, dim);
        let ghost outn = views_of(next@);
        proof {
            assert forall|k: int| 0 <= k < inn.len() implies (#[trigger] inn[k]).len() >= 1 by {
                assert(inn.contains(inn[k]));
                assert(clique_member(adj, inn[k]));
            }
            lemma_max_dim_bounds(inn);
            // everything produced is a clique of at most one more vertex
            assert forall|w: Seq<usize>| #[trigger] outn.contains(w) implies clique_member(
                adj,
                w,
            ) by {
                if !inn.contains(w) {
                    let (mm, v) = choose|mm: int, v: usize| extension_of(adj, inn, dim, mm, v, w);
                    assert(inn.contains(inn[mm]));
                    lemma_clique_extend(adj, inn[mm], v, w);
                }
            }
            // every clique with up to `pass + 2` vertices is produced
            assert forall|w: Seq<usize>| clique_upto(adj, w, pass + 2) implies
                #[trigger] outn.contains(w) by {
                if w.len() <= pass + 1 {
                    assert(inn.contains(w));
                    assert(outn.contains(w));
                } else {
                    let u = w.take(w.len() - 1);
                    lemma_clique_take(adj, w, w.len() - 1);
                    assert(clique_upto(adj, u, pass + 1));
                    assert(inn.contains(u));
                    let mm = choose|mm: int| 0 <= mm < inn.len() && inn[mm] == u;
                    let v = w.last();
                    assert(extension_of(adj, inn, dim, mm, v, w)) by {
                        if dim {
                            // `u` attains the maximal dimension
                            assert(u.len() == pass + 1);
                            assert forall|k: int| 0 <= k < inn.len() implies (
                            #[trigger] inn[k]).len() - 1 <= pass as int by {
                                assert(inn.contains(inn[k]));
                                assert(clique_upto(adj, inn[k], pass + 1));
                            }
                            assert(max_dim(inn) <= pass as int);
                            assert(inn[mm].len() - 1 == pass as int);
                        }
                        assert(v < adj.n) by {
                            assert(w[w.len() - 1] < adj.n);
                        }
                        assert forall|q: int| 0 <= q < inn[mm].len() implies #[trigger] adj.at(
                            v as int,
                            inn[mm][q] as int,
                        ) by {
                            assert(u[q] == w[q]);
                            assert(adj.at(w[w.len() - 1] as int, w[q] as int));
                        }
                        assert forall|y: usize| #[trigger] w.contains(y) <==> (inn[mm].contains(y)
                            || y == v) by {
                            if w.contains(y) {
                                let q = choose|q: int| 0 <= q < w.len() && w[q] == y;
                                if q < w.len() - 1 {
                                    assert(u[q] == y);
                                    assert(u.contains(y));
                                }
                            }
                            if u.contains(y) {
                                let q = choose|q: int| 0 <= q < u.len() && u[q] == y;
                                assert(w[q] == y);
                                assert(w.contains(y));
                            }
                            if y == v {
                                assert(w[w.len() - 1] == y);
                                assert(w.contains(y));
                            }
                        }
                    }
                    assert(outn.contains(w));
                }
            }
        }
        if next.len() == cur.len() {
            proof {
                assert(outn == inn);
                if dim {
                    // a clique one vertex larger would have been new
                    assert forall|w: Seq<usize>| clique_member(adj, w) implies
                        #[trigger] inn.contains(w) by {
                        if w.len() > pass + 1 {
                            let u = w.take(pass + 2);
                            lemma_clique_take(adj, w, pass + 2);
                            assert(clique_upto(adj, u, pass + 2));
                            assert(inn.contains(u));
                            assert(clique_upto(adj, u, pass + 1));
                            assert(u.len() == pass + 2);
                            assert(false);
                        } else {
                            assert(clique_upto(adj, w, pass + 1));
                        }
                    }
                } else {
                    assert forall|w: Seq<usize>| clique_member(adj, w) implies
                        #[trigger] inn.contains(w) by {
                        assert forall|mm: int, v: usize, x: Seq<usize>|
                            #[trigger] extension_of(adj, inn, false, mm, v, x) implies inn.contains(
                                x,
                            ) by {
                            assert(extension_of(adj, inn, dim, mm, v, x));
                            assert(outn.contains(x));
                        }
                        lemma_closed_cliques(adj, inn, w);
                    }
                }
            }
            return next;
        }
        proof {
            // the pass added a simplex, which must be a clique with more
            // than `pass + 1` vertices, so `pass + 2` points exist
            broadcast use vstd::seq_lib::seq_to_set_is_finite;
            broadcast use vstd::set_lib::group_set_properties;

            assert(outn.len() > inn.len());
            lemma_new_member_exists(inn, outn);
            let wnew = new_member(inn, outn);
            assert(outn.contains(wnew) && !inn.contains(wnew));
            assert(clique_member(adj, wnew));
            assert(wnew.len() > pass + 1) by {
                if wnew.len() <= pass + 1 {
                    assert(clique_upto(adj, wnew, pass + 1));
                    assert(inn.contains(wnew));
                }
            }
            lemma_clique_size(adj, wnew);
            assert(pass + 2 <= adj.n);
        }
        proof {
            if dim {
                assert forall|w: Seq<usize>| #[trigger] outn.contains(w) implies clique_upto(
                    adj,
                    w,
                    pass + 2,
                ) by {
                    if inn.contains(w) {
                        assert(clique_upto(adj, w, pass + 1));
                    } else {
                        let (mm, v) = choose|mm: int, v: usize|
                            extension_of(adj, inn, dim, mm, v, w);
                        assert(inn.contains(inn[mm]));
                        assert(clique_upto(adj, inn[mm], pass + 1));
                        lemma_clique_extend(adj, inn[mm], v, w);
                    }
                }
            }
        }
        cur = next;
        pass += 1;
    }
}

/// Some member of `b` that is not a member of `a` (meaningful when `b`
/// holds more distinct values than `a` has entries).
pub open spec fn new_member(a: Seq<Seq<usize>>, b: Seq<Seq<usize>>) -> Seq<usize> {
    choose|w: Seq<usize>| b.contains(w) && !a.contains(w)
}

/// A lexicographically sorted sequence longer than `a` holds a value
/// outside `a`.
proof fn lemma_new_member_exists(a: Seq<Seq<usize>>, b: Seq<Seq<usize>>)
    requires
        lex_sorted(b),
        b.len() > a.len(),
    ensures
        b.contains(new_member(a, b)),
        !a.contains(new_member(a, b)),
{
    broadcast use vstd::seq_lib::seq_to_set_is_finite;
    broadcast use vstd::set_lib::group_set_properties;

    if forall|w: Seq<usize>| #[trigger] b.contains(w) ==> a.contains(w) {
        assert(b.no_duplicates()) by {
            assert forall|i: int, j: int|
                0 <= i < b.len() && 0 <= j < b.len() && i != j implies b[i] != b[j] by {
                if i < j {
                    lemma_lex_trichotomy(b[i], b[j]);
                } else {
                    lemma_lex_trichotomy(b[j], b[i]);
                }
            }
        }
        b.unique_seq_to_set();
        a.lemma_cardinality_of_set();
        assert(b.to_set().subset_of(a.to_set())) by {
            assert forall|w: Seq<usize>| b.to_set().contains(w) implies a.to_set().contains(
                w,
            ) by {
                assert(b.contains(w));
            }
        }
        vstd::set_lib::lemma_len_subset(b.to_set(), a.to_set());
        assert(false);
    }
    let w = choose|w: Seq<usize>| b.contains(w) && !#[trigger] a.contains(w);
    assert(b.contains(new_member(a, b)) && !a.contains(new_member(a, b)));
}

/// The Vietoris-Rips complex of the relation: its simplices are exactly
/// the non-empty cliques.
pub fn vietoris_rips(adj: &Adjacency) -> (r: SimplicialComplex)
    requires
        adj.wf(),
        adj.n >= 1,
    ensures
        r.wf(),
        forall|w: Seq<usize>| #[trigger] r.has_simplex(w) <==> clique_member(adj, w),
{
    let mut seed: Vec<Simplex> = Vec::new();
    let mut i: usize = 0;
    while i < adj.n
        invariant
            i <= adj.n,
            adj.wf(),
            seed@.len() == i,
            forall|k: int| 0 <= k < i ==> (#[trigger] views_of(seed@)[k]) == seq![k as usize],
            forall|k: int| 0 <= k < i ==> (#[trigger] seed@[k]).wf(),
        decreases adj.n - i,
    {
        let mut v0: Vec<usize> = Vec::new();
        v0.push(i);
        let s = Simplex { vertices: v0 };
        proof {
            assert(s.vertices@ =~= seq![i as usize]);
        }
        let ghost prev = seed@;
        seed.push(s);
        proof {
            assert forall|k: int| 0 <= k < i + 1 implies (#[trigger] views_of(seed@)[k]) == seq![
                k as usize,
            ] by {
                if k < i {
                    assert(seed@[k] == prev[k]);
                    assert(views_of(prev)[k] == prev[k].vertices@);
                    assert(views_of(seed@)[k] == seed@[k].vertices@);
                } else {
                    assert(seed@[k] == s);
                }
            }
        }
        i += 1;
    }
    proof {
        assert forall|p: int, q: int|
            0 <= p < q < views_of(seed@).len() implies crate::simplicial_complex::lex_lt(
            views_of(seed@)[p],
            views_of(seed@)[q],
        ) by {
            assert(views_of(seed@)[p] == seq![p as usize]);
            assert(views_of(seed@)[q] == seq![q as usize]);
            assert(seq![p as usize][0] < seq![q as usize][0]);
        }
        assert forall|w: Seq<usize>| #[trigger] views_of(seed@).contains(w) <==> clique_upto(
            adj,
            w,
            1,
        ) by {
            if views_of(seed@).contains(w) {
                let k = choose|k: int| 0 <= k < views_of(seed@).len() && views_of(seed@)[k] == w;
                assert(w == seq![k as usize]);
                assert(w.len() == 1 && w[0] == k);
                assert(adj.at(k, k));
            }
            if clique_upto(adj, w, 1) {
                assert(w.len() == 1);
                assert(w =~= seq![w[0]]);
                assert(w[0] < adj.n);
                assert(views_of(seed@)[w[0] as int] == seq![w[0]]);
                assert(views_of(seed@).contains(w));
            }
        }
    }
    let closed = vr_simplices(adj, seed, true);
    let r = SimplicialComplex::new(closed);
    r
}

/// The one-vertex sequence holding `i`.
pub open spec fn singleton_seq(i: int) -> Seq<usize> {
    seq![i as usize]
}

/// Monotonicity of the Vietoris-Rips construction: when one relation
/// implies another (as thresholding one distance matrix at a smaller and
/// a larger epsilon does), every clique of the first is a clique of the
/// second.  With `vietoris_rips`'s contract this says that the complex at
/// the smaller threshold is contained in the complex at the larger one.
pub proof fn lemma_vietoris_rips_monotone(a1: &Adjacency, a2: &Adjacency, w: Seq<usize>)
    requires
        a1.n == a2.n,
        forall|i: int, j: int|
            0 <= i < a1.n && 0 <= j < a1.n && #[trigger] a1.at(i, j) ==> a2.at(i, j),
        clique_member(a1, w),
    ensures
        clique_member(a2, w),
{
    assert forall|p: int, q: int| 0 <= p < w.len() && 0 <= q < w.len() implies #[trigger] a2.at(
        w[p] as int,
        w[q] as int,
    ) by {
        assert(a1.at(w[p] as int, w[q] as int));
    }
}

/// Incremental equivalence: a complex that is exactly the Vietoris-Rips
/// complex of a smaller threshold is a valid starting point for
/// `vietoris_rips_step` at a larger one, whose result then has exactly
/// the simplices of the from-scratch construction.
pub proof fn lemma_vietoris_rips_step_seed(a1: &Adjacency, a2: &Adjacency, k: SimplicialComplex)
    requires
        a1.wf(),
        a2.wf(),
        a1.n == a2.n,
        a1.n >= 1,
        forall|i: int, j: int|
            0 <= i < a1.n && 0 <= j < a1.n && #[trigger] a1.at(i, j) ==> a2.at(i, j),
        forall|w: Seq<usize>| #[trigger] k.has_simplex(w) <==> clique_member(a1, w),
    ensures
        forall|w: Seq<usize>| #[trigger] k.has_simplex(w) ==> clique_member(a2, w),
        forall|i: int| 0 <= i < a2.n ==> #[trigger] k.has_simplex(singleton_seq(i)),
{
    assert forall|w: Seq<usize>| #[trigger] k.has_simplex(w) implies clique_member(a2, w) by {
        lemma_vietoris_rips_monotone(a1, a2, w);
    }
    assert forall|i: int| 0 <= i < a2.n implies #[trigger] k.has_simplex(singleton_seq(i)) by {
        let w = singleton_seq(i);
        assert(w.len() == 1 && w[0] == i);
        assert(a1.at(i, i));
        assert(clique_member(a1, w));
    }
}

/// Extend a complex, already correct for a smaller threshold, to the
/// Vietoris-Rips complex of this relation.  The prior complex must hold
/// every single point and only cliques of this relation, which any
/// Vietoris-Rips complex of the same points under a smaller threshold
/// does.
pub fn vietoris_rips_step(adj: &Adjacency, k: SimplicialComplex) -> (r: SimplicialComplex)
    requires
        adj.wf(),
        adj.n >= 1,
        k.wf(),
        forall|w: Seq<usize>| #[trigger] k.has_simplex(w) ==> clique_member(adj, w),
        forall|i: int| 0 <= i < adj.n ==> #[trigger] k.has_simplex(singleton_seq(i)),
    ensures
        r.wf(),
        forall|w: Seq<usize>| #[trigger] r.has_simplex(w) <==> clique_member(adj, w),
{
    proof {
        assert(k.has_simplex(singleton_seq(0)));
        assert(k.simplices@.len() >= 1);
        assert forall|w: Seq<usize>| #[trigger] views_of(k.simplices@).contains(w) implies
            clique_member(adj, w) by {
            assert(k.has_simplex(w));
        }
        assert forall|w: Seq<usize>| clique_upto(adj, w, 1) implies #[trigger] views_of(
            k.simplices@,
        ).contains(w) by {
            assert(w.len() == 1);
            assert(w =~= singleton_seq(w[0] as int));
            assert(w[0] < adj.n);
            assert(k.has_simplex(singleton_seq(w[0] as int)));
        }
    }
    let closed = vr_simplices(adj, k.simplices, false);
    SimplicialComplex::new(closed)
}

} // verus!
