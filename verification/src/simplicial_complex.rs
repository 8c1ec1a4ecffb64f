//! Simplicial complexes: finite sets of simplices together with the union
//! of their vertex sets, kept in canonical (lexicographic) order.

use vstd::prelude::*;

use crate::simplex::{
    strictly_increasing, Simplex, copy_vec_usize, insert_sorted, pow_neg_one, vec_usize_eq,
};

verus! {

/// The vertex sequences of a sequence of simplices.
pub open spec fn views_of(ss: Seq<Simplex>) -> Seq<Seq<usize>> {
    ss.map_values(|s: Simplex| s.vertices@)
}

/// A well-formed vertex sequence: non-empty and strictly increasing.
pub open spec fn simplex_seq_wf(v: Seq<usize>) -> bool {
    v.len() >= 1 && strictly_increasing(v)
}

/// Lexicographic order on vertex sequences; the canonical total order on
/// simplices.
pub open spec fn lex_lt(a: Seq<usize>, b: Seq<usize>) -> bool
    decreases a.len(),
{
    if b.len() == 0 {
        false
    } else if a.len() == 0 {
        true
    } else if a[0] < b[0] {
        true
    } else if a[0] > b[0] {
        false
    } else {
        lex_lt(a.drop_first(), b.drop_first())
    }
}

/// Of two vertex sequences, either one is lexicographically below the
/// other, or they are equal.
pub proof fn lemma_lex_trichotomy(a: Seq<usize>, b: Seq<usize>)
    ensures
        !lex_lt(a, b) && !lex_lt(b, a) ==> a == b,
        lex_lt(a, b) ==> a != b,
    decreases a.len(),
{
    if lex_lt(a, b) {
        if a.len() > 0 && b.len() > 0 && a[0] == b[0] {
            lemma_lex_trichotomy(a.drop_first(), b.drop_first());
        }
        if a == b {
            if a.len() > 0 {
                assert(a.drop_first() == b.drop_first());
            }
            assert(false);
        }
    } else if !lex_lt(b, a) {
        if b.len() == 0 {
            if a.len() > 0 {
                assert(lex_lt(b, a));
            }
            assert(a =~= b);
        } else {
            assert(a.len() > 0);
            assert(a[0] == b[0]);
            lemma_lex_trichotomy(a.drop_first(), b.drop_first());
            assert(a.drop_first() == b.drop_first());
            assert forall|i: int| 0 <= i < a.len() implies a[i] == b[i] by {
                if i > 0 {
                    assert(a.drop_first()[i - 1] == a[i]);
                    assert(b.drop_first()[i - 1] == b[i]);
                }
            }
            assert(a =~= b);
        }
    }
}

/// Equal prefixes do not affect the lexicographic comparison.
proof fn lemma_lex_skip(a: Seq<usize>, b: Seq<usize>, k: int)
    requires
        0 <= k <= a.len(),
        k <= b.len(),
        forall|q: int| 0 <= q < k ==> a[q] == b[q],
    ensures
        lex_lt(a, b) == lex_lt(a.skip(k), b.skip(k)),
    decreases k,
{
    if k > 0 {
        assert(a.len() > 0 && b.len() > 0 && a[0] == b[0]);
        assert(lex_lt(a, b) == lex_lt(a.drop_first(), b.drop_first()));
        assert(a.drop_first().len() == a.len() - 1);
        lemma_lex_skip(a.drop_first(), b.drop_first(), k - 1);
        assert(a.drop_first().skip(k - 1) =~= a.skip(k));
        assert(b.drop_first().skip(k - 1) =~= b.skip(k));
    } else {
        assert(a.skip(0) =~= a);
        assert(b.skip(0) =~= b);
    }
}

/// Lexicographic comparison of two vertex vectors.
pub(crate) fn lex_less(a: &Vec<usize>, b: &Vec<usize>) -> (r: bool)
    ensures
        r == lex_lt(a@, b@),
{
    let mut k: usize = 0;
    loop
        invariant
            k <= a@.len(),
            k <= b@.len(),
            forall|q: int| 0 <= q < k ==> a@[q] == b@[q],
        decreases a@.len() - k,
    {
        if k == b.len() {
            proof {
                lemma_lex_skip(a@, b@, k as int);
                assert(b@.skip(k as int).len() == 0);
            }
            return false;
        }
        if k == a.len() {
            proof {
                lemma_lex_skip(a@, b@, k as int);
                assert(a@.skip(k as int).len() == 0);
                assert(b@.skip(k as int).len() > 0);
            }
            return true;
        }
        let av = a[k];
        let bv = b[k];
        if av < bv || av > bv {
            proof {
                lemma_lex_skip(a@, b@, k as int);
                assert(a@.skip(k as int)[0] == a@[k as int]);
                assert(b@.skip(k as int)[0] == b@[k as int]);
            }
            return av < bv;
        }
        k += 1;
    }
}

/// A sequence of vertex sequences in strictly increasing lexicographic
/// order (so also free of duplicates).
pub open spec fn lex_sorted(vv: Seq<Seq<usize>>) -> bool {
    forall|i: int, j: int| 0 <= i < j < vv.len() ==> lex_lt(vv[i], vv[j])
}

/// Insert a simplex into a lexicographically sorted vector, keeping the
/// order; a no-op when the same vertex sequence is already present.
pub(crate) fn insert_simplex_sorted(v: &mut Vec<Simplex>, x: Simplex)
    requires
        x.wf(),
        lex_sorted(views_of(old(v)@)),
        forall|q: int| 0 <= q < old(v)@.len() ==> (#[trigger] old(v)@[q]).wf(),
    ensures
        lex_sorted(views_of(final(v)@)),
        forall|q: int| 0 <= q < final(v)@.len() ==> (#[trigger] final(v)@[q]).wf(),
        forall|w: Seq<usize>| #[trigger] views_of(final(v)@).contains(w) <==> (views_of(
            old(v)@,
        ).contains(w) || w == x.vertices@),
        old(v)@.len() <= final(v)@.len() <= old(v)@.len() + 1,
        final(v)@.len() == old(v)@.len() ==> views_of(final(v)@) == views_of(old(v)@),
{
    let ghost s0 = views_of(v@);
    let mut i: usize = 0;
    while i < v.len() && lex_less(&v[i as usize].vertices, &x.vertices)
        invariant
            i <= v@.len(),
            views_of(v@) == s0,
            v@ == old(v)@,
            lex_sorted(s0),
            forall|q: int| 0 <= q < i ==> lex_lt(s0[q], x.vertices@),
        decreases v@.len() - i,
    {
        proof {
            assert(s0[i as int] == v@[i as int].vertices@);
        }
        i += 1;
    }
    if i < v.len() {
        if vec_usize_eq(&v[i].vertices, &x.vertices) {
            proof {
                assert(views_of(v@)[i as int] == x.vertices@);
                assert(views_of(v@).contains(x.vertices@));
            }
            return;
        }
    }
    proof {
        if i < v@.len() {
            assert(!lex_lt(s0[i as int], x.vertices@));
            lemma_lex_trichotomy(s0[i as int], x.vertices@);
            assert(lex_lt(x.vertices@, s0[i as int]));
        }
    }
    v.insert(i, x);
    proof {
        let s1 = views_of(v@);
        assert(v@ == old(v)@.insert(i as int, x));
        assert forall|k: int| 0 <= k < s1.len() implies
            (if k < i { s1[k] == s0[k] } else if k == i { s1[k] == x.vertices@ } else {
                s1[k] == s0[k - 1]
            }) by {
            if k < i {
                assert(v@[k] == old(v)@[k]);
            } else if k > i {
                assert(v@[k] == old(v)@[k - 1]);
            }
        }
        assert forall|p: int, q: int| 0 <= p < q < s1.len() implies lex_lt(s1[p], s1[q]) by {
            if q < i {
            } else if p > i {
            } else if p < i && q == i {
                assert(s1[p] == s0[p]);
                assert(lex_lt(s0[p], x.vertices@));
            } else if p == i && q > i {
                assert(s1[q] == s0[q - 1]);
                if q - 1 == i {
                    assert(lex_lt(x.vertices@, s0[i as int]));
                } else {
                    assert(lex_lt(x.vertices@, s0[i as int]));
                    assert(lex_lt(s0[i as int], s0[q - 1]));
                    lemma_lex_transitive(x.vertices@, s0[i as int], s0[q - 1]);
                }
            } else if p < i && q > i {
                assert(s1[p] == s0[p] && s1[q] == s0[q - 1]);
                assert(p < q - 1);
                assert(lex_lt(s0[p], s0[q - 1]));
            }
        }
        assert forall|w: Seq<usize>| #[trigger] s1.contains(w) implies (s0.contains(w)
            || w == x.vertices@) by {
            let k = choose|k: int| 0 <= k < s1.len() && s1[k] == w;
            if k < i {
                assert(s0[k] == w);
            } else if k > i {
                assert(s0[k - 1] == w);
            }
        }
        assert forall|w: Seq<usize>| (s0.contains(w) || w == x.vertices@) implies
            #[trigger] s1.contains(w) by {
            if w == x.vertices@ {
                assert(s1[i as int] == w);
            } else {
                let k = choose|k: int| 0 <= k < s0.len() && s0[k] == w;
                if k < i {
                    assert(s1[k] == w);
                } else {
                    assert(s1[k + 1] == w);
                }
            }
        }
        assert forall|q: int| 0 <= q < v@.len() implies (#[trigger] v@[q]).wf() by {
            if q < i {
                assert(v@[q] == old(v)@[q]);
            } else if q > i {
                assert(v@[q] == old(v)@[q - 1]);
            }
        }
    }
}

/// Lexicographic order is transitive.
pub proof fn lemma_lex_transitive(a: Seq<usize>, b: Seq<usize>, c: Seq<usize>)
    requires
        lex_lt(a, b),
        lex_lt(b, c),
    ensures
        lex_lt(a, c),
    decreases a.len() + b.len() + c.len(),
{
    assert(b.len() > 0 && c.len() > 0);
    if a.len() == 0 {
    } else {
        if a[0] < b[0] {
            if b[0] < c[0] {
            } else {
                assert(b[0] == c[0]);
            }
        } else {
            assert(a[0] == b[0]);
            if b[0] < c[0] {
            } else {
                assert(b[0] == c[0]);
                lemma_lex_transitive(a.drop_first(), b.drop_first(), c.drop_first());
            }
        }
    }
}

/// A simplicial complex: a canonical set of simplices and the union of
/// their vertex sets.
#[derive(Clone, Debug)]
pub struct SimplicialComplex {
    pub vertices: Vec<usize>,
    pub simplices: Vec<Simplex>,
}

impl SimplicialComplex {
    /// The vertex sequences of the member simplices, in canonical order.
    pub open spec fn srep(&self) -> Seq<Seq<usize>> {
        views_of(self.simplices@)
    }

    /// The complex holds a simplex with exactly these vertices.
    pub open spec fn has_simplex(&self, w: Seq<usize>) -> bool {
        self.srep().contains(w)
    }

    /// Canonical form: simplices well-formed and lexicographically sorted,
    /// vertices strictly increasing and exactly the union of the members'
    /// vertex sets.
    pub open spec fn wf(&self) -> bool {
        &&& strictly_increasing(self.vertices@)
        &&& lex_sorted(self.srep())
        &&& forall|q: int| 0 <= q < self.simplices@.len() ==> (#[trigger] self.simplices@[q]).wf()
        &&& forall|y: usize| #[trigger] self.vertices@.contains(y) <==> (exists|k: int|
            0 <= k < self.srep().len() && (#[trigger] self.srep()[k]).contains(y))
    }

    /// Build a complex from a set of simplices; the vertex set is derived
    /// as the union of the members' vertex sets.
    pub fn new(simplices: Vec<Simplex>) -> (r: SimplicialComplex)
        requires
            forall|q: int| 0 <= q < simplices@.len() ==> (#[trigger] simplices@[q]).wf(),
        ensures
            r.wf(),
            forall|w: Seq<usize>| #[trigger] r.has_simplex(w) <==> views_of(simplices@).contains(
                w,
            ),
    {
        let mut sorted: Vec<Simplex> = Vec::new();
        let mut k: usize = 0;
        while k < simplices.len()
            invariant
                k <= simplices@.len(),
                forall|q: int| 0 <= q < simplices@.len() ==> (#[trigger] simplices@[q]).wf(),
                lex_sorted(views_of(sorted@)),
                forall|q: int| 0 <= q < sorted@.len() ==> (#[trigger] sorted@[q]).wf(),
                forall|w: Seq<usize>| #[trigger] views_of(sorted@).contains(w) <==> (exists|q: int|
                    0 <= q < k && views_of(simplices@)[q] == w),
            decreases simplices@.len() - k,
        {
            let s = &simplices[k];
            let copy = Simplex { vertices: copy_vec_usize(&s.vertices) };
            proof {
                assert(copy.vertices@ == simplices@[k as int].vertices@);
                assert(simplices@[k as int].wf());
            }
            insert_simplex_sorted(&mut sorted, copy);
            proof {
                let x = views_of(simplices@)[k as int];
                assert(x == copy.vertices@);
                assert forall|w: Seq<usize>| #[trigger] views_of(sorted@).contains(w) implies (
                    exists|q: int| 0 <= q < k + 1 && views_of(simplices@)[q] == w) by {
                    if w == x {
                        assert(views_of(simplices@)[k as int] == w);
                    }
                }
                assert forall|w: Seq<usize>| (exists|q: int|
                    0 <= q < k + 1 && views_of(simplices@)[q] == w) implies #[trigger] views_of(
                    sorted@,
                ).contains(w) by {
                    let q = choose|q: int| 0 <= q < k + 1 && views_of(simplices@)[q] == w;
                    if q < k {
                        assert(views_of(sorted@).contains(w));
                    }
                }
            }
            k += 1;
        }
        proof {
            assert forall|w: Seq<usize>| #[trigger] views_of(sorted@).contains(w) implies
                views_of(simplices@).contains(w) by {
                let q = choose|q: int| 0 <= q < simplices@.len() && views_of(simplices@)[q] == w;
            }
            assert forall|w: Seq<usize>| views_of(simplices@).contains(w) implies
                #[trigger] views_of(sorted@).contains(w) by {
                let q = choose|q: int|
                    0 <= q < views_of(simplices@).len() && views_of(simplices@)[q] == w;
                assert(views_of(sorted@).contains(w));
            }
        }
        let vertices = collect_vertices(&sorted);
        SimplicialComplex { vertices, simplices: sorted }
    }

    /// All member simplices of dimension `k`, in canonical order.
    pub fn dim_simplices(&self, k: usize) -> (r: Vec<Simplex>)
        requires
            self.wf(),
        ensures
            views_of(r@) == dim_filter(self.srep(), k as int),
            forall|q: int| 0 <= q < r@.len() ==> (#[trigger] r@[q]).wf(),
    {
        let mut out: Vec<Simplex> = Vec::new();
        let mut i: usize = 0;
        while i < self.simplices.len()
            invariant
                i <= self.simplices@.len(),
                self.wf(),
                views_of(out@) == dim_filter(self.srep().take(i as int), k as int),
                forall|q: int| 0 <= q < out@.len() ==> (#[trigger] out@[q]).wf(),
            decreases self.simplices@.len() - i,
        {
            let s = &self.simplices[i];
            let ghost pre = self.srep().take(i as int);
            proof {
                assert(self.srep().take(i as int + 1) =~= pre.push(self.srep()[i as int]));
                lemma_dim_filter_push(pre, self.srep()[i as int], k as int);
                assert(self.srep()[i as int] == s.vertices@);
            }
            if s.vertices.len() == k.wrapping_add(1) && k != usize::MAX {
                let copy = Simplex { vertices: copy_vec_usize(&s.vertices) };
                out.push(copy);
                proof {
                    assert(views_of(out@) =~= dim_filter(pre, k as int).push(s.vertices@));
                }
            } else {
                proof {
                    if s.vertices@.len() == k as int + 1 {
                        assert(k != usize::MAX);
                        assert(s.vertices@.len() == k.wrapping_add(1));
                        assert(false);
                    }
                }
            }
            i += 1;
        }
        proof {
            assert(self.srep().take(self.srep().len() as int) =~= self.srep());
        }
        out
    }

    /// The dimension of the complex: the largest member dimension, or zero
    /// when the complex is empty.
    pub fn dim(&self) -> (r: usize)
        requires
            self.wf(),
        ensures
            r as int == max_dim(self.srep()),
            r < usize::MAX,
            forall|k: int| 0 <= k < self.srep().len() ==> (#[trigger] self.srep()[k]).len() - 1
                <= r as int,
            self.srep().len() > 0 ==> exists|k: int| 0 <= k < self.srep().len() && (
            #[trigger] self.srep()[k]).len() - 1 == r as int,
    {
        let mut best: usize = 0;
        let mut i: usize = 0;
        while i < self.simplices.len()
            invariant
                i <= self.simplices@.len(),
                self.wf(),
                best < usize::MAX,
                best as int == max_dim(self.srep().take(i as int)),
                forall|k: int| 0 <= k < i ==> (#[trigger] self.srep()[k]).len() - 1 <= best as int,
                i > 0 && best > 0 ==> exists|k: int| 0 <= k < i && (#[trigger] self.srep()[
                    k
                ]).len() - 1 == best as int,
                best == 0 && i > 0 ==> exists|k: int| 0 <= k < i && (#[trigger] self.srep()[
                    k
                ]).len() - 1 == 0,
            decreases self.simplices@.len() - i,
        {
            let s = &self.simplices[i];
            let d = s.dim();
            proof {
                let pre = self.srep().take(i as int);
                assert(self.srep().take(i as int + 1).drop_last() =~= pre);
                assert(self.srep().take(i as int + 1).last() == self.srep()[i as int]);
                assert(self.srep()[i as int] == s.vertices@);
            }
            if d > best {
                best = d;
            }
            proof {
                if s.vertices@.len() - 1 == best as int {
                    assert(self.srep()[i as int].len() - 1 == best as int);
                }
            }
            i += 1;
        }
        proof {
            assert(self.srep().take(self.srep().len() as int) =~= self.srep());
        }
        best
    }
}

/// The members of `vv` with exactly `k + 1` vertices (dimension `k`), in
/// their given order.
pub open spec fn dim_filter(vv: Seq<Seq<usize>>, k: int) -> Seq<Seq<usize>> {
    vv.filter(|v: Seq<usize>| v.len() == k + 1)
}

/// `filter` over a sequence extended by one element.
proof fn lemma_dim_filter_push(vv: Seq<Seq<usize>>, x: Seq<usize>, k: int)
    ensures
        dim_filter(vv.push(x), k) == if x.len() == k + 1 {
            dim_filter(vv, k).push(x)
        } else {
            dim_filter(vv, k)
        },
{
    reveal(Seq::filter);
    assert(vv.push(x).drop_last() =~= vv);
    assert(vv.push(x).last() == x);
}

/// The largest dimension (vertex count less one) in a sequence of vertex
/// sequences, or zero for the empty sequence.
pub open spec fn max_dim(vv: Seq<Seq<usize>>) -> int
    decreases vv.len(),
{
    if vv.len() == 0 {
        0
    } else {
        let rest = max_dim(vv.drop_last());
        let dl = vv.last().len() - 1;
        if dl > rest {
            dl
        } else {
            rest
        }
    }
}

/// The sorted union of the member simplices' vertex sets.
pub(crate) fn collect_vertices(ss: &Vec<Simplex>) -> (r: Vec<usize>)
    ensures
        strictly_increasing(r@),
        forall|y: usize| #[trigger] r@.contains(y) <==> (exists|k: int|
            0 <= k < views_of(ss@).len() && (#[trigger] views_of(ss@)[k]).contains(y)),
{
    let mut out: Vec<usize> = Vec::new();
    let mut i: usize = 0;
    while i < ss.len()
        invariant
            i <= ss@.len(),
            strictly_increasing(out@),
            forall|y: usize| #[trigger] out@.contains(y) <==> (exists|k: int|
                0 <= k < i && (#[trigger] views_of(ss@)[k]).contains(y)),
        decreases ss@.len() - i,
    {
        let s = &ss[i];
        let mut j: usize = 0;
        while j < s.vertices.len()
            invariant
                j <= s.vertices@.len(),
                *s == ss@[i as int],
                i < ss@.len(),
                strictly_increasing(out@),
                forall|y: usize| #[trigger] out@.contains(y) <==> ((exists|k: int|
                    0 <= k < i && (#[trigger] views_of(ss@)[k]).contains(y)) || (exists|q: int|
                    0 <= q < j && s.vertices@[q] == y)),
            decreases s.vertices@.len() - j,
        {
            let x = s.vertices[j];
            insert_sorted(&mut out, x);
            proof {
                assert forall|y: usize| #[trigger] out@.contains(y) implies ((exists|k: int|
                    0 <= k < i && (#[trigger] views_of(ss@)[k]).contains(y)) || (exists|q: int|
                    0 <= q < j + 1 && s.vertices@[q] == y)) by {
                    if y == x {
                        assert(s.vertices@[j as int] == y);
                    }
                }
                assert forall|y: usize| ((exists|k: int|
                    0 <= k < i && (#[trigger] views_of(ss@)[k]).contains(y)) || (exists|q: int|
                    0 <= q < j + 1 && s.vertices@[q] == y)) implies #[trigger] out@.contains(
                    y,
                ) by {
                    if exists|q: int| 0 <= q < j + 1 && s.vertices@[q] == y {
                        let q = choose|q: int| 0 <= q < j + 1 && s.vertices@[q] == y;
                        if q == j {
                            assert(y == x);
                        } else {
                            assert(out@.contains(y));
                        }
                    } else {
                        assert(out@.contains(y));
                    }
                }
            }
            j += 1;
        }
        proof {
            assert forall|y: usize| #[trigger] out@.contains(y) implies ((exists|k: int|
                0 <= k < i + 1 && (#[trigger] views_of(ss@)[k]).contains(y))) by {
                if exists|q: int| 0 <= q < s.vertices@.len() && s.vertices@[q] == y {
                    assert(views_of(ss@)[i as int].contains(y));
                }
            }
            assert forall|y: usize| ((exists|k: int|
                0 <= k < i + 1 && (#[trigger] views_of(ss@)[k]).contains(y))) implies
                #[trigger] out@.contains(y) by {
                let k = choose|k: int|
                    0 <= k < i + 1 && (#[trigger] views_of(ss@)[k]).contains(y);
                if k == i {
                    let w = views_of(ss@)[i as int];
                    assert(w == s.vertices@);
                    let q = choose|q: int| 0 <= q < w.len() && w[q] == y;
                    assert(s.vertices@[q] == y);
                } else {
                    assert(out@.contains(y));
                }
            }
        }
        i += 1;
    }
    out
}

/// Alternating sum, over `i < n`, of `(-1)^i` times the number of
/// `i`-dimensional members.
pub open spec fn euler_partial(vv: Seq<Seq<usize>>, n: nat) -> int
    decreases n,
{
    if n == 0 {
        0
    } else {
        euler_partial(vv, (n - 1) as nat) + pow_neg_one(n - 1) * dim_filter(vv, n - 1).len()
    }
}

/// The Euler characteristic of a complex: the alternating sum of its
/// simplex counts by dimension, up to and including its dimension.
pub open spec fn spec_euler(c: SimplicialComplex) -> int {
    euler_partial(c.srep(), (max_dim(c.srep()) + 1) as nat)
}

/// Total count, over `i < n`, of the `i`-dimensional members.
pub open spec fn sum_dim_counts(vv: Seq<Seq<usize>>, n: nat) -> int
    decreases n,
{
    if n == 0 {
        0
    } else {
        sum_dim_counts(vv, (n - 1) as nat) + dim_filter(vv, n - 1).len()
    }
}

proof fn lemma_filter_none(vv: Seq<Seq<usize>>, p: spec_fn(Seq<usize>) -> bool)
    requires
        forall|v: Seq<usize>| !(#[trigger] p(v)),
    ensures
        vv.filter(p).len() == 0,
    decreases vv.len(),
{
    reveal(Seq::filter);
    if vv.len() > 0 {
        lemma_filter_none(vv.drop_last(), p);
    }
}

proof fn lemma_filter_split(
    vv: Seq<Seq<usize>>,
    p: spec_fn(Seq<usize>) -> bool,
    q: spec_fn(Seq<usize>) -> bool,
    pq: spec_fn(Seq<usize>) -> bool,
)
    requires
        forall|v: Seq<usize>| #[trigger] pq(v) == (p(v) || q(v)),
        forall|v: Seq<usize>| !(#[trigger] p(v) && q(v)),
    ensures
        vv.filter(pq).len() == vv.filter(p).len() + vv.filter(q).len(),
    decreases vv.len(),
{
    reveal(Seq::filter);
    if vv.len() > 0 {
        lemma_filter_split(vv.drop_last(), p, q, pq);
        assert(pq(vv.last()) == (p(vv.last()) || q(vv.last())));
    }
}

/// Counting members dimension by dimension counts each member at most
/// once: the per-dimension counts up to any bound sum to at most the
/// total number of members.
proof fn lemma_sum_dim_counts_le(vv: Seq<Seq<usize>>, n: nat)
    requires
        forall|k: int| 0 <= k < vv.len() ==> (#[trigger] vv[k]).len() >= 1,
    ensures
        0 <= sum_dim_counts(vv, n) <= vv.len(),
        sum_dim_counts(vv, n) == vv.filter(|v: Seq<usize>| 1 <= v.len() <= n).len(),
    decreases n,
{
    broadcast use vstd::seq_lib::group_seq_properties;

    if n == 0 {
        lemma_filter_none(vv, |v: Seq<usize>| 1 <= v.len() <= 0);
    } else {
        lemma_sum_dim_counts_le(vv, (n - 1) as nat);
        let p = |v: Seq<usize>| 1 <= v.len() <= n - 1;
        let q = |v: Seq<usize>| v.len() == (n - 1) + 1;
        let pq = |v: Seq<usize>| 1 <= v.len() <= n;
        assert forall|v: Seq<usize>| #[trigger] pq(v) == (p(v) || q(v)) by {
        }
        lemma_filter_split(vv, p, q, pq);
        vv.lemma_filter_len(pq);
    }
}

impl SimplicialComplex {
    /// The Euler characteristic: the alternating sum, over the dimensions
    /// `0..=dim()`, of `(-1)^i` times the number of `i`-simplices.
    pub fn euler(&self) -> (r: i64)
        requires
            self.wf(),
            self.simplices@.len() <= i64::MAX,
        ensures
            r as int == spec_euler(*self),
    {
        let d = self.dim();
        let mut acc: i64 = 0;
        let mut i: usize = 0;
        while i <= d
            invariant
                i <= d + 1,
                d < usize::MAX,
                self.wf(),
                self.simplices@.len() <= i64::MAX,
                acc as int == euler_partial(self.srep(), i as nat),
                -sum_dim_counts(self.srep(), i as nat) <= acc as int <= sum_dim_counts(
                    self.srep(),
                    i as nat,
                ),
                0 <= sum_dim_counts(self.srep(), i as nat) <= self.srep().len(),
            decreases d + 1 - i,
    {
            let layer = self.dim_simplices(i);
            let cnt = layer.len();
            proof {
                assert(views_of(layer@).len() == layer@.len());
                lemma_sum_dim_counts_le(self.srep(), (i + 1) as nat);
            }
            if i % 2 == 0 {
                acc = acc + cnt as i64;
            } else {
                acc = acc - cnt as i64;
            }
            i += 1;
        }
        acc
    }

    /// The full `k`-simplex together with all of its faces: every
    /// non-empty subset of the vertex labels `0..=k`.
    pub fn solid(k: usize) -> (r: SimplicialComplex)
        requires
            k < usize::MAX,
        ensures
            r.wf(),
            forall|w: Seq<usize>| #[trigger] r.has_simplex(w) <==> solid_member(w, k as int),
            forall|y: usize| #[trigger] r.vertices@.contains(y) <==> y <= k,
    {
        let mut acc: Vec<Simplex> = Vec::new();
        let mut v0: Vec<usize> = Vec::new();
        v0.push(0);
        acc.push(Simplex { vertices: v0 });
        proof {
            assert(views_of(acc@).len() == 1);
            assert(views_of(acc@)[0] == acc@[0].vertices@);
            lemma_solid_base(views_of(acc@));
        }
        let mut j: usize = 1;
        while j <= k
            invariant
                1 <= j <= k + 1,
                k < usize::MAX,
                lex_sorted(views_of(acc@)),
                forall|q: int| 0 <= q < acc@.len() ==> (#[trigger] acc@[q]).wf(),
                forall|w: Seq<usize>| #[trigger] views_of(acc@).contains(w) <==> solid_member(
                    w,
                    j - 1,
                ),
            decreases k + 1 - j,
        {
            let mut out = copy_simplices(&acc);
            let ghost prev = views_of(acc@);
            proof {
                assert(views_of(out@).len() == out@.len());
                assert(views_of(acc@).len() == acc@.len());
                assert forall|q: int| 0 <= q < out@.len() implies (#[trigger] out@[q]).wf() by {
                    assert(acc@[q].wf());
                }
            }
            let mut m: usize = 0;
            while m < acc.len()
                invariant
                    m <= acc@.len(),
                    j <= k,
                    views_of(acc@) == prev,
                    lex_sorted(prev),
                    forall|q: int| 0 <= q < acc@.len() ==> (#[trigger] acc@[q]).wf(),
                    forall|w: Seq<usize>| #[trigger] prev.contains(w) <==> solid_member(
                        w,
                        j - 1,
                    ),
                    lex_sorted(views_of(out@)),
                    forall|q: int| 0 <= q < out@.len() ==> (#[trigger] out@[q]).wf(),
                    forall|w: Seq<usize>| #[trigger] views_of(out@).contains(w) <==> (
                    prev.contains(w) || (exists|mm: int|
                        0 <= mm < m && w == (#[trigger] prev[mm]).push(j as usize))),
                decreases acc@.len() - m,
            {
                let s = &acc[m];
                proof {
                    assert(prev[m as int] == s.vertices@);
                    assert(prev.contains(prev[m as int]));
                    assert(solid_member(s.vertices@, j - 1));
                    assert forall|q: int| 0 <= q < s.vertices@.len() implies s.vertices@[q] < (
                    j as usize) by {
                        assert(s.vertices@[q] <= j - 1);
                    }
                }
                let t = s.add_vertex(j);
                proof {
                    assert(t.vertices@ == s.vertices@.push(j as usize));
                }
                insert_simplex_sorted(&mut out, t);
                proof {
                    assert forall|w: Seq<usize>| #[trigger] views_of(out@).contains(w) implies (
                    prev.contains(w) || (exists|mm: int|
                        0 <= mm < m + 1 && w == (#[trigger] prev[mm]).push(j as usize))) by {
                        if w == t.vertices@ {
                            assert(w == prev[m as int].push(j as usize));
                        }
                    }
                    assert forall|w: Seq<usize>|
                        (prev.contains(w) || (exists|mm: int|
                            0 <= mm < m + 1 && w == (#[trigger] prev[mm]).push(
                                j as usize,
                            ))) implies #[trigger] views_of(out@).contains(w) by {
                        if !prev.contains(w) {
                            let mm = choose|mm: int|
                                0 <= mm < m + 1 && w == (#[trigger] prev[mm]).push(j as usize);
                            if mm < m {
                                assert(views_of(out@).contains(w));
                            } else {
                                assert(w == t.vertices@);
                            }
                        }
                    }
                }
                m += 1;
            }
            let mut vj: Vec<usize> = Vec::new();
            vj.push(j);
            let sj = Simplex { vertices: vj };
            proof {
                assert(sj.vertices@ =~= seq![j as usize]);
            }
            insert_simplex_sorted(&mut out, sj);
            proof {
                lemma_solid_step(views_of(out@), prev, j);
            }
            acc = out;
            j += 1;
        }
        let vertices = collect_vertices(&acc);
        proof {
            assert forall|y: usize| #[trigger] vertices@.contains(y) implies y <= k by {
                let kk = choose|kk: int|
                    0 <= kk < views_of(acc@).len() && (#[trigger] views_of(acc@)[kk]).contains(
                        y,
                    );
                let w = views_of(acc@)[kk];
                assert(views_of(acc@).contains(w));
                assert(solid_member(w, k as int));
                let q = choose|q: int| 0 <= q < w.len() && w[q] == y;
            }
            assert forall|y: usize| y <= k implies #[trigger] vertices@.contains(y) by {
                let w = seq![y];
                assert(solid_member(w, k as int));
                assert(views_of(acc@).contains(w));
                let kk = choose|kk: int| 0 <= kk < views_of(acc@).len() && views_of(acc@)[kk] == w;
                assert(w[0] == y);
                assert(views_of(acc@)[kk].contains(y));
            }
        }
        SimplicialComplex { vertices, simplices: acc }
    }

    /// The boundary of the full `k`-simplex: `solid(k)` with its unique
    /// top-dimensional member removed.  Dimension zero is refused: a point
    /// has no proper boundary.
    pub fn hollow(k: usize) -> (r: Result<SimplicialComplex, crate::TdaError>)
        requires
            k < usize::MAX,
        ensures
            r matches Ok(c) ==> {
                &&& c.wf()
                &&& forall|w: Seq<usize>| #[trigger] c.has_simplex(w) <==> (solid_member(
                    w,
                    k as int,
                ) && w != full_simplex(k as int))
                &&& forall|y: usize| #[trigger] c.vertices@.contains(y) <==> y <= k
            },
            r is Err <==> k == 0,
    {
        if k == 0 {
            return Err(crate::TdaError::HollowOfDimZero);
        }
        let mut s = Self::solid(k);
        let mut full: Vec<usize> = Vec::new();
        let mut q: usize = 0;
        while q <= k
            invariant
                q <= k + 1,
                k < usize::MAX,
                full@.len() == q,
                forall|p: int| 0 <= p < q ==> full@[p] == p,
            decreases k + 1 - q,
        {
            full.push(q);
            q += 1;
        }
        proof {
            assert(full@ =~= full_simplex(k as int));
            assert(strictly_increasing(full@));
            assert(solid_member(full@, k as int));
            assert(s.has_simplex(full_simplex(k as int)));
        }
        let idx = find_simplex_index(&s.simplices, &full);
        let ghost old_rep = s.srep();
        let ghost old_simps = s.simplices@;
        proof {
            assert forall|w: Seq<usize>| #[trigger] old_rep.contains(w) == solid_member(
                w,
                k as int,
            ) by {
                assert(s.has_simplex(w) <==> solid_member(w, k as int));
            }
        }
        s.simplices.remove(idx);
        proof {
            let new_rep = s.srep();
            assert(s.simplices@ == old_simps.remove(idx as int));
            old_simps.remove_ensures(idx as int);
            assert forall|p: int| 0 <= p < new_rep.len() implies
                (if p < idx { new_rep[p] == old_rep[p] } else { new_rep[p] == old_rep[p + 1] })
                by {
                if p < idx {
                    assert(s.simplices@[p] == old_simps[p]);
                } else {
                    assert(s.simplices@[p] == old_simps[p + 1]);
                }
            }
            assert forall|p: int, r2: int| 0 <= p < r2 < new_rep.len() implies lex_lt(
                new_rep[p],
                new_rep[r2],
            ) by {
                if p < idx && r2 >= idx {
                    assert(lex_lt(old_rep[p], old_rep[r2 + 1]));
                }
            }
            // a sorted sequence holds each vertex sequence at most once
            assert forall|p: int| 0 <= p < new_rep.len() implies new_rep[p] != full@ by {
                let orig: int = if p < idx { p } else { p + 1 };
                if orig != idx {
                    if old_rep[orig] == full@ {
                        if orig < idx {
                            assert(lex_lt(old_rep[orig], old_rep[idx as int]));
                            lemma_lex_trichotomy(old_rep[orig], old_rep[idx as int]);
                        } else {
                            assert(lex_lt(old_rep[idx as int], old_rep[orig]));
                            lemma_lex_trichotomy(old_rep[idx as int], old_rep[orig]);
                        }
                        assert(false);
                    }
                }
            }
            assert forall|w: Seq<usize>| #[trigger] new_rep.contains(w) implies (solid_member(
                w,
                k as int,
            ) && w != full@) by {
                let p = choose|p: int| 0 <= p < new_rep.len() && new_rep[p] == w;
                let orig: int = if p < idx { p } else { p + 1 };
                assert(old_rep[orig] == w);
                assert(old_rep.contains(w));
            }
            assert forall|w: Seq<usize>| (solid_member(w, k as int) && w != full@) implies
                #[trigger] new_rep.contains(w) by {
                assert(old_rep.contains(w));
                let p = choose|p: int| 0 <= p < old_rep.len() && old_rep[p] == w;
                assert(p != idx);
                if p < idx {
                    assert(new_rep[p] == w);
                } else {
                    assert(new_rep[p - 1] == w);
                }
            }
            assert forall|q2: int| 0 <= q2 < s.simplices@.len() implies (#[trigger] s.simplices@[
                q2
            ]).wf() by {
            }
            assert forall|y: usize| #[trigger] s.vertices@.contains(y) implies (exists|kk: int|
                0 <= kk < new_rep.len() && (#[trigger] new_rep[kk]).contains(y)) by {
                let w = seq![y];
                assert(y <= k);
                assert(w.len() == 1 && w[0] == y);
                assert(solid_member(w, k as int));
                assert(full@.len() == k + 1);
                assert(w != full@);
                assert(new_rep.contains(w));
                let kk = choose|kk: int| 0 <= kk < new_rep.len() && new_rep[kk] == w;
                assert(new_rep[kk].contains(y));
            }
            assert forall|y: usize| (exists|kk: int|
                0 <= kk < new_rep.len() && (#[trigger] new_rep[kk]).contains(y)) implies
                #[trigger] s.vertices@.contains(y) by {
                let kk = choose|kk: int|
                    0 <= kk < new_rep.len() && (#[trigger] new_rep[kk]).contains(y);
                let w = new_rep[kk];
                assert(new_rep.contains(w));
                assert(solid_member(w, k as int));
                let p = choose|p: int| 0 <= p < w.len() && w[p] == y;
            }
        }
        Ok(s)
    }
}

/// Membership in the solid `k`-simplex: any non-empty increasing vertex
/// sequence drawn from the labels `0..=k`.
pub open spec fn solid_member(w: Seq<usize>, k: int) -> bool {
    simplex_seq_wf(w) && forall|q: int| 0 <= q < w.len() ==> w[q] <= k
}

/// The vertex sequence `0, 1, ..., k` of the full `k`-simplex.
pub open spec fn full_simplex(k: int) -> Seq<usize> {
    Seq::new((k + 1) as nat, |i: int| i as usize)
}

proof fn lemma_solid_base(vv: Seq<Seq<usize>>)
    requires
        vv.len() == 1,
        vv[0] == seq![0usize],
    ensures
        forall|w: Seq<usize>| #[trigger] vv.contains(w) <==> solid_member(w, 0),
        lex_sorted(vv),
{
    assert forall|w: Seq<usize>| solid_member(w, 0) implies #[trigger] vv.contains(w) by {
        if w.len() >= 2 {
            assert(w[0] < w[1]);
            assert(w[0] <= 0 && w[1] <= 0);
            assert(false);
        }
        assert(w =~= seq![0usize]);
        assert(vv[0] == w);
    }
    assert forall|w: Seq<usize>| #[trigger] vv.contains(w) implies solid_member(w, 0) by {
        assert(w == seq![0usize]);
        assert(w.len() == 1 && w[0] == 0);
    }
}

proof fn lemma_solid_step(now: Seq<Seq<usize>>, prev: Seq<Seq<usize>>, j: usize)
    requires
        1 <= j,
        forall|w: Seq<usize>| #[trigger] prev.contains(w) <==> solid_member(w, j - 1),
        forall|w: Seq<usize>| #[trigger] now.contains(w) <==> (prev.contains(w) || (exists|
            mm: int,
        |
            0 <= mm < prev.len() && w == (#[trigger] prev[mm]).push(j as usize)) || w == seq![
            j as usize,
        ]),
    ensures
        forall|w: Seq<usize>| #[trigger] now.contains(w) <==> solid_member(w, j as int),
{
    assert forall|w: Seq<usize>| #[trigger] now.contains(w) implies solid_member(w, j as int) by {
        if prev.contains(w) {
            assert(solid_member(w, j - 1));
        } else if w == seq![j as usize] {
            assert(w.len() == 1 && w[0] == j);
        } else {
            let mm = choose|mm: int|
                0 <= mm < prev.len() && w == (#[trigger] prev[mm]).push(j as usize);
            let u = prev[mm];
            assert(prev.contains(u));
            assert(solid_member(u, j - 1));
            assert forall|p: int, q: int| 0 <= p < q < w.len() implies w[p] < w[q] by {
                if q < w.len() - 1 {
                    assert(w[p] == u[p] && w[q] == u[q]);
                } else {
                    assert(w[q] == j);
                    assert(w[p] == u[p]);
                    assert(u[p] <= j - 1);
                }
            }
            assert forall|q: int| 0 <= q < w.len() implies w[q] <= j by {
                if q < w.len() - 1 {
                    assert(w[q] == u[q] && u[q] <= j - 1);
                }
            }
        }
    }
    assert forall|w: Seq<usize>| solid_member(w, j as int) implies #[trigger] now.contains(w) by {
        let last = w[w.len() - 1];
        assert forall|q: int| 0 <= q < w.len() - 1 implies w[q] < last by {
            assert(w[q] < w[w.len() - 1]);
        }
        if last < j {
            assert(solid_member(w, j - 1)) by {
                assert forall|q: int| 0 <= q < w.len() implies w[q] <= j - 1 by {
                    if q < w.len() - 1 {
                        assert(w[q] < last);
                    }
                }
            }
            assert(prev.contains(w));
        } else {
            assert(last == j);
            if w.len() == 1 {
                assert(w =~= seq![j as usize]);
            } else {
                let u = w.drop_last();
                assert(solid_member(u, j - 1)) by {
                    assert forall|q: int| 0 <= q < u.len() implies u[q] <= j - 1 by {
                        assert(u[q] == w[q]);
                        assert(w[q] < last);
                    }
                }
                assert(prev.contains(u));
                let mm = choose|mm: int| 0 <= mm < prev.len() && prev[mm] == u;
                assert(w =~= u.push(j as usize));
            }
        }
    }
}

/// The index at which a given vertex sequence occurs in a simplex vector.
pub(crate) fn find_simplex_index(ss: &Vec<Simplex>, w: &Vec<usize>) -> (idx: usize)
    requires
        views_of(ss@).contains(w@),
    ensures
        idx < ss@.len(),
        views_of(ss@)[idx as int] == w@,
{
    let mut idx: usize = 0;
    while idx < ss.len()
        invariant
            idx <= ss@.len(),
            views_of(ss@).contains(w@),
            forall|p: int| 0 <= p < idx ==> views_of(ss@)[p] != w@,
        decreases ss@.len() - idx,
    {
        if vec_usize_eq(&ss[idx].vertices, w) {
            proof {
                assert(views_of(ss@)[idx as int] == ss@[idx as int].vertices@);
            }
            return idx;
        }
        proof {
            assert(views_of(ss@)[idx as int] == ss@[idx as int].vertices@);
        }
        idx += 1;
    }
    proof {
        let p = choose|p: int| 0 <= p < views_of(ss@).len() && views_of(ss@)[p] == w@;
        assert(false);
    }
    0
}

/// Element-wise copy of a simplex vector.
pub(crate) fn copy_simplices(ss: &Vec<Simplex>) -> (r: Vec<Simplex>)
    ensures
        views_of(r@) == views_of(ss@),
        forall|q: int| 0 <= q < r@.len() ==> (#[trigger] r@[q]).wf() == ss@[q].wf(),
{
    let mut out: Vec<Simplex> = Vec::new();
    let mut i: usize = 0;
    while i < ss.len()
        invariant
            i <= ss@.len(),
            out@.len() == i,
            forall|q: int| 0 <= q < i ==> (#[trigger] out@[q]).vertices@ == ss@[q].vertices@,
        decreases ss@.len() - i,
    {
        out.push(Simplex { vertices: copy_vec_usize(&ss[i].vertices) });
        i += 1;
    }
    proof {
        assert(views_of(out@) =~= views_of(ss@));
    }
    out
}

impl PartialEq for SimplicialComplex {
    fn eq(&self, other: &SimplicialComplex) -> (r: bool) {
        if !vec_usize_eq(&self.vertices, &other.vertices) {
            return false;
        }
        if self.simplices.len() != other.simplices.len() {
            proof {
                assert(self.srep().len() != other.srep().len());
            }
            return false;
        }
        let mut k: usize = 0;
        while k < self.simplices.len()
            invariant
                k <= self.simplices@.len(),
                self.simplices@.len() == other.simplices@.len(),
                self.vertices@ == other.vertices@,
                forall|q: int| 0 <= q < k ==> self.srep()[q] == other.srep()[q],
            decreases self.simplices@.len() - k,
        {
            if !vec_usize_eq(&self.simplices[k].vertices, &other.simplices[k].vertices) {
                proof {
                    assert(self.srep()[k as int] != other.srep()[k as int]);
                    assert(self.srep() != other.srep());
                }
                return false;
            }
            k += 1;
        }
        proof {
            assert(self.srep() =~= other.srep());
        }
        true
    }
}

impl Eq for SimplicialComplex {

}

impl vstd::std_specs::cmp::PartialEqSpecImpl for SimplicialComplex {
    open spec fn obeys_eq_spec() -> bool {
        true
    }

    open spec fn eq_spec(&self, other: &SimplicialComplex) -> bool {
        self.vertices@ == other.vertices@ && self.srep() == other.srep()
    }
}

} // verus!
