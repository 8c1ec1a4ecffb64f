//! Simplices: non-empty, strictly increasing sequences of vertex
//! identifiers, with face, codimension and boundary-sign queries.

use vstd::prelude::*;

verus! {

/// The elements of `s` are strictly increasing (so also distinct).
pub open spec fn strictly_increasing(s: Seq<usize>) -> bool {
    forall|i: int, j: int| 0 <= i < j < s.len() ==> s[i] < s[j]
}

/// Every element of `a` occurs in `b` (subset of the underlying sets).
pub open spec fn seq_subset(a: Seq<usize>, b: Seq<usize>) -> bool {
    forall|v: usize| a.contains(v) ==> b.contains(v)
}

/// `(-1)^p`.
pub open spec fn pow_neg_one(p: int) -> int {
    if p % 2 == 0 {
        1
    } else {
        -1
    }
}

/// `p` is the position of the first element of `s` that is absent from `t`.
pub open spec fn is_first_missing(s: Seq<usize>, t: Seq<usize>, p: int) -> bool {
    &&& 0 <= p < s.len()
    &&& !t.contains(s[p])
    &&& forall|q: int| 0 <= q < p ==> t.contains(#[trigger] s[q])
}

/// The incidence sign of the face `t` inside the simplex `s`: zero unless
/// `t` is a face of codimension one, else `(-1)^p` where `p` is the
/// position, in `s`'s increasing order, of the vertex removed to reach `t`.
pub open spec fn spec_boundary_coeff(s: Seq<usize>, t: Seq<usize>) -> int {
    if seq_subset(t, s) && s.len() == t.len() + 1 && (exists|p: int| is_first_missing(s, t, p)) {
        pow_neg_one(choose|p: int| is_first_missing(s, t, p))
    } else {
        0
    }
}

/// Two positions of a first missing element agree.
pub proof fn lemma_first_missing_unique(s: Seq<usize>, t: Seq<usize>, p1: int, p2: int)
    requires
        is_first_missing(s, t, p1),
        is_first_missing(s, t, p2),
    ensures
        p1 == p2,
{
    if p1 < p2 {
        assert(t.contains(s[p1]));
    } else if p2 < p1 {
        assert(t.contains(s[p2]));
    }
}

proof fn lemma_first_missing_from_witness(s: Seq<usize>, t: Seq<usize>, idx: int)
    requires
        0 <= idx < s.len(),
        !t.contains(s[idx]),
    ensures
        exists|p: int| is_first_missing(s, t, p),
    decreases idx,
{
    if forall|q: int| 0 <= q < idx ==> t.contains(#[trigger] s[q]) {
        assert(is_first_missing(s, t, idx));
    } else {
        let q = choose|q: int| 0 <= q < idx && !t.contains(#[trigger] s[q]);
        lemma_first_missing_from_witness(s, t, q);
    }
}

/// A strictly increasing sequence has no duplicates.
pub proof fn lemma_strictly_increasing_no_duplicates(s: Seq<usize>)
    requires
        strictly_increasing(s),
    ensures
        s.no_duplicates(),
{
}

/// A proper codimension-one face misses exactly one vertex; in particular
/// some vertex of `s` is absent from `t`.
pub proof fn lemma_missing_exists(s: Seq<usize>, t: Seq<usize>)
    requires
        strictly_increasing(s),
        strictly_increasing(t),
        seq_subset(t, s),
        s.len() == t.len() + 1,
    ensures
        exists|p: int| is_first_missing(s, t, p),
{
    if forall|q: int| 0 <= q < s.len() ==> t.contains(#[trigger] s[q]) {
        // then the two vertex sets coincide, which contradicts the lengths
        assert(s.to_set() =~= t.to_set());
        lemma_strictly_increasing_no_duplicates(s);
        lemma_strictly_increasing_no_duplicates(t);
        s.unique_seq_to_set();
        t.unique_seq_to_set();
        assert(false);
    } else {
        let q = choose|q: int| 0 <= q < s.len() && !t.contains(#[trigger] s[q]);
        lemma_first_missing_from_witness(s, t, q);
    }
}

/// Membership test on a vertex vector.
pub(crate) fn vec_usize_contains(v: &Vec<usize>, x: usize) -> (r: bool)
    ensures
        r == v@.contains(x),
{
    let mut k: usize = 0;
    while k < v.len()
        invariant
            k <= v@.len(),
            forall|q: int| 0 <= q < k ==> v@[q] != x,
        decreases v@.len() - k,
    {
        if v[k] == x {
            return true;
        }
        k += 1;
    }
    false
}

/// Element-wise equality of two vertex vectors.
pub(crate) fn vec_usize_eq(a: &Vec<usize>, b: &Vec<usize>) -> (r: bool)
    ensures
        r == (a@ == b@),
{
    if a.len() != b.len() {
        assert(a@ != b@);
        return false;
    }
    let mut k: usize = 0;
    while k < a.len()
        invariant
            k <= a@.len(),
            a@.len() == b@.len(),
            forall|q: int| 0 <= q < k ==> a@[q] == b@[q],
        decreases a@.len() - k,
    {
        if a[k] != b[k] {
            return false;
        }
        k += 1;
    }
    proof {
        assert(a@ =~= b@);
    }
    true
}

/// Copy of a vertex vector.
pub(crate) fn copy_vec_usize(v: &Vec<usize>) -> (r: Vec<usize>)
    ensures
        r@ == v@,
{
    let mut out: Vec<usize> = Vec::new();
    let mut k: usize = 0;
    while k < v.len()
        invariant
            k <= v@.len(),
            out@ == v@.take(k as int),
        decreases v@.len() - k,
    {
        out.push(v[k]);
        proof {
            assert(out@ =~= v@.take(k as int + 1));
        }
        k += 1;
    }
    proof {
        assert(v@.take(v@.len() as int) =~= v@);
    }
    out
}

/// Insert `x` into the strictly increasing vector `v`, keeping it strictly
/// increasing; a no-op when `x` is already present.
pub(crate) fn insert_sorted(v: &mut Vec<usize>, x: usize)
    requires
        strictly_increasing(old(v)@),
    ensures
        strictly_increasing(final(v)@),
        forall|y: usize| #[trigger] final(v)@.contains(y) <==> (old(v)@.contains(y) || y == x),
        old(v)@.len() <= final(v)@.len() <= old(v)@.len() + 1,
        (forall|q: int| 0 <= q < old(v)@.len() ==> old(v)@[q] < x) ==> final(v)@ == old(
            v,
        )@.push(x),
{
    let ghost s0 = v@;
    let mut i: usize = 0;
    while i < v.len() && v[i as usize] < x
        invariant
            i <= v@.len(),
            v@ == s0,
            strictly_increasing(s0),
            forall|q: int| 0 <= q < i ==> s0[q] < x,
        decreases v@.len() - i,
    {
        i += 1;
    }
    // every element before i is below x; element i, if any, is at least x
    if i < v.len() && v[i] == x {
        proof {
            assert(v@[i as int] == x);
            assert(v@.contains(x));
        }
        return;
    }
    v.insert(i, x);
    proof {
        let s1 = v@;
        assert(s1 == s0.insert(i as int, x));
        assert forall|k: int| 0 <= k < s1.len() implies
            (if k < i { s1[k] == s0[k] } else if k == i { s1[k] == x } else { s1[k] == s0[k - 1] }) by {
        }
        assert forall|p: int, q: int| 0 <= p < q < s1.len() implies s1[p] < s1[q] by {
            if q < i {
                assert(s1[p] == s0[p] && s1[q] == s0[q]);
            } else if p > i {
                assert(s1[p] == s0[p - 1] && s1[q] == s0[q - 1]);
            } else if p < i && q == i {
                assert(s1[p] == s0[p] && s0[p] < x);
            } else if p == i && q > i {
                // the element at i, which q - 1 is at or beyond, exceeds x
                assert(s1[q] == s0[q - 1]);
                assert(i < s0.len());
                assert(s0[i as int] > x);
                if q - 1 > i {
                    assert(s0[i as int] < s0[q - 1]);
                }
            } else if p < i && q > i {
                assert(s1[p] == s0[p] && s1[q] == s0[q - 1]);
                assert(s0[p] < x);
                assert(i < s0.len());
                assert(s0[i as int] > x);
                if q - 1 > i {
                    assert(s0[i as int] < s0[q - 1]);
                }
            }
        }
        // membership
        assert forall|y: usize| #[trigger] s1.contains(y) implies (s0.contains(y) || y == x) by {
            let k = choose|k: int| 0 <= k < s1.len() && s1[k] == y;
            if k < i {
                assert(s0[k] == y);
            } else if k > i {
                assert(s0[k - 1] == y);
            }
        }
        assert forall|y: usize| (s0.contains(y) || y == x) implies #[trigger] s1.contains(y) by {
            if y == x {
                assert(s1[i as int] == x);
            } else {
                let k = choose|k: int| 0 <= k < s0.len() && s0[k] == y;
                if k < i {
                    assert(s1[k] == y);
                } else {
                    assert(s1[k + 1] == y);
                }
            }
        }
        if forall|q: int| 0 <= q < s0.len() ==> s0[q] < x {
            assert(i == s0.len());
            assert(s1 =~= s0.push(x));
        }
    }
}

/// A simplex: a non-empty set of vertices kept in increasing order.
#[derive(Clone, Debug)]
pub struct Simplex {
    pub vertices: Vec<usize>,
}

impl Simplex {
    /// Non-empty and strictly increasing.
    pub open spec fn wf(&self) -> bool {
        self.vertices@.len() >= 1 && strictly_increasing(self.vertices@)
    }

    /// Build a simplex from any non-empty vertex collection: the vertices
    /// are sorted and deduplicated.
    pub fn new(vertices: Vec<usize>) -> (r: Simplex)
        requires
            vertices@.len() >= 1,
        ensures
            r.wf(),
            forall|y: usize| #[trigger] r.vertices@.contains(y) <==> vertices@.contains(y),
    {
        let mut sorted: Vec<usize> = Vec::new();
        let mut k: usize = 0;
        while k < vertices.len()
            invariant
                k <= vertices@.len(),
                strictly_increasing(sorted@),
                forall|y: usize| #[trigger] sorted@.contains(y) <==> (exists|q: int|
                    0 <= q < k && vertices@[q] == y),
            decreases vertices@.len() - k,
        {
            let x = vertices[k];
            insert_sorted(&mut sorted, x);
            proof {
                assert forall|y: usize| #[trigger] sorted@.contains(y) implies (exists|q: int|
                    0 <= q < k + 1 && vertices@[q] == y) by {
                    if y == x {
                        assert(vertices@[k as int] == y);
                    }
                }
                assert forall|y: usize| (exists|q: int| 0 <= q < k + 1 && vertices@[q] == y)
                    implies #[trigger] sorted@.contains(y) by {
                    let q = choose|q: int| 0 <= q < k + 1 && vertices@[q] == y;
                    if q < k {
                        assert(sorted@.contains(y));
                    } else {
                        assert(y == x);
                    }
                }
            }
            k += 1;
        }
        proof {
            assert(vertices@.contains(vertices@[0]));
            assert(sorted@.contains(vertices@[0]));
            assert forall|y: usize| #[trigger] sorted@.contains(y) implies vertices@.contains(y) by {
            }
            assert forall|y: usize| vertices@.contains(y) implies #[trigger] sorted@.contains(y) by {
                let q = choose|q: int| 0 <= q < vertices@.len() && vertices@[q] == y;
                assert(sorted@.contains(y));
            }
        }
        Simplex { vertices: sorted }
    }

    /// Dimension: one less than the number of vertices.
    pub fn dim(&self) -> (r: usize)
        requires
            self.wf(),
        ensures
            r == self.vertices@.len() - 1,
            r < usize::MAX,
    {
        self.vertices.len() - 1
    }

    /// `self.codim(t)` is the difference of dimensions; meaningful when `t`
    /// is a face of `self`.
    pub fn codim(&self, t: &Simplex) -> (r: usize)
        requires
            self.wf(),
            t.wf(),
            t.vertices@.len() <= self.vertices@.len(),
        ensures
            r == self.vertices@.len() - t.vertices@.len(),
    {
        self.dim() - t.dim()
    }

    /// `self.is_face(t)` holds when `self`'s vertices all lie in `t`,
    /// that is, when `self` is a face of the simplex `t`.
    pub fn is_face(&self, t: &Simplex) -> (r: bool)
        ensures
            r == seq_subset(self.vertices@, t.vertices@),
    {
        let mut k: usize = 0;
        while k < self.vertices.len()
            invariant
                k <= self.vertices@.len(),
                forall|q: int| 0 <= q < k ==> t.vertices@.contains(#[trigger] self.vertices@[q]),
            decreases self.vertices@.len() - k,
        {
            if !vec_usize_contains(&t.vertices, self.vertices[k]) {
                proof {
                    assert(self.vertices@.contains(self.vertices@[k as int]));
                }
                return false;
            }
            k += 1;
        }
        proof {
            assert forall|v: usize| self.vertices@.contains(v) implies t.vertices@.contains(v) by {
                let q = choose|q: int| 0 <= q < self.vertices@.len() && self.vertices@[q] == v;
                assert(t.vertices@.contains(self.vertices@[q]));
            }
        }
        true
    }

    /// The incidence sign of the codimension-one face `t` in `self`.
    pub fn boundary_coeff(&self, t: &Simplex) -> (r: i64)
        requires
            self.wf(),
            t.wf(),
        ensures
            r as int == spec_boundary_coeff(self.vertices@, t.vertices@),
    {
        if !t.is_face(self) {
            return 0;
        }
        if self.vertices.len() - 1 != t.vertices.len() {
            return 0;
        }
        proof {
            lemma_missing_exists(self.vertices@, t.vertices@);
        }
        let mut k: usize = 0;
        while k < self.vertices.len()
            invariant
                k <= self.vertices@.len(),
                self.wf(),
                t.wf(),
                seq_subset(t.vertices@, self.vertices@),
                self.vertices@.len() == t.vertices@.len() + 1,
                exists|p: int| is_first_missing(self.vertices@, t.vertices@, p),
                forall|q: int| 0 <= q < k ==> t.vertices@.contains(#[trigger] self.vertices@[q]),
            decreases self.vertices@.len() - k,
        {
            if !vec_usize_contains(&t.vertices, self.vertices[k]) {
                proof {
                    assert(is_first_missing(self.vertices@, t.vertices@, k as int));
                    let p = choose|p: int| is_first_missing(self.vertices@, t.vertices@, p);
                    lemma_first_missing_unique(self.vertices@, t.vertices@, p, k as int);
                }
                if k % 2 == 0 {
                    return 1;
                } else {
                    return -1;
                }
            }
            k += 1;
        }
        proof {
            let p = choose|p: int| is_first_missing(self.vertices@, t.vertices@, p);
            assert(t.vertices@.contains(self.vertices@[p]));
            assert(false);
        }
        0
    }

    /// A new simplex with `v` added to the vertex set; `self` is unchanged.
    pub fn add_vertex(&self, v: usize) -> (r: Simplex)
        requires
            self.wf(),
        ensures
            r.wf(),
            forall|y: usize| #[trigger] r.vertices@.contains(y) <==> (self.vertices@.contains(y)
                || y == v),
            (forall|q: int| 0 <= q < self.vertices@.len() ==> self.vertices@[q] < v)
                ==> r.vertices@ == self.vertices@.push(v),
    {
        let mut b = copy_vec_usize(&self.vertices);
        insert_sorted(&mut b, v);
        proof {
            assert(self.vertices@.contains(self.vertices@[0]));
            assert(b@.contains(self.vertices@[0]));
        }
        Simplex { vertices: b }
    }
}

impl PartialEq for Simplex {
    fn eq(&self, other: &Simplex) -> (r: bool) {
        vec_usize_eq(&self.vertices, &other.vertices)
    }
}

impl Eq for Simplex {

}

impl vstd::std_specs::cmp::PartialEqSpecImpl for Simplex {
    open spec fn obeys_eq_spec() -> bool {
        true
    }

    open spec fn eq_spec(&self, other: &Simplex) -> bool {
        self.vertices@ == other.vertices@
    }
}

} // verus!
