use vstd::prelude::*;
use vstd::std_specs::cmp::{OrdSpec, PartialEqSpec, PartialOrdSpec};
use crate::grid::{total, lemma_total_update};

pub mod rnd;

verus! {

/// `a` orders strictly before `b`.
pub open spec fn less<I: Ord>(a: I, b: I) -> bool {
    a.partial_cmp_spec(&b) == Some(core::cmp::Ordering::Less)
}

/// Entry `i` of `s`.
pub open spec fn elem<I>(s: Seq<I>, i: usize) -> I {
    s[i as int]
}

/// Index of the first least element; 0 for an empty vector.
pub fn min_index<I: Ord>(vec: &Vec<I>) -> (r: usize)
    requires
        vstd::laws_cmp::obeys_cmp::<I>(),
        vstd::laws_eq::obeys_concrete_eq::<I>(),
    ensures
        vec@.len() == 0 ==> r == 0,
        vec@.len() > 0 ==> r < vec@.len(),
        forall|j: int| 0 <= j < vec@.len() ==> !less(#[trigger] vec@[j], elem(vec@, r)),
        forall|j: int| 0 <= j < r ==> less(elem(vec@, r), #[trigger] vec@[j]),
{
    let mut ret: usize = 0;
    let mut i: usize = 0;
    while i < vec.len()
        invariant
            vstd::laws_cmp::obeys_cmp::<I>(),
            vstd::laws_eq::obeys_concrete_eq::<I>(),
            i <= vec@.len(),
            ret == 0 || ret < i,
            i > 0 ==> ret < i,
            forall|j: int| 0 <= j < i ==> !less(#[trigger] vec@[j], elem(vec@, ret)),
            forall|j: int| 0 <= j < ret ==> less(elem(vec@, ret), #[trigger] vec@[j]),
        decreases vec@.len() - i,
    {
        proof {
            reveal(vstd::laws_cmp::obeys_partial_cmp_spec_properties);
            reveal(vstd::laws_cmp::obeys_cmp_partial_ord);
            reveal(vstd::laws_cmp::obeys_cmp_ord);
            reveal(vstd::laws_eq::obeys_concrete_eq);
        }
        if vec[i] < vec[ret] {
            proof {
                let vi = elem(vec@, i);
                let vr = elem(vec@, ret);
                assert forall|j: int| 0 <= j < i + 1 implies !less(#[trigger] vec@[j], vi) by {
                    if j < i && less(vec@[j], vi) {
                        assert(vi.partial_cmp_spec(&vr) == Some(core::cmp::Ordering::Less));
                        assert(vec@[j].partial_cmp_spec(&vr) == Some(core::cmp::Ordering::Less));
                    }
                    if j == i && less(vi, vi) {
                        assert(vi.partial_cmp_spec(&vi) == Some(core::cmp::Ordering::Greater));
                    }
                }
                assert forall|j: int| 0 <= j < i implies less(vi, #[trigger] vec@[j]) by {
                    let vj = vec@[j];
                    assert(!less(vj, vr));
                    if j < ret {
                        assert(less(vr, vj));
                        assert(vi.partial_cmp_spec(&vr) == Some(core::cmp::Ordering::Less));
                        assert(vr.partial_cmp_spec(&vj) == Some(core::cmp::Ordering::Less));
                        assert(vi.partial_cmp_spec(&vj) == Some(core::cmp::Ordering::Less));
                    } else if j != ret {
                        let o = vj.partial_cmp_spec(&vr);
                        assert(o == Some(vj.cmp_spec(&vr)));
                        if o == Some(core::cmp::Ordering::Equal) {
                            assert(vj.eq_spec(&vr));
                            assert(vj == vr);
                        } else {
                            assert(o == Some(core::cmp::Ordering::Greater));
                            assert(vr.partial_cmp_spec(&vj) == Some(core::cmp::Ordering::Less));
                            assert(vi.partial_cmp_spec(&vr) == Some(core::cmp::Ordering::Less));
                            assert(vi.partial_cmp_spec(&vj) == Some(core::cmp::Ordering::Less));
                        }
                    }
                }
            }
            ret = i;
        }
        i = i + 1;
    }
    ret
}

/// A vector together with the sum of its entries.
#[derive(Debug)]
pub struct VecSum {
    pub vec: Vec<i64>,
    pub sum: i64,
}

impl VecSum {
    /// Wraps `vec` with its sum; every partial sum must fit in an `i64`.
    pub fn new(vec: Vec<i64>) -> (r: VecSum)
        requires
            forall|k: int| 0 <= k <= vec@.len() ==> i64::MIN <= #[trigger] total(vec@.take(k)) <= i64::MAX,
        ensures
            r.vec@ == vec@,
            r.sum == total(vec@),
    {
        let mut sum: i64 = 0;
        let mut i: usize = 0;
        while i < vec.len()
            invariant
                i <= vec@.len(),
                forall|k: int| 0 <= k <= vec@.len() ==> i64::MIN <= #[trigger] total(vec@.take(k)) <= i64::MAX,
                sum == total(vec@.take(i as int)),
            decreases vec@.len() - i,
        {
            proof {
                assert(vec@.take(i + 1).drop_last() =~= vec@.take(i as int));
                assert(i64::MIN <= total(vec@.take(i + 1)) <= i64::MAX);
            }
            sum = sum + vec[i];
            i = i + 1;
        }
        proof {
            assert(vec@.take(vec@.len() as int) =~= vec@);
        }
        VecSum { vec, sum }
    }

    /// Replaces entry `idx` by `value` and adjusts the sum by the difference.
    pub fn set(&mut self, idx: usize, value: i64)
        requires
            idx < old(self).vec@.len(),
            i64::MIN <= value - old(self).vec@[idx as int] <= i64::MAX,
            i64::MIN <= old(self).sum + (value - old(self).vec@[idx as int]) <= i64::MAX,
        ensures
            final(self).vec@ == old(self).vec@.update(idx as int, value),
            final(self).sum == old(self).sum + value - old(self).vec@[idx as int],
            old(self).sum == total(old(self).vec@) ==> final(self).sum == total(final(self).vec@),
    {
        proof {
            lemma_total_update(self.vec@, idx as int, value);
        }
        self.sum += value - self.vec[idx];
        self.vec.set(idx, value);
    }
}

/// Disjoint sets over `0 .. n`: each element carries the label of its set.
pub struct UnionFind {
    id: Vec<usize>,
}

impl View for UnionFind {
    type V = Seq<usize>;

    closed spec fn view(&self) -> Seq<usize> {
        self.id@
    }
}

impl UnionFind {
    /// `n` singleton sets.
    pub fn new(n: usize) -> (uf: UnionFind)
        ensures
            uf@ == Seq::new(n as nat, |i: int| i as usize),
    {
        let mut id: Vec<usize> = Vec::new();
        let mut i: usize = 0;
        while i < n
            invariant
                i <= n,
                id@ == Seq::new(i as nat, |j: int| j as usize),
            decreases n - i,
        {
            id.push(i);
            i = i + 1;
        }
        UnionFind { id }
    }

    /// `a` and `b` are in the same set.
    pub fn same(&self, a: usize, b: usize) -> (r: bool)
        requires
            a < self@.len(),
            b < self@.len(),
        ensures
            r == (self@[a as int] == self@[b as int]),
    {
        self.id[a] == self.id[b]
    }

    /// Merges the set of `a` into the set of `b`.
    pub fn unite(&mut self, a: usize, b: usize)
        requires
            a < old(self)@.len(),
            b < old(self)@.len(),
        ensures
            final(self)@ == Seq::new(
                old(self)@.len(),
                |i: int|
                    if old(self)@[i] == old(self)@[a as int] {
                        old(self)@[b as int]
                    } else {
                        old(self)@[i]
                    },
            ),
    {
        let from = self.id[a];
        let to = self.id[b];
        let ghost s0 = self.id@;
        let n = self.id.len();
        let mut i: usize = 0;
        while i < n
            invariant
                n == s0.len(),
                self.id@.len() == n,
                i <= n,
                from == s0[a as int],
                to == s0[b as int],
                forall|j: int| 0 <= j < i ==> #[trigger] self.id@[j] == (if s0[j] == from {
                    to
                } else {
                    s0[j]
                }),
                forall|j: int| i <= j < n ==> #[trigger] self.id@[j] == s0[j],
            decreases n - i,
        {
            if self.id[i] == from {
                self.id.set(i, to);
            }
            i = i + 1;
        }
        proof {
            assert(self.id@ =~= Seq::new(
                s0.len(),
                |j: int|
                    if s0[j] == s0[a as int] {
                        s0[b as int]
                    } else {
                        s0[j]
                    },
            ));
        }
    }
}

/// After `unite(a, b)`, `a` and `b` are in the same set, and elements that
/// shared a set still do.
pub proof fn law_unite_joins(before: Seq<usize>, after: Seq<usize>, a: int, b: int, x: int, y: int)
    requires
        0 <= a < before.len(),
        0 <= b < before.len(),
        after == Seq::new(
            before.len(),
            |i: int|
                if before[i] == before[a] {
                    before[b]
                } else {
                    before[i]
                },
        ),
    ensures
        after[a] == after[b],
        0 <= x < before.len() && 0 <= y < before.len() && before[x] == before[y] ==> after[x] == after[y],
{
}

/// The entries are in nondecreasing order of their first component.
pub open spec fn sorted_by_first(s: Seq<(i64, usize, usize)>) -> bool {
    forall|i: int, j: int| 0 <= i < j < s.len() ==> (#[trigger] s[i]).0 <= (#[trigger] s[j]).0
}

/// `perm` lists distinct positions of `a`, one for each entry of `b`, and
/// `b[i]` is `a[perm[i]]`.
pub open spec fn reorders(a: Seq<(i64, usize, usize)>, b: Seq<(i64, usize, usize)>, perm: Seq<int>) -> bool {
    &&& perm.len() == a.len()
    &&& b.len() == a.len()
    &&& forall|i: int| 0 <= i < perm.len() ==> 0 <= #[trigger] perm[i] < a.len()
    &&& forall|i: int, j: int| 0 <= i < j < perm.len() ==> #[trigger] perm[i] != #[trigger] perm[j]
    &&& forall|i: int| 0 <= i < b.len() ==> #[trigger] b[i] == a[perm[i]]
}

/// Entries of `b` with equal first components keep the order they had in
/// `a`.
pub open spec fn keeps_ties(b: Seq<(i64, usize, usize)>, perm: Seq<int>) -> bool {
    forall|i: int, j: int| 0 <= i < j < b.len() && (#[trigger] b[i]).0 == (#[trigger] b[j]).0 ==> perm[i] < perm[j]
}

/// A sequence of distinct positions of `0 .. n`, `n` long, lists every one.
proof fn lemma_perm_onto(perm: Seq<int>, n: int)
    requires
        perm.len() == n,
        forall|i: int| 0 <= i < perm.len() ==> 0 <= #[trigger] perm[i] < n,
        forall|i: int, j: int| 0 <= i < j < perm.len() ==> #[trigger] perm[i] != #[trigger] perm[j],
    ensures
        forall|x: int| 0 <= x < n ==> #[trigger] perm.contains(x),
{
    assert(perm.no_duplicates()) by {
        assert forall|i: int, j: int| 0 <= i < perm.len() && 0 <= j < perm.len() && i != j implies perm[i]
            != perm[j] by {
            if i < j {
                assert(perm[i] != perm[j]);
            } else {
                assert(perm[j] != perm[i]);
            }
        }
    }
    perm.unique_seq_to_set();
    vstd::set_lib::lemma_int_range(0, n);
    let r = vstd::set_lib::set_int_range(0, n);
    assert(perm.to_set().subset_of(r)) by {
        assert forall|x: int| perm.to_set().contains(x) implies r.contains(x) by {
            let i = choose|i: int| 0 <= i < perm.len() && perm[i] == x;
        }
    }
    vstd::set_lib::lemma_subset_equality(perm.to_set(), r);
    assert forall|x: int| 0 <= x < n implies #[trigger] perm.contains(x) by {
        assert(r.contains(x));
        assert(perm.to_set().contains(x));
    }
}

/// Under two stable reorderings of `a` by first component, the entries at
/// positions below `i` come from the same positions of `a`.
proof fn lemma_stable_prefix(
    a: Seq<(i64, usize, usize)>,
    b1: Seq<(i64, usize, usize)>,
    b2: Seq<(i64, usize, usize)>,
    p1: Seq<int>,
    p2: Seq<int>,
    i: int,
)
    requires
        sorted_by_first(b1),
        sorted_by_first(b2),
        reorders(a, b1, p1),
        reorders(a, b2, p2),
        keeps_ties(b1, p1),
        keeps_ties(b2, p2),
        0 <= i <= a.len(),
    ensures
        forall|k: int| 0 <= k < i ==> #[trigger] p1[k] == p2[k],
    decreases i,
{
    if i > 0 {
        let j = i - 1;
        lemma_stable_prefix(a, b1, b2, p1, p2, j);
        lemma_perm_onto(p1, a.len() as int);
        lemma_perm_onto(p2, a.len() as int);
        let x = p1[j];
        let y = p2[j];
        assert(p1.contains(y));
        assert(p2.contains(x));
        let jy = choose|t: int| 0 <= t < p1.len() && p1[t] == y;
        let jx = choose|t: int| 0 <= t < p2.len() && p2[t] == x;
        if jy < j {
            assert(p2[jy] == y);
            assert(p2[jy] != p2[j]);
        }
        if jx < j {
            assert(p1[jx] == x);
            assert(p1[jx] != p1[j]);
        }
        if jy > j && jx > j {
            assert(b1[j].0 <= b1[jy].0);
            assert(b1[j] == a[x] && b1[jy] == a[y]);
            assert(b2[j].0 <= b2[jx].0);
            assert(b2[j] == a[y] && b2[jx] == a[x]);
            assert(a[x].0 == a[y].0);
            assert(p1[j] < p1[jy]);
            assert(p2[j] < p2[jx]);
        }
        assert forall|k: int| 0 <= k < i implies #[trigger] p1[k] == p2[k] by {
            if k < j {
                assert(p1[k] == p2[k]);
            }
        }
    }
}

/// Sorting stably by first component has one result.
pub proof fn lemma_stable_sort_unique(
    a: Seq<(i64, usize, usize)>,
    b1: Seq<(i64, usize, usize)>,
    b2: Seq<(i64, usize, usize)>,
    p1: Seq<int>,
    p2: Seq<int>,
)
    requires
        sorted_by_first(b1),
        sorted_by_first(b2),
        reorders(a, b1, p1),
        reorders(a, b2, p2),
        keeps_ties(b1, p1),
        keeps_ties(b2, p2),
    ensures
        b1 == b2,
{
    lemma_stable_prefix(a, b1, b2, p1, p2, a.len() as int);
    assert forall|k: int| 0 <= k < b1.len() implies b1[k] == b2[k] by {
        assert(p1[k] == p2[k]);
    }
    assert(b1 =~= b2);
}

/// Sorts by the first component, keeping the order of entries with equal
/// first components (insertion sort).
pub fn sort_by_first(v: &mut Vec<(i64, usize, usize)>)
    ensures
        sorted_by_first(final(v)@),
        final(v)@.to_multiset() == old(v)@.to_multiset(),
        final(v)@.len() == old(v)@.len(),
        exists|perm: Seq<int>| #[trigger] reorders(old(v)@, final(v)@, perm) && keeps_ties(final(v)@, perm),
{
    broadcast use vstd::seq_lib::group_to_multiset_ensures;
    let ghost a = v@;
    let n = v.len();
    let mut i: usize = 1;
    if n == 0 {
        proof {
            assert(reorders(a, v@, Seq::<int>::empty()));
        }
        return;
    }
    let ghost mut perm: Seq<int> = Seq::new(n as nat, |k: int| k);
    while i < n
        invariant
            1 <= i <= n,
            n == v@.len(),
            a == old(v)@,
            v@.to_multiset() == old(v)@.to_multiset(),
            sorted_by_first(v@.take(i as int)),
            reorders(a, v@, perm),
            forall|k: int| i <= k < n ==> #[trigger] perm[k] == k,
            forall|k: int| 0 <= k < i ==> #[trigger] perm[k] < i,
            forall|x: int, y: int| 0 <= x < y < i && (#[trigger] v@[x]).0 == (#[trigger] v@[y]).0 ==> perm[x] < perm[y],
        decreases n - i,
    {
        let mut j = i;
        proof {
            assert forall|x: int, y: int| 0 <= x < y < i implies (#[trigger] v@[x]).0 <= (#[trigger] v@[y]).0 by {
                assert(v@.take(i as int)[x] == v@[x]);
                assert(v@.take(i as int)[y] == v@[y]);
            }
        }
        while j > 0 && v[j - 1].0 > v[j].0
            invariant
                0 <= j <= i < n,
                n == v@.len(),
                a == old(v)@,
                v@.to_multiset() == old(v)@.to_multiset(),
                forall|x: int, y: int| 0 <= x < y <= i && y != j && x != j ==> (#[trigger] v@[x]).0 <= (#[trigger] v@[y]).0,
                forall|x: int, y: int| 0 <= x < j && j < y <= i ==> (#[trigger] v@[x]).0 <= (#[trigger] v@[y]).0,
                forall|y: int| j < y <= i ==> v@[j as int].0 < (#[trigger] v@[y]).0,
                reorders(a, v@, perm),
                perm[j as int] == i,
                forall|k: int| i < k < n ==> #[trigger] perm[k] == k,
                forall|k: int| 0 <= k <= i && k != j ==> #[trigger] perm[k] < i,
                forall|x: int, y: int|
                    0 <= x < y <= i && x != j && y != j && (#[trigger] v@[x]).0 == (#[trigger] v@[y]).0 ==> perm[x] < perm[y],
            decreases j,
        {
            let x = v[j - 1];
            let y = v[j];
            proof {
                crate::util::rnd::lemma_swap_multiset(v@, (j - 1) as int, j as int);
            }
            let ghost v0 = v@;
            let ghost p0 = perm;
            v.set(j - 1, y);
            v.set(j, x);
            proof {
                perm = p0.update(j - 1, p0[j as int]).update(j as int, p0[j - 1]);
                assert forall|s: int, t: int| 0 <= s < t < perm.len() implies #[trigger] perm[s] != #[trigger] perm[t] by {
                    let s0 = if s == j - 1 { j as int } else if s == j { j - 1 } else { s };
                    let t0 = if t == j - 1 { j as int } else if t == j { j - 1 } else { t };
                    assert(perm[s] == p0[s0]);
                    assert(perm[t] == p0[t0]);
                    if s0 < t0 {
                        assert(p0[s0] != p0[t0]);
                    } else {
                        assert(p0[t0] != p0[s0]);
                    }
                }
                assert forall|k: int| 0 <= k < v@.len() implies #[trigger] v@[k] == a[perm[k]] by {
                    if k == j - 1 {
                        assert(v0[j as int] == a[p0[j as int]]);
                    } else if k == j {
                        assert(v0[j - 1] == a[p0[j - 1]]);
                    } else {
                        assert(v0[k] == a[p0[k]]);
                    }
                }
                assert forall|s: int, t: int|
                    0 <= s < t <= i && s != j - 1 && t != j - 1 && (#[trigger] v@[s]).0 == (#[trigger] v@[t]).0
                        implies perm[s] < perm[t] by {
                    let s0 = if s == j { j - 1 } else { s };
                    let t0 = if t == j { j - 1 } else { t };
                    assert(v@[s] == v0[s0]);
                    assert(v@[t] == v0[t0]);
                    assert(perm[s] == p0[s0]);
                    assert(perm[t] == p0[t0]);
                }
            }
            j = j - 1;
        }
        proof {
            assert(sorted_by_first(v@.take(i + 1))) by {
                assert forall|x: int, y: int| 0 <= x < y < i + 1 implies (#[trigger] v@.take(i + 1)[x]).0
                    <= (#[trigger] v@.take(i + 1)[y]).0 by {
                    if j > 0 && x == j - 1 && y == j {
                    } else if x == j {
                    } else if y == j {
                        if j > 0 {
                            assert(v@[j - 1].0 <= v@[j as int].0);
                            if x < j - 1 {
                                assert(v@[x].0 <= v@[j - 1].0);
                            }
                        }
                    }
                }
            }
            assert forall|x: int, y: int| 0 <= x < y < i + 1 && (#[trigger] v@[x]).0 == (#[trigger] v@[y]).0 implies perm[x]
                < perm[y] by {
                if y == j {
                    assert(perm[x] < i);
                } else if x == j {
                    assert(v@[j as int].0 < v@[y].0);
                }
            }
        }
        i = i + 1;
    }
    proof {
        assert(v@.take(n as int) =~= v@);
        assert(reorders(old(v)@, v@, perm) && keeps_ties(v@, perm));
    }
}

/// Sorts integers into nondecreasing order (insertion sort).
pub fn sort_i64(v: &mut Vec<i64>)
    ensures
        forall|i: int, j: int| 0 <= i < j < final(v)@.len() ==> (#[trigger] final(v)@[i]) <= (#[trigger] final(v)@[j]),
        final(v)@.to_multiset() == old(v)@.to_multiset(),
        final(v)@.len() == old(v)@.len(),
{
    broadcast use vstd::seq_lib::group_to_multiset_ensures;
    let n = v.len();
    if n == 0 {
        return;
    }
    let mut i: usize = 1;
    while i < n
        invariant
            1 <= i <= n,
            n == v@.len(),
            v@.to_multiset() == old(v)@.to_multiset(),
            forall|a: int, b: int| 0 <= a < b < i ==> (#[trigger] v@[a]) <= (#[trigger] v@[b]),
        decreases n - i,
    {
        let mut j = i;
        while j > 0 && v[j - 1] > v[j]
            invariant
                0 <= j <= i < n,
                n == v@.len(),
                v@.to_multiset() == old(v)@.to_multiset(),
                forall|a: int, b: int| 0 <= a < b <= i && b != j && a != j ==> (#[trigger] v@[a]) <= (#[trigger] v@[b]),
                forall|a: int, b: int| 0 <= a < j && j < b <= i ==> (#[trigger] v@[a]) <= (#[trigger] v@[b]),
                forall|b: int| j < b <= i ==> v@[j as int] <= (#[trigger] v@[b]),
            decreases j,
        {
            let x = v[j - 1];
            let y = v[j];
            proof {
                crate::util::rnd::lemma_swap_multiset(v@, (j - 1) as int, j as int);
            }
            v.set(j - 1, y);
            v.set(j, x);
            j = j - 1;
        }
        proof {
            assert forall|a: int, b: int| 0 <= a < b < i + 1 implies (#[trigger] v@[a]) <= (#[trigger] v@[b]) by {
                if j > 0 && a == j - 1 && b == j {
                } else if a == j {
                } else if b == j {
                    if j > 0 {
                        assert(v@[j - 1] <= v@[j as int]);
                        if a < j - 1 {
                            assert(v@[a] <= v@[j - 1]);
                        }
                    }
                }
            }
        }
        i = i + 1;
    }
}

} // verus!
