use vstd::prelude::*;
use vstd::multiset::Multiset;

verus! {

broadcast use vstd::seq_lib::group_to_multiset_ensures;

/// A queue entry: a tentative distance and a two-part key of what it
/// belongs to.
pub type Entry = (i64, i64, i64);

/// `a` leaves the queue no later than `b`: smaller distance first, and
/// among equal distances the larger key (first part, then second) first.
pub open spec fn entry_le(a: Entry, b: Entry) -> bool {
    a.0 < b.0 || (a.0 == b.0 && (a.1 > b.1 || (a.1 == b.1 && a.2 >= b.2)))
}

pub open spec fn parent(i: int) -> int {
    (i - 1) / 2
}

/// The entry at `i` is not smaller than its parent.
pub open spec fn edge_ok(s: Seq<Entry>, i: int) -> bool {
    entry_le(s[parent(i)], s[i])
}

/// Binary-heap order of a sequence.
pub open spec fn heap_ordered(s: Seq<Entry>) -> bool {
    forall|i: int| 0 < i < s.len() ==> #[trigger] edge_ok(s, i)
}

/// A priority queue of entries that hands out the least entry first.
pub struct MinHeap {
    data: Vec<Entry>,
}

impl View for MinHeap {
    type V = Multiset<Entry>;

    closed spec fn view(&self) -> Multiset<Entry> {
        self.data@.to_multiset()
    }
}

proof fn lemma_le_total(a: Entry, b: Entry)
    ensures
        entry_le(a, b) || entry_le(b, a),
{
}

proof fn lemma_le_trans(a: Entry, b: Entry, c: Entry)
    requires
        entry_le(a, b),
        entry_le(b, c),
    ensures
        entry_le(a, c),
{
}

/// In a heap-ordered sequence the first entry is a least one.
proof fn lemma_root_least(s: Seq<Entry>, i: int)
    requires
        heap_ordered(s),
        0 <= i < s.len(),
    ensures
        entry_le(s[0], s[i]),
    decreases i,
{
    if i > 0 {
        assert(edge_ok(s, i));
        lemma_root_least(s, parent(i));
        lemma_le_trans(s[0], s[parent(i)], s[i]);
    }
}

proof fn lemma_swap_multiset(s: Seq<Entry>, i: int, j: int)
    requires
        0 <= i < s.len(),
        0 <= j < s.len(),
    ensures
        s.update(i, s[j]).update(j, s[i]).to_multiset() =~= s.to_multiset(),
{
    broadcast use vstd::multiset::group_multiset_properties;
    broadcast use vstd::seq_lib::to_multiset_update;
    let t = s.update(i, s[j]);
    assert(t.update(j, s[i]).to_multiset() == t.to_multiset().insert(s[i]).remove(t[j]));
    assert(t.to_multiset() == s.to_multiset().insert(s[j]).remove(s[i]));
    if i == j {
        assert(t.update(j, s[i]) =~= s);
    } else {
        assert(t[j] == s[j]);
    }
}

fn le_exec(a: &Entry, b: &Entry) -> (r: bool)
    ensures
        r == entry_le(*a, *b),
{
    a.0 < b.0 || (a.0 == b.0 && (a.1 > b.1 || (a.1 == b.1 && a.2 >= b.2)))
}

impl MinHeap {
    pub closed spec fn wf(&self) -> bool {
        heap_ordered(self.data@)
    }

    pub fn new() -> (h: MinHeap)
        ensures
            h.wf(),
            h@ =~= Multiset::empty(),
    {
        broadcast use vstd::multiset::group_multiset_axioms;
        let h = MinHeap { data: Vec::new() };
        assert(h.data@ =~= Seq::<Entry>::empty());
        h
    }

    pub fn len(&self) -> (l: usize)
        ensures
            l == self@.len(),
    {
        self.data.len()
    }

    fn swap(&mut self, i: usize, j: usize)
        requires
            i < old(self).data@.len(),
            j < old(self).data@.len(),
        ensures
            final(self).data@ == old(self).data@.update(i as int, old(self).data@[j as int]).update(
                j as int,
                old(self).data@[i as int],
            ),
            final(self)@ == old(self)@,
    {
        let a = self.data[i];
        let b = self.data[j];
        proof {
            lemma_swap_multiset(self.data@, i as int, j as int);
        }
        self.data.set(i, b);
        self.data.set(j, a);
    }

    /// Adds an entry.
    pub fn push(&mut self, e: Entry)
        requires
            old(self).wf(),
        ensures
            final(self).wf(),
            final(self)@ == old(self)@.insert(e),
    {
        let ghost s0 = self.data@;
        self.data.push(e);
        let mut k = self.data.len() - 1;
        let ghost target = old(self)@.insert(e);
        proof {
            assert forall|i: int| 0 < i < self.data@.len() && i != k implies #[trigger] edge_ok(
                self.data@,
                i,
            ) by {
                assert(edge_ok(s0, i));
            }
        }
        while k > 0
            invariant
                0 <= k < self.data@.len(),
                self@ == target,
                forall|i: int| 0 < i < self.data@.len() && i != k ==> #[trigger] edge_ok(self.data@, i),
                forall|c: int|
                    0 < k && 0 < c < self.data@.len() && parent(c) == k ==> entry_le(
                        self.data@[parent(k as int)],
                        #[trigger] self.data@[c],
                    ),
            ensures
                self@ == target,
                heap_ordered(self.data@),
            decreases k,
        {
            let p = (k - 1) / 2;
            if le_exec(&self.data[p], &self.data[k]) {
                proof {
                    assert forall|i: int| 0 < i < self.data@.len() implies #[trigger] edge_ok(
                        self.data@,
                        i,
                    ) by {
                    }
                }
                break;
            }
            let ghost s = self.data@;
            self.swap(p, k);
            proof {
                let t = self.data@;
                lemma_le_total(s[p as int], s[k as int]);
                assert forall|i: int| 0 < i < t.len() && i != p implies #[trigger] edge_ok(t, i) by {
                    if i == k {
                    } else if parent(i) == k {
                        assert(entry_le(s[parent(k as int)], s[i]));
                    } else if parent(i) == p {
                        assert(edge_ok(s, i));
                        lemma_le_trans(t[p as int], s[p as int], s[i]);
                    } else if i == p {
                    } else {
                        assert(edge_ok(s, i));
                    }
                }
                assert forall|c: int| 0 < p && 0 < c < t.len() && parent(c) == p implies entry_le(
                    t[parent(p as int)],
                    #[trigger] t[c],
                ) by {
                    assert(edge_ok(s, p as int));
                    if c == k {
                    } else {
                        assert(edge_ok(s, c));
                        lemma_le_trans(s[parent(p as int)], s[p as int], s[c]);
                    }
                }
            }
            k = p;
        }
    }

    /// Removes and returns a least entry, or `None` when empty.
    pub fn pop(&mut self) -> (r: Option<Entry>)
        requires
            old(self).wf(),
        ensures
            final(self).wf(),
            old(self)@.len() == 0 ==> r is None && final(self)@ == old(self)@,
            old(self)@.len() > 0 ==> (r matches Some(e) && old(self)@.count(e) > 0 && final(self)@
                == old(self)@.remove(e) && forall|x: Entry| #[trigger]
                old(self)@.count(x) > 0 ==> entry_le(e, x)),
    {
        broadcast use vstd::multiset::group_multiset_properties;
        let len = self.data.len();
        if len == 0 {
            return None;
        }
        let ghost s0 = self.data@;
        proof {
            assert forall|x: Entry| #[trigger] s0.to_multiset().count(x) > 0 implies entry_le(
                s0[0],
                x,
            ) by {
                assert(s0.contains(x));
                let j = choose|j: int| 0 <= j < s0.len() && s0[j] == x;
                lemma_root_least(s0, j);
            }
        }
        self.swap(0, len - 1);
        let top = self.data.pop().unwrap();
        proof {
            let t = s0.update(0, s0[len - 1]).update(len - 1, s0[0]);
            assert(t.drop_last().push(t.last()) =~= t);
            assert(self.data@ =~= t.drop_last());
            assert(top == s0[0]);
            assert(self@ =~= s0.to_multiset().remove(top));
        }
        let ghost target = s0.to_multiset().remove(top);
        let n = self.data.len();
        let mut k: usize = 0;
        proof {
            let s = self.data@;
            assert forall|i: int| 0 < i < s.len() && parent(i) != 0 implies #[trigger] edge_ok(s, i) by {
                assert(edge_ok(s0, i));
            }
        }
        while k < n
            invariant
                n == self.data@.len(),
                k < n || n == 0,
                self@ == target,
                forall|i: int| 0 < i < n && parent(i) != k ==> #[trigger] edge_ok(self.data@, i),
                forall|c: int|
                    0 < k && 0 < c < n && parent(c) == k ==> entry_le(
                        self.data@[parent(k as int)],
                        #[trigger] self.data@[c],
                    ),
            ensures
                self@ == target,
                n == self.data@.len(),
                forall|i: int| 0 < i < n ==> #[trigger] edge_ok(self.data@, i),
            decreases n - k,
        {
            if k >= n / 2 {
                proof {
                    assert forall|i: int| 0 < i < n implies #[trigger] edge_ok(self.data@, i) by {
                    }
                }
                break;
            }
            let l = 2 * k + 1;
            let r = 2 * k + 2;
            let mut m = l;
            if r < n && !le_exec(&self.data[l], &self.data[r]) {
                m = r;
            }
            if le_exec(&self.data[k], &self.data[m]) {
                proof {
                    let s = self.data@;
                    if r < n {
                        lemma_le_total(s[l as int], s[r as int]);
                    }
                    assert forall|i: int| 0 < i < n implies #[trigger] edge_ok(s, i) by {
                        if parent(i) == k {
                            if i == l && m == r {
                                lemma_le_trans(s[k as int], s[r as int], s[l as int]);
                            } else if i == r && m == l {
                                lemma_le_trans(s[k as int], s[l as int], s[r as int]);
                            }
                        }
                    }
                }
                break;
            }
            let ghost s = self.data@;
            self.swap(k, m);
            proof {
                let t = self.data@;
                lemma_le_total(s[k as int], s[m as int]);
                if r < n {
                    lemma_le_total(s[l as int], s[r as int]);
                }
                assert forall|i: int| 0 < i < n && parent(i) != m implies #[trigger] edge_ok(t, i) by {
                    if i == m {
                    } else if parent(i) == k {
                        if i == l {
                            lemma_le_trans(s[r as int], s[l as int], s[l as int]);
                        }
                    } else if i == k {
                        assert(entry_le(s[parent(k as int)], s[m as int]));
                    } else {
                        assert(edge_ok(s, i));
                    }
                }
                assert forall|c: int| 0 < m && 0 < c < n && parent(c) == m implies entry_le(
                    t[parent(m as int)],
                    #[trigger] t[c],
                ) by {
                    assert(edge_ok(s, c));
                }
            }
            k = m;
        }
        Some(top)
    }
}

} // verus!
