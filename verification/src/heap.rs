//! A binary min-heap of `(key, x, y)` triples, ordered lexicographically, as
//! the open set of the Dijkstra and A* searches.

use vstd::prelude::*;
use vstd::multiset::Multiset;

verus! {

broadcast use vstd::seq_lib::group_to_multiset_ensures;

pub type Entry = (u32, u32, u32);

/// Lexicographic order on entries.
pub open spec fn entry_le(a: Entry, b: Entry) -> bool {
    a.0 < b.0 || (a.0 == b.0 && (a.1 < b.1 || (a.1 == b.1 && a.2 <= b.2)))
}

pub open spec fn parent(i: int) -> int {
    (i - 1) / 2
}

/// Node `j` is no smaller than its parent.
pub open spec fn ordered_at(s: Seq<Entry>, j: int) -> bool {
    entry_le(s[parent(j)], s[j])
}

pub open spec fn is_heap(s: Seq<Entry>) -> bool {
    forall|j: int| 0 < j < s.len() ==> #[trigger] ordered_at(s, j)
}

fn entry_lt(a: Entry, b: Entry) -> (r: bool)
    ensures
        r == !entry_le(b, a),
{
    a.0 < b.0 || (a.0 == b.0 && (a.1 < b.1 || (a.1 == b.1 && a.2 < b.2)))
}

/// The root of a heap is no larger than any element.
proof fn lemma_root_min(s: Seq<Entry>, j: int)
    requires
        is_heap(s),
        0 <= j < s.len(),
    ensures
        entry_le(s[0], s[j]),
    decreases j,
{
    if j > 0 {
        assert(ordered_at(s, j));
        lemma_root_min(s, parent(j));
    }
}

/// Exchanging two positions keeps the multiset of elements.
proof fn lemma_swap_multiset(s: Seq<Entry>, i: int, j: int)
    requires
        0 <= i < s.len(),
        0 <= j < s.len(),
    ensures
        s.update(i, s[j]).update(j, s[i]).to_multiset() =~= s.to_multiset(),
{
    lemma_update_multiset(s, i, s[j]);
    let t = s.update(i, s[j]);
    lemma_update_multiset(t, j, s[i]);
    if i == j {
        assert(s.update(i, s[j]).update(j, s[i]) =~= s);
    }
}

/// Overwriting one position swaps one element of the multiset.
proof fn lemma_update_multiset(s: Seq<Entry>, i: int, v: Entry)
    requires
        0 <= i < s.len(),
    ensures
        s.update(i, v).to_multiset() =~= s.to_multiset().remove(s[i]).insert(v),
{
    let t = s.update(i, v);
    assert(t.remove(i) =~= s.remove(i));
    assert(t.to_multiset() =~= t.remove(i).to_multiset().insert(v)) by {
        assert(t.remove(i).to_multiset() =~= t.to_multiset().remove(t[i]));
        assert(t.to_multiset().count(v) > 0) by {
            assert(t.contains(v)) by {
                assert(t[i] == v);
            }
        }
    }
    assert(s.remove(i).to_multiset() =~= s.to_multiset().remove(s[i]));
}

pub struct MinHeap {
    data: Vec<Entry>,
}

impl MinHeap {
    pub closed spec fn view(&self) -> Multiset<Entry> {
        self.data@.to_multiset()
    }

    pub closed spec fn wf(&self) -> bool {
        is_heap(self.data@)
    }

    pub fn new() -> (h: MinHeap)
        ensures
            h.wf(),
            h.view() =~= Multiset::empty(),
    {
        let h = MinHeap { data: Vec::new() };
        proof {
            assert(h.data@ =~= Seq::<Entry>::empty());
            assert(h.data@.to_multiset().len() == 0);
        }
        h
    }

    pub fn is_empty(&self) -> (r: bool)
        ensures
            r == (self.view().len() == 0),
    {
        self.data.len() == 0
    }

    pub fn len(&self) -> (r: usize)
        ensures
            r == self.view().len(),
    {
        self.data.len()
    }

    pub fn push(&mut self, e: Entry)
        requires
            old(self).wf(),
        ensures
            final(self).wf(),
            final(self).view() =~= old(self).view().insert(e),
    {
        let ghost s0 = self.data@;
        self.data.push(e);
        proof {
            assert(self.data@ =~= s0.push(e));
        }
        let mut i = self.data.len() - 1;
        proof {
            let t = self.data@;
            assert forall|j: int| 0 < j < t.len() && j != i implies #[trigger] ordered_at(t, j) by {
                assert(ordered_at(s0, j));
            }
        }
        while i > 0
            invariant
                0 <= i < self.data@.len(),
                self.data@.to_multiset() =~= s0.to_multiset().insert(e),
                forall|j: int|
                    0 < j < self.data@.len() && j != i ==> #[trigger] ordered_at(self.data@, j),
                i > 0 ==> forall|c: int|
                    0 < c < self.data@.len() && parent(c) == i ==> entry_le(
                        self.data@[parent(i as int)],
                        #[trigger] self.data@[c],
                    ),
            ensures
                self.data@.to_multiset() =~= s0.to_multiset().insert(e),
                is_heap(self.data@),
            decreases i,
        {
            let p = (i - 1) / 2;
            if !entry_lt(self.data[i], self.data[p]) {
                proof {
                    assert(ordered_at(self.data@, i as int));
                    assert forall|j: int| 0 < j < self.data@.len() implies #[trigger] ordered_at(
                        self.data@,
                        j,
                    ) by {
                        if j == i {
                        }
                    }
                }
                break;
            }
            let ghost s = self.data@;
            let vi = self.data[i];
            let vp = self.data[p];
            self.data.set(p, vi);
            self.data.set(i, vp);
            proof {
                lemma_swap_multiset(s, p as int, i as int);
                assert(self.data@ =~= s.update(p as int, s[i as int]).update(i as int, s[p as int]));
                let t = self.data@;
                assert forall|j: int| 0 < j < t.len() && j != p implies #[trigger] ordered_at(t, j) by {
                    if j == i {
                    } else if parent(j) == i {
                        assert(ordered_at(s, j));
                    } else if parent(j) == p {
                        assert(ordered_at(s, j));
                    } else {
                        assert(ordered_at(s, j));
                    }
                }
                if p > 0 {
                    assert(ordered_at(s, p as int));
                    assert forall|c: int| 0 < c < t.len() && parent(c) == p implies entry_le(
                        t[parent(p as int)],
                        #[trigger] t[c],
                    ) by {
                        if c == i {
                        } else {
                            assert(ordered_at(s, c));
                        }
                    }
                }
            }
            i = p;
        }
    }

    /// Remove and return the smallest entry.
    pub fn pop(&mut self) -> (r: Option<Entry>)
        requires
            old(self).wf(),
        ensures
            final(self).wf(),
            old(self).view().len() == 0 ==> r is None && final(self).view() =~= old(self).view(),
            old(self).view().len() > 0 ==> r is Some,
            r matches Some(e) ==> {
                &&& old(self).view().count(e) > 0
                &&& final(self).view() =~= old(self).view().remove(e)
                &&& forall|f: Entry| old(self).view().count(f) > 0 ==> entry_le(e, f)
            },
    {
        let n = self.data.len();
        if n == 0 {
            return None;
        }
        let ghost s0 = self.data@;
        let top = self.data[0];
        proof {
            assert forall|f: Entry| s0.to_multiset().count(f) > 0 implies entry_le(top, f) by {
                assert(s0.contains(f));
                let j = choose|j: int| 0 <= j < s0.len() && s0[j] == f;
                lemma_root_min(s0, j);
            }
        }
        let last = self.data.pop().unwrap();
        proof {
            assert(s0 =~= self.data@.push(last));
        }
        if self.data.len() == 0 {
            proof {
                assert(s0 =~= seq![top]);
                assert(s0.to_multiset() =~= Seq::<Entry>::empty().to_multiset().insert(top)) by {
                    assert(s0 =~= Seq::<Entry>::empty().push(top));
                }
                assert(self.data@ =~= Seq::<Entry>::empty());
            }
            return Some(top);
        }
        let ghost s1 = self.data@;
        self.data.set(0, last);
        proof {
            lemma_update_multiset(s1, 0, last);
            assert(s0.to_multiset() =~= s1.to_multiset().insert(last));
            assert(s1[0] == top);
            assert(self.data@.to_multiset() =~= s0.to_multiset().remove(top));
        }
        let len = self.data.len();
        let mut i: usize = 0;
        proof {
            let t = self.data@;
            assert forall|j: int| 0 < j < len && parent(j) != 0 implies #[trigger] ordered_at(
                t,
                j,
            ) by {
                assert(ordered_at(s0, j));
            }
        }
        while i < len
            invariant
                len == self.data@.len(),
                0 <= i < len,
                self.data@.to_multiset() =~= s0.to_multiset().remove(top),
                forall|j: int|
                    0 < j < len && parent(j) != i ==> #[trigger] ordered_at(self.data@, j),
                i > 0 ==> forall|c: int|
                    0 < c < len && parent(c) == i ==> entry_le(
                        self.data@[parent(i as int)],
                        #[trigger] self.data@[c],
                    ),
            ensures
                self.data@.to_multiset() =~= s0.to_multiset().remove(top),
                is_heap(self.data@),
            decreases len - i,
        {
            if i >= len / 2 {
                proof {
                    assert forall|j: int| 0 < j < len implies #[trigger] ordered_at(
                        self.data@,
                        j,
                    ) by {
                        assert(parent(j) != i);
                    }
                }
                break;
            }
            let l = 2 * i + 1;
            let r = l + 1;
            let m = if r < len && entry_lt(self.data[r], self.data[l]) {
                r
            } else {
                l
            };
            if !entry_lt(self.data[m], self.data[i]) {
                proof {
                    assert forall|j: int| 0 < j < len implies #[trigger] ordered_at(
                        self.data@,
                        j,
                    ) by {
                        if parent(j) == i {
                            assert(j == l || j == r);
                        }
                    }
                }
                break;
            }
            let ghost s = self.data@;
            let vi = self.data[i];
            let vm = self.data[m];
            self.data.set(i, vm);
            self.data.set(m, vi);
            proof {
                lemma_swap_multiset(s, i as int, m as int);
                assert(self.data@ =~= s.update(i as int, s[m as int]).update(m as int, s[i as int]));
                let t = self.data@;
                assert(parent(l as int) == i);
                assert(parent(r as int) == i);
                assert forall|j: int| 0 < j < len && parent(j) != m implies #[trigger] ordered_at(
                    t,
                    j,
                ) by {
                    if j == m {
                    } else if parent(j) == i {
                        assert(j == l || j == r);
                    } else if j == i {
                        assert(ordered_at(s, j));
                    } else {
                        assert(ordered_at(s, j));
                    }
                }
                assert forall|c: int| 0 < c < len && parent(c) == m implies entry_le(
                    t[parent(m as int)],
                    #[trigger] t[c],
                ) by {
                    assert(ordered_at(s, c));
                }
            }
            i = m;
        }
        Some(top)
    }
}

} // verus!
