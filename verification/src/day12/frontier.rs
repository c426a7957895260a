use vstd::prelude::*;
use vstd::multiset::Multiset;
use vstd::seq_lib::*;

verus! {

/// A cell waiting to be expanded, with the distance it was queued at.
#[derive(Debug, Clone, Copy, PartialEq, Eq)]
pub struct HeapEntry {
    pub location: (usize, usize),
    pub value: usize,
}

/// Coordinate order on cells: by column, then by row.
pub open spec fn cell_le(a: (usize, usize), b: (usize, usize)) -> bool {
    a.0 < b.0 || (a.0 == b.0 && a.1 <= b.1)
}

/// `a` leaves the frontier no later than `b`: it has the smaller distance,
/// or the same distance and the greater coordinate.
pub open spec fn precedes(a: HeapEntry, b: HeapEntry) -> bool {
    a.value < b.value || (a.value == b.value && cell_le(b.location, a.location))
}

impl HeapEntry {
    pub fn new(location: (usize, usize), value: usize) -> (e: Self)
        ensures
            e.location == location,
            e.value == value,
    {
        Self { location, value }
    }

    /// Decides [`precedes`].
    pub fn goes_before(&self, other: &HeapEntry) -> (r: bool)
        ensures
            r == precedes(*self, *other),
    {
        self.value < other.value || (self.value == other.value && (other.location.0
            < self.location.0 || (other.location.0 == self.location.0 && other.location.1
            <= self.location.1)))
    }
}

/// The priority frontier of the search: a bag of entries that hands out the
/// entry preceding all others. The entries are kept as a binary heap.
pub struct Frontier {
    entries: Vec<HeapEntry>,
}

impl View for Frontier {
    type V = Multiset<HeapEntry>;

    closed spec fn view(&self) -> Multiset<HeapEntry> {
        self.entries@.to_multiset()
    }
}

/// Index of the entry above the entry at index `i` of the heap.
pub open spec fn above(i: int) -> int {
    (i - 1) / 2
}

/// Every entry but the first is preceded by the entry above it, save
/// perhaps the entry at index `loose`.
pub open spec fn heap_but(s: Seq<HeapEntry>, loose: int) -> bool {
    forall|j: int| 0 < j < s.len() && j != loose ==> precedes(s[above(j)], #[trigger] s[j])
}

/// Every entry but the first is preceded by the entry above it, save
/// perhaps the entries below index `loose`.
pub open spec fn heap_but_below(s: Seq<HeapEntry>, loose: int) -> bool {
    forall|j: int| 0 < j < s.len() && above(j) != loose ==> precedes(s[above(j)], #[trigger] s[j])
}

/// The entries below index `i` are preceded by the entry above it.
pub open spec fn bridged(s: Seq<HeapEntry>, i: int) -> bool {
    i > 0 ==> forall|j: int| 0 < j < s.len() && above(j) == i ==> precedes(s[above(i)], #[trigger] s[j])
}

/// Every entry but the first is preceded by the entry above it.
pub open spec fn is_heap(s: Seq<HeapEntry>) -> bool {
    forall|j: int| 0 < j < s.len() ==> precedes(s[above(j)], #[trigger] s[j])
}

/// The first entry of a heap precedes every entry.
pub proof fn lemma_first_precedes(s: Seq<HeapEntry>, i: int)
    requires
        is_heap(s),
        0 <= i < s.len(),
    ensures
        precedes(s[0], s[i]),
    decreases i,
{
    if i > 0 {
        lemma_first_precedes(s, above(i));
        assert(precedes(s[above(i)], s[i]));
    }
}

/// Replacing an entry takes the old one out of the bag and puts the new
/// one in.
pub proof fn lemma_update_bag(s: Seq<HeapEntry>, i: int, e: HeapEntry)
    requires
        0 <= i < s.len(),
    ensures
        s.update(i, e).to_multiset() == s.to_multiset().remove(s[i]).insert(e),
{
    broadcast use group_to_multiset_ensures;

    assert(s.update(i, e) =~= s.remove(i).insert(i, e));
    assert(s.remove(i).insert(i, e).to_multiset() =~= s.to_multiset().remove(s[i]).insert(e));
}

/// Exchanging two entries leaves the bag as it is.
pub proof fn lemma_exchange_bag(s: Seq<HeapEntry>, i: int, j: int)
    requires
        0 <= i < s.len(),
        0 <= j < s.len(),
    ensures
        s.update(i, s[j]).update(j, s[i]).to_multiset() == s.to_multiset(),
{
    broadcast use group_to_multiset_ensures;

    let t = s.update(i, s[j]);
    lemma_update_bag(s, i, s[j]);
    lemma_update_bag(t, j, s[i]);
    assert(s.to_multiset().count(s[i]) > 0) by {
        assert(s.contains(s[i]));
    }
    assert(s.to_multiset().count(s[j]) > 0) by {
        assert(s.contains(s[j]));
    }
    assert(t.update(j, s[i]).to_multiset() =~= s.to_multiset());
}

impl Frontier {
    /// The entries form a heap.
    pub closed spec fn wf(&self) -> bool {
        is_heap(self.entries@)
    }

    pub fn new() -> (f: Self)
        ensures
            f.wf(),
            f@ == Multiset::<HeapEntry>::empty(),
    {
        let f = Frontier { entries: Vec::new() };
        assert(f.entries@.to_multiset() =~= Multiset::<HeapEntry>::empty()) by {
            broadcast use group_to_multiset_ensures;

            assert(f.entries@.to_multiset().len() == 0);
        }
        f
    }

    /// Number of entries, repeated ones counted each time.
    pub fn len(&self) -> (n: usize)
        ensures
            n == self@.len(),
    {
        proof {
            broadcast use group_to_multiset_ensures;

        }
        self.entries.len()
    }

    pub fn is_empty(&self) -> (r: bool)
        ensures
            r == (self@.len() == 0),
    {
        self.len() == 0
    }

    /// Exchanges the entries at the indices `i` and `j`.
    fn exchange(&mut self, i: usize, j: usize)
        requires
            i < old(self).entries@.len(),
            j < old(self).entries@.len(),
        ensures
            final(self).entries@ == old(self).entries@.update(i as int, old(self).entries@[j as int]).update(
                j as int,
                old(self).entries@[i as int],
            ),
            final(self)@ == old(self)@,
    {
        let a = self.entries[i];
        let b = self.entries[j];
        proof {
            lemma_exchange_bag(self.entries@, i as int, j as int);
        }
        self.entries.set(i, b);
        self.entries.set(j, a);
    }

    /// Adds `entry`.
    pub fn push(&mut self, entry: HeapEntry)
        requires
            old(self).wf(),
        ensures
            final(self).wf(),
            final(self)@ == old(self)@.insert(entry),
    {
        proof {
            broadcast use group_to_multiset_ensures;

        }
        self.entries.push(entry);
        let mut i: usize = self.entries.len() - 1;
        assert(heap_but(self.entries@, i as int)) by {
            assert forall|j: int| 0 < j < self.entries@.len() && j != i implies precedes(
                self.entries@[above(j)],
                #[trigger] self.entries@[j],
            ) by {
                assert(precedes(old(self).entries@[above(j)], old(self).entries@[j]));
            }
        }
        while i > 0
            invariant
                i < self.entries@.len(),
                self@ == old(self)@.insert(entry),
                heap_but(self.entries@, i as int),
                bridged(self.entries@, i as int),
            ensures
                is_heap(self.entries@),
                self@ == old(self)@.insert(entry),
            decreases i,
        {
            let up = (i - 1) / 2;
            if self.entries[up].goes_before(&self.entries[i]) {
                break ;
            }
            let ghost s = self.entries@;
            self.exchange(up, i);
            proof {
                let t = self.entries@;
                assert forall|j: int| 0 < j < t.len() && j != up implies precedes(t[above(j)], #[trigger] t[j]) by {
                    if j == i {
                    } else if above(j) == i {
                        assert(precedes(s[above(i as int)], s[j]));
                    } else if above(j) == up {
                        assert(precedes(s[up as int], s[j]));
                    } else {
                        assert(precedes(s[above(j)], s[j]));
                    }
                }
                if up > 0 {
                    assert forall|j: int| 0 < j < t.len() && above(j) == up implies precedes(
                        t[above(up as int)],
                        #[trigger] t[j],
                    ) by {
                        assert(precedes(s[above(up as int)], s[up as int]));
                        if j != i {
                            assert(precedes(s[up as int], s[j]));
                        }
                    }
                }
            }
            i = up;
        }
    }

    /// Takes out the entry that precedes all others, if there is any entry.
    pub fn pop(&mut self) -> (r: Option<HeapEntry>)
        requires
            old(self).wf(),
        ensures
            final(self).wf(),
            r is None <==> old(self)@.len() == 0,
            r is None ==> final(self)@ == old(self)@,
            r matches Some(e) ==> {
                &&& old(self)@.count(e) > 0
                &&& final(self)@ == old(self)@.remove(e)
                &&& forall|x: HeapEntry| old(self)@.count(x) > 0 ==> precedes(e, x)
            },
    {
        proof {
            broadcast use group_to_multiset_ensures;

        }
        let ghost before = self.entries@;
        let last = match self.entries.pop() {
            None => {
                return None;
            },
            Some(last) => last,
        };
        let len = self.entries.len();
        if len == 0 {
            proof {
                assert(before =~= seq![last]);
                assert(self.entries@.to_multiset() =~= before.to_multiset().remove(last));
                assert forall|x: HeapEntry| before.to_multiset().count(x) > 0 implies precedes(last, x) by {
                    assert(before.contains(x));
                }
                assert(before.contains(last)) by {
                    assert(before[0] == last);
                }
            }
            return Some(last);
        }
        let top = self.entries[0];
        let ghost rest = self.entries@;
        proof {
            assert(before == rest.push(last));
            assert(before.to_multiset() =~= rest.to_multiset().insert(last));
            lemma_update_bag(rest, 0, last);
            assert(rest.to_multiset().count(top) > 0) by {
                assert(rest.contains(top));
            }
            assert(rest.update(0, last).to_multiset() =~= before.to_multiset().remove(top));
            assert(before.contains(top)) by {
                assert(before[0] == top);
            }
            assert forall|x: HeapEntry| before.to_multiset().count(x) > 0 implies precedes(top, x) by {
                assert(before.contains(x));
                let k = choose|k: int| 0 <= k < before.len() && before[k] == x;
                lemma_first_precedes(before, k);
            }
        }
        self.entries.set(0, last);
        proof {
            let t = self.entries@;
            assert forall|j: int| 0 < j < t.len() && above(j) != 0 implies precedes(t[above(j)], #[trigger] t[j]) by {
                assert(precedes(before[above(j)], before[j]));
            }
        }
        let mut i: usize = 0;
        while i < len / 2
            invariant
                i < len,
                len == self.entries@.len(),
                self@ == before.to_multiset().remove(top),
                heap_but_below(self.entries@, i as int),
                bridged(self.entries@, i as int),
            ensures
                is_heap(self.entries@),
                self@ == before.to_multiset().remove(top),
            decreases len - i,
        {
            let left = 2 * i + 1;
            let right = left + 1;
            let mut first = i;
            if self.entries[left].goes_before(&self.entries[first]) {
                first = left;
            }
            if right < len && self.entries[right].goes_before(&self.entries[first]) {
                first = right;
            }
            let ghost s = self.entries@;
            if first == i {
                proof {
                    assert forall|j: int| 0 < j < s.len() implies precedes(s[above(j)], #[trigger] s[j]) by {
                        if above(j) == i {
                            assert(j == left || j == right);
                        }
                    }
                }
                break ;
            }
            self.exchange(i, first);
            proof {
                let t = self.entries@;
                assert(precedes(s[first as int], s[i as int]));
                assert(precedes(s[first as int], s[left as int]));
                if right < len {
                    assert(precedes(s[first as int], s[right as int]));
                }
                assert forall|j: int| 0 < j < t.len() && above(j) != first implies precedes(
                    t[above(j)],
                    #[trigger] t[j],
                ) by {
                    if above(j) == i {
                        assert(j == left || j == right);
                    } else if j == i {
                        assert(precedes(s[above(i as int)], s[first as int]));
                    } else {
                        assert(precedes(s[above(j)], s[j]));
                    }
                }
                assert forall|j: int| 0 < j < t.len() && above(j) == first implies precedes(
                    t[above(first as int)],
                    #[trigger] t[j],
                ) by {
                    assert(precedes(s[first as int], s[j]));
                }
            }
            i = first;
        }
        proof {
            if i >= len / 2 {
                let s = self.entries@;
                assert forall|j: int| 0 < j < s.len() implies precedes(s[above(j)], #[trigger] s[j]) by {
                    if above(j) == i {
                    }
                }
            }
        }
        Some(top)
    }
}

} // verus!
