//! A binary min-heap of `(priority, index)` pairs.
//!
//! The order is lexicographic: the smallest priority leaves first, and of
//! equal priorities the smallest index.

use vstd::prelude::*;
use vstd::multiset::Multiset;

verus! {

/// Lexicographic "at most" on heap entries.
pub open spec fn entry_le(a: (i32, u32), b: (i32, u32)) -> bool {
    a.0 < b.0 || (a.0 == b.0 && a.1 <= b.1)
}

/// An entry of `open` that no other entry of `open` precedes.
pub open spec fn is_lowest(open: Multiset<(i32, u32)>, e: (i32, u32)) -> bool {
    open.contains(e) && forall|x: (i32, u32)| #[trigger] open.contains(x) ==> entry_le(e, x)
}

/// The lowest entry of a non-empty collection.
pub open spec fn lowest(open: Multiset<(i32, u32)>) -> (i32, u32) {
    choose|e: (i32, u32)| is_lowest(open, e)
}

/// There is at most one lowest entry.
pub proof fn lemma_lowest_is_unique(open: Multiset<(i32, u32)>, e: (i32, u32))
    requires
        is_lowest(open, e),
    ensures
        lowest(open) == e,
{
    let other = lowest(open);
    assert(is_lowest(open, other));
    assert(entry_le(e, other) && entry_le(other, e));
}

/// A min-heap; its view is the collection of the entries it holds.
pub struct MinHeap {
    items: Vec<(i32, u32)>,
}

spec fn parent(i: int) -> int {
    (i - 1) / 2
}

spec fn ordered(s: Seq<(i32, u32)>) -> bool {
    forall|i: int| 0 < i < s.len() ==> entry_le(s[parent(i)], #[trigger] s[i])
}

// Ordered, but for the edge above `hole`.
spec fn ordered_but_above(s: Seq<(i32, u32)>, hole: int) -> bool {
    &&& forall|i: int| 0 < i < s.len() && i != hole ==> entry_le(s[parent(i)], #[trigger] s[i])
    &&& forall|i: int|
        0 < i < s.len() && parent(i) == hole && hole > 0 ==> entry_le(
            s[parent(hole)],
            #[trigger] s[i],
        )
}

// Ordered, but for the edges below `hole`.
spec fn ordered_but_below(s: Seq<(i32, u32)>, hole: int) -> bool {
    &&& forall|i: int|
        0 < i < s.len() && parent(i) != hole ==> entry_le(s[parent(i)], #[trigger] s[i])
    &&& forall|i: int|
        0 < i < s.len() && parent(i) == hole && hole > 0 ==> entry_le(
            s[parent(hole)],
            #[trigger] s[i],
        )
}

proof fn lemma_root_is_lowest(s: Seq<(i32, u32)>, i: int)
    requires
        ordered(s),
        0 <= i < s.len(),
    ensures
        entry_le(s[0], s[i]),
    decreases i,
{
    if i > 0 {
        lemma_root_is_lowest(s, parent(i));
        assert(entry_le(s[parent(i)], s[i]));
    }
}

proof fn lemma_update_multiset(s: Seq<(i32, u32)>, i: int, x: (i32, u32))
    requires
        0 <= i < s.len(),
    ensures
        s.update(i, x).to_multiset() =~= s.to_multiset().remove(s[i]).insert(x),
        s.to_multiset().contains(s[i]),
{
    broadcast use vstd::seq_lib::group_to_multiset_ensures;

    let t = s.update(i, x);
    assert(t.remove(i) =~= s.remove(i));
    assert(t[i] == x);
    assert(s.contains(s[i]));
    assert(t.contains(t[i]));
    assert(t.to_multiset().remove(x).insert(x) =~= t.to_multiset());
}

proof fn lemma_swap_multiset(s: Seq<(i32, u32)>, i: int, j: int)
    requires
        0 <= i < s.len(),
        0 <= j < s.len(),
        i != j,
    ensures
        s.update(i, s[j]).update(j, s[i]).to_multiset() =~= s.to_multiset(),
{
    lemma_update_multiset(s, i, s[j]);
    lemma_update_multiset(s.update(i, s[j]), j, s[i]);
    assert(s.to_multiset().remove(s[i]).insert(s[j]).remove(s[j]).insert(s[i])
        =~= s.to_multiset());
}

impl View for MinHeap {
    type V = Multiset<(i32, u32)>;

    closed spec fn view(&self) -> Multiset<(i32, u32)> {
        self.items@.to_multiset()
    }
}

impl MinHeap {
    /// No entry precedes the one above it.
    pub closed spec fn well_formed(&self) -> bool {
        ordered(self.items@)
    }

    /// An empty heap.
    pub fn new() -> (heap: Self)
        ensures
            heap.well_formed(),
            heap@ == Multiset::<(i32, u32)>::empty(),
    {
        let heap = MinHeap { items: Vec::new() };
        proof {
            broadcast use vstd::seq_lib::group_to_multiset_ensures;

            assert(heap@.len() == 0);
            assert(heap@ =~= Multiset::<(i32, u32)>::empty());
        }
        heap
    }

    /// Adds `entry`.
    pub fn push(&mut self, entry: (i32, u32))
        requires
            old(self).well_formed(),
        ensures
            final(self).well_formed(),
            final(self)@ == old(self)@.insert(entry),
    {
        let ghost before = self.items@;
        self.items.push(entry);
        proof {
            broadcast use vstd::seq_lib::group_to_multiset_ensures;

            assert(self.items@ =~= before.push(entry));
        }
        let mut pos: usize = self.items.len() - 1;
        while pos > 0
            invariant
                pos < self.items.len(),
                ordered_but_above(self.items@, pos as int),
                self.items@.to_multiset() == before.to_multiset().insert(entry),
            ensures
                ordered(self.items@),
                self.items@.to_multiset() == before.to_multiset().insert(entry),
            decreases pos,
        {
            let up: usize = (pos - 1) / 2;
            let child = self.items[pos];
            let above = self.items[up];
            if above.0 < child.0 || (above.0 == child.0 && above.1 <= child.1) {
                assert(ordered(self.items@));
                break;
            }
            let ghost s = self.items@;
            proof {
                lemma_swap_multiset(s, pos as int, up as int);
            }
            self.items[pos] = above;
            self.items[up] = child;
            assert(self.items@ =~= s.update(pos as int, s[up as int]).update(up as int, s[pos as int]));
            proof {
                let t = self.items@;
                assert forall|i: int| 0 < i < t.len() && i != up implies entry_le(
                    t[parent(i)],
                    #[trigger] t[i],
                ) by {
                    assert(entry_le(s[parent(i)], s[i]) || i == pos);
                    if i != pos && parent(i) == pos {
                        assert(entry_le(s[parent(pos as int)], s[i]));
                    }
                }
                assert forall|i: int| 0 < i < t.len() && parent(i) == up && up > 0 implies entry_le(
                    t[parent(up as int)],
                    #[trigger] t[i],
                ) by {
                    assert(entry_le(s[parent(up as int)], s[up as int]));
                    if i != pos {
                        assert(entry_le(s[parent(i)], s[i]));
                    }
                }
            }
            pos = up;
        }
    }

    /// Removes the lowest entry.
    pub fn pop(&mut self) -> (entry: Option<(i32, u32)>)
        requires
            old(self).well_formed(),
        ensures
            final(self).well_formed(),
            match entry {
                Some(e) => is_lowest(old(self)@, e) && final(self)@ == old(self)@.remove(e),
                None => old(self)@.len() == 0 && final(self)@ == old(self)@,
            },
    {
        broadcast use vstd::seq_lib::group_to_multiset_ensures;

        if self.items.len() == 0 {
            return None;
        }
        let ghost before = self.items@;
        let top = self.items[0];
        proof {
            assert forall|x: (i32, u32)| #[trigger] before.to_multiset().contains(x) implies entry_le(
                top,
                x,
            ) by {
                assert(before.contains(x));
                let i = choose|i: int| 0 <= i < before.len() && before[i] == x;
                lemma_root_is_lowest(before, i);
            }
            assert(before.contains(before[0]));
        }
        let last = self.items[self.items.len() - 1];
        self.items.pop();
        if self.items.len() == 0 {
            assert(self.items@ =~= before.remove(0));
            return Some(top);
        }
        let ghost cut = self.items@;
        self.items[0] = last;
        proof {
            assert(cut =~= before.remove(before.len() - 1));
            lemma_update_multiset(cut, 0, last);
            assert(cut[0] == before[0]);
            assert(self.items@.to_multiset() =~= before.to_multiset().remove(last).remove(top).insert(
                last,
            ));
            assert(before.contains(before[before.len() - 1]));
            assert(before.to_multiset().count(last) >= 1);
            if top == last {
                assert(cut.contains(cut[0]));
            }
            assert(self.items@.to_multiset() =~= before.to_multiset().remove(top));
            assert forall|i: int|
                0 < i < self.items@.len() && parent(i) != 0 implies entry_le(
                self.items@[parent(i)],
                #[trigger] self.items@[i],
            ) by {
                assert(entry_le(before[parent(i)], before[i]));
            }
        }
        let mut pos: usize = 0;
        let n: usize = self.items.len();
        while pos < n / 2
            invariant
                n == self.items.len(),
                pos < n,
                ordered_but_below(self.items@, pos as int),
                self.items@.to_multiset() == before.to_multiset().remove(top),
            ensures
                ordered(self.items@),
                self.items@.to_multiset() == before.to_multiset().remove(top),
            decreases n - pos,
        {
            let left: usize = 2 * pos + 1;
            let right: usize = left + 1;
            let mut low: usize = left;
            if right < n {
                let a = self.items[left];
                let b = self.items[right];
                if b.0 < a.0 || (b.0 == a.0 && b.1 < a.1) {
                    low = right;
                }
            }
            let ghost s = self.items@;
            let above = self.items[pos];
            let child = self.items[low];
            if above.0 < child.0 || (above.0 == child.0 && above.1 <= child.1) {
                assert forall|i: int| 0 < i < s.len() implies entry_le(
                    s[parent(i)],
                    #[trigger] s[i],
                ) by {
                    if parent(i) == pos {
                        assert(i == left || i == right);
                    }
                }
                break;
            }
            proof {
                lemma_swap_multiset(s, pos as int, low as int);
            }
            self.items[pos] = child;
            self.items[low] = above;
            assert(self.items@ =~= s.update(pos as int, s[low as int]).update(low as int, s[pos as int]));
            proof {
                let t = self.items@;
                assert forall|i: int| 0 < i < t.len() && parent(i) != low implies entry_le(
                    t[parent(i)],
                    #[trigger] t[i],
                ) by {
                    if parent(i) == pos {
                        assert(i == left || i == right);
                    } else {
                        assert(entry_le(s[parent(i)], s[i]));
                        if i == pos {
                            assert(parent(low as int) == pos);
                            assert(entry_le(s[parent(pos as int)], s[low as int]));
                        }
                    }
                }
                assert forall|i: int|
                    0 < i < t.len() && parent(i) == low && low > 0 implies entry_le(
                    t[parent(low as int)],
                    #[trigger] t[i],
                ) by {
                    assert(entry_le(s[parent(i)], s[i]));
                }
            }
            pos = low;
        }
        Some(top)
    }
}

/// No entry is of lower priority than the lowest, and none of its priority has a lower
/// index.
pub proof fn law_nothing_precedes_the_lowest(
    open: Multiset<(i32, u32)>,
    e: (i32, u32),
    x: (i32, u32),
)
    requires
        is_lowest(open, e),
        open.contains(x),
    ensures
        e.0 <= x.0,
        e.0 == x.0 ==> e.1 <= x.1,
        open.contains(e),
{
}

} // verus!
