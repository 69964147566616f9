//! Sorting by a place in a total order, equals in the order they came.

use vstd::prelude::*;
use crate::ieee::Single;

verus! {

/// Something with a place in a total order.
pub trait Placed: Copy {
    spec fn place(self) -> int;

    fn comes_no_later(self, other: Self) -> (r: bool)
        ensures
            r == (self.place() <= other.place()),
    ;
}

impl Placed for Single {
    open spec fn place(self) -> int {
        self.total_place()
    }

    fn comes_no_later(self, other: Self) -> (r: bool) {
        self.total_le(other)
    }
}

/// How many of the list's first items come no later than `x`.
pub open spec fn up_to<T: Placed>(list: Seq<T>, x: T) -> int
    decreases list.len(),
{
    if list.len() == 0 {
        0
    } else if list.last().place() <= x.place() {
        list.len() as int
    } else {
        up_to(list.drop_last(), x)
    }
}

/// The items in ascending order, and equals in the order they came.
pub open spec fn ascending<T: Placed>(xs: Seq<T>) -> Seq<T>
    decreases xs.len(),
{
    if xs.len() == 0 {
        Seq::empty()
    } else {
        let rest = ascending(xs.drop_last());
        rest.insert(up_to(rest, xs.last()), xs.last())
    }
}

/// Sorting keeps the number of items.
pub proof fn lemma_ascending_len<T: Placed>(xs: Seq<T>)
    ensures
        ascending(xs).len() == xs.len(),
{
    law_sorting_sorts(xs);
    ascending(xs).to_multiset_ensures();
    xs.to_multiset_ensures();
}

/// Sorts items.
pub fn sort<T: Placed>(xs: &[T]) -> (list: Vec<T>)
    ensures
        list@ == ascending(xs@),
{
    let mut list: Vec<T> = Vec::new();
    let mut i: usize = 0;
    while i < xs.len()
        invariant
            i <= xs@.len(),
            list@ == ascending(xs@.take(i as int)),
        decreases xs.len() - i,
    {
        assert(xs@.take(i + 1).drop_last() =~= xs@.take(i as int));
        let x = xs[i];
        let mut at: usize = list.len();
        assert(list@.take(at as int) =~= list@);
        while at > 0 && !list[at - 1].comes_no_later(x)
            invariant
                at <= list@.len(),
                up_to(list@.take(at as int), x) == up_to(list@, x),
            decreases at,
        {
            assert(list@.take(at as int).drop_last() =~= list@.take(at - 1));
            at -= 1;
        }
        assert(at == up_to(list@, x));
        list.insert(at, x);
        i += 1;
    }
    assert(xs@.take(i as int) =~= xs@);
    list
}

/// Sorting keeps the items and puts each no later than the next.
pub proof fn law_sorting_sorts<T: Placed>(xs: Seq<T>)
    ensures
        ascending(xs).to_multiset() == xs.to_multiset(),
        forall|a: int, b: int|
            0 <= a < b < ascending(xs).len() ==> (#[trigger] ascending(xs)[a]).place() <= (
            #[trigger] ascending(xs)[b]).place(),
    decreases xs.len(),
{
    if xs.len() > 0 {
        let fewer = xs.drop_last();
        let x = xs.last();
        law_sorting_sorts(fewer);
        let rest = ascending(fewer);
        let n = up_to(rest, x);
        lemma_up_to(rest, x);
        let out = rest.insert(n, x);
        assert forall|a: int, b: int| 0 <= a < b < out.len() implies (#[trigger] out[a]).place()
            <= (#[trigger] out[b]).place() by {
            let a0 = if a < n {
                a
            } else {
                a - 1
            };
            let b0 = if b < n {
                b
            } else {
                b - 1
            };
            if a != n && b != n {
                assert(rest[a0].place() <= rest[b0].place());
            } else if b == n {
                assert(rest[a0].place() <= rest[n - 1].place());
            }
        }
        vstd::seq_lib::to_multiset_insert(rest, n, x);
        vstd::seq_lib::to_multiset_build(fewer, x);
        assert(xs =~= fewer.push(x));
    } else {
        assert(ascending(xs) =~= xs);
    }
}

proof fn lemma_up_to<T: Placed>(list: Seq<T>, x: T)
    requires
        forall|a: int, b: int|
            0 <= a < b < list.len() ==> (#[trigger] list[a]).place() <= (
            #[trigger] list[b]).place(),
    ensures
        0 <= up_to(list, x) <= list.len(),
        forall|i: int| 0 <= i < up_to(list, x) ==> (#[trigger] list[i]).place() <= x.place(),
        forall|i: int| up_to(list, x) <= i < list.len() ==> (#[trigger] list[i]).place() > x.place(),
    decreases list.len(),
{
    if list.len() > 0 {
        if list.last().place() <= x.place() {
            assert forall|i: int| 0 <= i < list.len() implies (#[trigger] list[i]).place()
                <= x.place() by {
                if i < list.len() - 1 {
                    assert(list[i].place() <= list[list.len() - 1].place());
                }
            }
        } else {
            let fewer = list.drop_last();
            assert forall|a: int, b: int| 0 <= a < b < fewer.len() implies (
            #[trigger] fewer[a]).place() <= (#[trigger] fewer[b]).place() by {
                assert(list[a].place() <= list[b].place());
            }
            lemma_up_to(fewer, x);
            assert forall|i: int| 0 <= i < up_to(list, x) implies (#[trigger] list[i]).place()
                <= x.place() by {
                assert(fewer[i] == list[i]);
            }
            assert forall|i: int| up_to(list, x) <= i < list.len() implies (
            #[trigger] list[i]).place() > x.place() by {
                if i < fewer.len() {
                    assert(fewer[i] == list[i]);
                }
            }
        }
    }
}

/// Sorting is stable: of two items in the same place, the one that came first stays
/// first. A sorted list with one more item at its end has that item behind all that come
/// no later.
pub proof fn law_equal_items_keep_their_order<T: Placed>(xs: Seq<T>, x: T)
    requires
        forall|k: int| 0 <= k < xs.len() ==> (#[trigger] xs[k]).place() <= x.place(),
    ensures
        ascending(xs.push(x)) == ascending(xs).push(x),
{
    let rest = ascending(xs);
    law_sorting_sorts(xs);
    lemma_up_to(rest, x);
    assert(xs.push(x).drop_last() =~= xs);
    rest.to_multiset_ensures();
    xs.to_multiset_ensures();
    lemma_ascending_len(xs);
    if up_to(rest, x) < rest.len() {
        let y = rest[rest.len() - 1];
        assert(rest.contains(y));
        assert(rest.to_multiset().contains(y));
        assert(xs.contains(y));
    }
    assert(rest.insert(rest.len() as int, x) =~= rest.push(x));
}

} // verus!
