//! A sort that keeps equals in their order.

use vstd::prelude::*;

verus! {

/// Items that can be sorted, given a context `C` to compare them in.
pub trait Sortable<C>: Sized {
    /// Whether the items can be compared in the context.
    spec fn comparable(context: C) -> bool;

    /// Whether `self` belongs before `other`.
    spec fn belongs_before(self, other: Self, context: C) -> bool;

    fn is_before(&self, other: &Self, context: &C) -> (r: bool)
        requires
            Self::comparable(*context),
        ensures
            r == self.belongs_before(*other, *context),
    ;

    /// No item belongs both before and behind another, and what belongs no
    /// earlier than an item belongs no earlier than what that item does not
    /// precede.
    proof fn lemma_weak_order(a: Self, b: Self, c: Self, context: C)
        requires
            Self::comparable(context),
        ensures
            a.belongs_before(b, context) ==> !b.belongs_before(a, context),
            !b.belongs_before(a, context) && !c.belongs_before(b, context)
                ==> !c.belongs_before(a, context),
    ;
}

/// `sorted` with `item` put in behind all that do not belong behind it.
pub open spec fn put_in<C, T: Sortable<C>>(sorted: Seq<T>, item: T, context: C) -> Seq<T>
    decreases sorted.len(),
{
    if sorted.len() > 0 && item.belongs_before(sorted.last(), context) {
        put_in(sorted.drop_last(), item, context).push(sorted.last())
    } else {
        sorted.push(item)
    }
}

/// The items in order, equals as they were.
pub open spec fn in_order<C, T: Sortable<C>>(items: Seq<T>, context: C) -> Seq<T>
    decreases items.len(),
{
    if items.len() == 0 {
        seq![]
    } else {
        put_in(in_order(items.drop_last(), context), items.last(), context)
    }
}

/// Whether no item belongs before an earlier one.
pub open spec fn is_in_order<C, T: Sortable<C>>(items: Seq<T>, context: C) -> bool {
    forall|i: int, j: int|
        0 <= i < j < items.len() ==> !(#[trigger] items[j]).belongs_before(
            #[trigger] items[i],
            context,
        )
}

/// Sorting puts items in order and keeps them all.
pub proof fn lemma_in_order<C, T: Sortable<C>>(items: Seq<T>, context: C)
    requires
        T::comparable(context),
    ensures
        is_in_order(in_order(items, context), context),
        in_order(items, context).to_multiset() =~= items.to_multiset(),
        in_order(items, context).len() == items.len(),
    decreases items.len(),
{
    broadcast use vstd::seq_lib::group_to_multiset_ensures;

    if items.len() > 0 {
        lemma_in_order(items.drop_last(), context);
        lemma_put_in(in_order(items.drop_last(), context), items.last(), context);
        assert(items =~= items.drop_last().push(items.last()));
    }
}

/// Sorting adds no item.
pub proof fn lemma_in_order_from<C, T: Sortable<C>>(items: Seq<T>, context: C, k: int)
    requires
        T::comparable(context),
        0 <= k < in_order(items, context).len(),
    ensures
        items.contains(in_order(items, context)[k]),
    decreases items.len(),
{
    let front = items.drop_last();
    let sorted = in_order(front, context);
    lemma_in_order(front, context);
    lemma_put_in(sorted, items.last(), context);
    let item = in_order(items, context)[k];
    if item == items.last() {
        assert(items[items.len() - 1] == item);
    } else {
        assert(sorted.contains(item));
        let m = choose|m: int| 0 <= m < sorted.len() && sorted[m] == item;
        lemma_in_order_from(front, context, m);
        let n = choose|n: int| 0 <= n < front.len() && front[n] == item;
        assert(items[n] == item);
    }
}

/// Putting an item in keeps the order, the other items, and adds one.
pub proof fn lemma_put_in<C, T: Sortable<C>>(sorted: Seq<T>, item: T, context: C)
    requires
        T::comparable(context),
        is_in_order(sorted, context),
    ensures
        is_in_order(put_in(sorted, item, context), context),
        put_in(sorted, item, context).to_multiset() =~= sorted.to_multiset().insert(item),
        put_in(sorted, item, context).len() == sorted.len() + 1,
        forall|k: int|
            0 <= k < put_in(sorted, item, context).len() ==> #[trigger] put_in(
                sorted,
                item,
                context,
            )[k] == item || sorted.contains(put_in(sorted, item, context)[k]),
    decreases sorted.len(),
{
    broadcast use vstd::seq_lib::group_to_multiset_ensures;

    if sorted.len() > 0 && item.belongs_before(sorted.last(), context) {
        let front = sorted.drop_last();
        lemma_put_in(front, item, context);
        let grown = put_in(front, item, context);
        let all = put_in(sorted, item, context);
        assert(sorted =~= front.push(sorted.last()));
        assert forall|i: int, j: int| 0 <= i < j < all.len() implies !(#[trigger] all[j])
            .belongs_before(#[trigger] all[i], context) by {
            if j == all.len() - 1 {
                T::lemma_weak_order(item, sorted.last(), item, context);
                if grown[i] != item {
                    let k = choose|k: int| 0 <= k < front.len() && front[k] == grown[i];
                    assert(!sorted[sorted.len() - 1].belongs_before(sorted[k], context));
                }
            }
        }
        assert forall|k: int| 0 <= k < all.len() implies #[trigger] all[k] == item
            || sorted.contains(all[k]) by {
            if k < grown.len() && grown[k] != item {
                let m = choose|m: int| 0 <= m < front.len() && front[m] == grown[k];
                assert(sorted[m] == all[k]);
            } else if k == grown.len() {
                assert(sorted[sorted.len() - 1] == all[k]);
            }
        }
    } else {
        let all = put_in(sorted, item, context);
        assert forall|i: int, j: int| 0 <= i < j < all.len() implies !(#[trigger] all[j])
            .belongs_before(#[trigger] all[i], context) by {
            if j == sorted.len() {
                T::lemma_weak_order(sorted[i], sorted.last(), item, context);
            }
        }
        assert forall|k: int| 0 <= k < all.len() implies #[trigger] all[k] == item
            || sorted.contains(all[k]) by {
            if k < sorted.len() {
                assert(sorted[k] == all[k]);
            }
        }
    }
}

/// Sorts `items`.
pub fn sort<C, T: Sortable<C>>(items: Vec<T>, context: &C) -> (r: Vec<T>)
    requires
        T::comparable(*context),
    ensures
        r@ == in_order(items@, *context),
{
    let ghost all = items@;
    let mut rest = items;
    let mut backwards: Vec<T> = Vec::new();
    while rest.len() > 0
        invariant
            rest@.len() + backwards@.len() == all.len(),
            rest@ == all.take(rest@.len() as int),
            forall|k: int|
                0 <= k < backwards@.len() ==> #[trigger] backwards@[k] == all[all.len() - 1 - k],
        decreases rest@.len(),
    {
        match rest.pop() {
            Some(item) => {
                backwards.push(item);
                assert(rest@ =~= all.take(rest@.len() as int));
            },
            None => {},
        }
    }
    let mut sorted: Vec<T> = Vec::new();
    assert(all.take(0) =~= Seq::<T>::empty());
    while backwards.len() > 0
        invariant
            T::comparable(*context),
            backwards@.len() <= all.len(),
            forall|k: int|
                0 <= k < backwards@.len() ==> #[trigger] backwards@[k] == all[all.len() - 1 - k],
            sorted@ == in_order(all.take(all.len() - backwards@.len()), *context),
        decreases backwards@.len(),
    {
        let ghost done = all.len() - backwards@.len();
        match backwards.pop() {
            Some(item) => {
                proof {
                    assert(item == all[done]);
                    assert(all.take(done + 1).drop_last() =~= all.take(done));
                    assert(all.take(done + 1).last() == item);
                }
                let ghost before = sorted@;
                let mut at: usize = sorted.len();
                assert(before.take(at as int) =~= before);
                assert(before.skip(at as int) =~= Seq::<T>::empty());
                assert(put_in(before, item, *context) =~= put_in(before, item, *context)
                    + before.skip(at as int));
                while at > 0 && item.is_before(&sorted[at - 1], context)
                    invariant
                        T::comparable(*context),
                        at <= sorted@.len(),
                        sorted@ == before,
                        put_in(before, item, *context) == put_in(
                            before.take(at as int),
                            item,
                            *context,
                        ) + before.skip(at as int),
                    decreases at,
                {
                    proof {
                        let head = before.take(at as int);
                        assert(head.last() == before[at - 1]);
                        assert(head.drop_last() =~= before.take(at - 1));
                        assert(put_in(head.drop_last(), item, *context).push(head.last())
                            + before.skip(at as int) =~= put_in(
                            head.drop_last(),
                            item,
                            *context,
                        ) + before.skip(at - 1));
                    }
                    at = at - 1;
                }
                sorted.insert(at, item);
                assert(sorted@ =~= before.take(at as int).push(item) + before.skip(at as int));
            },
            None => {},
        }
    }
    assert(all.take(all.len() as int) =~= all);
    sorted
}

} // verus!
