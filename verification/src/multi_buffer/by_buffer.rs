//! Items sorted out by buffer.

use vstd::prelude::*;

use crate::buffer::BufferId;

verus! {

/// The items of one buffer.
#[derive(Debug)]
pub struct OfBuffer<T> {
    pub buffer_id: BufferId,
    pub items: Vec<T>,
}

/// Those of the items that belong to one buffer, in order.
pub open spec fn items_of<T>(all: Seq<(BufferId, T)>, buffer_id: BufferId) -> Seq<T>
    decreases all.len(),
{
    if all.len() == 0 {
        seq![]
    } else if all.last().0 == buffer_id {
        items_of(all.drop_last(), buffer_id).push(all.last().1)
    } else {
        items_of(all.drop_last(), buffer_id)
    }
}

/// Whether one of the groups is that of a buffer.
pub open spec fn has_group<T>(groups: Seq<OfBuffer<T>>, buffer_id: BufferId) -> bool {
    exists|a: int| 0 <= a < groups.len() && (#[trigger] groups[a]).buffer_id == buffer_id
}

/// Whether the groups hold the items, by buffer and in order.
pub open spec fn sorted_out<T>(groups: Seq<OfBuffer<T>>, all: Seq<(BufferId, T)>) -> bool {
    &&& forall|a: int, b: int|
        0 <= a < b < groups.len() ==> (#[trigger] groups[a]).buffer_id != (
        #[trigger] groups[b]).buffer_id
    &&& forall|a: int|
        0 <= a < groups.len() ==> (#[trigger] groups[a]).items@ == items_of(
            all,
            groups[a].buffer_id,
        ) && groups[a].items@.len() > 0
    &&& forall|k: int| 0 <= k < all.len() ==> has_group(groups, (#[trigger] all[k]).0)
}

/// A buffer has a group where it has items.
pub proof fn lemma_has_group<T>(
    groups: Seq<OfBuffer<T>>,
    all: Seq<(BufferId, T)>,
    buffer_id: BufferId,
)
    requires
        sorted_out(groups, all),
    ensures
        has_group(groups, buffer_id) == (items_of(all, buffer_id).len() > 0),
    decreases all.len(),
{
    if has_group(groups, buffer_id) {
        let a = choose|a: int|
            0 <= a < groups.len() && (#[trigger] groups[a]).buffer_id == buffer_id;
        assert(groups[a].items@.len() > 0);
    }
    if items_of(all, buffer_id).len() > 0 {
        let k = lemma_item(all, buffer_id);
        assert(has_group(groups, all[k].0));
    }
}

/// Items of a buffer are among all items.
pub proof fn lemma_item<T>(all: Seq<(BufferId, T)>, buffer_id: BufferId) -> (k: int)
    requires
        items_of(all, buffer_id).len() > 0,
    ensures
        0 <= k < all.len(),
        all[k].0 == buffer_id,
    decreases all.len(),
{
    if all.last().0 == buffer_id {
        all.len() - 1
    } else {
        lemma_item(all.drop_last(), buffer_id)
    }
}

/// The items of a buffer are those that belong to it, all of them and in their order.
pub proof fn lemma_items<T>(all: Seq<(BufferId, T)>, buffer_id: BufferId)
    ensures
        items_of(all, buffer_id) == all.filter(|item: (BufferId, T)| item.0 == buffer_id).map_values(
            |item: (BufferId, T)| item.1,
        ),
    decreases all.len(),
{
    reveal(Seq::filter);
    if all.len() > 0 {
        let front = all.drop_last();
        lemma_items(front, buffer_id);
        let own = |item: (BufferId, T)| item.0 == buffer_id;
        let inner = |item: (BufferId, T)| item.1;
        if all.last().0 == buffer_id {
            assert(all.filter(own) == front.filter(own).push(all.last()));
            assert(all.filter(own).map_values(inner) =~= front.filter(own).map_values(inner).push(
                all.last().1,
            ));
        } else {
            assert(all.filter(own) == front.filter(own));
        }
    } else {
        assert(items_of(all, buffer_id) =~= all.filter(
            |item: (BufferId, T)| item.0 == buffer_id,
        ).map_values(|item: (BufferId, T)| item.1));
    }
}

/// Which of all items the `q`-th of a buffer is: the one before which the buffer has `q`
/// others.
pub proof fn lemma_item_at<T>(all: Seq<(BufferId, T)>, buffer_id: BufferId, q: int) -> (p: int)
    requires
        0 <= q < items_of(all, buffer_id).len(),
    ensures
        0 <= p < all.len(),
        all[p] == (buffer_id, items_of(all, buffer_id)[q]),
        items_of(all.take(p), buffer_id).len() == q,
    decreases all.len(),
{
    let front = all.drop_last();
    if all.last().0 == buffer_id && q == items_of(all, buffer_id).len() - 1 {
        assert(all.take(all.len() - 1) =~= front);
        all.len() - 1
    } else {
        let p = lemma_item_at(front, buffer_id, q);
        assert(front.take(p) =~= all.take(p));
        p
    }
}

/// Where one of all items stands among those of its buffer: behind those of the buffer
/// that come before it.
pub proof fn lemma_item_place<T>(all: Seq<(BufferId, T)>, p: int) -> (q: int)
    requires
        0 <= p < all.len(),
    ensures
        q == items_of(all.take(p), all[p].0).len(),
        0 <= q < items_of(all, all[p].0).len(),
        items_of(all, all[p].0)[q] == all[p].1,
    decreases all.len(),
{
    let front = all.drop_last();
    let q = items_of(all.take(p), all[p].0).len() as int;
    if p < front.len() {
        let _ = lemma_item_place(front, p);
        assert(front.take(p) =~= all.take(p));
    } else {
        assert(all.take(p) =~= front);
    }
    q
}

/// Adds an item to the group of its buffer.
pub(crate) fn sort_out<T>(
    groups: &mut Vec<OfBuffer<T>>,
    buffer_id: BufferId,
    item: T,
    Ghost(all): Ghost<Seq<(BufferId, T)>>,
)
    requires
        sorted_out(old(groups)@, all),
    ensures
        sorted_out(final(groups)@, all.push((buffer_id, item))),
{
    let ghost grown = all.push((buffer_id, item));
    let ghost before = groups@;
    assert(grown.drop_last() =~= all);
    let mut a: usize = 0;
    while a < groups.len()
        invariant
            a <= groups@.len(),
            groups@ == before,
            forall|b: int| 0 <= b < a ==> (#[trigger] groups@[b]).buffer_id != buffer_id,
        ensures
            a <= groups@.len(),
            groups@ == before,
            a < groups@.len() ==> groups@[a as int].buffer_id == buffer_id,
            forall|b: int| 0 <= b < a ==> (#[trigger] groups@[b]).buffer_id != buffer_id,
        decreases groups@.len() - a,
    {
        if groups[a].buffer_id == buffer_id {
            break;
        }
        a = a + 1;
    }
    if a < groups.len() {
        groups[a].items.push(item);
        assert forall|b: int| 0 <= b < groups@.len() implies (#[trigger] groups@[b]).buffer_id
            == before[b].buffer_id && groups@[b].items@ == items_of(grown, groups@[b].buffer_id)
            && groups@[b].items@.len() > 0 by {
            assert(before[b].items@ == items_of(all, before[b].buffer_id));
            if b != a {
                if b > a {
                    assert(before[a as int].buffer_id != before[b].buffer_id);
                }
            }
        }
        assert forall|i: int, j: int| 0 <= i < j < groups@.len() implies (
        #[trigger] groups@[i]).buffer_id != (#[trigger] groups@[j]).buffer_id by {
            assert(before[i].buffer_id != before[j].buffer_id);
        }
    } else {
        let mut items: Vec<T> = Vec::new();
        items.push(item);
        proof {
            if items_of(all, buffer_id).len() > 0 {
                let k = lemma_item(all, buffer_id);
                assert(has_group(before, all[k].0));
            }
            assert(items_of(grown, buffer_id) =~= items@);
        }
        groups.push(OfBuffer { buffer_id, items });
        assert forall|b: int| 0 <= b < groups@.len() implies (#[trigger] groups@[b]).items@
            == items_of(grown, groups@[b].buffer_id) && groups@[b].items@.len() > 0 by {
            if b < before.len() {
                assert(before[b].items@ == items_of(all, before[b].buffer_id));
            }
        }
    }
    assert forall|k: int| 0 <= k < grown.len() implies has_group(
        groups@,
        (#[trigger] grown[k]).0,
    ) by {
        if k < all.len() {
            assert(has_group(before, all[k].0));
            let b = choose|b: int|
                0 <= b < before.len() && (#[trigger] before[b]).buffer_id == all[k].0;
            assert(groups@[b].buffer_id == all[k].0);
        } else {
            assert(groups@[a as int].buffer_id == buffer_id);
        }
    }
}

} // verus!
