//! Which excerpts identifiers name, and what they show once they have grown.

use vstd::prelude::*;

use crate::buffer::{resolved, row_end, row_start, BufferSnapshot};
use crate::excerpt::{Excerpt, ExcerptId};
use crate::id_list::{deduped, is_ascending};
use crate::locator::{digits_before, Locator};
use crate::multi_buffer::expand::{
    ascending, at_most, entry_locator, expanded, lemma_deduped, lemma_visited, lemma_visited_step,
    visited, without_max, without_min,
};
use crate::snapshot::ids::{lemma_locator_index, locator_index};
use crate::snapshot::MultiBufferSnapshot;
use crate::sorting::{in_order, lemma_in_order, lemma_in_order_from, Sortable};
use crate::text::{lemma_positions_grow, lemma_summary_sound, point_at, Bias};

verus! {

/// Nothing but repetitions is left out.
proof fn lemma_deduped_keeps(items: Seq<usize>, k: int)
    requires
        0 <= k < items.len(),
    ensures
        deduped(items).contains(items[k]),
    decreases items.len(),
{
    let front = items.drop_last();
    let all = deduped(items);
    if k < front.len() {
        lemma_deduped_keeps(front, k);
        let m = choose|m: int| 0 <= m < deduped(front).len() && deduped(front)[m] == front[k];
        assert(all[m] == items[k]);
    } else if items.len() > 1 && items[items.len() - 2] == items.last() {
        lemma_deduped_keeps(front, items.len() - 2);
    } else {
        assert(all[all.len() - 1] == items[k]);
    }
}

/// The numbers of identifiers of excerpts, in ascending order and each once.
proof fn lemma_distinct(snapshot: MultiBufferSnapshot, ids: Seq<ExcerptId>)
    requires
        snapshot.wf(),
        forall|k: int| 0 <= k < ids.len() ==> snapshot.has_excerpt(#[trigger] ids[k]),
    ensures
        ({
            let distinct = deduped(ascending(ids));
            &&& snapshot.named_places(ids) == distinct.map_values(
                |id: usize| entry_locator(snapshot.excerpt_ids@, ExcerptId(id)),
            )
            &&& forall|d: int|
                0 <= d < distinct.len() ==> ids.contains(ExcerptId(#[trigger] distinct[d]))
            &&& forall|k: int| 0 <= k < ids.len() ==> distinct.contains((#[trigger] ids[k]).0)
            &&& forall|d: int, e: int|
                0 <= d < e < distinct.len() ==> #[trigger] distinct[d] < #[trigger] distinct[e]
        }),
{
    broadcast use vstd::seq_lib::group_to_multiset_ensures;

    let all = ids.map_values(|id: ExcerptId| id.0);
    let leq = at_most();
    let sorted = ascending(ids);
    all.lemma_sort_by_ensures(leq);
    assert(is_ascending(sorted)) by {
        assert forall|i: int, j: int| 0 <= i < j < sorted.len() implies sorted[i]
            <= sorted[j] by {
            assert(leq(sorted[i], sorted[j]));
        }
    }
    assert forall|k: int| 0 <= k < ids.len() implies 0 < (#[trigger] ids[k]).0 < usize::MAX by {
        snapshot.lemma_excerpt_id(snapshot.index_for(ids[k]));
    }
    assert forall|s: int| 0 <= s < sorted.len() implies ids.contains(
        ExcerptId(#[trigger] sorted[s]),
    ) && 0 < sorted[s] < usize::MAX by {
        assert(sorted.contains(sorted[s]));
        assert(all.contains(sorted[s]));
        let k = choose|k: int| 0 <= k < all.len() && all[k] == sorted[s];
        assert(ids[k] == ExcerptId(sorted[s]));
    }
    let distinct = deduped(sorted);
    lemma_deduped(sorted);
    assert(without_max(sorted) == sorted);
    assert(sorted.len() == ids.len()) by {
        assert(sorted.to_multiset().len() == sorted.len());
        assert(all.to_multiset().len() == all.len());
    }
    assert forall|d: int| 0 <= d < distinct.len() implies ids.contains(
        ExcerptId(#[trigger] distinct[d]),
    ) && distinct[d] > 0 by {
        assert(sorted.contains(distinct[d]));
        let s = choose|s: int| 0 <= s < sorted.len() && sorted[s] == distinct[d];
        assert(ids.contains(ExcerptId(sorted[s])));
    }
    assert forall|k: int| 0 <= k < ids.len() implies distinct.contains((#[trigger] ids[k]).0) by {
        assert(all[k] == ids[k].0);
        assert(all.contains(all[k]));
        assert(sorted.to_multiset().count(all[k]) > 0);
        assert(sorted.contains(all[k]));
        let s = choose|s: int| 0 <= s < sorted.len() && sorted[s] == all[k];
        lemma_deduped_keeps(sorted, s);
    }
    assert(without_min(distinct) == distinct);
    assert(snapshot.named_places(ids) =~= distinct.map_values(
        |id: usize| entry_locator(snapshot.excerpt_ids@, ExcerptId(id)),
    ));
}

/// The place of an excerpt's identifier.
proof fn lemma_entry_locator(snapshot: MultiBufferSnapshot, id: ExcerptId)
    requires
        snapshot.wf(),
        snapshot.has_excerpt(id),
    ensures
        entry_locator(snapshot.excerpt_ids@, id)@ == snapshot.excerpts@[snapshot.index_for(
            id,
        )].locator@,
        locator_index(
            snapshot.excerpts@,
            entry_locator(snapshot.excerpt_ids@, id)@,
            Bias::Left,
            0,
        ) == snapshot.index_for(id),
{
    snapshot.lemma_excerpt_id(snapshot.index_for(id));
}

/// The places that identifiers of excerpts name, in order, are the places of the
/// excerpts with these identifiers and no others, each before the next, and searches
/// for them end at these excerpts, one after the other.
pub proof fn lemma_places_found(snapshot: MultiBufferSnapshot, ids: Seq<ExcerptId>)
    requires
        snapshot.wf(),
        forall|k: int| 0 <= k < ids.len() ==> snapshot.has_excerpt(#[trigger] ids[k]),
    ensures
        ({
            let es = snapshot.excerpts@;
            let places = in_order(snapshot.named_places(ids), ());
            &&& forall|p: int|
                0 <= p < places.len() ==> {
                    let i = locator_index(es, (#[trigger] places[p])@, Bias::Left, 0);
                    0 <= i < es.len() && ids.contains(es[i].id) && places[p]@ == es[i].locator@
                }
            &&& forall|p: int, q: int|
                0 <= p < q < places.len() ==> digits_before(
                    (#[trigger] places[p])@,
                    (#[trigger] places[q])@,
                )
            &&& forall|p: int, q: int|
                0 <= p < q < places.len() ==> locator_index(
                    es,
                    (#[trigger] places[p])@,
                    Bias::Left,
                    0,
                ) < locator_index(es, (#[trigger] places[q])@, Bias::Left, 0)
            &&& forall|k: int|
                0 <= k < ids.len() ==> places.contains(
                    entry_locator(snapshot.excerpt_ids@, #[trigger] ids[k]),
                )
        }),
{
    broadcast use vstd::seq_lib::group_to_multiset_ensures;

    let es = snapshot.excerpts@;
    let entries = snapshot.excerpt_ids@;
    let named = snapshot.named_places(ids);
    let distinct = deduped(ascending(ids));
    let places = in_order(named, ());
    lemma_distinct(snapshot, ids);
    lemma_in_order(named, ());
    assert forall|d: int| 0 <= d < distinct.len() implies snapshot.has_excerpt(
        ExcerptId(#[trigger] distinct[d]),
    ) && named[d] == entry_locator(entries, ExcerptId(distinct[d])) by {
        assert(ids.contains(ExcerptId(distinct[d])));
    }
    assert(named.no_duplicates()) by {
        assert forall|d: int, e: int|
            0 <= d < named.len() && 0 <= e < named.len() && d != e implies named[d]
            != named[e] by {
            lemma_entry_locator(snapshot, ExcerptId(distinct[d]));
            lemma_entry_locator(snapshot, ExcerptId(distinct[e]));
        }
    }
    named.lemma_multiset_has_no_duplicates();
    places.lemma_multiset_has_no_duplicates_conv();
    assert forall|p: int| 0 <= p < places.len() implies #[trigger] is_place_of(
        snapshot,
        distinct,
        places[p],
    ) by {
        lemma_in_order_from(named, (), p);
        let d = choose|d: int| 0 <= d < named.len() && named[d] == places[p];
        assert(places[p] == entry_locator(entries, ExcerptId(distinct[d])));
    }
    assert forall|p: int| 0 <= p < places.len() implies {
        let i = locator_index(es, (#[trigger] places[p])@, Bias::Left, 0);
        0 <= i < es.len() && ids.contains(es[i].id) && places[p]@ == es[i].locator@
    } by {
        assert(is_place_of(snapshot, distinct, places[p]));
        let d = choose|d: int|
            0 <= d < distinct.len() && places[p] == entry_locator(
                entries,
                ExcerptId(#[trigger] distinct[d]),
            );
        lemma_entry_locator(snapshot, ExcerptId(distinct[d]));
    }
    assert forall|p: int, q: int| 0 <= p < q < places.len() implies locator_index(
        es,
        (#[trigger] places[p])@,
        Bias::Left,
        0,
    ) < locator_index(es, (#[trigger] places[q])@, Bias::Left, 0) by {
        assert(is_place_of(snapshot, distinct, places[p]));
        assert(is_place_of(snapshot, distinct, places[q]));
        let d = choose|d: int|
            0 <= d < distinct.len() && places[p] == entry_locator(
                entries,
                ExcerptId(#[trigger] distinct[d]),
            );
        let e = choose|e: int|
            0 <= e < distinct.len() && places[q] == entry_locator(
                entries,
                ExcerptId(#[trigger] distinct[e]),
            );
        lemma_entry_locator(snapshot, ExcerptId(distinct[d]));
        lemma_entry_locator(snapshot, ExcerptId(distinct[e]));
        let i = snapshot.index_for(ExcerptId(distinct[d]));
        let j = snapshot.index_for(ExcerptId(distinct[e]));
        assert(!places[q].belongs_before(places[p], ()));
        if j < i {
            assert(digits_before(es[j].locator@, es[i].locator@));
        }
        if i == j {
            assert(distinct[d] == distinct[e]);
            assert(places[p] == places[q]);
        }
    }
    assert forall|p: int, q: int| 0 <= p < q < places.len() implies digits_before(
        (#[trigger] places[p])@,
        (#[trigger] places[q])@,
    ) by {
        let i = locator_index(es, places[p]@, Bias::Left, 0);
        let j = locator_index(es, places[q]@, Bias::Left, 0);
        assert(i < j);
        assert(digits_before(es[i].locator@, es[j].locator@));
    }
    assert forall|k: int| 0 <= k < ids.len() implies places.contains(
        entry_locator(entries, #[trigger] ids[k]),
    ) by {
        assert(distinct.contains(ids[k].0));
        let d = choose|d: int| 0 <= d < distinct.len() && distinct[d] == ids[k].0;
        assert(named[d] == entry_locator(entries, ids[k]));
        assert(named.contains(named[d]));
        assert(places.to_multiset().count(named[d]) > 0);
        assert(places.contains(named[d]));
    }
}

/// Whether a place is that of one of several identifiers.
spec fn is_place_of(
    snapshot: MultiBufferSnapshot,
    distinct: Seq<usize>,
    place: Locator,
) -> bool {
    exists|d: int|
        0 <= d < distinct.len() && place == entry_locator(
            snapshot.excerpt_ids@,
            ExcerptId(#[trigger] distinct[d]),
        )
}

/// A search ends where each place is found, as these lie one after the other.
proof fn lemma_visited_found(es: Seq<Excerpt>, places: Seq<Locator>, k: int)
    requires
        0 <= k < places.len(),
        forall|p: int, q: int|
            0 <= p < q < places.len() ==> locator_index(
                es,
                (#[trigger] places[p])@,
                Bias::Left,
                0,
            ) < locator_index(es, (#[trigger] places[q])@, Bias::Left, 0),
    ensures
        visited(es, places, places.len() as int)[k] == locator_index(
            es,
            places[k]@,
            Bias::Left,
            0,
        ),
    decreases k,
{
    lemma_visited_step(es, places, k);
    lemma_locator_index(es, places[k]@, Bias::Left, 0);
    if k > 0 {
        lemma_visited_found(es, places, k - 1);
    }
}

/// Identifiers of excerpts name the excerpts that have them, and no others.
pub proof fn lemma_named_excerpts(snapshot: MultiBufferSnapshot, ids: Seq<ExcerptId>)
    requires
        snapshot.wf(),
        forall|k: int| 0 <= k < ids.len() ==> snapshot.has_excerpt(#[trigger] ids[k]),
    ensures
        forall|k: int|
            0 <= k < snapshot.named_indexes(ids).len() ==> 0 <= #[trigger] snapshot.named_indexes(
                ids,
            )[k] < snapshot.excerpts@.len(),
        forall|i: int|
            0 <= i < snapshot.excerpts@.len() ==> snapshot.named_indexes(ids).contains(i)
                == ids.contains((#[trigger] snapshot.excerpts@[i]).id),
{
    let es = snapshot.excerpts@;
    let places = in_order(snapshot.named_places(ids), ());
    let n = places.len() as int;
    let indexes = snapshot.named_indexes(ids);
    lemma_places_found(snapshot, ids);
    lemma_visited(es, places, n, n);
    assert forall|k: int| 0 <= k < indexes.len() implies 0 <= #[trigger] indexes[k] < es.len()
        && ids.contains(es[indexes[k]].id) by {
        lemma_visited_found(es, places, k);
        assert(indexes[k] == locator_index(es, places[k]@, Bias::Left, 0));
    }
    assert forall|i: int| 0 <= i < es.len() implies indexes.contains(i) == ids.contains(
        (#[trigger] es[i]).id,
    ) by {
        if indexes.contains(i) {
            let k = choose|k: int| 0 <= k < indexes.len() && indexes[k] == i;
            assert(ids.contains(es[indexes[k]].id));
        }
        if ids.contains(es[i].id) {
            let k = choose|k: int| 0 <= k < ids.len() && ids[k] == es[i].id;
            snapshot.lemma_excerpt_id(i);
            lemma_entry_locator(snapshot, ids[k]);
            let place = entry_locator(snapshot.excerpt_ids@, ids[k]);
            assert(places.contains(place));
            let p = choose|p: int| 0 <= p < places.len() && places[p] == place;
            lemma_visited_found(es, places, p);
            assert(indexes[p] == i);
        }
    }
}

/// An excerpt that grows still shows what it showed, and more of the same buffer.
pub proof fn lemma_expanded_covers(e: Excerpt, up: int, down: int)
    requires
        e.wf(),
        up >= 0,
        down >= 0,
    ensures
        expanded(e, up, down).buffer == e.buffer,
        0 <= expanded(e, up, down).start() <= e.start(),
        e.end() <= expanded(e, up, down).end() <= e.buffer.bytes().len(),
        expanded(e, up, down).bytes().len() == expanded(e, up, down).end() - expanded(
            e,
            up,
            down,
        ).start(),
{
    let b: &BufferSnapshot = &e.buffer;
    let t = b.bytes();
    let max_row = point_at(t, t.len() as int).row;
    let start_row = e.start_pos().row;
    let end_row = point_at(t, e.end()).row;
    lemma_summary_sound(t.take(e.start()));
    lemma_summary_sound(t.take(e.end()));
    lemma_summary_sound(t.take(t.len() as int));
    if e.start() < t.len() {
        lemma_positions_grow(t, e.start(), t.len() as int);
    }
    if e.end() < t.len() {
        lemma_positions_grow(t, e.end(), t.len() as int);
    }
    let first_row = if start_row >= up {
        start_row - up
    } else {
        0
    };
    let last_row = if end_row + down <= max_row {
        end_row + down
    } else {
        max_row
    };
    let start = row_start(t, first_row as u32);
    let end = row_end(t, last_row as u32);
    b.lemma_row(first_row as u32);
    b.lemma_row(last_row as u32);
    if start > e.start() {
        lemma_positions_grow(t, e.start(), start);
    }
    if end < e.end() {
        lemma_positions_grow(t, end, e.end());
        b.lemma_row_end_behind(last_row as u32, e.end());
    }
    assert(e.buffer.anchor_spec(start, Bias::Left).offset == start);
    assert(resolved(e.buffer.anchor_spec(end, Bias::Right), t.len() as int) == end);
}

} // verus!
