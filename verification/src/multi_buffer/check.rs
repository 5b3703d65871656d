//! Checking that excerpts and identifiers are in order.

use vstd::prelude::*;

use crate::excerpt::Excerpt;
use crate::locator::{digits_before, lemma_order_transitive, Locator};
use crate::multi_buffer::MultiBuffer;
use crate::snapshot::{valid_locator, ExcerptIdMapping};

verus! {

/// Whether the `i`-th excerpt stands behind the one before, or the first behind
/// the earliest place.
pub open spec fn excerpt_follows(es: Seq<Excerpt>, i: int) -> bool {
    digits_before(
        if i == 0 {
            seq![0u64]
        } else {
            es[i - 1].locator@
        },
        es[i].locator@,
    )
}

/// Whether all excerpts are in order.
pub open spec fn excerpts_in_order(es: Seq<Excerpt>) -> bool {
    forall|i: int| 0 <= i < es.len() ==> #[trigger] excerpt_follows(es, i)
}

/// Whether the `i`-th identifier is greater than the one before, or the first
/// stands behind the earliest place.
pub open spec fn id_follows(ids: Seq<ExcerptIdMapping>, i: int) -> bool {
    if i == 0 {
        digits_before(seq![0u64], ids[i].locator@)
    } else {
        ids[i - 1].id.0 < ids[i].id.0
    }
}

/// Whether all identifiers are in order.
pub open spec fn ids_in_order(ids: Seq<ExcerptIdMapping>) -> bool {
    forall|i: int| 0 <= i < ids.len() ==> #[trigger] id_follows(ids, i)
}

impl MultiBuffer {
    /// Whether excerpts and identifiers are in order.
    pub fn check_invariants(&self) -> (r: bool)
        ensures
            r == (excerpts_in_order(self.snapshot.excerpts@) && ids_in_order(
                self.snapshot.excerpt_ids@,
            )),
    {
        let es = &self.snapshot.excerpts;
        let ids = &self.snapshot.excerpt_ids;
        let first = Locator::min();
        let mut i: usize = 0;
        while i < es.len()
            invariant
                first@ == seq![0u64],
                es@ == self.snapshot.excerpts@,
                i <= es@.len(),
                forall|j: int| 0 <= j < i ==> #[trigger] excerpt_follows(es@, j),
            decreases es@.len() - i,
        {
            let in_order: bool = if i == 0 {
                first.before(&es[i].locator)
            } else {
                es[i - 1].locator.before(&es[i].locator)
            };
            assert(in_order == excerpt_follows(es@, i as int));
            if !in_order {
                return false;
            }
            i = i + 1;
        }
        let mut k: usize = 0;
        while k < ids.len()
            invariant
                first@ == seq![0u64],
                ids@ == self.snapshot.excerpt_ids@,
                k <= ids@.len(),
                forall|j: int| 0 <= j < k ==> #[trigger] id_follows(ids@, j),
            decreases ids@.len() - k,
        {
            let in_order: bool = if k == 0 {
                first.before(&ids[k].locator)
            } else {
                ids[k - 1].id.0 < ids[k].id.0
            };
            assert(in_order == id_follows(ids@, k as int));
            if !in_order {
                return false;
            }
            k = k + 1;
        }
        true
    }

    /// The excerpts and the identifiers of every multibuffer are in order.
    pub proof fn lemma_invariants_hold(&self)
        requires
            self.wf(),
        ensures
            excerpts_in_order(self.snapshot.excerpts@),
            ids_in_order(self.snapshot.excerpt_ids@),
    {
        let es = self.snapshot.excerpts@;
        let ids = self.snapshot.excerpt_ids@;
        assert forall|i: int| 0 <= i < es.len() implies #[trigger] excerpt_follows(es, i) by {
            assert(valid_locator(es[i].locator@));
        }
        assert forall|i: int| 0 <= i < ids.len() implies #[trigger] id_follows(ids, i) by {
            assert(valid_locator(ids[i].locator@));
        }
    }
}

/// Excerpts are found in order just where each stands behind all before it, and the first
/// behind the earliest place.
pub proof fn lemma_checked_excerpts(es: Seq<Excerpt>)
    ensures
        excerpts_in_order(es) <==> (es.len() > 0 ==> digits_before(seq![0u64], es[0].locator@))
            && forall|i: int, j: int|
            0 <= i < j < es.len() ==> digits_before(
                (#[trigger] es[i]).locator@,
                (#[trigger] es[j]).locator@,
            ),
{
    if excerpts_in_order(es) {
        if es.len() > 0 {
            assert(excerpt_follows(es, 0));
        }
        assert forall|i: int, j: int| 0 <= i < j < es.len() implies digits_before(
            (#[trigger] es[i]).locator@,
            (#[trigger] es[j]).locator@,
        ) by {
            lemma_excerpts_follow(es, i, j);
        }
    } else {
        let i = choose|i: int| 0 <= i < es.len() && !#[trigger] excerpt_follows(es, i);
        if i > 0 {
            assert(!digits_before(es[i - 1].locator@, es[i].locator@));
        }
    }
}

proof fn lemma_excerpts_follow(es: Seq<Excerpt>, i: int, j: int)
    requires
        excerpts_in_order(es),
        0 <= i < j < es.len(),
    ensures
        digits_before(es[i].locator@, es[j].locator@),
    decreases j,
{
    assert(excerpt_follows(es, j));
    if i < j - 1 {
        lemma_excerpts_follow(es, i, j - 1);
        lemma_order_transitive(es[i].locator@, es[j - 1].locator@, es[j].locator@);
    }
}

/// Identifiers are found in order just where each is greater than all before it, and the
/// first stands behind the earliest place.
pub proof fn lemma_checked_ids(ids: Seq<ExcerptIdMapping>)
    ensures
        ids_in_order(ids) <==> (ids.len() > 0 ==> digits_before(seq![0u64], ids[0].locator@))
            && forall|i: int, j: int|
            0 <= i < j < ids.len() ==> (#[trigger] ids[i]).id.0 < (#[trigger] ids[j]).id.0,
{
    if ids_in_order(ids) {
        if ids.len() > 0 {
            assert(id_follows(ids, 0));
        }
        assert forall|i: int, j: int| 0 <= i < j < ids.len() implies (#[trigger] ids[i]).id.0 < (
        #[trigger] ids[j]).id.0 by {
            lemma_ids_follow(ids, i, j);
        }
    } else {
        let i = choose|i: int| 0 <= i < ids.len() && !#[trigger] id_follows(ids, i);
        if i > 0 {
            assert(!(ids[i - 1].id.0 < ids[i].id.0));
        }
    }
}

proof fn lemma_ids_follow(ids: Seq<ExcerptIdMapping>, i: int, j: int)
    requires
        ids_in_order(ids),
        0 <= i < j < ids.len(),
    ensures
        ids[i].id.0 < ids[j].id.0,
    decreases j,
{
    assert(id_follows(ids, j));
    if i < j - 1 {
        lemma_ids_follow(ids, i, j - 1);
    }
}

} // verus!
