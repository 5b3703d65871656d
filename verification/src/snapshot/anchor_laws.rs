//! What holds of anchors while excerpts come and go.

use vstd::prelude::*;

use crate::anchor::{max_anchor, min_anchor, Anchor};
use crate::buffer::{anchor_precedes, resolved};
use crate::excerpt::{
    excerpt_start, lemma_excerpt_position, lemma_excerpt_start_grows, lemma_excerpts_text_step,
    Excerpt, ExcerptId,
};
use crate::locator::{digits_before, lemma_order_strict, lemma_order_total, lemma_order_transitive};
use crate::snapshot::convert::lemma_singleton_text;
use crate::snapshot::ids::lemma_locator_index;
use crate::snapshot::{lemma_seek_offset, seek_index, MultiBufferSnapshot};
use crate::sorting::{in_order, is_in_order, lemma_in_order, lemma_in_order_from};
use crate::text::Bias;

verus! {

/// An excerpt holds what lies inside the part that it shows of its own buffer, and
/// nothing that lies outside. At an end of that part the biases decide.
pub proof fn lemma_holds(e: Excerpt, anchor: Anchor)
    ensures
        ({
            let o = resolved(anchor.text_anchor, e.buffer.bytes().len() as int);
            let at_start = o == e.start() && anchor.text_anchor.bias is Left
                && e.range.context.start.bias is Right;
            let at_end = o == e.end() && anchor.text_anchor.bias is Right
                && e.range.context.end.bias is Left;
            e.holds(anchor) <==> anchor.buffer_id == Some(e.buffer_id) && e.start() <= o <= e.end()
                && !at_start && !at_end
        }),
{
}

impl MultiBufferSnapshot {
    /// Whether the place of an identifier is that between the excerpts before the `i`-th
    /// and those from it on.
    pub open spec fn is_place(&self, id: ExcerptId, i: int) -> bool {
        &&& 0 <= i <= self.excerpts@.len()
        &&& forall|j: int|
            0 <= j < i ==> digits_before(
                #[trigger] self.excerpts@[j].locator@,
                self.locator_for(id),
            )
        &&& forall|j: int|
            i <= j < self.excerpts@.len() ==> !digits_before(
                #[trigger] self.excerpts@[j].locator@,
                self.locator_for(id),
            )
    }

    /// A search for the place of an identifier finds it, and there is only one.
    pub proof fn lemma_place_found(&self, id: ExcerptId, i: int)
        requires
            self.wf(),
        ensures
            self.is_place(id, i) <==> i == self.index_for(id),
    {
        let es = self.excerpts@;
        let l = self.locator_for(id);
        let at = self.index_for(id);
        lemma_locator_index(es, l, Bias::Left, 0);
        assert(self.is_place(id, at)) by {
            assert forall|j: int| 0 <= j < at implies digits_before(
                #[trigger] es[j].locator@,
                l,
            ) by {
                lemma_order_total(es[j].locator@, l);
            }
            assert forall|j: int| at <= j < es.len() implies !digits_before(
                #[trigger] es[j].locator@,
                l,
            ) by {
                if digits_before(es[j].locator@, l) {
                    if at < j {
                        assert(digits_before(es[at].locator@, es[j].locator@));
                        lemma_order_transitive(es[at].locator@, es[j].locator@, l);
                    }
                    lemma_order_strict(es[at].locator@, l);
                }
            }
        }
        if self.is_place(id, i) && i != at {
            if i < at {
                assert(digits_before(es[i].locator@, l));
            } else {
                assert(digits_before(es[at].locator@, l));
            }
        }
    }

    /// An excerpt is there just where one of the excerpts has the identifier, and it
    /// stands at the place of the identifier.
    pub proof fn lemma_has_excerpt(&self, id: ExcerptId)
        requires
            self.wf(),
        ensures
            self.has_excerpt(id) <==> exists|i: int|
                0 <= i < self.excerpts@.len() && (#[trigger] self.excerpts@[i]).id == id,
            forall|i: int|
                0 <= i < self.excerpts@.len() && (#[trigger] self.excerpts@[i]).id == id
                    ==> self.is_place(id, i),
    {
        if self.has_excerpt(id) {
            assert(self.excerpts@[self.index_for(id)].id == id);
        }
        assert forall|i: int|
            0 <= i < self.excerpts@.len() && (#[trigger] self.excerpts@[i]).id
                == id implies self.has_excerpt(id) && self.is_place(id, i) by {
            self.lemma_excerpt_found(id, i);
            self.lemma_place_found(id, i);
        }
    }

    /// An anchor in an excerpt that is there lies as far behind the start of the excerpt as
    /// it lies in the buffer behind the start of what is shown, and no further than at an
    /// end of the excerpt. The anchor of an excerpt that is gone lies where the excerpt
    /// stood: at the start of the one that follows, or at the end of the text.
    pub proof fn lemma_where_anchor_lies(&self, anchor: Anchor, i: int)
        requires
            self.wf(),
            self.is_place(anchor.excerpt_id, i),
        ensures
            ({
                let es = self.excerpts@;
                let offset = self.anchor_offset(anchor);
                &&& i < es.len() && es[i].id == anchor.excerpt_id ==> {
                    let o = resolved(anchor.text_anchor, es[i].buffer.bytes().len() as int);
                    &&& o < es[i].start() ==> offset == excerpt_start(es, i)
                    &&& es[i].start() <= o <= es[i].end() ==> offset - excerpt_start(es, i) == o
                        - es[i].start()
                    &&& o > es[i].end() ==> offset == excerpt_start(es, i) + es[i].bytes().len()
                }
                &&& (i == es.len() || es[i].id != anchor.excerpt_id) ==> offset == excerpt_start(
                    es,
                    i,
                )
            }),
    {
        let es = self.excerpts@;
        self.lemma_place_found(anchor.excerpt_id, i);
        if i < es.len() {
            lemma_excerpt_position(es[i], 0);
        }
    }

    /// Among several, an anchor in the only excerpt of a single buffer lies where it lies
    /// alone.
    pub proof fn lemma_listed_alike(&self, anchor: Anchor)
        requires
            self.wf(),
            self.singleton ==> self.excerpts@.len() > 0 && anchor.excerpt_id
                == self.excerpts@[0].id,
        ensures
            self.listed_anchor_offset(anchor) == self.anchor_offset(anchor),
    {
        if self.singleton {
            lemma_singleton_text(*self);
            self.lemma_excerpt_id(0);
            lemma_excerpt_position(self.excerpts@[0], 0);
        }
    }

    /// What becomes of an anchor whose place is `i`.
    ///
    /// It keeps its position just where it is the start or the end of everything, or its
    /// own excerpt or a neighbour of its place holds it; it then names that excerpt, and
    /// nothing else of it changes. Any other anchor moves: to the start of the excerpt at
    /// its place; where none stands there or behind, to the end of the last excerpt; and
    /// where there is none at all, to the start or the end of everything, as it leans.
    #[verifier::rlimit(50)]
    pub proof fn lemma_anchor_refreshed(&self, anchor: Anchor, i: int)
        requires
            self.wf(),
            self.is_place(anchor.excerpt_id, i),
        ensures
            ({
                let es = self.excerpts@;
                let n = es.len() as int;
                let id = anchor.excerpt_id;
                let (moved, kept) = self.refreshed(anchor);
                let fixed = id.0 == 0 || id.0 == usize::MAX;
                let next = i < n && es[i].holds(anchor);
                let previous = i > 0 && es[i - 1].holds(anchor);
                &&& kept <==> fixed || next || previous
                &&& kept ==> moved.text_anchor == anchor.text_anchor && moved.buffer_id
                    == anchor.buffer_id
                &&& fixed ==> moved == anchor
                &&& !fixed && next ==> moved.excerpt_id == es[i].id
                &&& !fixed && !next && previous ==> moved.excerpt_id == es[i - 1].id
                &&& !kept && i < n ==> {
                    &&& moved.excerpt_id == es[i].id
                    &&& moved.buffer_id == Some(es[i].buffer_id)
                    &&& self.anchor_offset(moved) == excerpt_start(es, i)
                    &&& moved.text_anchor.bias == anchor.text_anchor.bias || moved.text_anchor
                        == es[i].range.context.end
                }
                &&& !kept && i == n && n > 0 ==> {
                    &&& moved.excerpt_id == es[n - 1].id
                    &&& moved.buffer_id == Some(es[n - 1].buffer_id)
                    &&& self.anchor_offset(moved) == self.bytes().len()
                    &&& moved.text_anchor.bias == anchor.text_anchor.bias || moved.text_anchor
                        == es[n - 1].range.context.start
                }
                &&& !kept && n == 0 ==> moved == if anchor.text_anchor.bias is Left {
                    min_anchor()
                } else {
                    max_anchor()
                }
            }),
    {
        let es = self.excerpts@;
        let n = es.len() as int;
        self.lemma_place_found(anchor.excerpt_id, i);
        let (moved, kept) = self.refreshed(anchor);
        if i < n {
            self.lemma_excerpt_id(i);
            lemma_excerpt_position(es[i], 0);
        }
        if i > 0 {
            self.lemma_excerpt_id(i - 1);
            lemma_excerpt_position(es[i - 1], 0);
        }
        if !kept && i < n {
            self.lemma_place_found(moved.excerpt_id, i);
            assert(self.is_place(moved.excerpt_id, i));
            self.lemma_where_anchor_lies(moved, i);
        } else if !kept && n > 0 {
            self.lemma_place_found(moved.excerpt_id, n - 1);
            assert(self.is_place(moved.excerpt_id, n - 1));
            self.lemma_where_anchor_lies(moved, n - 1);
            lemma_excerpts_text_step(es, n - 1);
            assert(es.take(n) =~= es);
            assert(es[n - 1].text() =~= es[n - 1].bytes());
        }
    }

    /// An anchor whose excerpt is gone, and which no neighbour holds, moves to the nearest
    /// position that is left: as long as there are excerpts it lies in one of them, next to
    /// the place of the one that is gone, and at the offset at which the lost anchor lay.
    pub proof fn lemma_lost_anchor_stays_near(&self, anchor: Anchor, i: int)
        requires
            self.wf(),
            self.is_place(anchor.excerpt_id, i),
            0 < anchor.excerpt_id.0 < usize::MAX,
            self.excerpts@.len() > 0,
            forall|j: int|
                0 <= j < self.excerpts@.len() ==> (#[trigger] self.excerpts@[j]).id
                    != anchor.excerpt_id,
            i < self.excerpts@.len() ==> !self.excerpts@[i].holds(anchor),
            i > 0 ==> !self.excerpts@[i - 1].holds(anchor),
        ensures
            ({
                let es = self.excerpts@;
                let (moved, kept) = self.refreshed(anchor);
                &&& !kept
                &&& moved.excerpt_id == es[if i < es.len() {
                    i
                } else {
                    i - 1
                }].id
                &&& self.anchor_offset(moved) == self.anchor_offset(anchor)
                &&& self.anchor_offset(moved) == if i < es.len() {
                    excerpt_start(es, i)
                } else {
                    self.bytes().len() as int
                }
            }),
    {
        let es = self.excerpts@;
        self.lemma_anchor_refreshed(anchor, i);
        self.lemma_where_anchor_lies(anchor, i);
        if i < es.len() {
            assert(es[i].id != anchor.excerpt_id);
        } else {
            assert(es.take(i) =~= es);
        }
    }

    /// Refreshing several anchors tells of each once, under its number, and lists them in
    /// the order in which they then stand.
    pub proof fn lemma_all_refreshed(&self, anchors: Seq<Anchor>, k: int)
        requires
            self.wf(),
            0 <= k < anchors.len() <= usize::MAX,
        ensures
            ({
                let r = in_order(self.all_refreshed(anchors), *self);
                let (moved, kept) = self.refreshed(anchors[k]);
                &&& r.len() == anchors.len()
                &&& exists|m: int| 0 <= m < r.len() && #[trigger] r[m] == (k as usize, moved, kept)
                &&& forall|m: int|
                    0 <= m < r.len() ==> (#[trigger] r[m]).0 < anchors.len() && r[m].1
                        == self.refreshed(anchors[r[m].0 as int]).0 && r[m].2 == self.refreshed(
                        anchors[r[m].0 as int],
                    ).1
                &&& forall|m: int, l: int|
                    0 <= m < l < r.len() ==> !self.anchor_before_anchor(
                        (#[trigger] r[l]).1,
                        (#[trigger] r[m]).1,
                    )
            }),
    {
        broadcast use vstd::seq_lib::group_to_multiset_ensures;

        let all = self.all_refreshed(anchors);
        let r = in_order(all, *self);
        lemma_in_order(all, *self);
        assert(all.to_multiset().contains(all[k]));
        assert(r.to_multiset().contains(all[k]));
        assert(r.contains(all[k]));
        assert forall|m: int| 0 <= m < r.len() implies (#[trigger] r[m]).0 < anchors.len()
            && r[m].1 == self.refreshed(anchors[r[m].0 as int]).0 && r[m].2 == self.refreshed(
            anchors[r[m].0 as int],
        ).1 by {
            lemma_in_order_from(all, *self, m);
            let j = choose|j: int| 0 <= j < all.len() && all[j] == r[m];
            assert(all[j].0 == j);
        }
        assert(is_in_order(r, *self));
        assert forall|m: int, l: int| 0 <= m < l < r.len() implies !self.anchor_before_anchor(
            (#[trigger] r[l]).1,
            (#[trigger] r[m]).1,
        ) by {}
    }

    /// Of two anchors in excerpts that are there, the one in the earlier excerpt comes
    /// first; in one excerpt, the one that comes first in the buffer.
    pub proof fn lemma_anchors_compared(&self, a: Anchor, b: Anchor, i: int, j: int)
        requires
            self.wf(),
            0 <= i < self.excerpts@.len(),
            0 <= j < self.excerpts@.len(),
            self.excerpts@[i].id == a.excerpt_id,
            self.excerpts@[j].id == b.excerpt_id,
        ensures
            i < j ==> self.anchor_before_anchor(a, b) && !self.anchor_before_anchor(b, a),
            i == j ==> self.anchor_before_anchor(a, b) == anchor_precedes(
                a.text_anchor,
                b.text_anchor,
                self.excerpts@[i].buffer.bytes().len() as int,
            ),
    {
        let es = self.excerpts@;
        self.lemma_excerpt_id(i);
        self.lemma_excerpt_id(j);
        if i < j {
            lemma_order_strict(es[i].locator@, es[j].locator@);
            self.lemma_id_order(a.excerpt_id, b.excerpt_id, a.excerpt_id);
        } else if i == j && digits_before(es[i].locator@, es[i].locator@) {
            lemma_order_strict(es[i].locator@, es[i].locator@);
        }
    }

    /// An anchor at an offset lies in the excerpt that shows what stands there, and leans
    /// as asked unless it is an end of the excerpt. At the end of the text it lies in the
    /// last excerpt where it leans to the left, or the multibuffer shows a single buffer;
    /// else it is the end of everything, or, where there is nothing, an end as it leans.
    #[verifier::rlimit(50)]
    pub proof fn lemma_anchor_made(&self, offset: usize, bias: Bias)
        requires
            self.wf(),
            offset <= self.bytes().len(),
        ensures
            ({
                let es = self.excerpts@;
                let n = es.len() as int;
                let r = self.anchor_at_offset(offset, bias);
                &&& n > 0 && (offset < self.bytes().len() || bias is Left || self.singleton)
                    ==> exists|i: int|
                    {
                        &&& 0 <= i < n
                        &&& r.excerpt_id == (#[trigger] es[i]).id
                        &&& r.buffer_id == Some(es[i].buffer_id)
                        &&& excerpt_start(es, i) <= offset <= excerpt_start(es, i)
                            + es[i].bytes().len()
                        &&& resolved(r.text_anchor, es[i].buffer.bytes().len() as int)
                            == es[i].start() + offset - excerpt_start(es, i)
                        &&& r.text_anchor.bias == bias || r.text_anchor
                            == es[i].range.context.start || r.text_anchor
                            == es[i].range.context.end
                    }
                &&& n > 0 && !self.singleton && offset == self.bytes().len() && bias is Right
                    ==> r == max_anchor()
                &&& n == 0 ==> r == if bias is Left {
                    min_anchor()
                } else {
                    max_anchor()
                }
            }),
    {
        let es = self.excerpts@;
        let n = es.len() as int;
        lemma_seek_offset(es, offset, Bias::Right);
        assert(es.take(n) =~= es);
        assert(es.take(0) =~= Seq::<Excerpt>::empty());
        let i = self.anchor_index(offset, bias);
        if self.singleton && n > 0 {
            lemma_singleton_text(*self);
            lemma_excerpt_position(es[0], 0);
            lemma_excerpts_text_step(es, 0);
            let r = self.anchor_at_offset(offset, bias);
            assert(es[0].id == r.excerpt_id);
            assert(excerpt_start(es, 0) == 0);
            assert(es[0].start() == 0);
            assert(es[0].bytes().len() == self.bytes().len());
            assert(resolved(r.text_anchor, es[0].buffer.bytes().len() as int) == offset);
            assert(r.text_anchor.bias == bias);
        } else if i < n {
            lemma_excerpt_position(es[i], 0);
            lemma_excerpts_text_step(es, i);
            lemma_excerpt_start_grows(es, i, n);
            lemma_excerpt_start_grows(es, i + 1, n);
            let r = self.anchor_at_offset(offset, bias);
            assert(es[i].id == r.excerpt_id);
            assert(excerpt_start(es, i) <= offset <= excerpt_start(es, i) + es[i].bytes().len());
            assert(resolved(r.text_anchor, es[i].buffer.bytes().len() as int) == es[i].start()
                + offset - excerpt_start(es, i));
        }
        if offset < self.bytes().len() {
            assert(seek_index(es, offset, Bias::Right, 0) < n);
        }
    }
}

} // verus!
