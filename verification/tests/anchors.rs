use std::cmp::Ordering;
use std::ops::Range;
use std::sync::Arc;

use multi_buffer::anchor::Anchor;
use multi_buffer::buffer::{BufferId, BufferSnapshot, Capability, TextAnchor};
use multi_buffer::clock::{Global, Lamport};
use multi_buffer::excerpt::{ExcerptId, ExcerptRange, MultiBufferRow};
use multi_buffer::locator::Locator;
use multi_buffer::multi_buffer::MultiBuffer;
use multi_buffer::position::{ToOffset, ToOffsetUtf16, ToPoint};
use multi_buffer::text::{Bias, OffsetUtf16, Point};

fn buffer(id: u64, text: &str) -> Arc<BufferSnapshot> {
    Arc::new(BufferSnapshot::new(BufferId(id), text.to_string()))
}

fn offsets(range: Range<usize>) -> ExcerptRange<usize> {
    ExcerptRange {
        context: range,
        primary: None,
    }
}

fn two_buffers() -> MultiBuffer {
    let mut multi = MultiBuffer::new(Capability::ReadWrite);
    multi.push_excerpts(buffer(1, "abcd"), &vec![offsets(0..4)]);
    multi.push_excerpts(buffer(2, "efghi"), &vec![offsets(0..5)]);
    multi
}

#[test]
fn anchors_come_back_to_their_offsets() {
    let multi = two_buffers();
    let snapshot = multi.read();
    for offset in 0..=snapshot.len() {
        assert_eq!(snapshot.anchor_before(offset).to_offset(snapshot), offset);
        assert_eq!(snapshot.anchor_after(offset).to_offset(snapshot), offset);
    }
    let anchor = snapshot.anchor_at(6usize, Bias::Left);
    assert_eq!(anchor.buffer_id, Some(BufferId(2)));
    assert_eq!(anchor.excerpt_id, ExcerptId(2));
    assert_eq!(anchor.text_anchor.offset, 1);
    assert_eq!(anchor.to_point(snapshot), Point { row: 1, column: 1 });
    assert_eq!(anchor.to_offset_utf16(snapshot), OffsetUtf16(6));
}

#[test]
fn anchors_of_the_start_and_the_end() {
    let multi = two_buffers();
    let snapshot = multi.read();
    assert_eq!(Anchor::min().to_offset(snapshot), 0);
    assert_eq!(Anchor::max().to_offset(snapshot), 10);
    let empty = MultiBuffer::new(Capability::ReadWrite);
    let anchor = empty.read().anchor_before(0usize);
    assert_eq!(anchor, Anchor::min());
    assert_eq!(empty.read().anchor_after(0usize), Anchor::max());
    assert_eq!(multi.text_anchor_for_position(6usize).unwrap().0, BufferId(2));
}

#[test]
fn anchors_are_ordered() {
    let multi = two_buffers();
    let snapshot = multi.read();
    let a = snapshot.anchor_before(2usize);
    let b = snapshot.anchor_after(2usize);
    let c = snapshot.anchor_before(7usize);
    assert_eq!(a.cmp(&b, snapshot), Ordering::Less);
    assert_eq!(c.cmp(&b, snapshot), Ordering::Greater);
    assert_eq!(c.cmp(&c, snapshot), Ordering::Equal);
    assert_eq!(Anchor::min().cmp(&a, snapshot), Ordering::Less);
    assert_eq!(Anchor::max().cmp(&a, snapshot), Ordering::Greater);
    assert!(a.to_offset(snapshot) <= b.to_offset(snapshot));
    assert!(b.to_offset(snapshot) <= c.to_offset(snapshot));
    assert!(c.to_offset(snapshot) <= Anchor::max().to_offset(snapshot));
    assert_eq!(ExcerptId(1).cmp(&ExcerptId(2), snapshot), Ordering::Less);
    assert_eq!(ExcerptId(2).cmp(&ExcerptId::min(), snapshot), Ordering::Greater);
    assert_eq!(ExcerptId(2).cmp(&ExcerptId(2), snapshot), Ordering::Equal);
}

#[test]
fn anchors_in_excerpts_that_are_gone() {
    let mut multi = two_buffers();
    let anchor = multi.read().anchor_before(7usize);
    let kept = multi.read().anchor_before(1usize);
    assert!(multi.read().can_resolve(&anchor));
    multi.remove_excerpts(vec![ExcerptId(2)]);
    let snapshot = multi.read();
    assert_eq!(anchor.to_offset(snapshot), 4);
    let sums: Vec<usize> = snapshot.summaries_for_anchors(&vec![kept, anchor]);
    assert_eq!(sums, vec![1, 4]);
    let refreshed = snapshot.refresh_anchors(&vec![kept, anchor]);
    assert_eq!(refreshed.len(), 2);
    assert_eq!(refreshed[0].0, 0);
    assert!(refreshed[0].2);
    assert_eq!(refreshed[1].0, 1);
    assert!(!refreshed[1].2);
    assert_eq!(refreshed[1].1.excerpt_id, ExcerptId(1));
    let again = snapshot.refresh_anchors(&vec![refreshed[0].1, refreshed[1].1]);
    assert_eq!(again, vec![(0, refreshed[0].1, true), (1, refreshed[1].1, true)]);
}

#[test]
fn anchors_of_text_in_excerpts() {
    let multi = two_buffers();
    let snapshot = multi.read();
    let shown = buffer(2, "efghi");
    let anchor = snapshot
        .anchor_in_excerpt(ExcerptId(2), shown.anchor_before(3))
        .unwrap();
    assert_eq!(anchor.to_offset(snapshot), 8);
    assert!(snapshot.anchor_in_excerpt(ExcerptId::max(), shown.anchor_before(3)).is_none());
}

#[test]
fn anchors_that_buffers_have_to_know() {
    let multi = two_buffers();
    let snapshot = multi.read();
    let a = snapshot.anchor_before(2usize);
    let b = snapshot.anchor_before(7usize);
    let waits = multi.wait_for_anchors(&vec![a, Anchor::min(), b]).unwrap();
    assert_eq!(
        waits,
        vec![(BufferId(1), a.text_anchor), (BufferId(2), b.text_anchor)]
    );
    let foreign = Anchor {
        buffer_id: Some(BufferId(7)),
        ..a
    };
    assert_eq!(multi.wait_for_anchors(&vec![a, foreign]), Err(BufferId(7)));
}

#[test]
fn anchors_of_buffers() {
    let shown = buffer(1, "abcd");
    assert_eq!(shown.anchor_before(0), TextAnchor::min());
    assert_eq!(shown.anchor_after(4), TextAnchor::max());
    assert_eq!(TextAnchor::max().to_offset(&shown), 4);
    assert!(shown.anchor_before(2).precedes(&shown.anchor_after(2), &shown));
    assert!(!shown.anchor_after(2).precedes(&shown.anchor_before(2), &shown));
    assert!(shown.can_resolve(&shown.anchor_before(2)));
}

#[test]
fn versions() {
    let seen = Global::new(vec![3, 0, 5]);
    assert_eq!(seen.get(2), 5);
    assert_eq!(seen.get(9), 0);
    assert!(seen.observed(&Lamport { replica_id: 0, value: 3 }));
    assert!(!seen.observed(&Lamport { replica_id: 0, value: 4 }));
    assert!(seen.changed_since(&Global::new(vec![3])));
    assert!(!seen.changed_since(&Global::new(vec![3, 1, 5])));
    let copy = seen.clone();
    assert_eq!(copy.get(0), 3);
    let mut clock = Lamport::default();
    assert_eq!(clock.tick(), Lamport { replica_id: 0, value: 0 });
    assert_eq!(clock.value, 1);
}

#[test]
fn places_between_places() {
    let mut low = Locator::min();
    let high = Locator::max();
    for _ in 0..200 {
        let middle = Locator::between(&low, &high);
        assert!(low.before(&middle));
        assert!(middle.before(&high));
        assert!(!middle.equals(&high));
        low = middle;
    }
    let mut high = Locator::max();
    let low = Locator::min();
    for _ in 0..200 {
        let middle = Locator::between(&low, &high);
        assert!(low.before(&middle) && middle.before(&high));
        high = middle;
    }
}

#[test]
fn numbers_of_identifiers() {
    assert_eq!(ExcerptId::from_proto(ExcerptId(77).to_proto()), ExcerptId(77));
    assert_eq!(ExcerptId::default(), ExcerptId::min());
    assert_eq!(usize::from(ExcerptId(5)), 5);
    assert_eq!(MultiBufferRow::min(), MultiBufferRow(0));
    assert_eq!(MultiBufferRow::max(), MultiBufferRow(u32::MAX));
}
