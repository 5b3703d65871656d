use std::ops::Range;
use std::sync::Arc;

use multi_buffer::buffer::{BufferId, BufferSnapshot, Capability};
use multi_buffer::excerpt::{ExcerptId, ExcerptRange, MultiBufferRow};
use multi_buffer::multi_buffer::selections::Selection;
use multi_buffer::multi_buffer::MultiBuffer;
use multi_buffer::snapshot::annotations::{IndentGuide, OutlineItem, RemoteSelection};

fn buffer(id: u64, text: &str) -> Arc<BufferSnapshot> {
    Arc::new(BufferSnapshot::new(BufferId(id), text.to_string()))
}

fn offsets(range: Range<usize>) -> ExcerptRange<usize> {
    ExcerptRange {
        context: range,
        primary: None,
    }
}

const FIRST: &str = "fn a() {\n  (x)\n}\n";
const SECOND: &str = "let y = [1];\nlet z = 2;";

fn two_buffers() -> MultiBuffer {
    let mut multi = MultiBuffer::new(Capability::ReadWrite);
    multi.push_excerpts(buffer(1, FIRST), &vec![offsets(9..15)]);
    multi.push_excerpts(buffer(2, SECOND), &vec![offsets(0..12)]);
    multi
}

#[test]
fn brackets_that_an_excerpt_shows() {
    let multi = two_buffers();
    let snapshot = multi.read();
    assert_eq!(snapshot.text(), "  (x)\n\nlet y = [1];");
    let inner = (11..12, 13..14);
    let outer = (7..8, 15..16);
    assert_eq!(
        snapshot.range_in_excerpt(3usize..3),
        Some((ExcerptId(1), BufferId(1), 12..12))
    );
    assert_eq!(
        snapshot.bracket_candidate(3usize..3, inner.0.clone(), inner.1.clone()),
        Some((2..3, 4..5))
    );
    assert_eq!(
        snapshot.bracket_candidate(3usize..3, outer.0.clone(), outer.1.clone()),
        None
    );
    assert_eq!(
        snapshot.enclosing_bracket_ranges(3usize..3, &vec![outer.clone(), inner.clone()]),
        Some(vec![(2..3, 4..5)])
    );
    assert_eq!(
        snapshot.bracket_ranges(3usize..3, &vec![inner.clone()]),
        Some(vec![(2..3, 4..5)])
    );
    assert_eq!(
        snapshot.innermost_enclosing_bracket_ranges(3usize..3, &Some(inner.clone())),
        Some((2..3, 4..5))
    );
    assert_eq!(snapshot.innermost_enclosing_bracket_ranges(3usize..3, &None), None);
    assert_eq!(snapshot.enclosing_bracket_ranges(3usize..9, &vec![inner]), None);
}

#[test]
fn syntax_around_a_range() {
    let multi = two_buffers();
    let snapshot = multi.read();
    assert_eq!(snapshot.syntax_ancestor(3usize..3, &Some(11..14)), Some(2..5));
    assert_eq!(snapshot.syntax_ancestor(3usize..3, &None), None);
}

#[test]
fn redacted_ranges_are_cut() {
    let multi = two_buffers();
    let snapshot = multi.read();
    let redacted = vec![vec![0..8, 10..13], vec![4..5]];
    assert_eq!(
        snapshot.redacted_ranges(2usize..19, &redacted),
        vec![1..4, 11..12]
    );
}

#[test]
fn runnables() {
    let multi = two_buffers();
    let snapshot = multi.read();
    let found = snapshot.runnable_ranges(0usize..19, &vec![vec![0..8, 11..14], vec![8..11]]);
    let found: Vec<(usize, usize, Range<usize>)> = found
        .into_iter()
        .map(|item| (item.excerpt, item.number, item.run_range))
        .collect();
    assert_eq!(found, vec![(0, 1, 2..5), (1, 0, 15..18)]);
}

#[test]
fn indent_guides() {
    let multi = two_buffers();
    let snapshot = multi.read();
    let guide = IndentGuide {
        buffer_id: BufferId(1),
        start_row: 1,
        end_row: 1,
        depth: 0,
        tab_size: 2,
        settings: (),
    };
    let range = snapshot.anchor_before(0usize)..snapshot.anchor_after(19usize);
    let guides = snapshot.indent_guides_in_range(range, &vec![vec![guide], vec![]]);
    assert_eq!(guides.len(), 1);
    assert_eq!(
        guides[0].multibuffer_row_range,
        MultiBufferRow(0)..MultiBufferRow(0)
    );
    assert_eq!(guides[0].buffer.start_row, 1);
}

#[test]
fn outlines_and_symbols() {
    let shown = buffer(1, FIRST);
    let item = |start: usize, end: usize| OutlineItem {
        depth: 0,
        range: shown.anchor_before(start)..shown.anchor_after(end),
        body_range: None,
        annotation_range: None,
        content: Arc::new("a"),
    };
    let single = MultiBuffer::build_from_buffer(shown.clone());
    let outline = single.read().outline(&Some(vec![item(0, 16)])).unwrap();
    assert_eq!(outline.len(), 1);
    assert_eq!(outline[0].range.start.excerpt_id, ExcerptId(1));
    assert_eq!(*outline[0].content, "a");
    let no_items: Option<Vec<OutlineItem<_, &str>>> = None;
    assert!(single.read().outline(&no_items).is_none());
    let multi = two_buffers();
    assert!(multi.read().outline(&Some(vec![item(0, 16)])).is_none());
    let (buffer_id, at) = multi.read().symbols_query(3usize).unwrap();
    assert_eq!((buffer_id, at.offset), (BufferId(1), 12));
    let (buffer_id, symbols) = multi
        .read()
        .symbols_containing(3usize, &vec![item(0, 16)])
        .unwrap();
    assert_eq!(buffer_id, BufferId(1));
    let snapshot = multi.read();
    assert_eq!(snapshot.offset_for_anchor(&symbols[0].range.start), 0);
    assert_eq!(snapshot.offset_for_anchor(&symbols[0].range.end), 6);
}

#[test]
fn diagnostics_of_a_single_buffer() {
    let single = MultiBuffer::build_simple(BufferId(4), FIRST.to_string());
    assert_eq!(
        single.read().diagnostics_in_range(2usize..5),
        Some((BufferId(4), 2..5))
    );
    assert_eq!(single.read().diagnostic_group(), Some(BufferId(4)));
    let multi = two_buffers();
    assert_eq!(multi.read().diagnostics_in_range(2usize..5), None);
    assert_eq!(multi.read().diagnostic_group(), None);
    assert!(!multi.read().has_diagnostics());
}

#[test]
fn selections_of_collaborators() {
    let multi = two_buffers();
    let snapshot = multi.read();
    let range = snapshot.anchor_before(1usize)..snapshot.anchor_after(11usize);
    let queries = snapshot.selection_queries(&range);
    let asked: Vec<(BufferId, usize, usize)> = queries
        .iter()
        .map(|(id, range)| (*id, range.start.offset, range.end.offset))
        .collect();
    assert_eq!(asked, vec![(BufferId(1), 10, 15), (BufferId(2), 0, 4)]);
    let shown = buffer(1, FIRST);
    let remote = RemoteSelection {
        replica_id: 3,
        line_mode: false,
        cursor_shape: (),
        selection: Selection {
            id: 8,
            start: shown.anchor_before(9),
            end: shown.anchor_before(12),
            reversed: true,
            goal: (),
        },
    };
    let found = snapshot.selections_in_range(&range, &vec![vec![remote], vec![]]);
    assert_eq!(found.len(), 1);
    assert_eq!(found[0].replica_id, 3);
    assert!(found[0].selection.reversed);
    assert_eq!(snapshot.offset_for_anchor(&found[0].selection.start), 1);
    assert_eq!(snapshot.offset_for_anchor(&found[0].selection.end), 3);
}
