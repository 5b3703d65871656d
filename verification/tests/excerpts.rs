use std::ops::Range;
use std::sync::Arc;

use multi_buffer::buffer::{BufferId, BufferSnapshot, Capability, TextAnchor};
use multi_buffer::excerpt::{ExcerptId, ExcerptRange, ExpandExcerptDirection, MultiBufferRow};
use multi_buffer::excerpt_ranges::build_excerpt_ranges;
use multi_buffer::multi_buffer::mutation::Mutation;
use multi_buffer::multi_buffer::push_many::{arrange, BuiltExcerpts};
use multi_buffer::multi_buffer::{Edit, Event, MultiBuffer};
use multi_buffer::snapshot::boundaries::Bound;
use multi_buffer::text::{Bias, Point};

fn sample_text(rows: usize, cols: usize, start_char: char) -> String {
    let mut lines = Vec::new();
    for row in 0..rows {
        let c = (start_char as u8 + row as u8) as char;
        lines.push(c.to_string().repeat(cols));
    }
    lines.join("\n")
}

fn buffer(id: u64, text: &str) -> Arc<BufferSnapshot> {
    Arc::new(BufferSnapshot::new(BufferId(id), text.to_string()))
}

fn point(row: u32, column: u32) -> Point {
    Point { row, column }
}

fn range(start: (u32, u32), end: (u32, u32)) -> ExcerptRange<Point> {
    ExcerptRange {
        context: point(start.0, start.1)..point(end.0, end.1),
        primary: None,
    }
}

fn offsets(range: Range<usize>) -> ExcerptRange<usize> {
    ExcerptRange {
        context: range,
        primary: None,
    }
}

fn edit(old: Range<usize>, new: Range<usize>) -> Edit {
    Edit { old, new }
}

fn three_excerpts() -> MultiBuffer {
    let buffer_1 = buffer(1, &sample_text(6, 6, 'a'));
    let buffer_2 = buffer(2, &sample_text(6, 6, 'g'));
    let mut multi = MultiBuffer::new(Capability::ReadWrite);
    multi.push_excerpts(
        buffer_1.clone(),
        &vec![range((1, 2), (2, 5)), range((3, 3), (4, 4))],
    );
    multi.push_excerpts(buffer_2, &vec![range((3, 1), (3, 3))]);
    multi
}

#[test]
fn excerpts_are_joined_by_line_breaks() {
    let multi = three_excerpts();
    let snapshot = multi.read();
    assert_eq!(snapshot.text(), "bbbb\nccccc\nddd\neeee\njj");
    assert_eq!(snapshot.len(), 22);
    let ids = multi.excerpt_ids();
    assert_eq!(ids, vec![ExcerptId(1), ExcerptId(2), ExcerptId(3)]);
    assert_eq!(multi.excerpt_buffer_ids(), vec![BufferId(1), BufferId(1), BufferId(2)]);
    assert!(multi.check_invariants());
    let mut rows = snapshot.buffer_rows(MultiBufferRow(0));
    let mut seen = Vec::new();
    while let Some(row) = rows.next() {
        seen.push(row);
    }
    assert_eq!(seen, vec![Some(1), Some(2), Some(3), Some(4), Some(3)]);
    let mut rows = snapshot.buffer_rows(MultiBufferRow(2));
    assert_eq!(rows.next(), Some(Some(3)));
    rows.seek(MultiBufferRow(4));
    assert_eq!(rows.next(), Some(Some(3)));
    assert_eq!(rows.next(), None);
}

#[test]
fn pushing_publishes_edits_and_events() {
    let multi = three_excerpts();
    assert_eq!(
        multi.published,
        vec![vec![edit(0..0, 0..19)], vec![edit(19..19, 19..22)]]
    );
    assert_eq!(multi.events.len(), 4);
    assert_eq!(
        multi.events[0],
        Event::Edited {
            singleton_buffer_edited: false,
            edited_buffer: None
        }
    );
    match &multi.events[1] {
        Event::ExcerptsAdded {
            buffer,
            predecessor,
            excerpts,
        } => {
            assert_eq!(*buffer, BufferId(1));
            assert_eq!(*predecessor, ExcerptId(usize::MAX));
            assert_eq!(excerpts.len(), 2);
            assert_eq!(excerpts[0].0, ExcerptId(1));
            assert_eq!(excerpts[0].1.context.start.offset, 9);
            assert_eq!(excerpts[0].1.context.end.offset, 19);
        }
        event => panic!("{:?}", event),
    }
}

#[test]
fn rows_of_the_multibuffer() {
    let multi = three_excerpts();
    let snapshot = multi.read();
    let lens: Vec<u32> = (0..5).map(|row| snapshot.line_len(MultiBufferRow(row))).collect();
    assert_eq!(lens, vec![4, 5, 3, 4, 2]);
    assert_eq!(snapshot.max_point(), point(4, 2));
    assert_eq!(snapshot.max_row(), MultiBufferRow(4));
    assert_eq!(snapshot.widest_line_number(), 5);
    let (shown, line) = snapshot.buffer_line_for_row(MultiBufferRow(2)).unwrap();
    assert_eq!(shown.remote_id, BufferId(1));
    assert_eq!(line, point(3, 3)..point(3, 6));
    assert_eq!(
        snapshot.buffer_ids_in_selected_rows(point(1, 0), point(4, 0)),
        vec![BufferId(1), BufferId(1), BufferId(2)]
    );
}

#[test]
fn boundaries_between_excerpts() {
    let multi = three_excerpts();
    let snapshot = multi.read();
    let all = snapshot.excerpt_boundaries_in_range(Bound::Included(0usize), Bound::Unbounded);
    let rows: Vec<u32> = all.iter().map(|boundary| boundary.row.0).collect();
    assert_eq!(rows, vec![0, 2, 4, 4]);
    assert!(all[3].next.is_none());
    assert!(all[0].prev.is_none());
    assert!(all[0].starts_new_buffer());
    assert!(!all[1].starts_new_buffer());
    assert!(all[2].starts_new_buffer());
    let next = all[2].next.as_ref().unwrap();
    assert_eq!(next.buffer_id, BufferId(2));
    let some = snapshot.excerpt_boundaries_in_range(
        Bound::Included(point(1, 0)),
        Bound::Included(point(3, 0)),
    );
    assert_eq!(some.len(), 1);
    assert_eq!(some[0].row, MultiBufferRow(2));
    let none = snapshot.excerpt_boundaries_in_range(
        Bound::Excluded(point(2, 0)),
        Bound::Excluded(point(4, 0)),
    );
    assert_eq!(none.len(), 0);
}

#[test]
fn clipping_at_the_ends_of_excerpts() {
    let multi = three_excerpts();
    let snapshot = multi.read();
    assert_eq!(snapshot.clip_point(point(0, 5), Bias::Left), point(0, 4));
    assert_eq!(snapshot.clip_point(point(0, 5), Bias::Right), point(0, 4));
    assert_eq!(snapshot.clip_point(point(5, 1), Bias::Right), point(4, 2));
    assert_eq!(snapshot.clip_point(point(4, 2), Bias::Left), point(4, 2));
    assert_eq!(snapshot.clip_offset(99, Bias::Left), 22);
}

#[test]
fn inserting_between_excerpts() {
    let mut multi = three_excerpts();
    let third = buffer(3, "one\ntwo");
    let ids = multi.insert_excerpts_after(ExcerptId(1), third, &vec![offsets(0..3), offsets(4..7)]);
    assert_eq!(ids, vec![ExcerptId(4), ExcerptId(5)]);
    assert_eq!(multi.read().text(), "bbbb\nccccc\none\ntwo\nddd\neeee\njj");
    assert_eq!(
        multi.excerpt_ids(),
        vec![ExcerptId(1), ExcerptId(4), ExcerptId(5), ExcerptId(2), ExcerptId(3)]
    );
    assert_eq!(multi.published.last().unwrap(), &vec![edit(11..11, 11..19)]);
    assert!(multi.check_invariants());
}

#[test]
fn inserting_before_all_excerpts_and_under_given_identifiers() {
    let mut multi = three_excerpts();
    let third = buffer(3, "one");
    multi.insert_excerpts_with_ids_after(
        ExcerptId::min(),
        third,
        &vec![(ExcerptId(10), offsets(0..3))],
    );
    assert_eq!(multi.read().text(), "one\nbbbb\nccccc\nddd\neeee\njj");
    let fourth = buffer(4, "x");
    let ids = multi.push_excerpts(fourth, &vec![offsets(0..1)]);
    assert_eq!(ids, vec![ExcerptId(11)]);
    let nothing: Vec<ExcerptRange<usize>> = Vec::new();
    let events = multi.events.len();
    assert_eq!(multi.push_excerpts(buffer(5, ""), &nothing), vec![]);
    assert_eq!(multi.events.len(), events);
}

#[test]
fn removing_leaves_the_others() {
    let mut multi = three_excerpts();
    multi.remove_excerpts(vec![ExcerptId(2)]);
    assert_eq!(multi.read().text(), "bbbb\nccccc\njj");
    assert_eq!(multi.published.last().unwrap(), &vec![edit(11..20, 11..11)]);
    multi.remove_excerpts(vec![ExcerptId(3)]);
    assert_eq!(multi.read().text(), "bbbb\nccccc");
    assert_eq!(multi.published.last().unwrap(), &vec![edit(10..13, 10..10)]);
    assert_eq!(multi.all_buffers(), vec![BufferId(1)]);
    assert_eq!(
        multi.events.last().unwrap(),
        &Event::ExcerptsRemoved {
            ids: vec![ExcerptId(3)]
        }
    );
    multi.remove_excerpts(vec![ExcerptId(1), ExcerptId(2)]);
    assert_eq!(multi.read().text(), "");
    assert!(multi.read().is_empty());
    assert_eq!(multi.all_buffers(), vec![]);
}

#[test]
fn removing_several_runs_at_once() {
    let mut multi = three_excerpts();
    multi.remove_excerpts(vec![ExcerptId(1), ExcerptId(3)]);
    assert_eq!(multi.read().text(), "ddd\neeee");
    assert_eq!(
        multi.published.last().unwrap(),
        &vec![edit(0..11, 0..0), edit(19..22, 8..8)]
    );
}

#[test]
fn removal_undoes_insertion() {
    let mut multi = three_excerpts();
    let text = multi.read().text();
    let third = buffer(3, "one\ntwo");
    let ids = multi.insert_excerpts_after(ExcerptId(2), third, &vec![offsets(0..3), offsets(4..7)]);
    multi.remove_excerpts(ids);
    assert_eq!(multi.read().text(), text);
    let fourth = buffer(4, "end");
    let ids = multi.push_excerpts(fourth, &vec![offsets(0..3)]);
    assert_eq!(ids, vec![ExcerptId(6)]);
    multi.remove_excerpts(ids);
    assert_eq!(multi.read().text(), text);
}

#[test]
fn clearing() {
    let mut multi = three_excerpts();
    multi.clear();
    assert_eq!(multi.read().text(), "");
    assert_eq!(multi.published.last().unwrap(), &vec![edit(0..22, 0..0)]);
    let ids = multi.push_excerpts(buffer(7, "again"), &vec![offsets(0..5)]);
    assert_eq!(ids, vec![ExcerptId(4)]);
    assert_eq!(multi.read().text(), "again");
}

#[test]
fn expanding_by_identifiers() {
    let text = sample_text(20, 3, 'a');
    let mut multi = MultiBuffer::new(Capability::ReadWrite);
    let ids = multi.push_excerpts(
        buffer(1, &text),
        &vec![
            range((3, 0), (4, 3)),
            range((7, 0), (7, 3)),
            range((15, 0), (15, 3)),
        ],
    );
    assert_eq!(multi.read().text(), "ddd\neee\nhhh\nppp");
    multi.expand_excerpts(
        vec![ids[2], ids[0], ids[2]],
        1,
        ExpandExcerptDirection::UpAndDown,
    );
    assert_eq!(
        multi.read().text(),
        "ccc\nddd\neee\nfff\nhhh\nooo\nppp\nqqq"
    );
    assert_eq!(
        multi.events.last().unwrap(),
        &Event::ExcerptsExpanded {
            ids: vec![ids[2], ids[0], ids[2]]
        }
    );
    multi.expand_excerpts(vec![ids[1]], 2, ExpandExcerptDirection::Up);
    let (events, published) = (multi.events.len(), multi.published.len());
    multi.expand_excerpts(vec![ids[1]], 0, ExpandExcerptDirection::Down);
    multi.expand_excerpts(vec![ExcerptId(99)], 0, ExpandExcerptDirection::UpAndDown);
    assert_eq!((multi.events.len(), multi.published.len()), (events, published));
    assert_eq!(
        multi.read().text(),
        "ccc\nddd\neee\nfff\nfff\nggg\nhhh\nooo\nppp\nqqq"
    );
    multi.expand_excerpts(vec![ExcerptId::max()], 9, ExpandExcerptDirection::Down);
    assert!(multi.read().text().ends_with("qqq\nrrr\nsss\nttt"));
    multi.expand_excerpts(vec![ExcerptId::min()], 9, ExpandExcerptDirection::Up);
    assert!(multi.read().text().starts_with("aaa\nbbb\nccc"));
}

#[test]
fn resizing() {
    let shown = buffer(1, &sample_text(6, 2, 'a'));
    let mut multi = MultiBuffer::new(Capability::ReadWrite);
    let ids = multi.push_excerpts(shown.clone(), &vec![range((1, 0), (2, 2)), range((4, 0), (4, 2))]);
    let new_range: Range<TextAnchor> = shown.anchor_before(0)..shown.anchor_after(5);
    multi.resize_excerpt(ids[0], new_range);
    assert_eq!(multi.read().text(), "aa\nbb\nee");
    assert_eq!(multi.published.last().unwrap(), &vec![edit(0..5, 0..5)]);
}

#[test]
fn showing_ranges_with_context() {
    let text = sample_text(20, 3, 'a');
    let mut multi = MultiBuffer::new(Capability::ReadWrite);
    let shown = buffer(1, &text);
    let ranges = multi.push_excerpts_with_context_lines(
        shown,
        &vec![
            point(3, 2)..point(4, 2),
            point(7, 1)..point(7, 3),
            point(15, 0)..point(15, 0),
        ],
        2,
    );
    let snapshot = multi.read();
    assert_eq!(
        snapshot.text(),
        concat(&["bbb\nccc\nddd\neee\nfff\nggg\nhhh\niii\njjj\n", "nnn\nooo\nppp\nqqq\nrrr"])
    );
    let points: Vec<Point> = ranges
        .iter()
        .map(|range| snapshot.summary_for_anchor::<Point>(&range.start))
        .collect();
    assert_eq!(points, vec![point(2, 2), point(6, 1), point(11, 0)]);
    assert_eq!(ranges[1].start.excerpt_id, ExcerptId(1));
    assert_eq!(ranges[2].start.excerpt_id, ExcerptId(2));
}

fn concat(parts: &[&str]) -> String {
    parts.join("")
}

#[test]
fn choosing_stretches() {
    let shown = BufferSnapshot::new(BufferId(1), sample_text(20, 3, 'a'));
    let (stretches, counts) = build_excerpt_ranges(
        &shown,
        &vec![
            point(3, 2)..point(4, 2),
            point(8, 1)..point(8, 3),
            point(19, 0)..point(19, 1),
        ],
        2,
    );
    assert_eq!(counts, vec![2, 1]);
    assert_eq!(stretches[0].context, point(1, 0)..point(10, 3));
    assert_eq!(stretches[0].primary, Some(point(3, 2)..point(4, 2)));
    assert_eq!(stretches[1].context, point(17, 0)..point(19, 3));
}

#[test]
fn showing_ranges_of_many_buffers() {
    let first = buffer(1, &sample_text(20, 3, 'a'));
    let second = buffer(2, &sample_text(9, 2, 'k'));
    let anchors = |b: &BufferSnapshot, start: usize, end: usize| b.anchor_before(start)..b.anchor_before(end);
    let first_ranges = vec![anchors(&first, 4, 6), anchors(&first, 60, 61)];
    let second_ranges = vec![anchors(&second, 0, 1)];
    let built = vec![
        BuiltExcerpts::build(first, first_ranges, 1),
        BuiltExcerpts::build(second, second_ranges, 1),
    ];
    let mut multi = MultiBuffer::new(Capability::ReadWrite);
    let ranges = multi.push_multiple_excerpts_with_context_lines(&built);
    let snapshot = multi.read();
    assert_eq!(snapshot.text(), "aaa\nbbb\nccc\nooo\nppp\nqqq\nkk\nll");
    assert_eq!(ranges.len(), 3);
    let ids: Vec<ExcerptId> = ranges.iter().map(|range| range.start.excerpt_id).collect();
    assert_eq!(ids, vec![ExcerptId(1), ExcerptId(2), ExcerptId(3)]);
    let starts: Vec<usize> = ranges
        .iter()
        .map(|range| snapshot.offset_for_anchor(&range.start))
        .collect();
    assert_eq!(starts, vec![4, 16, 24]);
    assert_eq!(multi.published.len(), 2);
}

#[test]
fn results_are_put_in_the_order_of_the_questions() {
    let built = |id: u64, text: &str| {
        let shown = buffer(id, text);
        let ranges = vec![shown.anchor_before(0)..shown.anchor_before(0)];
        BuiltExcerpts::build(shown, ranges, 0)
    };
    let results = vec![built(3, "c"), built(1, "a"), built(3, "cc")];
    let ids = vec![BufferId(1), BufferId(2), BufferId(3), BufferId(1)];
    let texts: Vec<(BufferId, String)> = arrange(&ids, results)
        .into_iter()
        .map(|item| (item.buffer.remote_id, item.buffer.text.clone()))
        .collect();
    assert_eq!(
        texts,
        vec![(BufferId(1), "a".to_string()), (BufferId(3), "cc".to_string())]
    );
}

#[test]
fn many_excerpts_are_pushed_in_parts() {
    let text = "x\n".repeat(250);
    let shown = buffer(1, &text);
    let ranges: Vec<Range<TextAnchor>> = (0..250)
        .map(|row| shown.anchor_before(row * 2)..shown.anchor_before(row * 2))
        .collect();
    let built = BuiltExcerpts::build(shown, ranges, 0);
    assert_eq!(built.excerpt_ranges.len(), 250);
    let mut multi = MultiBuffer::new(Capability::ReadWrite);
    let placed = multi.push_multiple_excerpts_with_context_lines(&vec![built]);
    assert_eq!(multi.published.len(), 3);
    assert_eq!(placed.len(), 250);
    assert_eq!(placed[249].start.excerpt_id, ExcerptId(250));
    assert_eq!(multi.read().len(), 499);
}

#[test]
fn identifiers_are_never_handed_out_twice() {
    let mut multi = three_excerpts();
    for mutation in vec![
        Mutation::Remove {
            ids: vec![ExcerptId(3)],
        },
        Mutation::Insert {
            buffer: buffer(9, "nine"),
            ranges: vec![offsets(0..4)],
        },
        Mutation::Expand {
            ids: vec![ExcerptId(4)],
            line_count: 1,
        },
        Mutation::Clear,
        Mutation::Insert {
            buffer: buffer(9, "nine"),
            ranges: vec![offsets(0..2), offsets(2..4)],
        },
    ] {
        assert!(multi.has_room_for(&mutation));
        multi.apply(&mutation);
        assert!(multi.check_invariants());
    }
    assert_eq!(multi.excerpt_ids(), vec![ExcerptId(5), ExcerptId(6)]);
    assert_eq!(multi.read().text(), "ni\nne");
}

#[test]
fn excerpt_lookups() {
    let multi = three_excerpts();
    let snapshot = multi.read();
    assert_eq!(snapshot.buffer_id_for_excerpt(ExcerptId(3)), Some(BufferId(2)));
    assert_eq!(snapshot.buffer_id_for_excerpt(ExcerptId::max()), None);
    assert_eq!(snapshot.buffer_for_excerpt(ExcerptId(1)).unwrap().len(), 41);
    assert_eq!(
        snapshot.range_for_excerpt::<Point>(ExcerptId(2)),
        Some(point(2, 0)..point(4, 0))
    );
    assert_eq!(
        snapshot.range_for_excerpt::<usize>(ExcerptId(3)),
        Some(20..22)
    );
    assert!(snapshot.excerpt(ExcerptId(3)).is_some());
    assert_eq!(snapshot.excerpt_before(ExcerptId(2)).unwrap().id(), ExcerptId(1));
    assert_eq!(snapshot.excerpt_after(ExcerptId(2)).unwrap().id(), ExcerptId(3));
    assert!(snapshot.excerpt_after(ExcerptId(3)).is_none());
    assert_eq!(snapshot.excerpts().len(), 3);
    assert_eq!(
        multi.excerpts_for_buffer(BufferId(1)).iter().map(|e| e.0).collect::<Vec<_>>(),
        vec![ExcerptId(1), ExcerptId(2)]
    );
    assert_eq!(
        multi.excerpt_ranges_for_buffer(BufferId(2)),
        vec![point(4, 0)..point(4, 2)]
    );
    let (id, buffer_id, _) = multi.excerpt_containing(12usize).unwrap();
    assert_eq!((id, buffer_id), (ExcerptId(2), BufferId(1)));
}

#[test]
fn excerpts_map_positions_to_their_buffers_and_back() {
    let multi = three_excerpts();
    let snapshot = multi.read();
    let views = snapshot.all_excerpts();
    assert_eq!(views.len(), 3);
    let view = &views[1];
    assert_eq!(view.start_offset(), 11);
    assert_eq!(view.start_point(), point(2, 0));
    assert_eq!(view.map_offset_to_buffer(13), 26);
    assert_eq!(view.map_offset_from_buffer(26), 13);
    assert_eq!(view.map_offset_to_buffer(0), 24);
    assert_eq!(view.map_offset_to_buffer(99), 32);
    assert_eq!(view.map_point_to_buffer(point(3, 2)), point(4, 2));
    assert_eq!(view.map_point_from_buffer(point(4, 2)), point(3, 2));
    assert_eq!(view.map_range_to_buffer(12..14), 25..27);
    assert_eq!(view.map_range_from_buffer(25..27), 12..14);
    assert!(view.contains_buffer_range(24..32));
    assert!(!view.contains_buffer_range(23..32));
    assert_eq!(view.max_buffer_row(), 4);
    assert_eq!(snapshot.excerpts_for_range(5usize..12).len(), 2);
    assert_eq!(snapshot.excerpts_for_range_rev(5usize..12)[0].id(), ExcerptId(2));
    assert!(snapshot.excerpt_containing(5usize..8).is_some());
    assert!(snapshot.excerpt_containing(5usize..14).is_none());
    let len = snapshot.len();
    assert_eq!(snapshot.excerpt_containing(len..len).unwrap().id(), ExcerptId(3));
    assert_eq!(snapshot.excerpt_containing(len - 1..len).unwrap().id(), ExcerptId(3));
    assert!(snapshot.excerpt_containing(0..len).is_none());
}

#[test]
fn the_end_of_the_text_lies_in_the_last_excerpt() {
    let multi = MultiBuffer::build_multi(&vec![(
        buffer(1, "abc"),
        vec![point(0, 0)..point(0, 3)],
    )]);
    let snapshot = multi.read();
    let view = snapshot.excerpt_containing(0usize..3usize).unwrap();
    assert_eq!(view.id(), ExcerptId::from_proto(1));
    assert_eq!(view.start_offset(), 0);
    assert_eq!(snapshot.excerpt_containing(3usize..3).unwrap().id(), ExcerptId(1));
    assert_eq!(
        snapshot.range_in_excerpt(1usize..3),
        Some((ExcerptId(1), BufferId(1), 1..3))
    );
    assert_eq!(
        snapshot.enclosing_bracket_ranges(0usize..3, &vec![(0..1, 2..3)]),
        Some(vec![(0..1, 2..3)])
    );
    let empty = MultiBuffer::new(Capability::ReadWrite);
    assert!(empty.read().excerpt_containing(0usize..0).is_none());
}

#[test]
fn samples() {
    let simple = MultiBuffer::build_simple(BufferId(3), "abc".to_string());
    assert!(simple.is_singleton());
    assert_eq!(simple.read().text(), "abc");
    assert_eq!(simple.as_singleton(), Some(BufferId(3)));
    let whole = MultiBuffer::build_from_buffer(buffer(4, "d\ne"));
    assert_eq!(whole.read().text(), "d\ne");
    let multi = MultiBuffer::build_multi(&vec![
        (buffer(1, "one\ntwo"), vec![point(0, 0)..point(0, 3), point(1, 1)..point(1, 3)]),
        (buffer(2, "three"), vec![point(0, 0)..point(0, 5)]),
    ]);
    assert_eq!(multi.read().text(), "one\nwo\nthree");
    assert!(!multi.is_singleton());
}
