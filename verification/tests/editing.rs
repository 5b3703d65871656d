use std::ops::Range;
use std::sync::Arc;

use multi_buffer::buffer::{BufferId, BufferSnapshot, Capability};
use multi_buffer::clock::{Global, Lamport};
use multi_buffer::excerpt::{ExcerptId, ExcerptRange};
use multi_buffer::multi_buffer::plan::{AutoindentMode, AutoindentPlan, EditPlan};
use multi_buffer::multi_buffer::selections::Selection;
use multi_buffer::multi_buffer::state::BufferEvent;
use multi_buffer::multi_buffer::sync::{BufferUpdate, ExcerptUpdate};
use multi_buffer::multi_buffer::transactions::{BufferReply, HistoryAction, HistoryEvent};
use multi_buffer::multi_buffer::{Edit, Event, MultiBuffer};
use multi_buffer::text::Point;

fn buffer(id: u64, text: &str) -> Arc<BufferSnapshot> {
    Arc::new(BufferSnapshot::new(BufferId(id), text.to_string()))
}

fn point(row: u32, column: u32) -> Point {
    Point { row, column }
}

fn offsets(range: Range<usize>) -> ExcerptRange<usize> {
    ExcerptRange {
        context: range,
        primary: None,
    }
}

fn two_buffers() -> MultiBuffer {
    let mut multi = MultiBuffer::new(Capability::ReadWrite);
    multi.push_excerpts(buffer(1, "0123456789"), &vec![offsets(1..4), offsets(6..9)]);
    multi.push_excerpts(buffer(2, "abcdef"), &vec![offsets(0..3)]);
    multi
}

fn tick(value: u32) -> Lamport {
    Lamport {
        replica_id: 0,
        value,
    }
}

#[test]
fn an_edit_across_excerpts() {
    let mut multi = two_buffers();
    assert_eq!(multi.read().text(), "123\n678\nabc");
    let plan = multi.edit(&vec![(1usize..9, "X".to_string())], None);
    let changes = match plan {
        EditPlan::Buffers(changes) => changes,
        plan => panic!("{:?}", plan),
    };
    assert_eq!(changes.len(), 2);
    assert_eq!(changes[0].buffer_id, BufferId(1));
    let insertion = &changes[0].insertions[0];
    assert_eq!(insertion.1, "X");
    assert_eq!((insertion.0.start.offset, insertion.0.end.offset), (2, 4));
    let deletions: Vec<(usize, usize)> = changes[0]
        .deletions
        .iter()
        .map(|range| (range.start.offset, range.end.offset))
        .collect();
    assert_eq!(deletions, vec![(6, 9)]);
    assert_eq!(changes[1].buffer_id, BufferId(2));
    assert_eq!(changes[1].insertions.len(), 0);
    assert_eq!(changes[1].deletions.len(), 1);
    assert_eq!(
        multi.events.last().unwrap(),
        &Event::ExcerptsEdited {
            ids: vec![ExcerptId(1), ExcerptId(3), ExcerptId(2)]
        }
    );
}

#[test]
fn edits_that_overlap_are_merged() {
    let mut multi = MultiBuffer::new(Capability::ReadWrite);
    multi.push_excerpts(buffer(1, "0123456789"), &vec![offsets(0..6), offsets(2..8)]);
    assert_eq!(multi.read().text(), "012345\n234567");
    let plan = multi.edit(
        &vec![(1usize..4, "a".to_string()), (8usize..10, "b".to_string())],
        Some(AutoindentMode::EachLine),
    );
    match plan {
        EditPlan::Buffers(changes) => {
            assert_eq!(changes.len(), 1);
            assert_eq!(changes[0].insertions.len(), 1);
            let (range, text) = &changes[0].insertions[0];
            assert_eq!((range.start.offset, range.end.offset), (1, 5));
            assert_eq!(text, "a");
            assert_eq!(
                changes[0].insertion_autoindent_mode,
                Some(AutoindentMode::EachLine)
            );
        }
        plan => panic!("{:?}", plan),
    }
}

#[test]
fn edits_of_a_single_buffer_stay_as_they_are() {
    let mut multi = MultiBuffer::build_simple(BufferId(9), "abcdef".to_string());
    let plan = multi.edit(&vec![(4usize..2, "x".to_string())], None);
    match plan {
        EditPlan::Singleton {
            buffer_id, edits, ..
        } => {
            assert_eq!(buffer_id, BufferId(9));
            assert_eq!(edits, vec![(2..4, "x".to_string())]);
        }
        plan => panic!("{:?}", plan),
    }
    let mut empty = MultiBuffer::new(Capability::ReadWrite);
    assert!(matches!(
        empty.edit(&vec![(0usize..0, "x".to_string())], None),
        EditPlan::Nothing
    ));
    let mut read_only = MultiBuffer::new(Capability::ReadOnly);
    read_only.push_excerpts(buffer(1, "abc"), &vec![offsets(0..3)]);
    assert!(read_only.read_only());
    assert!(matches!(
        read_only.edit(&vec![(0usize..1, "x".to_string())], None),
        EditPlan::Nothing
    ));
}

#[test]
fn indenting_ranges() {
    let mut multi = two_buffers();
    match multi.autoindent_ranges(&vec![1usize..6]) {
        AutoindentPlan::Buffers(asked) => {
            assert_eq!(asked, vec![(BufferId(1), vec![2..4, 6..8])]);
        }
        plan => panic!("{:?}", plan),
    }
}

#[test]
fn empty_lines() {
    let multi = two_buffers();
    let request = multi.insert_empty_line(point(1, 1), true, false);
    assert_eq!(request.buffer_id, BufferId(1));
    assert_eq!(request.buffer_point, point(0, 1));
    assert!(request.space_above && !request.space_below);
    assert_eq!(request.finish(point(1, 0)), point(2, 0));
    let single = MultiBuffer::build_simple(BufferId(5), "ab\ncd".to_string());
    let request = single.insert_empty_line(point(1, 1), false, true);
    assert_eq!(request.multibuffer_point, None);
    assert_eq!(request.finish(point(2, 0)), point(2, 0));
}

#[test]
fn selections_of_buffers() {
    let multi = two_buffers();
    let snapshot = multi.read();
    let selection = |id: usize, start: usize, end: usize| Selection {
        id,
        start: snapshot.anchor_before(start),
        end: snapshot.anchor_before(end),
        reversed: false,
        goal: (),
    };
    let plan = multi.set_active_selections(&vec![selection(1, 1, 6), selection(2, 5, 7)]);
    assert_eq!(plan.cleared, vec![BufferId(2)]);
    assert_eq!(plan.set.len(), 1);
    assert_eq!(plan.set[0].buffer_id, BufferId(1));
    let found: Vec<(usize, usize)> = plan.set[0]
        .items
        .iter()
        .map(|selection| (selection.start.offset, selection.end.offset))
        .collect();
    assert_eq!(found, vec![(2, 4), (6, 9)]);
    assert_eq!(multi.remove_active_selections(), vec![BufferId(1), BufferId(2)]);
}

#[test]
fn transactions_are_undone_and_redone() {
    let mut multi = two_buffers();
    let id = multi.start_transaction_at(1_000, None).unwrap();
    assert_eq!(multi.start_transaction_at(1_001, None), None);
    assert_eq!(multi.end_transaction_at(1_002, &vec![Some(tick(7)), None]), None);
    assert_eq!(
        multi.end_transaction_at(1_003, &vec![Some(tick(8)), None]),
        Some(id)
    );
    match multi.undo(HistoryEvent::Start) {
        HistoryAction::AskBuffers(asked) => assert_eq!(asked, vec![(BufferId(1), tick(8))]),
        action => panic!("{:?}", action),
    }
    let reply = BufferReply {
        top: Some(tick(9)),
        changed: true,
    };
    match multi.undo(HistoryEvent::BuffersReplied(vec![reply])) {
        HistoryAction::Done(undone) => assert_eq!(undone, Some(id)),
        action => panic!("{:?}", action),
    }
    assert_eq!(
        multi.events.last().unwrap(),
        &Event::TransactionUndone { transaction_id: id }
    );
    match multi.undo(HistoryEvent::Start) {
        HistoryAction::Done(undone) => assert_eq!(undone, None),
        action => panic!("{:?}", action),
    }
    match multi.redo(HistoryEvent::Start) {
        HistoryAction::AskBuffers(asked) => assert_eq!(asked, vec![(BufferId(1), tick(9))]),
        action => panic!("{:?}", action),
    }
    match multi.redo(HistoryEvent::BuffersReplied(vec![reply])) {
        HistoryAction::Done(redone) => assert_eq!(redone, Some(id)),
        action => panic!("{:?}", action),
    }
    assert_eq!(multi.history.undo_stack.len(), 1);
    assert_eq!(multi.history.redo_stack.len(), 0);
}

#[test]
fn transactions_close_in_time_are_grouped() {
    let mut multi = two_buffers();
    let first = multi.start_transaction_at(0, None).unwrap();
    multi.end_transaction_at(1, &vec![Some(tick(1)), None]);
    let second = multi.start_transaction_at(100_000_000, None).unwrap();
    assert!(first != second);
    assert_eq!(
        multi.end_transaction_at(100_000_001, &vec![None, Some(tick(2))]),
        Some(first)
    );
    assert_eq!(multi.history.undo_stack.len(), 1);
    assert_eq!(
        multi.history.undo_stack[0].buffer_transactions,
        vec![(BufferId(1), tick(1)), (BufferId(2), tick(2))]
    );
    multi.finalize_last_transaction();
    let third = multi.start_transaction_at(100_000_002, None).unwrap();
    assert_eq!(
        multi.end_transaction_at(100_000_003, &vec![None, Some(tick(3))]),
        Some(third)
    );
    assert_eq!(multi.history.undo_stack.len(), 2);
    let nothing = multi.start_transaction_at(900_000_000, None);
    assert!(nothing.is_some());
    assert_eq!(multi.end_transaction_at(900_000_001, &vec![None, None]), None);
    assert_eq!(multi.history.undo_stack.len(), 2);
}

#[test]
fn transactions_are_pushed_forgotten_and_merged() {
    let mut multi = two_buffers();
    multi.push_transaction(vec![(BufferId(1), tick(1))], 0);
    multi.push_transaction(vec![(BufferId(1), tick(2)), (BufferId(2), tick(3))], 1);
    let first = multi.history.undo_stack[0].id;
    let second = multi.history.undo_stack[1].id;
    let merged = multi.merge_transactions(second, first);
    assert_eq!(merged, vec![(BufferId(1), tick(2), tick(1))]);
    assert_eq!(multi.history.undo_stack.len(), 1);
    assert_eq!(
        multi.history.undo_stack[0].buffer_transactions,
        vec![(BufferId(1), tick(1)), (BufferId(2), tick(3))]
    );
    let undone = multi.undo_transaction(first);
    assert_eq!(undone, vec![(BufferId(1), tick(1)), (BufferId(2), tick(3))]);
    let forgotten = multi.forget_transaction(first);
    assert_eq!(forgotten, vec![(BufferId(1), tick(1)), (BufferId(2), tick(3))]);
    assert_eq!(multi.history.undo_stack.len(), 0);
    assert_eq!(multi.history.redo_stack.len(), 0);
    assert_eq!(multi.forget_transaction(first), vec![]);
}

#[test]
fn ranges_that_a_transaction_edited() {
    let mut multi = two_buffers();
    multi.push_transaction(vec![(BufferId(1), tick(1)), (BufferId(2), tick(2))], 0);
    let id = multi.history.undo_stack[0].id;
    let ranges: Vec<Range<usize>> =
        multi.edited_ranges_for_transaction(id, &vec![vec![7..8, 2..3], vec![1..2]]);
    assert_eq!(ranges, vec![1..2, 5..6, 9..10]);
    let points: Vec<Range<Point>> =
        multi.edited_ranges_for_transaction(id, &vec![vec![2..3], vec![]]);
    assert_eq!(points, vec![point(0, 1)..point(0, 2)]);
}

#[test]
fn taking_over_what_buffers_became() {
    let mut multi = two_buffers();
    let mut edited = BufferSnapshot::new(BufferId(1), "01XX23456789".to_string());
    edited.version = Global::new(vec![1]);
    edited.is_dirty = true;
    let edited = Arc::new(edited);
    let shown = |start: usize, end: usize, edits: Vec<Edit>| ExcerptUpdate {
        range: ExcerptRange {
            context: edited.anchor_before(start)..edited.anchor_after(end),
            primary: None,
        },
        edits,
    };
    let updates = vec![
        BufferUpdate {
            buffer: edited.clone(),
            excerpts: vec![
                shown(
                    1,
                    6,
                    vec![Edit {
                        old: 1..1,
                        new: 1..3,
                    }],
                ),
                shown(8, 11, vec![]),
            ],
        },
        BufferUpdate {
            buffer: buffer(2, "abcdef"),
            excerpts: vec![],
        },
    ];
    multi.sync(&updates);
    assert_eq!(multi.read().text(), "1XX23\n678\nabc");
    assert_eq!(
        multi.published.last().unwrap(),
        &vec![Edit {
            old: 1..1,
            new: 1..3
        }]
    );
    assert_eq!(multi.read().edit_count(), 1);
    assert!(multi.is_dirty());
    assert!(!multi.has_conflict());
    assert!(!multi.has_deleted_file());
    let again: Vec<BufferUpdate> = updates
        .iter()
        .map(|update| BufferUpdate {
            buffer: update.buffer.clone(),
            excerpts: vec![],
        })
        .collect();
    multi.sync(&again);
    assert_eq!(multi.read().text(), "1XX23\n678\nabc");
    assert!(multi.published.last().unwrap().is_empty());
    assert_eq!(multi.read().edit_count(), 1);
    assert!(multi.is_dirty());
}

#[test]
fn transactions_that_record_nothing_need_no_record() {
    let mut multi = two_buffers();
    multi.start_transaction_at(1, None);
    multi.history.undo_stack.clear();
    assert_eq!(multi.end_transaction_at(2, &vec![None, None]), None);
    assert_eq!(multi.history.transaction_depth, 0);
    assert!(multi.history.undo_stack.is_empty());
}

#[test]
fn events_of_buffers() {
    let mut multi = two_buffers();
    multi.on_buffer_event(BufferId(1), BufferEvent::Saved, Capability::ReadWrite);
    assert_eq!(multi.events.last().unwrap(), &Event::Saved);
    multi.on_buffer_event(BufferId(2), BufferEvent::Edited, Capability::ReadWrite);
    assert_eq!(
        multi.events.last().unwrap(),
        &Event::Edited {
            singleton_buffer_edited: true,
            edited_buffer: Some(BufferId(2))
        }
    );
    multi.on_buffer_event(BufferId(1), BufferEvent::LanguageChanged, Capability::ReadWrite);
    assert_eq!(multi.events.last().unwrap(), &Event::LanguageChanged(BufferId(1)));
    multi.on_buffer_event(BufferId(1), BufferEvent::CapabilityChanged, Capability::ReadOnly);
    assert_eq!(multi.events.last().unwrap(), &Event::CapabilityChanged);
    assert!(multi.read_only());
}

#[test]
fn titles_and_copies() {
    let multi = two_buffers().with_title("search".to_string());
    assert_eq!(multi.title(&None), "search");
    let copy = multi.clone();
    assert_eq!(copy.title(&None), "search");
    assert_eq!(copy.read().text(), multi.read().text());
    let single = MultiBuffer::build_simple(BufferId(1), "x".to_string());
    assert_eq!(single.title(&Some("main.rs".to_string())), "main.rs");
    assert_eq!(single.title(&None), "untitled");
    let mut named = two_buffers();
    named.set_title("t".to_string());
    assert_eq!(named.title(&Some("f".to_string())), "t");
}

#[test]
fn previews_are_preserved_by_all_buffers() {
    let multi = two_buffers();
    assert!(multi.preserve_preview(&vec![true, true]));
    assert!(!multi.preserve_preview(&vec![true, false]));
}

#[test]
fn an_edit_replaces_what_is_shown_and_shows_through() {
    let mut multi = two_buffers();
    assert_eq!(multi.read().text(), "123\n678\nabc");
    let old = buffer(1, "0123456789");
    let (range, new_text) = match multi.edit(&vec![(5usize..6, "XY".to_string())], None) {
        EditPlan::Buffers(mut changes) => changes.remove(0).insertions.remove(0),
        plan => panic!("{:?}", plan),
    };
    let (start, end) = (range.start.to_offset(&old), range.end.to_offset(&old));
    assert_eq!(old.slice(start, end), "7");
    assert_eq!(multi.read().text_for_range(5usize..6), vec!["7"]);
    let mut edited = BufferSnapshot::new(
        BufferId(1),
        format!("{}{}{}", old.slice(0, start), new_text, old.slice(end, 10)),
    );
    edited.version = Global::new(vec![1]);
    let edited = Arc::new(edited);
    let shown = |start: usize, end: usize, edits: Vec<Edit>| ExcerptUpdate {
        range: ExcerptRange {
            context: edited.anchor_before(start)..edited.anchor_after(end),
            primary: None,
        },
        edits,
    };
    multi.sync(&vec![
        BufferUpdate {
            buffer: edited.clone(),
            excerpts: vec![
                shown(1, 4, vec![]),
                shown(
                    6,
                    10,
                    vec![Edit {
                        old: 1..2,
                        new: 1..3,
                    }],
                ),
            ],
        },
        BufferUpdate {
            buffer: buffer(2, "abcdef"),
            excerpts: vec![],
        },
    ]);
    assert_eq!(multi.read().text(), "123\n6XY8\nabc");
    assert_eq!(
        multi.published.last().unwrap(),
        &vec![Edit {
            old: 5..6,
            new: 5..7
        }]
    );
}
