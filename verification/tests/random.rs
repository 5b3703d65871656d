use std::ops::Range;
use std::sync::Arc;

use multi_buffer::buffer::{BufferId, BufferSnapshot, Capability};
use multi_buffer::excerpt::{ExcerptId, ExcerptRange};
use multi_buffer::multi_buffer::mutation::Mutation;
use multi_buffer::multi_buffer::plan::EditPlan;
use multi_buffer::multi_buffer::random::{
    drop_repeats, ranges_between, MutationKind, RandomChange,
};
use multi_buffer::multi_buffer::MultiBuffer;
use rand::rngs::StdRng;
use rand::SeedableRng;

fn fresh(first: u64, count: u64) -> Vec<Arc<BufferSnapshot>> {
    (first..first + count)
        .map(|id| {
            let text = format!("line {}\n\u{e9}\u{4e2d} {}\nend", id, id * id);
            Arc::new(BufferSnapshot::new(BufferId(id), text))
        })
        .collect()
}

#[test]
fn random_excerpts_stay_in_order() {
    let mut kinds = [0usize; 4];
    for seed in 0..60u64 {
        let mut rng = StdRng::seed_from_u64(seed);
        let mut multi = MultiBuffer::new(Capability::ReadWrite);
        let buffers = fresh(1, 20);
        let made = multi.randomly_edit_excerpts(&mut rng, 20, 5, &buffers);
        assert_eq!(made.len(), 20);
        assert!(multi.check_invariants());
        assert!(multi.read().excerpts().len() <= 8);
        for mutation in &made {
            let kind = match mutation {
                Mutation::Clear => 0,
                Mutation::Expand { line_count, .. } => {
                    assert!(*line_count < 5);
                    1
                }
                Mutation::Insert { ranges, .. } => {
                    assert!(ranges.len() < 5);
                    2
                }
                Mutation::Remove { ids } => {
                    assert!(!ids.is_empty());
                    3
                }
            };
            kinds[kind] += 1;
        }
        let snapshot = multi.read();
        let parts: Vec<String> = snapshot
            .all_excerpts()
            .iter()
            .map(|view| {
                let start = view.map_offset_to_buffer(view.start_offset());
                let end = view.map_offset_to_buffer(usize::MAX);
                view.buffer().slice(start, end).to_string()
            })
            .collect();
        assert_eq!(snapshot.text(), parts.join("\n"));
    }
    assert!(kinds.iter().all(|count| *count > 0));
}

#[test]
fn random_ranges_lie_between_characters() {
    let mut rng = StdRng::seed_from_u64(7);
    let multi = MultiBuffer::build_simple(BufferId(1), "a\u{e9}\u{4e2d}\u{1d11e}b".to_string());
    let snapshot = multi.read();
    let text = snapshot.text();
    let mut starts = Vec::new();
    for _ in 0..200 {
        let range: Range<usize> = snapshot.random_byte_range(3, &mut rng);
        assert!(3 <= range.start && range.start <= range.end && range.end <= text.len());
        assert!(text.is_char_boundary(range.start) && text.is_char_boundary(range.end));
        starts.push(range.start);
    }
    starts.sort();
    starts.dedup();
    assert_eq!(starts, vec![3, 6, 10, 11]);
}

#[test]
fn random_edits_follow_one_another() {
    let texts: Vec<String> = (0..5).map(|k| format!("<{}>", k)).collect();
    for seed in 0..40u64 {
        let mut rng = StdRng::seed_from_u64(seed);
        let mut multi = MultiBuffer::build_simple(BufferId(1), "0123456789".to_string());
        match multi.randomly_edit(&mut rng, 5, &texts) {
            EditPlan::Singleton { edits, .. } => {
                assert!(!edits.is_empty() && edits.len() <= 5);
                let mut last_end = None;
                for (k, (range, text)) in edits.iter().enumerate() {
                    assert_eq!(text, &texts[k]);
                    assert!(range.start <= range.end && range.end <= 10);
                    if let Some(end) = last_end {
                        assert!(end < range.start);
                    }
                    last_end = Some(range.end);
                }
                assert!(edits.len() == 5 || last_end == Some(10));
            }
            plan => panic!("{:?}", plan),
        }
    }
}

#[test]
fn random_changes_of_all_kinds() {
    let texts: Vec<String> = vec!["x".to_string(); 3];
    let (mut buffers_edited, mut buffers_undone, mut excerpts, mut nothing) = (0, 0, 0, 0);
    for seed in 0..80u64 {
        let mut rng = StdRng::seed_from_u64(seed);
        let mut multi = MultiBuffer::build_random(&mut rng, 5, &fresh(1, 5));
        assert!(multi.check_invariants());
        match multi.randomly_mutate(&mut rng, 3, 5, &fresh(100, 3), &texts) {
            RandomChange::Buffer { buffer_id, edits } => {
                assert!(multi.all_buffers().contains(&buffer_id));
                if edits {
                    buffers_edited += 1;
                } else {
                    buffers_undone += 1;
                }
            }
            RandomChange::Edits(plan) => {
                assert!(matches!(plan, EditPlan::Nothing));
                nothing += 1;
            }
            RandomChange::Excerpts(made) => {
                assert_eq!(made.len(), 3);
                excerpts += 1;
            }
        }
        assert!(multi.check_invariants());
    }
    assert!(buffers_edited > 0 && buffers_undone > 0 && excerpts > 0 && nothing > 0);
}

#[test]
fn room_is_limited() {
    let multi = MultiBuffer::new(Capability::ReadWrite);
    let shown = Arc::new(BufferSnapshot::new(BufferId(1), "x".repeat(1 << 20)));
    let whole = || ExcerptRange {
        context: 0usize..1 << 20,
        primary: None,
    };
    let fits = Mutation::Insert {
        buffer: shown.clone(),
        ranges: (0..2000).map(|_| whole()).collect(),
    };
    assert!(multi.has_room_for(&fits));
    let too_much = Mutation::Insert {
        buffer: shown,
        ranges: (0..2048).map(|_| whole()).collect(),
    };
    assert!(!multi.has_room_for(&too_much));
}

#[test]
fn room_for_growth_is_what_growth_takes() {
    let mut multi = MultiBuffer::new(Capability::ReadWrite);
    let text = format!("ab\ncd\n{}", "x".repeat(1 << 20));
    let shown = Arc::new(BufferSnapshot::new(BufferId(1), text));
    let ranges: Vec<ExcerptRange<usize>> = (0..2100)
        .map(|_| ExcerptRange { context: 0..2, primary: None })
        .collect();
    let ids = multi.push_excerpts(shown, &ranges);
    let grows = Mutation::Expand { ids: ids[..2].to_vec(), line_count: 1 };
    assert!(multi.has_room_for(&grows));
    multi.apply(&grows);
    assert!(multi.read().text().starts_with("ab\ncd\nab\ncd\nab\nab"));
    assert!(multi.has_room_for(&Mutation::Expand { ids, line_count: 0 }));
}

#[test]
fn room_for_whatever_is_drawn() {
    let multi = MultiBuffer::new(Capability::ReadWrite);
    let short = fresh(1, 20);
    assert!(multi.has_room_for_changes(20, &short));
    assert!(!multi.has_room_for_changes(usize::MAX, &short));
    let long = vec![Arc::new(BufferSnapshot::new(BufferId(1), "x".repeat((1 << 20) - 1)))];
    assert!(multi.has_room_for_changes(511, &long));
    assert!(!multi.has_room_for_changes(512, &long));
    let mut worn = MultiBuffer::new(Capability::ReadWrite);
    worn.snapshot.trailing_excerpt_update_count = usize::MAX - 3;
    assert!(worn.has_room_for_changes(3, &short));
    assert!(!worn.has_room_for_changes(4, &short));
}

#[test]
fn drawn_offsets_move_apart_to_characters() {
    let shown = BufferSnapshot::new(BufferId(1), "a\u{e9}\u{4e2d}b".to_string());
    let ranges = ranges_between(&shown, &vec![2..2, 0..7, 3..4, 6..1]);
    let contexts: Vec<Range<usize>> = ranges.iter().map(|range| range.context.clone()).collect();
    assert_eq!(contexts, vec![1..3, 0..7, 3..6, 6..1]);
    assert!(ranges.iter().all(|range| range.primary.is_none()));
    assert!(ranges_between(&shown, &Vec::new()).is_empty());
}

#[test]
fn drawn_identifiers_come_once() {
    let drawn: Vec<ExcerptId> = [3, 1, 3, 2, 1].iter().map(|id| ExcerptId(*id)).collect();
    assert_eq!(drop_repeats(&drawn), vec![ExcerptId(3), ExcerptId(1), ExcerptId(2)]);
    assert!(drop_repeats(&Vec::new()).is_empty());
}

#[test]
fn drawn_kinds_of_changes() {
    let empty = MultiBuffer::new(Capability::ReadWrite);
    assert_eq!(empty.mutation_kind(5, true, true, true), MutationKind::Clear);
    assert_eq!(empty.mutation_kind(5, false, true, false), MutationKind::Insert);
    assert_eq!(empty.mutation_kind(0, false, false, false), MutationKind::Insert);
    let shown = MultiBuffer::build_simple(BufferId(1), "abc".to_string());
    assert_eq!(shown.mutation_kind(5, true, true, true), MutationKind::Clear);
    assert_eq!(shown.mutation_kind(5, false, true, true), MutationKind::Expand);
    assert_eq!(shown.mutation_kind(5, false, false, true), MutationKind::Insert);
    assert_eq!(shown.mutation_kind(1, false, false, true), MutationKind::Remove);
    assert_eq!(shown.mutation_kind(5, false, false, false), MutationKind::Remove);
}

#[test]
fn chosen_excerpts_in_their_order() {
    let mut multi = MultiBuffer::new(Capability::ReadWrite);
    let shown = Arc::new(BufferSnapshot::new(BufferId(1), "abcdef".to_string()));
    let ranges: Vec<ExcerptRange<usize>> = (0..3)
        .map(|k| ExcerptRange { context: 2 * k..2 * k + 2, primary: None })
        .collect();
    let ids = multi.push_excerpts(shown, &ranges);
    assert_eq!(ids.len(), 3);
    let chosen = vec![ids[2], ExcerptId(77), ids[0]];
    assert_eq!(multi.in_place_order(&chosen), vec![ids[0], ids[2]]);
    assert!(multi.in_place_order(&Vec::new()).is_empty());
}
