use std::ops::Range;
use std::sync::Arc;

use multi_buffer::buffer::{BufferId, BufferSnapshot, Capability};
use multi_buffer::excerpt::{ExcerptId, ExcerptRange, MultiBufferRow};
use multi_buffer::multi_buffer::MultiBuffer;
use multi_buffer::position::{ToOffset, ToOffsetUtf16, ToPoint, ToPointUtf16};
use multi_buffer::snapshot::indents::{suggested_indents, IndentKind, IndentSize};
use multi_buffer::snapshot::sources::PieceSource;
use multi_buffer::snapshot::words::CharKind;
use multi_buffer::text::{Bias, OffsetUtf16, Point, PointUtf16, TextSummary, Unclipped};

fn buffer(id: u64, text: &str) -> Arc<BufferSnapshot> {
    Arc::new(BufferSnapshot::new(BufferId(id), text.to_string()))
}

fn point(row: u32, column: u32) -> Point {
    Point { row, column }
}

fn multi(parts: &[(&str, Range<usize>)]) -> MultiBuffer {
    let mut multi = MultiBuffer::new(Capability::ReadWrite);
    for (k, (text, range)) in parts.iter().enumerate() {
        multi.push_excerpts(
            buffer(k as u64 + 1, text),
            &vec![ExcerptRange {
                context: range.clone(),
                primary: None,
            }],
        );
    }
    multi
}

fn unicode() -> MultiBuffer {
    multi(&[("xx\u{e9}\u{1d11e}y\nz", 2..11), ("q\u{4e2d}", 0..4)])
}

#[test]
fn reading_the_text_in_chunks() {
    let multi = unicode();
    let snapshot = multi.read();
    assert_eq!(snapshot.text(), "\u{e9}\u{1d11e}y\nz\nq\u{4e2d}");
    assert_eq!(snapshot.len(), 14);
    assert_eq!(
        snapshot.text_for_range(0usize..14),
        vec!["\u{e9}\u{1d11e}y\nz", "\n", "q\u{4e2d}"]
    );
    assert_eq!(snapshot.text_for_range(6usize..11), vec!["y\nz", "\n", "q"]);
    let mut chunks = snapshot.chunks(0usize..14);
    assert_eq!(chunks.next(), Some("\u{e9}\u{1d11e}y\nz"));
    assert_eq!(chunks.offset(), 9);
    chunks.seek(11..14);
    assert_eq!(chunks.next(), Some("\u{4e2d}"));
    assert_eq!(chunks.next(), None);
    assert_eq!(snapshot.chars_at(10usize), vec!['q', '\u{4e2d}']);
    assert_eq!(
        snapshot.reversed_chars_at(9usize),
        vec!['z', '\n', 'y', '\u{1d11e}', '\u{e9}']
    );
}

#[test]
fn reading_bytes() {
    let multi = multi(&[("abcdef", 1..4), ("ghi", 0..3)]);
    let snapshot = multi.read();
    assert_eq!(snapshot.text(), "bcd\nghi");
    let mut bytes = snapshot.bytes_in_range(1usize..6);
    assert_eq!(bytes.read(2), b"cd".to_vec());
    assert_eq!(bytes.read(9), b"\n".to_vec());
    assert_eq!(bytes.read(1), b"g".to_vec());
    assert_eq!(bytes.next(), Some(&b"h"[..]));
    assert_eq!(bytes.read(9), Vec::<u8>::new());
    let mut reversed = snapshot.reversed_bytes_in_range(1usize..6);
    assert_eq!(reversed.read(9), b"hg".to_vec());
    assert_eq!(reversed.read(9), b"\n".to_vec());
    assert_eq!(reversed.read(9), b"dc".to_vec());
    assert!(snapshot.contains_str_at(2usize, "d\ng"));
    assert!(!snapshot.contains_str_at(2usize, "d\nh"));
    assert!(!snapshot.contains_str_at(5usize, "hix"));
}

#[test]
fn positions_in_other_units() {
    let multi = unicode();
    let snapshot = multi.read();
    assert_eq!(snapshot.offset_to_point(8), point(1, 0));
    assert_eq!(snapshot.offset_to_point(11), point(2, 1));
    assert_eq!(snapshot.offset_to_point_utf16(6), PointUtf16 { row: 0, column: 3 });
    assert_eq!(snapshot.offset_to_offset_utf16(6), OffsetUtf16(3));
    assert_eq!(snapshot.offset_to_offset_utf16(14), OffsetUtf16(9));
    assert_eq!(snapshot.point_to_point_utf16(point(0, 6)), PointUtf16 { row: 0, column: 3 });
    assert_eq!(point(2, 1).to_offset(snapshot), 11);
    assert_eq!(OffsetUtf16(3).to_offset(snapshot), 6);
    assert_eq!(PointUtf16 { row: 2, column: 1 }.to_offset(snapshot), 11);
    assert_eq!(14usize.to_point(snapshot), point(2, 4));
    assert_eq!(99usize.to_point(snapshot), point(2, 4));
    assert_eq!(6usize.to_offset_utf16(snapshot), OffsetUtf16(3));
    assert_eq!(point(2, 4).to_point_utf16(snapshot), PointUtf16 { row: 2, column: 2 });
}

#[test]
fn positions_come_back() {
    let multi = unicode();
    let snapshot = multi.read();
    for offset in [0usize, 2, 6, 7, 8, 9, 10, 11, 14] {
        assert_eq!(snapshot.point_to_offset(snapshot.offset_to_point(offset)), offset);
        assert_eq!(
            snapshot.point_utf16_to_offset(snapshot.offset_to_point_utf16(offset)),
            offset
        );
        assert_eq!(
            snapshot.offset_utf16_to_offset(snapshot.offset_to_offset_utf16(offset)),
            offset
        );
    }
}

#[test]
fn clipping_into_characters() {
    let multi = unicode();
    let snapshot = multi.read();
    assert_eq!(snapshot.clip_offset(4, Bias::Left), 2);
    assert_eq!(snapshot.clip_offset(4, Bias::Right), 6);
    assert_eq!(snapshot.clip_offset(6, Bias::Left), 6);
    assert_eq!(snapshot.clip_offset(snapshot.clip_offset(4, Bias::Left), Bias::Right), 2);
    assert_eq!(snapshot.clip_offset_utf16(OffsetUtf16(2), Bias::Left), OffsetUtf16(1));
    assert_eq!(snapshot.clip_offset_utf16(OffsetUtf16(2), Bias::Right), OffsetUtf16(3));
    assert_eq!(snapshot.clip_point(point(0, 3), Bias::Left), point(0, 2));
    assert_eq!(
        snapshot.clip_point_utf16(Unclipped(PointUtf16 { row: 0, column: 2 }), Bias::Right),
        PointUtf16 { row: 0, column: 3 }
    );
}

#[test]
fn measuring_text() {
    let multi = unicode();
    let snapshot = multi.read();
    let summary = snapshot.text_summary();
    assert_eq!(summary.len, 14);
    assert_eq!(summary.len_utf16, OffsetUtf16(9));
    assert_eq!(summary.lines, point(2, 4));
    assert_eq!(summary.first_line_chars, 3);
    assert_eq!(summary.last_line_chars, 2);
    assert_eq!(summary.longest_row, 0);
    assert_eq!(summary.longest_row_chars, 3);
    let part: TextSummary = snapshot.text_summary_for_range(6usize..11);
    assert_eq!(part.len, 5);
    assert_eq!(part.lines, point(2, 1));
    let len: usize = snapshot.text_summary_for_range(2usize..8);
    assert_eq!(len, 6);
    let sizes: Vec<usize> = snapshot.dimensions_from_points(&vec![point(0, 2), point(1, 1), point(2, 4)]);
    assert_eq!(sizes, vec![2, 9, 14]);
    let whole: TextSummary = snapshot.text_summary_for_range(0usize..14);
    assert_eq!(whole, summary);
    let first: Point = snapshot.text_summary_for_range(0usize..6);
    let second: Point = snapshot.text_summary_for_range(6usize..14);
    let both: Point = snapshot.text_summary_for_range(0usize..14);
    assert_eq!((first, second, both), (point(0, 6), point(2, 4), point(2, 4)));
    let anchors = vec![snapshot.anchor_before(2usize), snapshot.anchor_before(11usize)];
    let listed: Vec<PointUtf16> = snapshot.summaries_for_anchors(&anchors);
    let alone: Vec<PointUtf16> = anchors
        .iter()
        .map(|anchor| snapshot.summary_for_anchor(anchor))
        .collect();
    assert_eq!(listed, alone);
    assert_eq!(listed[1], PointUtf16 { row: 2, column: 1 });
}

#[test]
fn sources_of_pieces() {
    let multi = unicode();
    let snapshot = multi.read();
    let from = |id: u64, range: Range<usize>| PieceSource::Buffer {
        excerpt_id: ExcerptId(id as usize),
        buffer_id: BufferId(id),
        range,
    };
    assert_eq!(
        snapshot.chunk_sources(0usize..14),
        vec![from(1, 2..11), PieceSource::Newline, from(2, 0..4)]
    );
    assert_eq!(
        snapshot.chunk_sources(6usize..11),
        vec![from(1, 8..11), PieceSource::Newline, from(2, 0..1)]
    );
    assert_eq!(snapshot.chunk_sources(9usize..10), vec![PieceSource::Newline]);
    assert!(snapshot.chunk_sources(3usize..3).is_empty());
}

#[test]
fn white_space_of_all_kinds() {
    let blank = |text: &str| {
        let multi = MultiBuffer::build_simple(BufferId(1), text.to_string());
        multi.read().is_line_blank(MultiBufferRow(0))
    };
    for c in [0x9u32, 0xb, 0xc, 0xd, 0x20, 0x85, 0xa0, 0x1680, 0x2028, 0x2029, 0x202f, 0x205f, 0x3000] {
        assert!(blank(&char::from_u32(c).unwrap().to_string()), "{:x}", c);
    }
    for c in 0x2000u32..=0x200a {
        assert!(blank(&char::from_u32(c).unwrap().to_string()), "{:x}", c);
    }
    for c in [0x8u32, 0xe, 0x1f, 0x21, 0x84, 0x86, 0x180e, 0x1fff, 0x200b, 0x2060, 0x3001, 0xfeff] {
        assert!(!blank(&char::from_u32(c).unwrap().to_string()), "{:x}", c);
    }
    let count = (0..=0x10ffffu32)
        .filter_map(char::from_u32)
        .filter(|c| c.is_whitespace())
        .count();
    assert_eq!(count, 25);
}

#[test]
fn blank_lines_and_indents() {
    let multi = multi(&[("  one\n\t two\n \u{2003}\n\nfour", 0..22), ("   x", 1..4)]);
    let snapshot = multi.read();
    assert_eq!(snapshot.text(), "  one\n\t two\n \u{2003}\n\nfour\n  x");
    assert!(!snapshot.is_line_blank(MultiBufferRow(0)));
    assert!(snapshot.is_line_blank(MultiBufferRow(2)));
    assert!(snapshot.is_line_blank(MultiBufferRow(3)));
    assert_eq!(snapshot.prev_non_blank_row(MultiBufferRow(4)), Some(MultiBufferRow(1)));
    assert_eq!(snapshot.prev_non_blank_row(MultiBufferRow(0)), None);
    let three = IndentSize::spaces(3);
    assert_eq!(three.chars(), vec![' ', ' ', ' ']);
    let shown = snapshot.indent_size_for_line(MultiBufferRow(5), three);
    assert_eq!(shown.len, 2);
    assert_eq!(shown.kind, IndentKind::Space);
}

#[test]
fn indents_and_comments() {
    let multi = multi(&[("  // one\n  two", 0..14)]);
    let snapshot = multi.read();
    let prefixes = Some(vec!["# ".to_string(), "// ".to_string()]);
    let two = IndentSize::spaces(2);
    let chars = |row: u32| -> String {
        snapshot
            .indent_and_comment_for_line(MultiBufferRow(row), two, &prefixes)
            .into_iter()
            .collect()
    };
    assert_eq!(chars(0), "  // ");
    assert_eq!(chars(1), "  ");
}

#[test]
fn asking_buffers_for_indents() {
    let multi = multi(&[("a\nb\nc\nd", 2..7), ("e\nf", 0..3)]);
    let snapshot = multi.read();
    assert_eq!(snapshot.text(), "b\nc\nd\ne\nf");
    let requests = snapshot.suggested_indent_requests(&vec![0, 2, 4]);
    assert_eq!(requests.len(), 2);
    assert_eq!(requests[0].buffer_id, BufferId(1));
    assert_eq!(requests[0].buffer_rows, vec![1, 3]);
    assert_eq!(requests[1].buffer_id, BufferId(2));
    assert_eq!(requests[1].buffer_rows, vec![1]);
    let replies = vec![
        vec![(1, IndentSize::spaces(4)), (3, IndentSize::spaces(8))],
        vec![(1, IndentSize::spaces(2))],
    ];
    let indents = suggested_indents(&requests, &replies);
    let found: Vec<(u32, u32)> = indents.iter().map(|(row, size)| (*row, size.len)).collect();
    assert_eq!(found, vec![(0, 4), (2, 8), (4, 2)]);
}

#[test]
fn words_around_positions() {
    let multi = multi(&[("foo, bar", 0..8)]);
    let snapshot = multi.read();
    let kinds = |chars: &Vec<char>| -> Vec<CharKind> {
        chars
            .iter()
            .map(|c| {
                if c.is_alphanumeric() {
                    CharKind::Word
                } else if c.is_whitespace() {
                    CharKind::Whitespace
                } else {
                    CharKind::Punctuation
                }
            })
            .collect()
    };
    let around = |at: usize| {
        let before = kinds(&snapshot.reversed_chars_at(at));
        let after = kinds(&snapshot.chars_at(at));
        snapshot.surrounding_word(at, &before, &after)
    };
    assert_eq!(around(1), (0..3, Some(CharKind::Word)));
    assert_eq!(around(3), (0..3, Some(CharKind::Word)));
    assert_eq!(around(4), (3..4, Some(CharKind::Punctuation)));
    assert_eq!(around(8), (5..8, Some(CharKind::Word)));
}

#[test]
fn splitting_ranges_at_excerpts() {
    let multi = multi(&[("abcdef", 1..4), ("ghi", 0..3)]);
    let snapshot = multi.read();
    let pieces = snapshot.split_ranges(&vec![1usize..6]);
    let found: Vec<(ExcerptId, usize, usize)> = pieces
        .iter()
        .map(|piece| {
            (
                piece.start.excerpt_id,
                snapshot.offset_for_anchor(&piece.start),
                snapshot.offset_for_anchor(&piece.end),
            )
        })
        .collect();
    assert_eq!(found, vec![(ExcerptId(1), 1, 3), (ExcerptId(2), 4, 6)]);
    let parts = snapshot.excerpts_in_ranges(&vec![1usize..6]);
    let found: Vec<(ExcerptId, Range<usize>)> =
        parts.into_iter().map(|(id, _, range)| (id, range)).collect();
    assert_eq!(found, vec![(ExcerptId(1), 2..4), (ExcerptId(2), 0..2)]);
    let pieces: Vec<(usize, usize)> = snapshot
        .split_ranges(&vec![0usize..1, 1..5, 5..7])
        .iter()
        .map(|piece| {
            (
                snapshot.offset_for_anchor(&piece.start),
                snapshot.offset_for_anchor(&piece.end),
            )
        })
        .collect();
    assert_eq!(pieces, vec![(0, 1), (1, 3), (4, 5), (5, 7)]);
}

#[test]
fn positions_in_buffers() {
    let multi = multi(&[("abcdef", 1..4), ("ghi", 0..3)]);
    let (buffer_id, offset, excerpt_id) = multi.point_to_buffer_offset(5usize).unwrap();
    assert_eq!((buffer_id, offset, excerpt_id), (BufferId(2), 1, ExcerptId(2)));
    let (buffer_id, found, excerpt_id) = multi.point_to_buffer_point(point(0, 2)).unwrap();
    assert_eq!((buffer_id, found, excerpt_id), (BufferId(1), point(0, 3), ExcerptId(1)));
    let (shown, offset) = multi.read().point_to_buffer_offset(2usize).unwrap();
    assert_eq!((shown.remote_id, offset), (BufferId(1), 3));
    let parts = multi.range_to_buffer_ranges(1usize..6);
    assert_eq!(
        parts,
        vec![
            (BufferId(1), 2..4, ExcerptId(1)),
            (BufferId(2), 0..2, ExcerptId(2))
        ]
    );
    let empty = MultiBuffer::new(Capability::ReadWrite);
    assert!(empty.point_to_buffer_offset(0usize).is_none());
    assert!(empty.point_to_buffer_point(point(0, 0)).is_none());
}
