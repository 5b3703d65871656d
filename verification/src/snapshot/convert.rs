//! Converting between the ways to name a position.

use vstd::prelude::*;

use crate::excerpt::{
    excerpt_start, excerpts_text, lemma_excerpt_position, lemma_excerpts_text_split,
    lemma_excerpts_text_step, lemma_text_within, Excerpt,
};
use crate::snapshot::{
    excerpts_wf, lemma_excerpt_starts_row, lemma_seek_offset, lemma_seek_offset_utf16,
    lemma_seek_point, lemma_seek_point_utf16, seek_index, MultiBufferSnapshot,
};
use crate::text::{
    find, found_at, is_boundary, is_continuation, lemma_find, lemma_find_is, lemma_find_point_from,
    lemma_find_point_utf16_from, lemma_join_parts, lemma_positions_grow, lemma_summarize_concat,
    lemma_summary_sound, offset_utf16_at, point_at, point_utf16_at, summarize, Bias, OffsetUtf16,
    Point, PointUtf16, Pos, TextSummary, MAX_TEXT_LEN, NEWLINE,
};

verus! {

/// The summary of the text before an offset within an excerpt, from the
/// summaries of what stands before the excerpt and of its buffer.
pub proof fn lemma_summary_within(es: Seq<Excerpt>, i: int, k: int)
    requires
        0 <= i < es.len(),
        es[i].wf(),
        0 <= k <= es[i].bytes().len(),
    ensures
        ({
            let shown = summarize(es[i].bytes().take(k));
            let buffer = es[i].buffer.bytes();
            &&& excerpt_start(es, i) + k <= excerpts_text(es).len()
            &&& es[i].start() + k <= buffer.len()
            &&& summarize(excerpts_text(es).take(excerpt_start(es, i) + k)) == summarize(
                excerpts_text(es.take(i)),
            ).join(shown)
            &&& summarize(buffer.take(es[i].start() + k)) == summarize(
                buffer.take(es[i].start()),
            ).join(shown)
            &&& shown.sound()
            &&& point_at(excerpts_text(es), excerpt_start(es, i) + k) == summarize(
                excerpts_text(es.take(i)),
            ).lines.plus(shown.lines)
            &&& point_at(buffer, es[i].start() + k) == es[i].start_pos().plus(shown.lines)
            &&& point_utf16_at(excerpts_text(es), excerpt_start(es, i) + k) == summarize(
                excerpts_text(es.take(i)),
            ).lines_utf16().plus(shown.lines_utf16())
            &&& point_utf16_at(buffer, es[i].start() + k) == point_utf16_at(
                buffer,
                es[i].start(),
            ).plus(shown.lines_utf16())
            &&& offset_utf16_at(excerpts_text(es), excerpt_start(es, i) + k) == summarize(
                excerpts_text(es.take(i)),
            ).len_utf16 + shown.len_utf16
            &&& offset_utf16_at(buffer, es[i].start() + k) == offset_utf16_at(
                buffer,
                es[i].start(),
            ) + shown.len_utf16
        }),
{
    lemma_text_within(es, i, 0, k);
    lemma_excerpt_position(es[i], k);
    let shown = summarize(es[i].bytes().take(k));
    lemma_summarize_concat(excerpts_text(es.take(i)), es[i].bytes().take(k));
    lemma_summary_sound(es[i].bytes().take(k));
    lemma_join_parts(summarize(excerpts_text(es.take(i))), shown);
    lemma_join_parts(summarize(es[i].buffer.bytes().take(es[i].start())), shown);
}

/// The text before an excerpt, as part of the whole text.
pub proof fn lemma_summary_before(es: Seq<Excerpt>, i: int)
    requires
        0 <= i <= es.len(),
    ensures
        0 <= excerpt_start(es, i) <= excerpts_text(es).len(),
        summarize(excerpts_text(es).take(excerpt_start(es, i))) == summarize(
            excerpts_text(es.take(i)),
        ),
{
    lemma_excerpts_text_split(es, i);
}

/// Characters start in the text of the multibuffer where they start in the
/// buffer that the excerpt shows.
pub proof fn lemma_boundary_within(es: Seq<Excerpt>, i: int, k: int)
    requires
        excerpts_wf(es),
        0 <= i < es.len(),
        0 <= k <= es[i].bytes().len(),
    ensures
        is_boundary(excerpts_text(es), excerpt_start(es, i) + k) == is_boundary(
            es[i].buffer.bytes(),
            es[i].start() + k,
        ),
        excerpt_start(es, i) < excerpts_text(es).len() ==> !is_continuation(
            excerpts_text(es)[excerpt_start(es, i)],
        ),
        excerpt_start(es, i) + es[i].bytes().len() < excerpts_text(es).len() ==> excerpts_text(
            es,
        )[excerpt_start(es, i) + es[i].bytes().len()] == NEWLINE,
{
    let e = es[i];
    let t = excerpts_text(es);
    let s = excerpt_start(es, i);
    let n = e.bytes().len() as int;
    let shown = t.subrange(s, s + e.text().len());
    lemma_text_within(es, i, 0, e.text().len() as int);
    assert(shown == e.text()) by {
        assert(e.text().subrange(0, e.text().len() as int) =~= e.text());
    }
    e.buffer.lemma_starts_char();
    if i == es.len() - 1 {
        assert(es.take(i + 1) =~= es);
        lemma_excerpts_text_step(es, i);
    }
    if 0 < n {
        assert(t[s] == shown[0]);
        assert(shown[0] == e.bytes()[0]);
    }
    if e.has_trailing_newline {
        assert(t[s + n] == shown[n]);
    }
    if 0 < k < n {
        assert(t[s + k] == shown[k]);
        assert(shown[k] == e.bytes()[k]);
    }
}

/// The text of a multibuffer starts with a whole character.
pub proof fn lemma_text_starts_char(es: Seq<Excerpt>)
    requires
        excerpts_wf(es),
    ensures
        excerpts_text(es).len() > 0 ==> !is_continuation(excerpts_text(es)[0]),
{
    if es.len() > 0 {
        assert(es.take(0) =~= Seq::<Excerpt>::empty());
        lemma_boundary_within(es, 0, 0);
    }
}

/// A multibuffer that shows a single buffer has that buffer's text.
pub proof fn lemma_singleton_text(snapshot: MultiBufferSnapshot)
    requires
        snapshot.wf(),
        snapshot.singleton,
        snapshot.excerpts@.len() > 0,
    ensures
        snapshot.bytes() == snapshot.excerpts@[0].buffer.bytes(),
        snapshot.excerpts@[0].wf(),
        snapshot.excerpts@.len() == 1,
        snapshot.excerpts@.take(0) == Seq::<Excerpt>::empty(),
        snapshot.excerpts@.take(1) == snapshot.excerpts@,
        snapshot.excerpts@[0].buffer.bytes().take(0) == Seq::<u8>::empty(),
{
    let es = snapshot.excerpts@;
    assert(es.take(1) =~= es);
    assert(es.take(0) =~= Seq::<Excerpt>::empty());
    assert(es[0].buffer.bytes().take(0) =~= Seq::<u8>::empty());
    lemma_excerpts_text_step(es, 0);
    assert(es[0].text() =~= es[0].buffer.bytes());
    assert(excerpts_text(es) =~= es[0].text());
}

/// Where `pos` lies in the buffer of the `i`-th excerpt.
pub open spec fn pos_in_buffer(es: Seq<Excerpt>, i: int, pos: Pos) -> Pos {
    es[i].start_pos().plus(pos.minus(summarize(excerpts_text(es.take(i))).lines))
}

/// Where `pos` lies in the buffer of the `i`-th excerpt, with UTF-16 columns.
pub open spec fn pos_utf16_in_buffer(es: Seq<Excerpt>, i: int, pos: Pos) -> Pos {
    point_utf16_at(es[i].buffer.bytes(), es[i].start()).plus(
        pos.minus(summarize(excerpts_text(es.take(i))).lines_utf16()),
    )
}

/// Where `offset` lies in the buffer of the `i`-th excerpt, in UTF-16 units.
pub open spec fn offset_utf16_in_buffer(es: Seq<Excerpt>, i: int, offset: int) -> int {
    offset_utf16_at(es[i].buffer.bytes(), es[i].start()) + offset - summarize(
        excerpts_text(es.take(i)),
    ).len_utf16
}

pub open spec fn to_point(pos: Pos) -> Point {
    Point { row: pos.row as u32, column: pos.column as u32 }
}

pub open spec fn to_point_utf16(pos: Pos) -> PointUtf16 {
    PointUtf16 { row: pos.row as u32, column: pos.column as u32 }
}

impl MultiBufferSnapshot {
    /// The excerpt that a row and a column lie in: the first that ends behind
    /// them.
    pub open spec fn excerpt_at_point(&self, point: Point) -> int {
        seek_index(self.excerpts@, point, Bias::Right, 0)
    }

    pub open spec fn excerpt_at_point_utf16(&self, point: PointUtf16) -> int {
        seek_index(self.excerpts@, point, Bias::Right, 0)
    }

    /// Whether the rows and columns of the buffer that shows `point` reach as
    /// far as `point` does.
    pub open spec fn point_fits(&self, point: Point) -> bool {
        let i = self.excerpt_at_point(point);
        i < self.excerpts@.len() ==> pos_in_buffer(self.excerpts@, i, point@).fits()
    }

    pub open spec fn point_utf16_fits(&self, point: PointUtf16) -> bool {
        let i = self.excerpt_at_point_utf16(point);
        i < self.excerpts@.len() ==> pos_utf16_in_buffer(self.excerpts@, i, point@).fits()
    }

    /// The offset of a row and a column: where the buffer that shows them has
    /// them.
    pub open spec fn offset_of_point(&self, point: Point) -> int {
        let es = self.excerpts@;
        let i = self.excerpt_at_point(point);
        if i < es.len() {
            excerpt_start(es, i) + find(
                es[i].buffer.bytes(),
                to_point(pos_in_buffer(es, i, point@)),
                0,
            ) - es[i].start()
        } else {
            self.bytes().len() as int
        }
    }

    pub open spec fn offset_of_point_utf16(&self, point: PointUtf16) -> int {
        let es = self.excerpts@;
        let i = self.excerpt_at_point_utf16(point);
        if i < es.len() {
            excerpt_start(es, i) + find(
                es[i].buffer.bytes(),
                to_point_utf16(pos_utf16_in_buffer(es, i, point@)),
                0,
            ) - es[i].start()
        } else {
            self.bytes().len() as int
        }
    }

    /// The UTF-16 position of a row and a column.
    pub open spec fn point_utf16_of_point(&self, point: Point) -> Pos {
        let es = self.excerpts@;
        let i = self.excerpt_at_point(point);
        if i < es.len() {
            let buffer = es[i].buffer.bytes();
            summarize(excerpts_text(es.take(i))).lines_utf16().plus(
                point_utf16_at(
                    buffer,
                    find(buffer, to_point(pos_in_buffer(es, i, point@)), 0),
                ).minus(point_utf16_at(buffer, es[i].start())),
            )
        } else {
            summarize(self.bytes()).lines_utf16()
        }
    }

    /// What the text before `offset` measures.
    pub fn summary_at(&self, offset: usize) -> (r: TextSummary)
        requires
            self.wf(),
        ensures
            offset <= self.bytes().len() ==> r@ == summarize(self.bytes().take(offset as int)),
            offset > self.bytes().len() ==> r@ == summarize(self.bytes()),
            r@.sound(),
    {
        let ghost es = self.excerpts@;
        let cursor = self.seek(&offset, Bias::Right);
        proof {
            lemma_seek_offset(es, offset, Bias::Right);
            assert(es.take(es.len() as int) =~= es);
            assert(self.bytes().take(self.bytes().len() as int) =~= self.bytes());
        }
        if cursor.index < self.excerpts.len() {
            let excerpt = &self.excerpts[cursor.index];
            let overshoot: usize = offset - cursor.start.len;
            let ghost i = cursor.index as int;
            assert(overshoot <= es[i].bytes().len()) by {
                lemma_excerpts_text_step(es, i);
            }
            proof {
                lemma_summary_within(es, i, overshoot as int);
                lemma_excerpt_position(es[i], overshoot as int);
            }
            let excerpt_start: usize = excerpt.buffer_start_offset();
            let shown = excerpt.buffer.text_summary_for_range(
                excerpt_start..excerpt_start + overshoot,
            );
            let mut summary = cursor.start;
            proof {
                lemma_summary_sound(self.bytes().take(offset as int));
                lemma_summary_sound(es[i].bytes().take(overshoot as int));
            }
            summary.append(&shown);
            summary
        } else {
            cursor.start
        }
    }

    pub fn offset_to_point(&self, offset: usize) -> (r: Point)
        requires
            self.wf(),
        ensures
            offset <= self.bytes().len() ==> r@ == point_at(self.bytes(), offset as int),
            offset > self.bytes().len() ==> r@ == point_at(
                self.bytes(),
                self.bytes().len() as int,
            ),
    {
        if let Some((_, _, buffer)) = self.as_singleton() {
            proof {
                lemma_singleton_text(*self);
            }
            return buffer.offset_to_point(offset);
        }
        assert(self.bytes().take(self.bytes().len() as int) =~= self.bytes());
        self.summary_at(offset).lines
    }

    pub fn offset_to_point_utf16(&self, offset: usize) -> (r: PointUtf16)
        requires
            self.wf(),
        ensures
            offset <= self.bytes().len() ==> r@ == point_utf16_at(self.bytes(), offset as int),
            offset > self.bytes().len() ==> r@ == point_utf16_at(
                self.bytes(),
                self.bytes().len() as int,
            ),
    {
        if let Some((_, _, buffer)) = self.as_singleton() {
            proof {
                lemma_singleton_text(*self);
            }
            return buffer.offset_to_point_utf16(offset);
        }
        assert(self.bytes().take(self.bytes().len() as int) =~= self.bytes());
        self.summary_at(offset).lines_utf16()
    }

    pub fn offset_to_offset_utf16(&self, offset: usize) -> (r: OffsetUtf16)
        requires
            self.wf(),
        ensures
            offset <= self.bytes().len() ==> r@ == offset_utf16_at(self.bytes(), offset as int),
            offset > self.bytes().len() ==> r@ == offset_utf16_at(
                self.bytes(),
                self.bytes().len() as int,
            ),
    {
        if let Some((_, _, buffer)) = self.as_singleton() {
            proof {
                lemma_singleton_text(*self);
            }
            return buffer.offset_to_offset_utf16(offset);
        }
        assert(self.bytes().take(self.bytes().len() as int) =~= self.bytes());
        self.summary_at(offset).len_utf16
    }

    pub fn point_to_offset(&self, point: Point) -> (r: usize)
        requires
            self.wf(),
            self.point_fits(point),
        ensures
            r == self.offset_of_point(point),
    {
        let ghost es = self.excerpts@;
        let cursor = self.seek(&point, Bias::Right);
        proof {
            lemma_seek_point(es, point, Bias::Right);
            assert(es.take(es.len() as int) =~= es);
        }
        if cursor.index < self.excerpts.len() {
            let excerpt = &self.excerpts[cursor.index];
            let overshoot = point.minus(cursor.start.lines);
            let excerpt_start: usize = excerpt.buffer_start_offset();
            let buffer_point = excerpt.buffer_start_point().plus(overshoot);
            let buffer_offset: usize = excerpt.buffer.point_to_offset(buffer_point);
            proof {
                lemma_find_point_from(
                    excerpt.buffer.bytes(),
                    buffer_point,
                    excerpt.start(),
                );
                lemma_summary_before(es, cursor.index as int);
            }
            cursor.start.len + (buffer_offset - excerpt_start)
        } else {
            cursor.start.len
        }
    }

    pub fn point_to_point_utf16(&self, point: Point) -> (r: PointUtf16)
        requires
            self.wf(),
            self.point_fits(point),
        ensures
            r@ == self.point_utf16_of_point(point),
    {
        let ghost es = self.excerpts@;
        let cursor = self.seek(&point, Bias::Right);
        proof {
            lemma_seek_point(es, point, Bias::Right);
            assert(es.take(es.len() as int) =~= es);
        }
        if cursor.index < self.excerpts.len() {
            let excerpt = &self.excerpts[cursor.index];
            let overshoot = point.minus(cursor.start.lines);
            let excerpt_start: usize = excerpt.buffer_start_offset();
            let buffer_point = excerpt.buffer_start_point().plus(overshoot);
            let buffer_offset: usize = excerpt.buffer.point_to_offset(buffer_point);
            proof {
                let buffer = excerpt.buffer.bytes();
                lemma_find_point_from(buffer, buffer_point, excerpt.start());
                lemma_summary_before(es, cursor.index as int);
                lemma_summary_sound(buffer.take(buffer_offset as int));
                lemma_excerpt_starts_row(es, cursor.index as int);
                if excerpt_start < buffer_offset {
                    lemma_positions_grow(buffer, excerpt_start as int, buffer_offset as int);
                }
            }
            let buffer_point_utf16 = excerpt.buffer.point_to_point_utf16(buffer_point);
            let excerpt_start_utf16 = excerpt.buffer.offset_to_point_utf16(excerpt_start);
            cursor.start.lines_utf16().plus(buffer_point_utf16.minus(excerpt_start_utf16))
        } else {
            cursor.start.lines_utf16()
        }
    }

    pub fn point_utf16_to_offset(&self, point: PointUtf16) -> (r: usize)
        requires
            self.wf(),
            self.point_utf16_fits(point),
        ensures
            r == self.offset_of_point_utf16(point),
    {
        let ghost es = self.excerpts@;
        let cursor = self.seek(&point, Bias::Right);
        proof {
            lemma_seek_point_utf16(es, point, Bias::Right);
            assert(es.take(es.len() as int) =~= es);
        }
        if cursor.index < self.excerpts.len() {
            let excerpt = &self.excerpts[cursor.index];
            let overshoot = point.minus(cursor.start.lines_utf16());
            let excerpt_start: usize = excerpt.buffer_start_offset();
            let buffer_point = excerpt.buffer.offset_to_point_utf16(excerpt_start).plus(overshoot);
            let buffer_offset: usize = excerpt.buffer.point_utf16_to_offset(buffer_point);
            proof {
                excerpt.buffer.lemma_starts_char();
                lemma_find_point_utf16_from(
                    excerpt.buffer.bytes(),
                    buffer_point,
                    excerpt.start(),
                );
                lemma_summary_before(es, cursor.index as int);
            }
            cursor.start.len + (buffer_offset - excerpt_start)
        } else {
            cursor.start.len
        }
    }

    pub fn offset_utf16_to_offset(&self, offset_utf16: OffsetUtf16) -> (r: usize)
        requires
            self.wf(),
        ensures
            r == find(self.bytes(), offset_utf16, 0),
            r <= self.bytes().len(),
    {
        let ghost es = self.excerpts@;
        let cursor = self.seek(&offset_utf16, Bias::Right);
        proof {
            lemma_seek_offset_utf16(es, offset_utf16);
            assert(es.take(es.len() as int) =~= es);
        }
        if cursor.index < self.excerpts.len() {
            let excerpt = &self.excerpts[cursor.index];
            let overshoot: usize = offset_utf16.0 - cursor.start.len_utf16.0;
            let excerpt_start: usize = excerpt.buffer_start_offset();
            let start_utf16 = excerpt.buffer.offset_to_offset_utf16(excerpt_start);
            proof {
                lemma_find_offset_utf16_within(*self, offset_utf16);
            }
            let buffer_offset: usize = excerpt.buffer.offset_utf16_to_offset(
                OffsetUtf16(start_utf16.0 + overshoot),
            );
            cursor.start.len + (buffer_offset - excerpt_start)
        } else {
            proof {
                lemma_text_starts_char(es);
                lemma_find_past_end_utf16(self.bytes(), offset_utf16);
            }
            cursor.start.len
        }
    }
}

/// A search for a UTF-16 offset at or behind the end ends at the end.
pub proof fn lemma_find_past_end_utf16(t: Seq<u8>, target: OffsetUtf16)
    requires
        summarize(t).len_utf16 <= target@,
        t.len() > 0 ==> !is_continuation(t[0]),
    ensures
        find(t, target, 0) == t.len(),
{
    assert(t.take(t.len() as int) =~= t);
    assert forall|k: int| 0 <= k < t.len() implies !#[trigger] found_at(t, target, k) by {
        lemma_positions_grow(t, k, t.len() as int);
    }
    lemma_find_is(t, target, t.len() as int);
}

/// A search for a UTF-16 offset ends where the search in the buffer that shows
/// it ends.
pub proof fn lemma_find_offset_utf16_within(snapshot: MultiBufferSnapshot, target: OffsetUtf16)
    requires
        snapshot.wf(),
        seek_index(snapshot.excerpts@, target, Bias::Right, 0) < snapshot.excerpts@.len(),
    ensures
        ({
            let es = snapshot.excerpts@;
            let i = seek_index(es, target, Bias::Right, 0);
            let target_in_buffer = OffsetUtf16(
                offset_utf16_in_buffer(es, i, target@) as usize,
            );
            let found = find(es[i].buffer.bytes(), target_in_buffer, 0);
            &&& 0 <= offset_utf16_in_buffer(es, i, target@) <= offset_utf16_at(
                es[i].buffer.bytes(),
                es[i].end(),
            ) <= 2 * MAX_TEXT_LEN
            &&& es[i].start() <= found <= es[i].end()
            &&& find(snapshot.bytes(), target, 0) == excerpt_start(es, i) + found
                - es[i].start()
            &&& find(snapshot.bytes(), target, 0) <= snapshot.bytes().len()
        }),
{
    let es = snapshot.excerpts@;
    let t = snapshot.bytes();
    let i = seek_index(es, target, Bias::Right, 0);
    let e = es[i];
    let buffer = e.buffer.bytes();
    let s = excerpt_start(es, i);
    let n = e.bytes().len() as int;
    lemma_offset_utf16_in_buffer(es, target);
    let target_in_buffer = OffsetUtf16(offset_utf16_in_buffer(es, i, target@) as usize);
    let found = find(buffer, target_in_buffer, 0);
    lemma_find(buffer, target_in_buffer, 0);
    e.buffer.lemma_starts_char();
    lemma_excerpt_position(e, n);
    if found < e.start() {
        lemma_positions_grow(buffer, found, e.start());
    }
    if found > e.end() {
        assert(found_at(buffer, target_in_buffer, e.end()));
    }
    let k = found - e.start();
    assert(offset_utf16_at(buffer, found) >= target_in_buffer@);
    lemma_boundary_within(es, i, k);
    lemma_boundary_within(es, i, n);
    lemma_summary_within(es, i, k);
    lemma_text_starts_char(es);
    if s + k < t.len() {
        assert(found_at(t, target, s + k));
    }
    assert forall|o: int| 0 <= o < s + k implies !#[trigger] found_at(t, target, o) by {
        if o < s {
            lemma_summary_before(es, i);
            lemma_positions_grow(t, o, s);
        } else {
            lemma_boundary_within(es, i, o - s);
            lemma_summary_within(es, i, o - s);
            assert(!found_at(buffer, target_in_buffer, e.start() + (o - s)));
        }
    }
    lemma_find_is(t, target, s + k);
}

/// Where a UTF-16 offset lies in the buffer that shows it.
pub proof fn lemma_offset_utf16_in_buffer(es: Seq<Excerpt>, target: OffsetUtf16)
    requires
        excerpts_wf(es),
        seek_index(es, target, Bias::Right, 0) < es.len(),
    ensures
        ({
            let i = seek_index(es, target, Bias::Right, 0);
            &&& 0 <= i
            &&& summarize(excerpts_text(es.take(i))).len_utf16 <= target@
            &&& offset_utf16_at(es[i].buffer.bytes(), es[i].start()) <= offset_utf16_in_buffer(
                es,
                i,
                target@,
            ) <= offset_utf16_at(es[i].buffer.bytes(), es[i].end()) <= 2 * MAX_TEXT_LEN
            &&& 0 <= offset_utf16_at(es[i].buffer.bytes(), es[i].start())
        }),
{
    reveal(summarize);
    let i = seek_index(es, target, Bias::Right, 0);
    lemma_seek_offset_utf16(es, target);
    let e = es[i];
    let buffer = e.buffer.bytes();
    let n = e.bytes().len() as int;
    lemma_excerpts_text_step(es, i);
    lemma_join_parts(summarize(excerpts_text(es.take(i))), summarize(e.text()));
    lemma_summary_within(es, i, n);
    lemma_excerpt_position(e, n);
    lemma_summary_sound(buffer.take(e.end()));
    lemma_summary_sound(buffer.take(e.start()));
    assert(e.bytes().take(n) =~= e.bytes());
    if e.has_trailing_newline {
        assert(e.text().drop_last() =~= e.bytes());
        assert(e.text().last() == NEWLINE);
    } else {
        assert(e.text() =~= e.bytes());
    }
}

} // verus!
