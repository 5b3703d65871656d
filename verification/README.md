# multi_buffer

A multibuffer shows excerpts of several text buffers as one text, and lets them be
edited, undone and selected as if they were one. This crate is a multibuffer whose
behaviour is stated in contracts and proved with Verus.

* `src/text.rs`, `src/buffer.rs`: texts, what they measure, and buffers.
* `src/locator.rs`, `src/excerpt.rs`, `src/excerpt_ranges.rs`: excerpts, the places
  where they stand, and which stretches of a buffer to show.
* `src/snapshot.rs` and `src/snapshot/`: reading the contents at one point in time:
  positions, anchors, lines, chunks, and what languages know about them.
* `src/multi_buffer.rs` and `src/multi_buffer/`: changing which excerpts are shown,
  turning edits into edits of buffers, transactions, selections, and taking over
  what buffers became.
* `src/history.rs`: the transactions that can be undone and redone.
* `src/id_list.rs`, `src/chance.rs`, `src/shared.rs`: the functions of other crates
  and of the standard library that are called, and what is taken for granted of
  them. One more is `is_whitespace` in `src/snapshot/indents.rs`.
* `app/`: a session that binds a multibuffer to the buffers of an editor.

A buffer is held as its contents at one time. What only a buffer can do (take an
edit, undo, answer questions about its language) is asked for in a plan, and its
replies are handed back.
