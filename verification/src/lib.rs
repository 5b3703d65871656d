//! A multibuffer shows excerpts of several text buffers as one text.

pub mod anchor;
pub mod buffer;
mod chance;
pub mod clock;
pub mod excerpt;
pub mod excerpt_ranges;
pub mod history;
mod id_list;
pub mod locator;
pub mod multi_buffer;
pub mod position;
mod shared;
pub mod snapshot;
pub mod sorting;
pub mod text;
