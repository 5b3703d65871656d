//! Positions in a multibuffer that stay with the text around them.

use vstd::prelude::*;

use crate::buffer::{max_text_anchor, min_text_anchor, BufferId, TextAnchor};
use crate::excerpt::ExcerptId;

verus! {

/// A position in an excerpt, or before or behind all of them.
#[derive(Clone, Copy, Debug, PartialEq, Eq, Hash, Structural)]
pub struct Anchor {
    /// The buffer of the excerpt.
    pub buffer_id: Option<BufferId>,
    pub excerpt_id: ExcerptId,
    /// The position in that buffer.
    pub text_anchor: TextAnchor,
}

pub open spec fn min_anchor() -> Anchor {
    Anchor { buffer_id: None, excerpt_id: ExcerptId(0), text_anchor: min_text_anchor() }
}

pub open spec fn max_anchor() -> Anchor {
    Anchor { buffer_id: None, excerpt_id: ExcerptId(usize::MAX), text_anchor: max_text_anchor() }
}

impl Anchor {
    /// The position before all excerpts.
    pub fn min() -> (r: Self)
        ensures
            r == min_anchor(),
    {
        Anchor {
            buffer_id: None,
            excerpt_id: ExcerptId::min(),
            text_anchor: TextAnchor::min(),
        }
    }

    /// The position behind all excerpts.
    pub fn max() -> (r: Self)
        ensures
            r == max_anchor(),
    {
        Anchor {
            buffer_id: None,
            excerpt_id: ExcerptId::max(),
            text_anchor: TextAnchor::max(),
        }
    }
}

} // verus!
