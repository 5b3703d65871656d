//! Waiting until buffers know anchors.

use vstd::prelude::*;

use crate::anchor::Anchor;
use crate::buffer::{BufferId, TextAnchor};
use crate::multi_buffer::{BufferState, MultiBuffer};

verus! {

/// Whether a multibuffer has excerpts of a buffer.
pub open spec fn is_part(states: Seq<BufferState>, buffer_id: BufferId) -> bool {
    exists|s: int| 0 <= s < states.len() && (#[trigger] states[s]).buffer.remote_id == buffer_id
}

/// Whether an anchor lies in no buffer, or in one of which there are excerpts.
pub open spec fn can_wait_for(states: Seq<BufferState>, anchor: Anchor) -> bool {
    anchor.buffer_id matches Some(buffer_id) ==> is_part(states, buffer_id)
}

/// Which buffers have to know which anchors.
pub open spec fn waits_for(anchors: Seq<Anchor>) -> Seq<(BufferId, TextAnchor)>
    decreases anchors.len(),
{
    if anchors.len() == 0 {
        seq![]
    } else {
        let front = waits_for(anchors.drop_last());
        match anchors.last().buffer_id {
            Some(buffer_id) => front.push((buffer_id, anchors.last().text_anchor)),
            None => front,
        }
    }
}

/// Whether a buffer is the first of which there is no excerpt.
pub open spec fn is_first_missing(
    states: Seq<BufferState>,
    anchors: Seq<Anchor>,
    buffer_id: BufferId,
) -> bool {
    exists|k: int|
        {
            &&& 0 <= k < anchors.len()
            &&& (#[trigger] anchors[k]).buffer_id == Some(buffer_id)
            &&& !is_part(states, buffer_id)
            &&& forall|j: int| 0 <= j < k ==> can_wait_for(states, #[trigger] anchors[j])
        }
}

impl MultiBuffer {
    /// Which buffers have to know which anchors, or the first buffer that is not part
    /// of the multibuffer.
    pub fn wait_for_anchors(&self, anchors: &Vec<Anchor>) -> (r: Result<
        Vec<(BufferId, TextAnchor)>,
        BufferId,
    >)
        ensures
            match r {
                Ok(waits) => {
                    &&& forall|k: int|
                        0 <= k < anchors@.len() ==> can_wait_for(
                            self.buffers@,
                            #[trigger] anchors@[k],
                        )
                    &&& waits@ == waits_for(anchors@)
                },
                Err(buffer_id) => is_first_missing(self.buffers@, anchors@, buffer_id),
            },
    {
        let mut waits: Vec<(BufferId, TextAnchor)> = Vec::new();
        let mut k: usize = 0;
        assert(anchors@.take(0) =~= seq![]);
        while k < anchors.len()
            invariant
                k <= anchors@.len(),
                forall|j: int|
                    0 <= j < k ==> can_wait_for(self.buffers@, #[trigger] anchors@[j]),
                waits@ == waits_for(anchors@.take(k as int)),
            decreases anchors@.len() - k,
        {
            let anchor = &anchors[k];
            assert(anchors@.take(k + 1).drop_last() =~= anchors@.take(k as int));
            if let Some(buffer_id) = anchor.buffer_id {
                if self.buffer_state_index(buffer_id).is_none() {
                    assert(anchors@[k as int].buffer_id == Some(buffer_id));
                    return Err(buffer_id);
                }
                waits.push((buffer_id, anchor.text_anchor));
            }
            k = k + 1;
        }
        assert(anchors@.take(anchors@.len() as int) =~= anchors@);
        Ok(waits)
    }
}

} // verus!
