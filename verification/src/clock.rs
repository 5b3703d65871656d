//! Logical time.

use std::sync::Arc;
use vstd::prelude::*;

use crate::shared::share;

verus! {

/// A point in logical time: the `value`-th tick of one replica.
#[derive(Clone, Copy, Debug, PartialEq, Eq, Hash, Structural)]
pub struct Lamport {
    pub replica_id: u16,
    pub value: u32,
}

impl Default for Lamport {
    fn default() -> (r: Self)
        ensures
            r.replica_id == 0 && r.value == 0,
    {
        Lamport { replica_id: 0, value: 0 }
    }
}

impl Lamport {
    /// The present tick. The clock moves on to the next.
    pub fn tick(&mut self) -> (r: Lamport)
        requires
            old(self).value < u32::MAX,
        ensures
            r == *old(self),
            final(self).replica_id == old(self).replica_id,
            final(self).value == old(self).value + 1,
    {
        let timestamp = *self;
        self.value = self.value + 1;
        timestamp
    }
}

/// What has been seen of every replica: its latest tick, by replica.
#[derive(Debug)]
pub struct Global {
    pub values: Arc<Vec<u32>>,
}

impl View for Global {
    type V = Seq<u32>;

    open spec fn view(&self) -> Seq<u32> {
        self.values@
    }
}

/// The latest tick of the replica `replica` that `version` has seen.
pub open spec fn latest_tick(version: Seq<u32>, replica: int) -> int {
    if 0 <= replica < version.len() {
        version[replica] as int
    } else {
        0
    }
}

/// Whether `version` has seen a tick that `since` has not.
pub open spec fn is_newer(version: Seq<u32>, since: Seq<u32>) -> bool {
    exists|i: int|
        0 <= i < version.len() && #[trigger] latest_tick(version, i) > latest_tick(since, i)
}

impl Clone for Global {
    fn clone(&self) -> (r: Self)
        ensures
            r == *self,
    {
        Global { values: share(&self.values) }
    }
}

impl Global {
    pub fn new(values: Vec<u32>) -> (r: Self)
        ensures
            r@ == values@,
    {
        Global { values: Arc::new(values) }
    }

    pub fn get(&self, replica_id: usize) -> (r: u32)
        ensures
            r == latest_tick(self@, replica_id as int),
    {
        if replica_id < self.values.len() {
            self.values[replica_id]
        } else {
            0
        }
    }

    /// Whether the tick `timestamp` has been seen.
    pub fn observed(&self, timestamp: &Lamport) -> (r: bool)
        ensures
            r == (latest_tick(self@, timestamp.replica_id as int) >= timestamp.value),
    {
        self.get(timestamp.replica_id as usize) >= timestamp.value
    }

    /// Whether a tick has been seen that `other` has not.
    pub fn changed_since(&self, other: &Global) -> (r: bool)
        ensures
            r == is_newer(self@, other@),
    {
        let mut i: usize = 0;
        while i < self.values.len()
            invariant
                i <= self@.len(),
                forall|k: int| 0 <= k < i ==> latest_tick(self@, k) <= latest_tick(other@, k),
            decreases self@.len() - i,
        {
            if self.get(i) > other.get(i) {
                assert(latest_tick(self@, i as int) > latest_tick(other@, i as int));
                return true;
            }
            i = i + 1;
        }
        false
    }
}

} // verus!
