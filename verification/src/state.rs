//! The runtime state and the operations served on it.
//!
//! A service holds one runtime state and hands it to each operation in
//! turn: three that only read, and two that file a range of numbers in the
//! index.

use vstd::prelude::*;
use crate::environment::Environment;
use crate::index::{allocated, IndexError, OrderedIndex};

verus! {

/// The state of a running service: its environment and its index.
pub struct RuntimeState {
    /// What the state knows of the host.
    pub env: Environment,
    /// The index.
    pub data: OrderedIndex,
}

impl Default for RuntimeState {
    /// The state before a host is bound: the stub environment and an empty
    /// index.
    fn default() -> (state: Self)
        ensures
            state.env == Environment::Stub,
            state.data.numbers() == Set::<u64>::empty(),
            state.data@ == Map::<Seq<char>, u64>::empty(),
    {
        RuntimeState { env: Environment::default(), data: OrderedIndex::default() }
    }
}

impl RuntimeState {
    /// A state bound to `env`, with an empty index.
    pub fn new(env: Environment) -> (state: Self)
        ensures
            state.env == env,
            state.data.numbers() == Set::<u64>::empty(),
            state.data@ == Map::<Seq<char>, u64>::empty(),
    {
        RuntimeState { env, data: OrderedIndex::new() }
    }

    /// The memory in use, in bytes, given the host's figure at this moment.
    /// What the index holds has no part in it.
    pub fn state_size(&self, host_bytes: u64) -> (bytes: u64)
        ensures
            bytes == self.env.reported(host_bytes),
    {
        self.env.memory_used(host_bytes)
    }

    /// The number of entries in the index.
    pub fn tree_len(&self) -> (count: usize)
        ensures
            count == self.data@.len(),
            count == self.data.numbers().len(),
    {
        self.data.length()
    }

    /// The number filed under the key `k`, if there is one.
    pub fn get_btree_item(&self, k: String) -> (found: Option<u64>)
        ensures
            found == (if self.data@.contains_key(k@) {
                Some(self.data@[k@])
            } else {
                None
            }),
    {
        self.data.get(k.as_str())
    }

    /// Files the `count` numbers from `start` on in the index and returns
    /// the end of the range, `start + count`. Where the end is above
    /// `u64::MAX`, nothing changes and the error says so.
    pub fn add_btree(&mut self, start: u64, count: u64) -> (end: Result<u64, IndexError>)
        ensures
            final(self).env == old(self).env,
            match end {
                Ok(end) => {
                    &&& end == start + count
                    &&& final(self).data.numbers() == allocated(
                        old(self).data.numbers(),
                        start as int,
                        count as int,
                    )
                },
                Err(error) => {
                    &&& error == IndexError::Overflow
                    &&& start + count > u64::MAX
                    &&& *final(self) == *old(self)
                },
            },
            old(self).data@.len() <= final(self).data@.len() <= old(self).data@.len() + count,
    {
        self.data.allocate_range(start, count)
    }

    /// Files `count` more numbers in the index, counted on from its current
    /// count of entries, and returns the end of the range. Where the end is
    /// above `u64::MAX`, nothing changes and the error says so.
    pub fn grow_btree(&mut self, count: u64) -> (end: Result<u64, IndexError>)
        ensures
            final(self).env == old(self).env,
            match end {
                Ok(end) => {
                    &&& end == old(self).data@.len() + count
                    &&& final(self).data.numbers() == allocated(
                        old(self).data.numbers(),
                        old(self).data@.len() as int,
                        count as int,
                    )
                },
                Err(error) => {
                    &&& error == IndexError::Overflow
                    &&& old(self).data@.len() + count > u64::MAX
                    &&& *final(self) == *old(self)
                },
            },
            old(self).data@.len() <= final(self).data@.len() <= old(self).data@.len() + count,
    {
        self.data.grow_by(count)
    }
}

} // verus!
