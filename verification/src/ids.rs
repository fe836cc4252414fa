//! Identifiers of messages, sources and destinations.

use crate::sorting::SortKey;
use vstd::prelude::*;

verus! {

/// The ID of a message in a trace.
#[derive(Copy, Clone, Debug, PartialEq, Eq, Structural, PartialOrd, Ord, Hash)]
pub struct MessageId(pub u64);

/// The ID of a source entity in a trace.
#[derive(Copy, Clone, Debug, PartialEq, Eq, Structural, PartialOrd, Ord, Hash)]
pub struct SourceId(pub u64);

/// The ID of a destination entity in a trace.
#[derive(Copy, Clone, Debug, PartialEq, Eq, Structural, PartialOrd, Ord, Hash)]
pub struct DestinationId(pub u64);

impl MessageId {
    pub fn new(other: u64) -> (id: Self)
        ensures
            id == MessageId(other),
    {
        MessageId(other)
    }

    pub fn to_num(self) -> (n: u64)
        ensures
            n == self.0,
    {
        self.0
    }
}

impl SourceId {
    pub fn new(other: u64) -> (id: Self)
        ensures
            id == SourceId(other),
    {
        SourceId(other)
    }

    pub fn to_num(self) -> (n: u64)
        ensures
            n == self.0,
    {
        self.0
    }
}

impl DestinationId {
    pub fn new(other: u64) -> (id: Self)
        ensures
            id == DestinationId(other),
    {
        DestinationId(other)
    }

    pub fn to_num(self) -> (n: u64)
        ensures
            n == self.0,
    {
        self.0
    }
}

/// Messages are ordered by their number.
impl SortKey for MessageId {
    open spec fn sort_key(&self) -> int {
        self.0 as int
    }

    fn key_le(&self, other: &Self) -> (b: bool) {
        self.0 <= other.0
    }
}

} // verus!
