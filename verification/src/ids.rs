//! Identifiers and instants shared by every module.
use vstd::prelude::*;

verus! {

/// A cluster member. Zero is never a member.
#[derive(Clone, Copy, Debug, PartialEq, Eq, PartialOrd, Ord, Hash, Structural)]
pub struct NodeId(pub u64);

impl NodeId {
    pub fn new(value: u64) -> (id: Self)
        ensures
            id == NodeId(value),
    {
        NodeId(value)
    }

    pub fn get(self) -> (value: u64)
        ensures
            value == self.0,
    {
        self.0
    }
}

/// A Raft term.
#[derive(Clone, Copy, Debug, PartialEq, Eq, PartialOrd, Ord, Hash, Structural)]
pub struct Term(pub u64);

impl Term {
    pub fn new(value: u64) -> (term: Self)
        ensures
            term == Term(value),
    {
        Term(value)
    }

    pub fn get(self) -> (value: u64)
        ensures
            value == self.0,
    {
        self.0
    }
}

/// A position in the replicated log. The first entry has index one.
#[derive(Clone, Copy, Debug, PartialEq, Eq, PartialOrd, Ord, Hash, Structural)]
pub struct LogIndex(pub u64);

impl LogIndex {
    pub fn new(value: u64) -> (index: Self)
        ensures
            index == LogIndex(value),
    {
        LogIndex(value)
    }

    pub fn get(self) -> (value: u64)
        ensures
            value == self.0,
    {
        self.0
    }
}

/// A host timer.
#[derive(Clone, Copy, Debug, PartialEq, Eq, PartialOrd, Ord, Hash, Structural)]
pub struct TimerId(pub u64);

impl TimerId {
    pub fn new(value: u64) -> (id: Self)
        ensures
            id == TimerId(value),
    {
        TimerId(value)
    }

    pub fn get(self) -> (value: u64)
        ensures
            value == self.0,
    {
        self.0
    }
}

/// A caller-owned retry identity.
#[derive(Clone, Copy, Debug, PartialEq, Eq, PartialOrd, Ord, Hash, Structural)]
pub struct ClientId(pub u64);

impl ClientId {
    pub fn new(value: u64) -> (id: Self)
        ensures
            id == ClientId(value),
    {
        ClientId(value)
    }

    pub fn get(self) -> (value: u64)
        ensures
            value == self.0,
    {
        self.0
    }
}

/// The seed of every pseudo-random stream of a run.
#[derive(Clone, Copy, Debug, PartialEq, Eq, PartialOrd, Ord, Hash, Structural)]
pub struct Seed(pub u64);

impl Seed {
    pub fn new(value: u64) -> (seed: Self)
        ensures
            seed == Seed(value),
    {
        Seed(value)
    }

    pub fn get(self) -> (value: u64)
        ensures
            value == self.0,
    {
        self.0
    }
}

/// `value * factor`, or the largest `u64` where that does not fit.
pub open spec fn scaled(value: u64, factor: int) -> u64 {
    if value * factor <= u64::MAX {
        (value * factor) as u64
    } else {
        u64::MAX
    }
}

/// A span of time in nanoseconds.
#[derive(Clone, Copy, Debug, PartialEq, Eq, PartialOrd, Ord, Hash, Structural)]
pub struct Duration(pub u64);

impl Duration {
    pub fn from_nanos(nanos: u64) -> (span: Self)
        ensures
            span == Duration(nanos),
    {
        Duration(nanos)
    }

    /// Saturates at the longest representable span.
    pub fn from_millis(millis: u64) -> (span: Self)
        ensures
            span == Duration(scaled(millis, 1_000_000)),
    {
        if millis <= u64::MAX / 1_000_000 {
            Duration(millis * 1_000_000)
        } else {
            Duration(u64::MAX)
        }
    }

    /// Saturates at the longest representable span.
    pub fn from_secs(seconds: u64) -> (span: Self)
        ensures
            span == Duration(scaled(seconds, 1_000_000_000)),
    {
        if seconds <= u64::MAX / 1_000_000_000 {
            Duration(seconds * 1_000_000_000)
        } else {
            Duration(u64::MAX)
        }
    }

    pub fn as_nanos(self) -> (nanos: u64)
        ensures
            nanos == self.0,
    {
        self.0
    }
}

/// An instant: nanoseconds since the host's epoch.
#[derive(Clone, Copy, Debug, PartialEq, Eq, PartialOrd, Ord, Hash, Structural)]
pub struct Time(pub u64);

impl Time {
    /// The instant `span` later, or the last representable one.
    pub open spec fn later(self, span: Duration) -> Time {
        if self.0 + span.0 <= u64::MAX {
            Time((self.0 + span.0) as u64)
        } else {
            Time(u64::MAX)
        }
    }

    pub fn from_nanos(nanos: u64) -> (time: Self)
        ensures
            time == Time(nanos),
    {
        Time(nanos)
    }

    pub fn as_nanos(self) -> (nanos: u64)
        ensures
            nanos == self.0,
    {
        self.0
    }

    pub fn after(self, span: Duration) -> (time: Self)
        ensures
            time == self.later(span),
    {
        if self.0 <= u64::MAX - span.0 {
            Time(self.0 + span.0)
        } else {
            Time(u64::MAX)
        }
    }
}

} // verus!
