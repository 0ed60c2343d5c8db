//! Row types of the store's tables, the stats summary, size targets for
//! garbage collection, the transient pin session handle, and the error type.

use vstd::prelude::*;

verus! {

/// A row of the identifier table: a content hash interned to a compact id.
/// An identifier may exist without a stored payload (a known-but-unfetched
/// block, for instance a dangling link target).
pub struct CidRow {
    pub id: u64,
    pub hash: Vec<u8>,
}

/// A directed link edge between two interned identifiers. The edge relation
/// is a set: duplicates are collapsed.
#[derive(Clone, Copy, PartialEq, Eq, Structural)]
pub struct RefRow {
    pub parent: u64,
    pub child: u64,
}

/// A stored payload, keyed by identifier.
pub struct BlockRow {
    pub id: u64,
    pub payload: Vec<u8>,
}

/// A durable named pin: a root of a subgraph that survives restarts.
pub struct AliasRow {
    pub name: Vec<u8>,
    pub id: u64,
}

/// A transient pin row: a session pin id and the identifier it holds live.
/// All transient pins are purged when the store is reopened.
#[derive(Clone, Copy, PartialEq, Eq, Structural)]
pub struct PinRow {
    pub pin: u64,
    pub id: u64,
}

/// The stats summary row: the number of identifiers that have a stored
/// payload, and the total size of those payloads in bytes.
#[derive(Clone, Copy, PartialEq, Eq, Structural, Debug)]
pub struct StoreStats {
    pub count: u64,
    pub size: u64,
}

/// Size targets for garbage collection: eviction work happens only while
/// the stats summary exceeds one of the targets.
#[derive(Clone, Copy, PartialEq, Eq, Structural)]
pub struct SizeTargets {
    pub max_count: u64,
    pub max_size: u64,
}

impl SizeTargets {
    /// Whether a stats summary exceeds either target.
    pub open spec fn exceeded_spec(self, stats: StoreStats) -> bool {
        stats.count > self.max_count || stats.size > self.max_size
    }

    /// Whether a stats summary exceeds either target.
    pub fn exceeded(&self, stats: &StoreStats) -> (r: bool)
        ensures
            r == self.exceeded_spec(*stats),
    {
        stats.count > self.max_count || stats.size > self.max_size
    }
}

/// A transient pin session handle. A fresh handle carries no pin id; the
/// first pinning insert assigns one (always at least 2, so that an
/// unassigned handle can be told apart as at most 1). The engine-level
/// store shares such a handle as an atomic integer cell; under the
/// single-writer model here it is a plain cell passed by mutable
/// reference, with the same read-once, write-once protocol. An embedding
/// that shares one across threads must synchronize it itself.
pub struct TempPin {
    pub id: u64,
}

impl TempPin {
    /// Whether the handle has been assigned a live pin id.
    pub open spec fn assigned(self) -> bool {
        self.id >= 2
    }

    /// A fresh, unassigned handle.
    pub fn new() -> (r: TempPin)
        ensures
            r.id == 0,
    {
        TempPin { id: 0 }
    }
}

/// Errors surfaced by the store's own logic. Engine-level failures belong to
/// the embedding, not to this model.
#[derive(Clone, Copy, PartialEq, Eq, Structural, Debug)]
pub enum StoreError {
    /// Allocating a fresh transient pin id would overflow the id space.
    PinIdsExhausted,
    /// A legacy row's payload could not be decoded during migration.
    UndecodableBlock,
    /// Interning or the stats counters would overflow during migration.
    CapacityExceeded,
}

} // verus!
