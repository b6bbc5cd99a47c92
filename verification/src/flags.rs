//! Per-node metadata flags shared by every scan engine and the UI.

use vstd::prelude::*;

verus! {

/// A set of per-node flags, held as a bit mask.
#[derive(Clone, Copy, Debug, PartialEq, Eq, Structural, Default)]
pub struct NodeFlags(pub u16);

impl NodeFlags {
    pub fn dir() -> (r: NodeFlags)
        ensures
            r.0 == 1,
    {
        NodeFlags(1)
    }

    pub fn reparse() -> (r: NodeFlags)
        ensures
            r.0 == 2,
    {
        NodeFlags(2)
    }

    /// A hard link seen after its first occurrence; excluded from
    /// rollups so its bytes aren't counted twice.
    pub fn hardlink_dup() -> (r: NodeFlags)
        ensures
            r.0 == 4,
    {
        NodeFlags(4)
    }

    pub fn compressed() -> (r: NodeFlags)
        ensures
            r.0 == 8,
    {
        NodeFlags(8)
    }

    pub fn sparse() -> (r: NodeFlags)
        ensures
            r.0 == 16,
    {
        NodeFlags(16)
    }

    /// Cloud-sync placeholder: logical size is real, on-disk size is ~0.
    pub fn cloud_placeholder() -> (r: NodeFlags)
        ensures
            r.0 == 32,
    {
        NodeFlags(32)
    }

    pub fn access_denied() -> (r: NodeFlags)
        ensures
            r.0 == 64,
    {
        NodeFlags(64)
    }

    /// Parent record was missing or cyclic at finalize time; reattached
    /// under the synthetic `<unlinked>` node.
    pub fn orphan() -> (r: NodeFlags)
        ensures
            r.0 == 128,
    {
        NodeFlags(128)
    }

    /// The directory flag, as a value.
    pub open spec fn dir_flag() -> NodeFlags {
        NodeFlags(1)
    }

    /// The orphan flag, as a value.
    pub open spec fn orphan_flag() -> NodeFlags {
        NodeFlags(128)
    }

    /// Whether every bit of `other` is set in `self`.
    pub open spec fn has(self, other: NodeFlags) -> bool {
        self.0 & other.0 == other.0
    }

    pub fn empty() -> (r: NodeFlags)
        ensures
            r.0 == 0,
    {
        NodeFlags(0)
    }

    pub fn bits(&self) -> (r: u16)
        ensures
            r == self.0,
    {
        self.0
    }

    pub fn contains(&self, other: NodeFlags) -> (r: bool)
        ensures
            r == self.has(other),
    {
        self.0 & other.0 == other.0
    }

    pub fn union(self, other: NodeFlags) -> (r: NodeFlags)
        ensures
            r.0 == self.0 | other.0,
    {
        NodeFlags(self.0 | other.0)
    }

    pub fn insert(&mut self, other: NodeFlags)
        ensures
            final(self).0 == old(self).0 | other.0,
    {
        self.0 = self.0 | other.0;
    }
}

} // verus!
