//! The aggregate kept for one path.

use vstd::prelude::*;

verus! {

/// What is known of one path: for a file its own size, for a directory the
/// sum over everything beneath it.
#[derive(Clone, Copy, Debug, PartialEq, Eq, Structural)]
pub struct NodeRecord {
    /// Bytes in the file, or in the whole subtree of a directory.
    pub size: u64,
    /// Modification time of the path itself, in seconds since the epoch.
    pub last_modified: u64,
    /// How many script-like files the subtree holds.
    pub script_count: u64,
    /// `false` where the contents of the path could not be listed.
    pub is_allowed: bool,
}

impl Default for NodeRecord {
    /// The record of a path of which nothing has been counted yet.
    fn default() -> (r: Self)
        ensures
            r == NodeRecord::zero(),
    {
        NodeRecord { size: 0, last_modified: 0, script_count: 0, is_allowed: false }
    }
}

impl NodeRecord {
    /// The record of a path of which nothing has been counted yet.
    pub open spec fn zero() -> NodeRecord {
        NodeRecord { size: 0, last_modified: 0, script_count: 0, is_allowed: false }
    }

    /// Whether both sums of `self` and `other` fit in 64 bits.
    pub open spec fn fits(self, other: NodeRecord) -> bool {
        self.size + other.size <= u64::MAX && self.script_count + other.script_count <= u64::MAX
    }

    /// `self` with the size and script count of `other` added.
    pub open spec fn plus(self, other: NodeRecord) -> NodeRecord {
        NodeRecord {
            size: (self.size + other.size) as u64,
            script_count: (self.script_count + other.script_count) as u64,
            ..self
        }
    }

    /// `self` after a contribution has been merged into it: the sums grow,
    /// the stamp becomes `modified`, and the path counts as listable.
    pub open spec fn merged(self, contribution: NodeRecord, modified: u64) -> NodeRecord {
        NodeRecord {
            size: (self.size + contribution.size) as u64,
            last_modified: modified,
            script_count: (self.script_count + contribution.script_count) as u64,
            is_allowed: true,
        }
    }

    /// The record of a path whose contents could not be listed.
    pub open spec fn unreadable(modified: u64) -> NodeRecord {
        NodeRecord { size: 0, last_modified: modified, script_count: 0, is_allowed: false }
    }

    /// A record with the given fields.
    pub fn with(size: u64, last_modified: u64, script_count: u64, is_allowed: bool) -> (r: Self)
        ensures
            r == (NodeRecord { size, last_modified, script_count, is_allowed }),
    {
        NodeRecord { size, last_modified, script_count, is_allowed }
    }

    /// Whether `other` can be added without overflow.
    pub fn can_add(&self, other: &NodeRecord) -> (r: bool)
        ensures
            r == self.fits(*other),
    {
        other.size <= u64::MAX - self.size && other.script_count <= u64::MAX - self.script_count
    }

    /// Adds the size and the script count of `other`; stamp and flag stay.
    pub fn add_assign(&mut self, other: NodeRecord)
        requires
            old(self).fits(other),
        ensures
            *final(self) == old(self).plus(other),
    {
        self.size = self.size + other.size;
        self.script_count = self.script_count + other.script_count;
    }
}

} // verus!
