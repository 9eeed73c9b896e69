//! What has been seen of the file system: a table from path to probe.
//!
//! The library never touches the disk. Its caller looks at a path, writes
//! down what it found, and the algorithms read this table. Where they need a
//! path that the table lacks they say so and change nothing, so the caller can
//! look and call again.

use vstd::prelude::*;
use vstd::hash_map::StringHashMap;
use crate::path::{parent, parent_of};
use crate::text::same_text;

verus! {

/// One entry of a directory listing, with what `stat` said of it.
#[derive(Debug)]
pub struct DirEntry {
    /// The full path of the entry.
    pub path: String,
    /// Whether the entry is a directory.
    pub is_dir: bool,
    /// Its length in bytes.
    pub len: u64,
    /// Its modification time, in seconds since the epoch.
    pub modified: u64,
}

/// What a look at one path has shown.
#[derive(Debug)]
pub enum Probe {
    /// Nothing is there.
    Missing,
    /// A file.
    File { len: u64, modified: u64 },
    /// A directory; `entries` is `None` where it could not be listed.
    Dir { modified: u64, entries: Option<Vec<DirEntry>> },
}

/// The modification time that `fs` holds for `path`, if it has seen it exist.
pub open spec fn stamp_of(fs: Map<Seq<char>, Probe>, path: Seq<char>) -> Option<u64> {
    if fs.contains_key(path) {
        match fs[path] {
            Probe::Missing => None,
            Probe::File { modified, .. } => Some(modified),
            Probe::Dir { modified, .. } => Some(modified),
        }
    } else {
        None
    }
}

/// Whether the first entry of `entries` that stands for `path` is a
/// directory; `false` where none does.
pub open spec fn listed_as_dir(entries: Seq<DirEntry>, path: Seq<char>) -> bool
    decreases entries.len(),
{
    if entries.len() == 0 {
        false
    } else if entries[0].path@ == path {
        entries[0].is_dir
    } else {
        listed_as_dir(entries.drop_first(), path)
    }
}

/// Whether `fs` has seen `path` as a directory: by a look at the path
/// itself, or else in the listing of its parent.
pub open spec fn seen_as_dir(fs: Map<Seq<char>, Probe>, path: Seq<char>) -> bool {
    if fs.contains_key(path) {
        fs[path] is Dir
    } else {
        match parent_of(path) {
            Some(q) => fs.contains_key(q) && (match fs[q] {
                Probe::Dir { entries: Some(es), .. } => listed_as_dir(es@, path),
                _ => false,
            }),
            None => false,
        }
    }
}

/// Whether the first entry of `entries` that stands for `path` is a
/// directory.
fn listed_dir(entries: &Vec<DirEntry>, path: &str) -> (r: bool)
    ensures
        r == listed_as_dir(entries@, path@),
{
    let mut i: usize = 0;
    assert(entries@.skip(0) =~= entries@);
    while i < entries.len()
        invariant
            i <= entries.len(),
            listed_as_dir(entries@.skip(i as int), path@) == listed_as_dir(entries@, path@),
        decreases entries.len() - i,
    {
        proof {
            assert(entries@.skip(i as int).drop_first() =~= entries@.skip(i + 1));
            assert(entries@.skip(i as int)[0] == entries@[i as int]);
        }
        if same_text(entries[i].path.as_str(), path) {
            return entries[i].is_dir;
        }
        i += 1;
    }
    false
}

/// A table of probes, keyed by path.
pub struct FsSnapshot {
    table: StringHashMap<Probe>,
}

impl View for FsSnapshot {
    type V = Map<Seq<char>, Probe>;

    closed spec fn view(&self) -> Self::V {
        self.table@
    }
}

impl FsSnapshot {
    /// A table that has seen nothing.
    pub fn new() -> (fs: Self)
        ensures
            fs@ == Map::<Seq<char>, Probe>::empty(),
    {
        FsSnapshot { table: StringHashMap::new() }
    }

    /// Writes down what a look at `path` has shown, replacing an older look.
    pub fn record(&mut self, path: String, probe: Probe)
        ensures
            final(self)@ == old(self)@.insert(path@, probe),
    {
        self.table.insert(path, probe);
    }

    /// Whether `path` has been looked at.
    pub fn knows(&self, path: &str) -> (r: bool)
        ensures
            r == self@.contains_key(path@),
    {
        self.table.contains_key(path)
    }

    /// What the look at `path` has shown, if there was one.
    pub fn probe(&self, path: &str) -> (r: Option<&Probe>)
        ensures
            match r {
                Some(p) => self@.contains_key(path@) && *p == self@[path@],
                None => !self@.contains_key(path@),
            },
    {
        self.table.get(path)
    }

    /// Whether `path` has been seen as a directory.
    pub fn is_dir(&self, path: &str) -> (r: bool)
        ensures
            r == seen_as_dir(self@, path@),
    {
        match self.table.get(path) {
            Some(Probe::Dir { .. }) => true,
            Some(_) => false,
            None => {
                let q = match parent(path) {
                    Some(q) => q,
                    None => {
                        return false;
                    },
                };
                match self.table.get(q.as_str()) {
                    Some(Probe::Dir { entries: Some(es), .. }) => listed_dir(es, path),
                    _ => false,
                }
            },
        }
    }

    /// The modification time of `path`, where it has been seen to exist.
    pub fn modified(&self, path: &str) -> (r: Option<u64>)
        ensures
            r == stamp_of(self@, path@),
    {
        match self.table.get(path) {
            Some(Probe::File { modified, .. }) => Some(*modified),
            Some(Probe::Dir { modified, .. }) => Some(*modified),
            Some(Probe::Missing) => None,
            None => None,
        }
    }
}

} // verus!
