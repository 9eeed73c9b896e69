//! The store as its owner sees it, and the refresh that replaces it.

use vstd::prelude::*;
use vstd::std_specs::convert::FromSpecImpl;
use crate::fault::{Fault, WalkError};
use crate::fsview::{DirEntry, FsSnapshot, Probe};
use crate::persist::{dump, dump_text, load, parse_text, rows_map, rows_order, LoadError};
use crate::policy::{is_ignored, treat_as_ignore};
use crate::record::NodeRecord;
use crate::shake::{shake_run, shake_start, tree_shaking, BATCH};
use crate::store::{views, AggregateStore};
use crate::walk::{drives_from, entry_or_zero, get_drives, walk_run, walk_scan, walk_start};

verus! {

/// The aggregates of a machine, and whether a refresh is under way.
pub struct Storage {
    path_map: AggregateStore,
    updating: bool,
}

impl View for Storage {
    type V = Map<Seq<char>, NodeRecord>;

    closed spec fn view(&self) -> Self::V {
        self.path_map@
    }
}

impl Default for Storage {
    /// A storage without records, with no refresh under way.
    fn default() -> (s: Self)
        ensures
            s.wf(),
            s@ == Map::<Seq<char>, NodeRecord>::empty(),
            !s.busy(),
    {
        Storage { path_map: AggregateStore::new(), updating: false }
    }
}

/// What a listing of children holds for one path: its record in `m`, or the
/// zero record.
pub open spec fn child_row(m: Map<Seq<char>, NodeRecord>, path: Seq<char>) -> (Seq<char>, NodeRecord) {
    (path, entry_or_zero(m, path))
}

/// `child_row` over `m` as a function value.
pub open spec fn row_of(m: Map<Seq<char>, NodeRecord>) -> spec_fn(Seq<char>) -> (Seq<char>, NodeRecord) {
    |p: Seq<char>| child_row(m, p)
}

/// The rows of the entries of a listing that are not ignored.
pub open spec fn listed_children(m: Map<Seq<char>, NodeRecord>, entries: Seq<DirEntry>) -> Seq<
    (Seq<char>, NodeRecord),
>
    decreases entries.len(),
{
    if entries.len() == 0 {
        Seq::empty()
    } else {
        let front = listed_children(m, entries.drop_last());
        if is_ignored(entries.last().path@) {
            front
        } else {
            front.push(child_row(m, entries.last().path@))
        }
    }
}

/// What is shown beneath `path`: each entry of its listing that is not
/// ignored, with its record. A path that is no directory, or cannot be
/// listed, shows nothing.
pub open spec fn children_of(
    m: Map<Seq<char>, NodeRecord>,
    fs: Map<Seq<char>, Probe>,
    path: Seq<char>,
) -> Result<Seq<(Seq<char>, NodeRecord)>, Fault> {
    if !fs.contains_key(path) {
        Err(Fault::Unknown(path))
    } else {
        match fs[path] {
            Probe::Dir { entries: Some(es), .. } => Ok(listed_children(m, es@)),
            _ => Ok(Seq::empty()),
        }
    }
}

/// What is shown at the top: each drive with its record.
pub open spec fn roots_of(m: Map<Seq<char>, NodeRecord>, fs: Map<Seq<char>, Probe>) -> Result<
    Seq<(Seq<char>, NodeRecord)>,
    Fault,
> {
    match drives_from(fs, 0) {
        Err(f) => Err(f),
        Ok(roots) => Ok(roots.map_values(row_of(m))),
    }
}

/// The rows of a listing as mathematical values.
pub open spec fn row_views(rows: Seq<(String, NodeRecord)>) -> Seq<(Seq<char>, NodeRecord)> {
    rows.map_values(|row: (String, NodeRecord)| (row.0@, row.1))
}

/// The store after a refresh over `fs`: stale entries leave, then every
/// drive is walked with what is left as the cache.
pub open spec fn refreshed(
    m: Map<Seq<char>, NodeRecord>,
    order: Seq<Seq<char>>,
    fs: Map<Seq<char>, Probe>,
) -> Result<(Map<Seq<char>, NodeRecord>, Seq<Seq<char>>), Fault> {
    let shaken = shake_run(fs, shake_start(m, order, BATCH as nat));
    match shaken.1 {
        Some(f) => Err(f),
        None => match drives_from(fs, 0) {
            Err(f) => Err(f),
            Ok(roots) => {
                let walked = walk_run(fs, shaken.0.map, walk_start(roots, shaken.0.map, shaken.0.order));
                match walked.1 {
                    Some(f) => Err(f),
                    None => Ok((walked.0.map, walked.0.order)),
                }
            },
        },
    }
}

impl Storage {
    /// The keys in the order in which they were first written.
    pub closed spec fn order(&self) -> Seq<Seq<char>> {
        self.path_map.order()
    }

    /// The store inside is well formed.
    pub closed spec fn wf(&self) -> bool {
        self.path_map.wf()
    }

    /// Whether a refresh is under way. The flag tells, it does not lock.
    pub closed spec fn busy(&self) -> bool {
        self.updating
    }

    /// Whether a refresh is under way.
    pub fn is_updating(&self) -> (r: bool)
        ensures
            r == self.busy(),
    {
        self.updating
    }

    /// Says whether a refresh is under way; the records stay.
    pub fn set_updating(&mut self, updating: bool)
        ensures
            final(self).busy() == updating,
            final(self)@ == old(self)@,
            final(self).order() == old(self).order(),
            final(self).wf() == old(self).wf(),
    {
        self.updating = updating;
    }

    /// A storage around `path_map`, with no refresh under way.
    pub fn new(path_map: AggregateStore) -> (s: Self)
        requires
            path_map.wf(),
        ensures
            s.wf(),
            s@ == path_map@,
            s.order() == path_map.order(),
            !s.busy(),
    {
        Storage { path_map, updating: false }
    }

    /// The record of `path`, if there is one.
    pub fn get(&self, path: &str) -> (r: Option<NodeRecord>)
        ensures
            r == self@.get(path@),
    {
        self.path_map.get(path)
    }

    /// How many paths are held.
    pub fn len(&self) -> (n: usize)
        requires
            self.wf(),
        ensures
            n == self@.len(),
            n == self.order().len(),
    {
        self.path_map.len()
    }

    /// The store as text: the rows of its keys in rising order.
    pub fn dump(&self) -> (text: String)
        requires
            self.wf(),
        ensures
            text@ == dump_text(self@),
    {
        self._dump()
    }

    /// The storage that `text` holds; an empty one where there is no text.
    pub fn load(text: Option<&str>) -> (r: Result<Self, LoadError>)
        ensures
            match text {
                None => r matches Ok(s) && s.wf() && s@ == Map::<Seq<char>, NodeRecord>::empty()
                    && !s.busy(),
                Some(t) => match parse_text(t@) {
                    None => r matches Err(e) && e == LoadError::Malformed,
                    Some(rows) => r matches Ok(s) && s.wf() && s@ == rows_map(rows) && s.order()
                        == rows_order(rows) && !s.busy(),
                },
            },
    {
        Storage::_load(text)
    }

    /// What is shown beneath `abs_path`, or the drives where there is none.
    pub fn children(&self, abs_path: Option<&str>, fs: &FsSnapshot) -> (r: Result<
        Vec<(String, NodeRecord)>,
        WalkError,
    >)
        ensures
            match (match abs_path {
                None => roots_of(self@, fs@),
                Some(p) => children_of(self@, fs@, p@),
            }) {
                Ok(rows) => r matches Ok(v) && row_views(v@) == rows,
                Err(f) => r matches Err(e) && e@ == f,
            },
    {
        let mut rows: Vec<(String, NodeRecord)> = Vec::new();
        assert(row_views(rows@) =~= Seq::<(Seq<char>, NodeRecord)>::empty());
        match abs_path {
            None => {
                let drives = match get_drives(fs) {
                    Ok(d) => d,
                    Err(e) => {
                        return Err(e);
                    },
                };
                let mut i: usize = 0;
                while i < drives.len()
                    invariant
                        i <= drives.len(),
                        row_views(rows@) == views(drives@).take(i as int).map_values(
                            row_of(self@),
                        ),
                    decreases drives.len() - i,
                {
                    let record = match self.path_map.get(drives[i].as_str()) {
                        Some(r) => r,
                        None => NodeRecord::default(),
                    };
                    let ghost before = row_views(rows@);
                    rows.push((drives[i].clone(), record));
                    assert(row_views(rows@) =~= before.push(child_row(self@, drives[i as int]@)));
                    assert(row_views(rows@) =~= views(drives@).take(i + 1).map_values(
                        row_of(self@),
                    ));
                    i += 1;
                }
                assert(views(drives@).take(i as int) =~= views(drives@));
                Ok(rows)
            },
            Some(path) => {
                match fs.probe(path) {
                    None => Err(WalkError::Unknown(path.to_owned())),
                    Some(Probe::Dir { entries: Some(es), .. }) => {
                        let mut i: usize = 0;
                        while i < es.len()
                            invariant
                                i <= es.len(),
                                row_views(rows@) == listed_children(self@, es@.take(i as int)),
                            decreases es.len() - i,
                        {
                            let entry = &es[i];
                            proof {
                                assert(es@.take(i + 1).drop_last() =~= es@.take(i as int));
                                assert(es@.take(i + 1).last() == es@[i as int]);
                            }
                            if !treat_as_ignore(entry.path.as_str()) {
                                let record = match self.path_map.get(entry.path.as_str()) {
                                    Some(r) => r,
                                    None => NodeRecord::default(),
                                };
                                let ghost before = row_views(rows@);
                                rows.push((entry.path.clone(), record));
                                assert(row_views(rows@) =~= before.push(
                                    child_row(self@, entry.path@),
                                ));
                            }
                            i += 1;
                        }
                        assert(es@.take(i as int) =~= es@);
                        Ok(rows)
                    },
                    Some(_) => Ok(rows),
                }
            },
        }
    }

    /// Takes over the records of `s`; the flag stays as it is.
    pub fn replace(&mut self, s: Storage)
        requires
            s.wf(),
        ensures
            final(self).wf(),
            final(self)@ == s@,
            final(self).order() == s.order(),
            final(self).busy() == old(self).busy(),
    {
        self.path_map = s.path_map;
    }

    /// Refreshes the store over `fs`. Where the refresh fails the store is
    /// as it was.
    pub fn update(&mut self, fs: &FsSnapshot) -> (r: Result<(), WalkError>)
        requires
            old(self).wf(),
        ensures
            final(self).wf(),
            final(self).busy() == old(self).busy(),
            match refreshed(old(self)@, old(self).order(), fs@) {
                Ok(fresh) => r is Ok && final(self)@ == fresh.0 && final(self).order() == fresh.1,
                Err(f) => r matches Err(e) && e@ == f && final(self)@ == old(self)@ && final(self).order() == old(self).order(),
            },
    {
        let updater = StorageUpdater { path_map: self.path_map.duplicate() };
        match updater.consume(fs) {
            Ok(s) => {
                self.replace(s);
                Ok(())
            },
            Err(e) => Err(e),
        }
    }

    /// An updater over a copy of the records.
    pub fn generater(&self) -> (u: StorageUpdater)
        requires
            self.wf(),
        ensures
            u.wf(),
            u@ == self@,
            u.order() == self.order(),
    {
        StorageUpdater { path_map: self.path_map.duplicate() }
    }
}

/// What can be written as text and read back from it.
pub trait Persist: Sized {
    /// What `_dump` needs.
    spec fn can_dump(&self) -> bool;

    /// The text that `_dump` gives.
    spec fn dumped(&self) -> Seq<char>;

    /// What `text` holds, where it holds a value.
    spec fn loaded(text: Option<Seq<char>>, value: Self) -> bool;

    /// Whether `text` holds a value.
    spec fn can_load(text: Option<Seq<char>>) -> bool;

    /// The value as text.
    fn _dump(&self) -> (text: String)
        requires
            self.can_dump(),
        ensures
            text@ == self.dumped(),
    ;

    /// The value that `text` holds; the empty one where there is no text.
    fn _load(text: Option<&str>) -> (r: Result<Self, LoadError>)
        ensures
            match r {
                Ok(value) => Self::can_load(view_of(text)) && Self::loaded(view_of(text), value),
                Err(_) => !Self::can_load(view_of(text)),
            },
    ;
}

/// The characters of a text that may be missing.
pub open spec fn view_of(text: Option<&str>) -> Option<Seq<char>> {
    match text {
        Some(t) => Some(t@),
        None => None,
    }
}

impl Persist for Storage {
    open spec fn can_dump(&self) -> bool {
        self.wf()
    }

    open spec fn dumped(&self) -> Seq<char> {
        dump_text(self@)
    }

    open spec fn can_load(text: Option<Seq<char>>) -> bool {
        match text {
            None => true,
            Some(t) => parse_text(t) is Some,
        }
    }

    open spec fn loaded(text: Option<Seq<char>>, value: Self) -> bool {
        &&& value.wf()
        &&& !value.busy()
        &&& match text {
            None => value@ == Map::<Seq<char>, NodeRecord>::empty(),
            Some(t) => parse_text(t) matches Some(rows) && value@ == rows_map(rows) && value.order()
                == rows_order(rows),
        }
    }

    fn _dump(&self) -> (text: String) {
        dump(&self.path_map)
    }

    fn _load(text: Option<&str>) -> (r: Result<Self, LoadError>) {
        match text {
            None => Ok(Storage { path_map: AggregateStore::new(), updating: false }),
            Some(t) => match load(t) {
                Ok(path_map) => Ok(Storage { path_map, updating: false }),
                Err(e) => Err(e),
            },
        }
    }
}

/// The records of a storage while they are refreshed, away from their owner.
pub struct StorageUpdater {
    path_map: AggregateStore,
}

impl View for StorageUpdater {
    type V = Map<Seq<char>, NodeRecord>;

    closed spec fn view(&self) -> Self::V {
        self.path_map@
    }
}

impl From<Storage> for StorageUpdater {
    /// Moves the records out of `s`.
    fn from(s: Storage) -> (u: Self)
        ensures
            u@ == s@,
            u.order() == s.order(),
            u.wf() == s.wf(),
    {
        StorageUpdater { path_map: s.path_map }
    }
}

impl FromSpecImpl<Storage> for StorageUpdater {
    open spec fn obeys_from_spec() -> bool {
        true
    }

    closed spec fn from_spec(s: Storage) -> Self {
        StorageUpdater { path_map: s.path_map }
    }
}

impl From<StorageUpdater> for Storage {
    /// A storage around the records of `u`, with no refresh under way.
    fn from(u: StorageUpdater) -> (s: Self)
        ensures
            s@ == u@,
            s.order() == u.order(),
            s.wf() == u.wf(),
            !s.busy(),
    {
        Storage { path_map: u.path_map, updating: false }
    }
}

impl FromSpecImpl<StorageUpdater> for Storage {
    open spec fn obeys_from_spec() -> bool {
        true
    }

    closed spec fn from_spec(u: StorageUpdater) -> Self {
        Storage { path_map: u.path_map, updating: false }
    }
}

impl StorageUpdater {
    /// Hands out the records.
    pub fn into_store(self) -> (m: AggregateStore)
        ensures
            m@ == self@,
            m.order() == self.order(),
            m.wf() == self.wf(),
    {
        self.path_map
    }

    /// The keys in the order in which they were first written.
    pub closed spec fn order(&self) -> Seq<Seq<char>> {
        self.path_map.order()
    }

    /// The store inside is well formed.
    pub closed spec fn wf(&self) -> bool {
        self.path_map.wf()
    }

    /// Runs the refresh over `fs`: stale entries leave, then every drive is
    /// walked with what is left as the cache. The result is a new storage
    /// with no refresh under way.
    pub fn consume(self, fs: &FsSnapshot) -> (r: Result<Storage, WalkError>)
        requires
            self.wf(),
        ensures
            match refreshed(self@, self.order(), fs@) {
                Ok(fresh) => r matches Ok(s) && s.wf() && s@ == fresh.0 && s.order() == fresh.1
                    && !s.busy(),
                Err(f) => r matches Err(e) && e@ == f,
            },
    {
        let mut path_map = self.path_map;
        match tree_shaking(&mut path_map, fs) {
            Ok(()) => {},
            Err(e) => {
                return Err(e);
            },
        }
        match walk_scan(Some(&path_map), fs) {
            Ok(fresh) => Ok(Storage { path_map: fresh, updating: false }),
            Err(e) => Err(e),
        }
    }
}

} // verus!
