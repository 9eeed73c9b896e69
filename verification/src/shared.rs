//! The aggregates in a sharded map, as the workers of a concurrent walk fill
//! them. The functions here take the map by unique reference: what they
//! promise holds while no other thread writes to it.

use vstd::prelude::*;
use crate::fault::{Fault, WalkError};
use crate::fsview::{DirEntry, FsSnapshot, Probe};
use crate::path::{ancestors, parent};
use crate::record::NodeRecord;
use crate::store::{views, AggregateStore};
use crate::walk::{
    above_fault, accumulate_fault, accumulated, accumulated_above, chain_fault, chain_of,
    chain_stamp, check_listing, entry_action,
    entry_or_zero, entry_step, expanded, lemma_expanded_prefix, lemma_listing_fault_all,
    lemma_written_all, lemma_written_none, lemma_written_step, listing_fault, walk_step,
    written_upto, EntryAction, WalkState,
};

verus! {

/// `dashmap::DashMap`, taken as a value of which nothing but `held` is known.
#[verifier::external_type_specification]
#[verifier::external_body]
#[verifier::reject_recursive_types(K)]
#[verifier::reject_recursive_types(V)]
#[verifier::reject_recursive_types(S)]
pub struct ExDashMap<K, V, S>(dashmap::DashMap<K, V, S>);

/// The sharded map of aggregates.
pub type RowLockStorage = dashmap::DashMap<String, NodeRecord>;

/// What a sharded map holds.
pub uninterp spec fn held(map: dashmap::DashMap<String, NodeRecord>) -> Map<Seq<char>, NodeRecord>;

/// `DashMap::insert`: the map afterwards holds `value` at `key` and is
/// otherwise as before.
#[verifier::external_body]
fn shared_insert(map: &mut RowLockStorage, key: String, value: NodeRecord)
    ensures
        held(*final(map)) == held(*old(map)).insert(key@, value),
{
    map.insert(key, value);
}

/// `DashMap::get`: the value that the map holds at `key`, if it holds one.
#[verifier::external_body]
fn shared_get(map: &RowLockStorage, key: &str) -> (r: Option<NodeRecord>)
    ensures
        r == held(*map).get(key@),
{
    match map.get(key) {
        Some(found) => Some(*found.value()),
        None => None,
    }
}

/// `DashMap::into_iter`: every key of the map once, with its value, in no
/// order that could be named.
#[verifier::external_body]
fn shared_entries(map: RowLockStorage) -> (entries: Vec<(String, NodeRecord)>)
    ensures
        forall|i: int, j: int|
            0 <= i < j < entries.len() ==> (#[trigger] entries[i]).0@ != (#[trigger] entries[j]).0@,
        forall|i: int|
            0 <= i < entries.len() ==> held(map).contains_key((#[trigger] entries[i]).0@) && held(
                map,
            )[entries[i].0@] == entries[i].1,
        forall|k: Seq<char>| #[trigger]
            held(map).contains_key(k) ==> exists|i: int|
                0 <= i < entries.len() && (#[trigger] entries[i]).0@ == k,
{
    map.into_iter().collect()
}

/// The state of a walk that goes by the map alone: it keeps no order of keys
/// and counts no steps.
pub open spec fn alone(map: Map<Seq<char>, NodeRecord>, stack: Seq<Seq<char>>) -> WalkState {
    WalkState { stack, map, order: Seq::empty(), steps: 0 }
}

/// What the workers of a concurrent walk do to the sharded map.
pub struct _RowLockStorageHelper;

impl _RowLockStorageHelper {
    /// Copies every entry of `cache` into the map, over what is there.
    pub fn load_cache(map: &mut RowLockStorage, cache: &AggregateStore)
        requires
            cache.wf(),
        ensures
            held(*final(map)) == held(*old(map)).union_prefer_right(cache@),
    {
        let n = cache.len();
        let ghost m0 = held(*map);
        let mut i: usize = 0;
        while i < n
            invariant
                n == cache.order().len(),
                i <= n,
                cache.wf(),
                forall|k: Seq<char>| #[trigger]
                    held(*map).contains_key(k) <==> m0.contains_key(k) || cache.order().take(
                        i as int,
                    ).contains(k),
                forall|k: Seq<char>|
                    cache.order().take(i as int).contains(k) ==> #[trigger] held(*map)[k] == cache@[k],
                forall|k: Seq<char>|
                    !cache.order().take(i as int).contains(k) ==> #[trigger] held(*map)[k] == m0[k],
            decreases n - i,
        {
            let key = cache.key(i);
            let ghost seen = cache.order().take(i as int);
            let ghost next = cache.order().take(i + 1);
            proof {
                cache.lemma_wf();
                assert(cache.order().contains(key@));
                assert forall|k: Seq<char>| next.contains(k) <==> seen.contains(k) || k == key@ by {
                    if seen.contains(k) {
                        let j = choose|j: int| 0 <= j < seen.len() && seen[j] == k;
                        assert(next[j] == k);
                    }
                    if next.contains(k) {
                        let j = choose|j: int| 0 <= j < next.len() && next[j] == k;
                        if j < i {
                            assert(seen[j] == k);
                        }
                    }
                    assert(next[i as int] == key@);
                }
            }
            let value = match cache.get(key.as_str()) {
                Some(v) => v,
                None => NodeRecord::default(),
            };
            let ghost before = held(*map);
            shared_insert(map, key.clone(), value);
            i += 1;
            proof {
                assert(cache.order().take(i as int) == next);
                assert forall|k: Seq<char>| #[trigger]
                    held(*map).contains_key(k) <==> m0.contains_key(k) || next.contains(k) by {
                    if k != key@ {
                        assert(held(*map).contains_key(k) == before.contains_key(k));
                    }
                }
                assert forall|k: Seq<char>| next.contains(k) implies #[trigger] held(*map)[k]
                    == cache@[k] by {
                    if k != key@ {
                        assert(seen.contains(k));
                        assert(before[k] == cache@[k]);
                    }
                }
                assert forall|k: Seq<char>| !next.contains(k) implies #[trigger] held(*map)[k]
                    == m0[k] by {
                    assert(!seen.contains(k));
                    assert(before[k] == m0[k]);
                }
            }
        }
        proof {
            assert(cache.order().take(n as int) =~= cache.order());
            cache.lemma_wf();
            assert(held(*map) =~= m0.union_prefer_right(cache@));
        }
    }

    /// Merges `adder` into the record of `path` and of every ancestor of
    /// `path`, as `_Storage::accumulate` does.
    pub fn accumulate(
        map: &mut RowLockStorage,
        path: &str,
        adder: &NodeRecord,
        modified: u64,
        fs: &FsSnapshot,
    ) -> (r: Result<(), WalkError>)
        ensures
            match accumulate_fault(held(*old(map)), path@, *adder, fs@) {
                None => r is Ok && held(*final(map)) == accumulated(
                    held(*old(map)),
                    path@,
                    *adder,
                    modified,
                    fs@,
                ),
                Some(f) => r matches Err(e) && e@ == f && held(*final(map)) == held(*old(map)),
            },
    {
        let ghost anc = ancestors(path@);
        let ghost m0 = held(*map);
        let (chain, stamps) = match chain_of(path, modified, fs) {
            Ok(found) => found,
            Err(e) => {
                return Err(e);
            },
        };
        let mut merged: Vec<NodeRecord> = Vec::new();
        let mut i: usize = 0;
        while i < chain.len()
            invariant
                i <= chain.len(),
                merged.len() == i,
                held(*map) == m0,
                m0 == held(*old(map)),
                chain_fault(fs@, path@) is None,
                views(chain@) == ancestors(path@),
                chain.len() == stamps.len(),
                forall|j: int|
                    0 <= j < i ==> entry_or_zero(m0, #[trigger] ancestors(path@)[j]).fits(*adder)
                        && merged[j] == entry_or_zero(m0, ancestors(path@)[j]).merged(
                        *adder,
                        stamps[j],
                    ),
            decreases chain.len() - i,
        {
            assert(views(chain@)[i as int] == chain[i as int]@);
            let have = match shared_get(map, chain[i].as_str()) {
                Some(v) => v,
                None => NodeRecord::default(),
            };
            if !have.can_add(adder) {
                assert(!entry_or_zero(m0, ancestors(path@)[i as int]).fits(*adder));
                return Err(WalkError::Overflow);
            }
            merged.push(
                NodeRecord::with(
                    have.size + adder.size,
                    stamps[i],
                    have.script_count + adder.script_count,
                    true,
                ),
            );
            i += 1;
        }
        let mut i: usize = 0;
        proof {
            lemma_written_none(m0, path@, *adder, modified, fs@);
        }
        while i < chain.len()
            invariant
                i <= chain.len(),
                anc == ancestors(path@),
                views(chain@) == anc,
                chain.len() == stamps.len(),
                chain.len() == merged.len(),
                forall|j: int|
                    0 <= j < chain.len() ==> stamps[j] == chain_stamp(
                        fs@,
                        path@,
                        modified,
                        #[trigger] anc[j],
                    ),
                forall|j: int|
                    0 <= j < chain.len() ==> merged[j] == entry_or_zero(m0, #[trigger] anc[j]).merged(
                        *adder,
                        stamps[j],
                    ),
                written_upto(m0, held(*map), path@, i as int, *adder, modified, fs@),
            decreases chain.len() - i,
        {
            proof {
                assert(views(chain@)[i as int] == chain[i as int]@);
                lemma_written_step(m0, held(*map), path@, i as int, *adder, modified, fs@);
            }
            shared_insert(map, chain[i].clone(), merged[i]);
            i += 1;
        }
        proof {
            lemma_written_all(m0, held(*map), path@, *adder, modified, fs@);
        }
        Ok(())
    }

    /// Deals with each entry of a listing in turn and returns the
    /// directories that are to be entered.
    fn expand(map: &mut RowLockStorage, cache: &AggregateStore, fs: &FsSnapshot, entries: &Vec<DirEntry>) -> (r:
        Result<Vec<String>, WalkError>)
        requires
            listing_fault(fs@, cache@, entries@) is None,
        ensures
            match expanded(fs@, cache@, alone(held(*old(map)), Seq::empty()), entries@) {
                Ok(next) => r matches Ok(dirs) && held(*final(map)) == next.map && views(dirs@)
                    == next.stack,
                Err(f) => r matches Err(e) && e@ == f && f == Fault::Overflow,
            },
    {
        let ghost start = alone(held(*map), Seq::empty());
        let ghost mut cur = start;
        let mut dirs: Vec<String> = Vec::new();
        let mut i: usize = 0;
        assert(views(dirs@) =~= Seq::<Seq<char>>::empty());
        while i < entries.len()
            invariant
                i <= entries.len(),
                start == alone(held(*old(map)), Seq::empty()),
                listing_fault(fs@, cache@, entries@) is None,
                expanded(fs@, cache@, start, entries@.take(i as int)) == Ok::<WalkState, Fault>(cur),
                cur.map == held(*map),
                cur.stack == views(dirs@),
            decreases entries.len() - i,
        {
            let entry = &entries[i];
            let ghost before = cur;
            proof {
                assert(entries@.take(i + 1).drop_last() =~= entries@.take(i as int));
                assert(entries@.take(i + 1).last() == entries@[i as int]);
                lemma_listing_fault_all(fs@, cache@, entries@, i as int);
            }
            let action = match entry_action(cache, fs, entry) {
                Ok(action) => action,
                Err(e) => {
                    return Err(e);
                },
            };
            let outcome = match action {
                EntryAction::Skip => Ok(()),
                EntryAction::Descend => {
                    let ghost seen = views(dirs@);
                    dirs.push(entry.path.clone());
                    assert(views(dirs@) =~= seen.push(entry.path@));
                    Ok(())
                },
                EntryAction::Contribute(record) => _RowLockStorageHelper::accumulate(
                    map,
                    entry.path.as_str(),
                    &record,
                    entry.modified,
                    fs,
                ),
                EntryAction::Reuse(record) => _RowLockStorageHelper::accumulate_above(
                    map,
                    entry.path.as_str(),
                    &record,
                    fs,
                ),
            };
            match outcome {
                Ok(()) => {
                    proof {
                        assert(entry_step(fs@, cache@, before, entries@[i as int]) is Ok);
                        cur = entry_step(fs@, cache@, before, entries@[i as int])->Ok_0;
                    }
                },
                Err(e) => {
                    proof {
                        assert(entry_step(fs@, cache@, before, entries@[i as int]) == Err::<
                            WalkState,
                            Fault,
                        >(Fault::Overflow));
                        lemma_expanded_prefix(fs@, cache@, start, entries@, i + 1);
                    }
                    return Err(e);
                },
            }
            i += 1;
        }
        assert(entries@.take(i as int) =~= entries@);
        Ok(dirs)
    }

    /// Does with `path` what one step of a walk does with the path on top of
    /// its stack, and returns the directories that are to be entered. Where
    /// the step fails for another reason than an overflow, the map is as it
    /// was.
    pub fn step(map: &mut RowLockStorage, cache: &AggregateStore, fs: &FsSnapshot, path: &str) -> (r:
        Result<Vec<String>, WalkError>)
        ensures
            match walk_step(fs@, cache@, alone(held(*old(map)), seq![path@])) {
                Ok(next) => r matches Ok(dirs) && held(*final(map)) == next.map && views(dirs@)
                    == next.stack,
                Err(f) => r matches Err(e) && e@ == f && (f != Fault::Overflow ==> held(*final(map))
                    == held(*old(map))),
            },
    {
        let ghost st = alone(held(*map), seq![path@]);
        let none: Vec<String> = Vec::new();
        proof {
            assert(st.stack.last() == path@);
            assert(st.stack.drop_last() =~= Seq::<Seq<char>>::empty());
            assert(views(none@) =~= Seq::<Seq<char>>::empty());
        }
        match cache.get(path) {
            Some(record) => {
                return match _RowLockStorageHelper::accumulate_above(map, path, &record, fs) {
                    Ok(()) => Ok(none),
                    Err(e) => Err(e),
                };
            },
            None => {},
        }
        let probe = match fs.probe(path) {
            None => {
                return Err(WalkError::Unknown(path.to_owned()));
            },
            Some(p) => p,
        };
        match probe {
            Probe::Missing => Ok(none),
            Probe::File { modified, .. } => {
                _RowLockStorageHelper::not_allowed(map, path, *modified);
                Ok(none)
            },
            Probe::Dir { modified, entries } => {
                match entries {
                    None => {
                        _RowLockStorageHelper::not_allowed(map, path, *modified);
                        Ok(none)
                    },
                    Some(es) => {
                        match check_listing(cache, fs, es) {
                            Ok(()) => {},
                            Err(e) => {
                                return Err(e);
                            },
                        }
                        _RowLockStorageHelper::expand(map, cache, fs, es)
                    },
                }
            },
        }
    }

    /// Merges `adder` into the record of every proper ancestor of `path`, as
    /// `_Storage::accumulate_above` does.
    pub fn accumulate_above(map: &mut RowLockStorage, path: &str, adder: &NodeRecord, fs: &FsSnapshot) -> (r:
        Result<(), WalkError>)
        ensures
            match above_fault(held(*old(map)), path@, *adder, fs@) {
                None => r is Ok && held(*final(map)) == accumulated_above(
                    held(*old(map)),
                    path@,
                    *adder,
                    fs@,
                ),
                Some(f) => r matches Err(e) && e@ == f && held(*final(map)) == held(*old(map)),
            },
    {
        let above = match parent(path) {
            Some(q) => q,
            None => {
                return Ok(());
            },
        };
        match fs.probe(above.as_str()) {
            None => Err(WalkError::Unknown(above)),
            Some(Probe::Missing) => Err(WalkError::Vanished(above)),
            Some(Probe::File { modified, .. }) => _RowLockStorageHelper::accumulate(
                map,
                above.as_str(),
                adder,
                *modified,
                fs,
            ),
            Some(Probe::Dir { modified, .. }) => _RowLockStorageHelper::accumulate(
                map,
                above.as_str(),
                adder,
                *modified,
                fs,
            ),
        }
    }

    /// Marks `path` as a directory that could not be listed. No other entry
    /// changes.
    pub fn not_allowed(map: &mut RowLockStorage, path: &str, modified: u64)
        ensures
            held(*final(map)) == held(*old(map)).insert(path@, NodeRecord::unreadable(modified)),
    {
        shared_insert(map, path.to_owned(), NodeRecord::with(0, modified, 0, false));
    }

    /// The store that holds what the map held.
    pub fn turn(map: RowLockStorage) -> (store: AggregateStore)
        ensures
            store.wf(),
            store@ == held(map),
    {
        let entries = shared_entries(map);
        let mut store = AggregateStore::new();
        let mut i: usize = 0;
        while i < entries.len()
            invariant
                i <= entries.len(),
                store.wf(),
                forall|a: int, b: int|
                    0 <= a < b < entries.len() ==> (#[trigger] entries[a]).0@ != (
                    #[trigger] entries[b]).0@,
                forall|k: Seq<char>| #[trigger]
                    store@.contains_key(k) <==> exists|j: int|
                        0 <= j < i && (#[trigger] entries[j]).0@ == k,
                forall|j: int|
                    0 <= j < i ==> store@[(#[trigger] entries[j]).0@] == entries[j].1,
            decreases entries.len() - i,
        {
            let ghost before = store@;
            store.insert(entries[i].0.clone(), entries[i].1);
            proof {
                assert forall|k: Seq<char>| #[trigger]
                    store@.contains_key(k) <==> exists|j: int|
                        0 <= j < i + 1 && (#[trigger] entries[j]).0@ == k by {
                    if before.contains_key(k) {
                        let j = choose|j: int| 0 <= j < i && (#[trigger] entries[j]).0@ == k;
                        assert(0 <= j < i + 1 && entries[j].0@ == k);
                    }
                    if k == entries[i as int].0@ {
                        assert(0 <= i < i + 1 && entries[i as int].0@ == k);
                    }
                }
                assert forall|j: int| 0 <= j < i + 1 implies store@[(#[trigger] entries[j]).0@]
                    == entries[j].1 by {
                    if j < i {
                        assert(entries[j].0@ != entries[i as int].0@);
                    }
                }
            }
            i += 1;
        }
        proof {
            assert forall|k: Seq<char>| store@.contains_key(k) <==> held(map).contains_key(k) by {
                if store@.contains_key(k) {
                    let j = choose|j: int| 0 <= j < i && (#[trigger] entries[j]).0@ == k;
                    assert(held(map).contains_key(entries[j].0@));
                }
            }
            assert(store@ =~= held(map));
        }
        store
    }
}

} // verus!
