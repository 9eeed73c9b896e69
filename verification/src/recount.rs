//! A directory that holds only files is counted afresh as the sum of what
//! the disk says of them now.

use vstd::prelude::*;
use crate::fault::Fault;
use crate::fsview::{DirEntry, Probe};
use crate::laws::is_listed;
use crate::path::{ancestors, lemma_ancestors, lemma_parent_shorter, parent_of};
use crate::policy::{is_ignored, is_script};
use crate::record::NodeRecord;
use crate::walk::{
    action_for, entry_or_zero, entry_step, expanded, leaf_record, walk_run, walk_start,
    walk_step, EntryAction, WalkState,
};

verus! {

/// Whether `entry` is a file that a walk over `cache` measures: not a
/// directory, not ignored, not cached.
pub open spec fn is_fresh_file(cache: Map<Seq<char>, NodeRecord>, entry: DirEntry) -> bool {
    !entry.is_dir && !is_ignored(entry.path@) && !cache.contains_key(entry.path@)
}

/// Whether `entries` are fresh files in `dir`.
pub open spec fn are_fresh_files_of(cache: Map<Seq<char>, NodeRecord>, dir: Seq<char>, entries: Seq<DirEntry>) -> bool {
    forall|i: int|
        0 <= i < entries.len() ==> is_fresh_file(cache, #[trigger] entries[i]) && parent_of(
            entries[i].path@,
        ) == Some(dir)
}

/// The lengths of `entries`, added up.
pub open spec fn total_len(entries: Seq<DirEntry>) -> int
    decreases entries.len(),
{
    if entries.len() == 0 {
        0
    } else {
        total_len(entries.drop_last()) + entries.last().len
    }
}

/// How many of `entries` are scripts.
pub open spec fn total_scripts(entries: Seq<DirEntry>) -> int
    decreases entries.len(),
{
    if entries.len() == 0 {
        0
    } else {
        total_scripts(entries.drop_last()) + if is_script(entries.last().path@) {
            1int
        } else {
            0int
        }
    }
}

/// Dealing with the fresh files of a directory adds their lengths to its
/// size and their scripts to its script count, and puts nothing on the
/// stack.
pub proof fn lemma_files_counted(
    fs: Map<Seq<char>, Probe>,
    cache: Map<Seq<char>, NodeRecord>,
    st: WalkState,
    entries: Seq<DirEntry>,
    dir: Seq<char>,
)
    requires
        are_fresh_files_of(cache, dir, entries),
    ensures
        expanded(fs, cache, st, entries) matches Ok(next) ==> {
            &&& next.stack == st.stack
            &&& next.steps == st.steps
            &&& entry_or_zero(next.map, dir).size == entry_or_zero(st.map, dir).size + total_len(entries)
            &&& entry_or_zero(next.map, dir).script_count == entry_or_zero(st.map, dir).script_count
                + total_scripts(entries)
            &&& entries.len() > 0 ==> next.map.contains_key(dir) && next.map[dir].is_allowed
        },
    decreases entries.len(),
{
    if entries.len() > 0 {
        let front = entries.drop_last();
        let entry = entries.last();
        assert forall|i: int| 0 <= i < front.len() implies is_fresh_file(cache, #[trigger] front[i])
            && parent_of(front[i].path@) == Some(dir) by {
            assert(front[i] == entries[i]);
        }
        lemma_files_counted(fs, cache, st, front, dir);
        match expanded(fs, cache, st, front) {
            Ok(s) => {
                assert(entries[entries.len() - 1] == entry);
                assert(is_fresh_file(cache, entry));
                let record = leaf_record(entry, entry.len);
                assert(action_for(cache, fs, entry) == Ok::<EntryAction, Fault>(EntryAction::Contribute(record)));
                match entry_step(fs, cache, s, entry) {
                    Ok(next) => {
                        lemma_parent_shorter(entry.path@);
                        lemma_ancestors(entry.path@);
                        assert(ancestors(entry.path@)[1] == dir);
                        assert(ancestors(entry.path@).contains(dir));
                        assert(entry_or_zero(s.map, ancestors(entry.path@)[1]).fits(record));
                    },
                    Err(_) => {},
                }
            },
            Err(_) => {},
        }
    }
}

/// A walk that begins at a directory which the cache does not hold, and
/// which holds fresh files only, gives the directory the sum of their
/// lengths as the disk has them now, and the number of scripts among them.
pub proof fn lemma_walk_recounts(
    fs: Map<Seq<char>, Probe>,
    cache: Map<Seq<char>, NodeRecord>,
    order: Seq<Seq<char>>,
    dir: Seq<char>,
)
    requires
        !cache.contains_key(dir),
        is_listed(fs, dir),
        are_fresh_files_of(cache, dir, fs[dir]->Dir_entries->0@),
        fs[dir]->Dir_entries->0@.len() > 0,
    ensures
        walk_run(fs, cache, walk_start(seq![dir], cache, order)).1 is None ==> ({
            let m = walk_run(fs, cache, walk_start(seq![dir], cache, order)).0.map;
            &&& m.contains_key(dir)
            &&& m[dir].is_allowed
            &&& m[dir].size == total_len(fs[dir]->Dir_entries->0@)
            &&& m[dir].script_count == total_scripts(fs[dir]->Dir_entries->0@)
        }),
{
    let st = walk_start(seq![dir], cache, order);
    let rest = WalkState { stack: st.stack.drop_last(), ..st };
    let entries = fs[dir]->Dir_entries->0@;
    assert(st.stack.last() == dir);
    assert(rest.stack.len() == 0);
    lemma_files_counted(fs, cache, rest, entries, dir);
    match walk_step(fs, cache, st) {
        Ok(next) => {
            assert(expanded(fs, cache, rest, entries) == Ok::<WalkState, Fault>(next));
            let after = WalkState { steps: (st.steps - 1) as nat, ..next };
            assert(after.stack.len() == 0);
            assert(walk_run(fs, cache, after) == (after, None::<Fault>));
        },
        Err(_) => {},
    }
}

} // verus!
