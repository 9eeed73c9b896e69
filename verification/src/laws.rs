//! What holds of every walk.

use vstd::prelude::*;
use crate::fault::Fault;
use crate::fsview::{DirEntry, Probe};
use crate::path::{ancestors, lemma_ancestors, lemma_parent_shorter, parent_of};
use crate::policy::{is_ignored, is_opaque_leaf};
use crate::record::NodeRecord;
use crate::walk::{
    accumulate_into, accumulated, action_for, chain_fits, entry_or_zero, entry_step, expanded,
    leaf_record, leaf_size, reuse_into, stamp_or_zero, unreadable_at, walk_run, walk_step,
    EntryAction, WalkState,
};

verus! {

/// The ancestors of an ancestor of `p` are the ancestors of `p` from there on.
pub proof fn lemma_ancestors_from(p: Seq<char>, i: int)
    requires
        0 <= i < ancestors(p).len(),
    ensures
        ancestors(ancestors(p)[i]) == ancestors(p).skip(i),
    decreases i,
{
    lemma_ancestors(p);
    if i == 0 {
        assert(ancestors(p).skip(0) =~= ancestors(p));
    } else {
        lemma_parent_shorter(p);
        let q = parent_of(p)->0;
        assert(ancestors(p) =~= seq![p] + ancestors(q));
        assert(ancestors(p)[i] == ancestors(q)[i - 1]);
        lemma_ancestors_from(q, i - 1);
        assert(ancestors(q).skip(i - 1) =~= ancestors(p).skip(i));
    }
}

/// Neither `path` nor a directory above it is ignored.
pub open spec fn is_clean(path: Seq<char>) -> bool {
    forall|i: int| 0 <= i < ancestors(path).len() ==> !is_ignored(#[trigger] ancestors(path)[i])
}

/// Every key of `m` is clean.
pub open spec fn has_clean_keys(m: Map<Seq<char>, NodeRecord>) -> bool {
    forall|k: Seq<char>| #[trigger] m.contains_key(k) ==> is_clean(k)
}

/// Every key of the store and every path on the stack is clean.
pub open spec fn is_clean_state(st: WalkState) -> bool {
    &&& has_clean_keys(st.map)
    &&& forall|i: int| 0 <= i < st.stack.len() ==> is_clean(#[trigger] st.stack[i])
}

/// Every listing in `fs` holds children of the directory it belongs to.
pub open spec fn lists_children(fs: Map<Seq<char>, Probe>) -> bool {
    forall|dir: Seq<char>, i: int|
        #![trigger fs[dir], fs[dir]->Dir_entries->0@[i]]
        fs.contains_key(dir) && fs[dir] is Dir && fs[dir]->Dir_entries is Some && 0 <= i
            < fs[dir]->Dir_entries->0@.len() ==> parent_of(fs[dir]->Dir_entries->0@[i].path@) == Some(
            dir,
        )
}

/// Every ancestor of a clean path is clean.
pub proof fn lemma_clean_above(path: Seq<char>, i: int)
    requires
        is_clean(path),
        0 <= i < ancestors(path).len(),
    ensures
        is_clean(ancestors(path)[i]),
{
    lemma_ancestors_from(path, i);
    let above = ancestors(ancestors(path)[i]);
    assert forall|j: int| 0 <= j < above.len() implies !is_ignored(#[trigger] above[j]) by {
        assert(above[j] == ancestors(path)[i + j]);
    }
}

/// A child of a clean directory that is not ignored is clean.
pub proof fn lemma_clean_child(dir: Seq<char>, child: Seq<char>)
    requires
        is_clean(dir),
        parent_of(child) == Some(dir),
        !is_ignored(child),
    ensures
        is_clean(child),
{
    lemma_parent_shorter(child);
    let up = ancestors(child);
    assert(up =~= seq![child] + ancestors(dir));
    assert forall|j: int| 0 <= j < up.len() implies !is_ignored(#[trigger] up[j]) by {
        if j > 0 {
            assert(up[j] == ancestors(dir)[j - 1]);
        }
    }
}

/// Accumulating from a clean path keeps the keys clean.
pub proof fn lemma_accumulate_clean(
    fs: Map<Seq<char>, Probe>,
    st: WalkState,
    path: Seq<char>,
    contribution: NodeRecord,
    own: u64,
)
    requires
        is_clean_state(st),
        is_clean(path),
    ensures
        accumulate_into(fs, st, path, contribution, own) matches Ok(next) ==> is_clean_state(next),
{
    match accumulate_into(fs, st, path, contribution, own) {
        Ok(next) => {
            assert forall|k: Seq<char>| #[trigger] next.map.contains_key(k) implies is_clean(k) by {
                if !st.map.contains_key(k) {
                    let i = choose|i: int| 0 <= i < ancestors(path).len() && ancestors(path)[i] == k;
                    lemma_clean_above(path, i);
                }
            }
        },
        Err(_) => {},
    }
}

/// Counting a record into the directories above a clean path keeps the keys
/// clean.
pub proof fn lemma_reuse_clean(
    fs: Map<Seq<char>, Probe>,
    st: WalkState,
    path: Seq<char>,
    contribution: NodeRecord,
)
    requires
        is_clean_state(st),
        is_clean(path),
    ensures
        reuse_into(fs, st, path, contribution) matches Ok(next) ==> is_clean_state(next),
{
    lemma_ancestors(path);
    match reuse_into(fs, st, path, contribution) {
        Ok(next) => {
            match parent_of(path) {
                None => {},
                Some(q) => {
                    lemma_clean_above(path, 1);
                    assert forall|k: Seq<char>| #[trigger] next.map.contains_key(k) implies is_clean(
                        k,
                    ) by {
                        if !st.map.contains_key(k) {
                            let i = choose|i: int| 0 <= i < ancestors(q).len() && ancestors(q)[i] == k;
                            lemma_clean_above(q, i);
                        }
                    }
                },
            }
        },
        Err(_) => {},
    }
}

/// Dealing with the entries of a clean directory keeps the state clean.
pub proof fn lemma_expanded_clean(
    fs: Map<Seq<char>, Probe>,
    cache: Map<Seq<char>, NodeRecord>,
    st: WalkState,
    entries: Seq<DirEntry>,
    dir: Seq<char>,
)
    requires
        is_clean_state(st),
        is_clean(dir),
        forall|i: int| 0 <= i < entries.len() ==> parent_of((#[trigger] entries[i]).path@) == Some(dir),
    ensures
        expanded(fs, cache, st, entries) matches Ok(next) ==> is_clean_state(next),
    decreases entries.len(),
{
    if entries.len() > 0 {
        let front = entries.drop_last();
        let entry = entries.last();
        assert forall|i: int| 0 <= i < front.len() implies parent_of((#[trigger] front[i]).path@)
            == Some(dir) by {
            assert(front[i] == entries[i]);
        }
        lemma_expanded_clean(fs, cache, st, front, dir);
        match expanded(fs, cache, st, front) {
            Ok(s) => {
                assert(entries[entries.len() - 1] == entry);
                if !is_ignored(entry.path@) {
                    lemma_clean_child(dir, entry.path@);
                    match action_for(cache, fs, entry) {
                        Ok(EntryAction::Contribute(record)) => {
                            lemma_accumulate_clean(fs, s, entry.path@, record, entry.modified);
                        },
                        Ok(EntryAction::Reuse(record)) => {
                            lemma_reuse_clean(fs, s, entry.path@, record);
                        },
                        _ => {},
                    }
                    match entry_step(fs, cache, s, entry) {
                        Ok(next) => {
                            assert forall|i: int| 0 <= i < next.stack.len() implies is_clean(
                                #[trigger] next.stack[i],
                            ) by {
                                if i < s.stack.len() {
                                    assert(next.stack[i] == s.stack[i]);
                                }
                            }
                        },
                        Err(_) => {},
                    }
                }
            },
            Err(_) => {},
        }
    }
}

/// A step keeps the state clean, where listings hold children only.
pub proof fn lemma_step_clean(
    fs: Map<Seq<char>, Probe>,
    cache: Map<Seq<char>, NodeRecord>,
    st: WalkState,
)
    requires
        st.stack.len() > 0,
        is_clean_state(st),
        lists_children(fs),
    ensures
        walk_step(fs, cache, st) matches Ok(next) ==> is_clean_state(next),
{
    let path = st.stack.last();
    let rest = WalkState { stack: st.stack.drop_last(), ..st };
    assert(is_clean(st.stack[st.stack.len() - 1]));
    assert forall|i: int| 0 <= i < rest.stack.len() implies is_clean(#[trigger] rest.stack[i]) by {
        assert(rest.stack[i] == st.stack[i]);
    }
    lemma_reuse_clean(fs, rest, path, cache[path]);
    if !cache.contains_key(path) && fs.contains_key(path) {
        match fs[path] {
            Probe::Missing => {},
            Probe::File { modified, .. } => {},
            Probe::Dir { modified, entries } => {
                match entries {
                    None => {},
                    Some(es) => {
                        assert forall|i: int| 0 <= i < es@.len() implies parent_of(
                            (#[trigger] es@[i]).path@,
                        ) == Some(path) by {
                            assert(fs[path]->Dir_entries->0@[i] == es@[i]);
                        }
                        lemma_expanded_clean(fs, cache, rest, es@, path);
                    },
                }
            },
        }
    }
}

/// No ignored path, and no path beneath one, comes into the store: a walk
/// that starts clean ends clean, where listings hold children only.
pub proof fn lemma_walk_ignores(
    fs: Map<Seq<char>, Probe>,
    cache: Map<Seq<char>, NodeRecord>,
    st: WalkState,
)
    requires
        is_clean_state(st),
        lists_children(fs),
    ensures
        is_clean_state(walk_run(fs, cache, st).0),
    decreases st.steps,
{
    if st.stack.len() > 0 && st.steps > 0 {
        lemma_step_clean(fs, cache, st);
        match walk_step(fs, cache, st) {
            Ok(next) => {
                lemma_walk_ignores(fs, cache, WalkState { steps: (st.steps - 1) as nat, ..next });
            },
            Err(_) => {},
        }
    }
}

/// Whether `r` counts anything.
pub open spec fn counts(r: NodeRecord) -> bool {
    r.size > 0 || r.script_count > 0
}

/// Whether `a` is at least `b`, in size and in script count.
pub open spec fn at_least(a: NodeRecord, b: NodeRecord) -> bool {
    a.size >= b.size && a.script_count >= b.script_count
}

/// Every key that counts something has its parent beside it, and the parent
/// is at least as big, in size and in script count.
pub open spec fn is_nested(m: Map<Seq<char>, NodeRecord>) -> bool {
    forall|k: Seq<char>| #[trigger]
        m.contains_key(k) ==> (parent_of(k) matches Some(q) ==> !counts(m[k]) || (m.contains_key(q)
            && at_least(m[q], m[k])))
}

/// In a nested store the record of a parent is at least that of its child,
/// wherever both are there.
pub proof fn lemma_nested_pair(m: Map<Seq<char>, NodeRecord>, child: Seq<char>, above: Seq<char>)
    requires
        is_nested(m),
        m.contains_key(child),
        m.contains_key(above),
        parent_of(child) == Some(above),
    ensures
        m[above].size >= m[child].size,
        m[above].script_count >= m[child].script_count,
{
}

/// Accumulation keeps a store nested.
pub proof fn lemma_accumulate_nested(
    m: Map<Seq<char>, NodeRecord>,
    path: Seq<char>,
    contribution: NodeRecord,
    own: u64,
    fs: Map<Seq<char>, Probe>,
)
    requires
        is_nested(m),
        chain_fits(m, path, contribution),
    ensures
        is_nested(accumulated(m, path, contribution, own, fs)),
{
    let after = accumulated(m, path, contribution, own, fs);
    let up = ancestors(path);
    lemma_ancestors(path);
    assert forall|k: Seq<char>| #[trigger] after.contains_key(k) implies (parent_of(k) matches Some(
        q,
    ) ==> !counts(after[k]) || (after.contains_key(q) && at_least(after[q], after[k]))) by {
        match parent_of(k) {
            None => {},
            Some(q) => {
                if up.contains(k) {
                    let i = choose|i: int| 0 <= i < up.len() && up[i] == k;
                    assert(i < up.len() - 1);
                    assert(up[i + 1] == q);
                    assert(up.contains(q));
                    assert(entry_or_zero(m, up[i]).fits(contribution));
                    assert(entry_or_zero(m, up[i + 1]).fits(contribution));
                    if m.contains_key(k) && counts(m[k]) {
                        assert(m.contains_key(q) && at_least(m[q], m[k]));
                    }
                } else {
                    assert(m.contains_key(k));
                    if counts(m[k]) {
                        assert(m.contains_key(q) && at_least(m[q], m[k]));
                        if up.contains(q) {
                            let i = choose|i: int| 0 <= i < up.len() && up[i] == q;
                            assert(entry_or_zero(m, up[i]).fits(contribution));
                        }
                    }
                }
            },
        }
    }
}

/// Whether `fs` has listed the directory `path`.
pub open spec fn is_listed(fs: Map<Seq<char>, Probe>, path: Seq<char>) -> bool {
    fs.contains_key(path) && fs[path] is Dir && fs[path]->Dir_entries is Some
}

/// Whether `fs` has listed every directory above `path`.
pub open spec fn is_anchored(fs: Map<Seq<char>, Probe>, path: Seq<char>) -> bool {
    forall|i: int| 1 <= i < ancestors(path).len() ==> is_listed(fs, #[trigger] ancestors(path)[i])
}

/// Whether the cache holds, with every path, the parent of that path.
pub open spec fn is_closed(cache: Map<Seq<char>, NodeRecord>) -> bool {
    forall|k: Seq<char>| #[trigger]
        cache.contains_key(k) ==> (parent_of(k) matches Some(q) ==> cache.contains_key(q))
}

/// What holds of a walk between two steps: the store is nested; every key
/// that did not come from the cache lies in a directory that `fs` has
/// listed; and every path on the stack lies beneath listed directories only.
pub open spec fn is_orderly(fs: Map<Seq<char>, Probe>, cache: Map<Seq<char>, NodeRecord>, st: WalkState) -> bool {
    &&& is_nested(st.map)
    &&& forall|k: Seq<char>| #[trigger]
        st.map.contains_key(k) && !cache.contains_key(k) ==> (parent_of(k) matches Some(q)
            ==> is_listed(fs, q))
    &&& forall|i: int| 0 <= i < st.stack.len() ==> is_anchored(fs, #[trigger] st.stack[i])
}

/// The directories above an ancestor of an anchored path are listed.
pub proof fn lemma_anchored_above(fs: Map<Seq<char>, Probe>, path: Seq<char>, i: int)
    requires
        is_anchored(fs, path),
        0 <= i < ancestors(path).len(),
    ensures
        is_anchored(fs, ancestors(path)[i]),
        i > 0 ==> is_listed(fs, ancestors(path)[i]),
{
    lemma_ancestors_from(path, i);
    let above = ancestors(ancestors(path)[i]);
    assert forall|j: int| 1 <= j < above.len() implies is_listed(fs, #[trigger] above[j]) by {
        assert(above[j] == ancestors(path)[i + j]);
    }
}

/// A child of a listed, anchored directory is anchored.
pub proof fn lemma_anchored_child(fs: Map<Seq<char>, Probe>, dir: Seq<char>, child: Seq<char>)
    requires
        is_anchored(fs, dir),
        is_listed(fs, dir),
        parent_of(child) == Some(dir),
    ensures
        is_anchored(fs, child),
{
    lemma_parent_shorter(child);
    let up = ancestors(child);
    assert(up =~= seq![child] + ancestors(dir));
    lemma_ancestors(dir);
    assert forall|j: int| 1 <= j < up.len() implies is_listed(fs, #[trigger] up[j]) by {
        assert(up[j] == ancestors(dir)[j - 1]);
    }
}

/// Accumulating from an anchored path keeps the walk orderly.
pub proof fn lemma_accumulate_orderly(
    fs: Map<Seq<char>, Probe>,
    cache: Map<Seq<char>, NodeRecord>,
    st: WalkState,
    path: Seq<char>,
    contribution: NodeRecord,
    own: u64,
)
    requires
        is_orderly(fs, cache, st),
        is_anchored(fs, path),
    ensures
        accumulate_into(fs, st, path, contribution, own) matches Ok(next) ==> is_orderly(fs, cache, next),
{
    match accumulate_into(fs, st, path, contribution, own) {
        Ok(next) => {
            lemma_accumulate_nested(st.map, path, contribution, own, fs);
            lemma_ancestors(path);
            let up = ancestors(path);
            assert forall|k: Seq<char>| #[trigger]
                next.map.contains_key(k) && !cache.contains_key(k) implies (parent_of(k) matches Some(
                q,
            ) ==> is_listed(fs, q)) by {
                if !st.map.contains_key(k) {
                    let i = choose|i: int| 0 <= i < up.len() && up[i] == k;
                    if i < up.len() - 1 {
                        assert(parent_of(up[i]) == Some(up[i + 1]));
                        assert(is_listed(fs, up[i + 1]));
                    }
                }
            }
        },
        Err(_) => {},
    }
}

/// Counting a record into the directories above an anchored path keeps the
/// walk orderly.
pub proof fn lemma_reuse_orderly(
    fs: Map<Seq<char>, Probe>,
    cache: Map<Seq<char>, NodeRecord>,
    st: WalkState,
    path: Seq<char>,
    contribution: NodeRecord,
)
    requires
        is_orderly(fs, cache, st),
        is_anchored(fs, path),
    ensures
        reuse_into(fs, st, path, contribution) matches Ok(next) ==> is_orderly(fs, cache, next),
{
    lemma_ancestors(path);
    match reuse_into(fs, st, path, contribution) {
        Ok(next) => {
            match parent_of(path) {
                None => {},
                Some(q) => {
                    lemma_anchored_above(fs, path, 1);
                    let own = stamp_or_zero(fs, q);
                    lemma_accumulate_nested(st.map, q, contribution, own, fs);
                    lemma_ancestors(q);
                    let up = ancestors(q);
                    assert forall|k: Seq<char>| #[trigger]
                        next.map.contains_key(k) && !cache.contains_key(k) implies (parent_of(
                        k,
                    ) matches Some(above) ==> is_listed(fs, above)) by {
                        if !st.map.contains_key(k) {
                            let i = choose|i: int| 0 <= i < up.len() && up[i] == k;
                            if i < up.len() - 1 {
                                assert(parent_of(up[i]) == Some(up[i + 1]));
                                assert(is_listed(fs, up[i + 1]));
                            }
                        }
                    }
                },
            }
        },
        Err(_) => {},
    }
}

/// Dealing with the entries of a listed, anchored directory keeps the walk
/// orderly.
pub proof fn lemma_expanded_orderly(
    fs: Map<Seq<char>, Probe>,
    cache: Map<Seq<char>, NodeRecord>,
    st: WalkState,
    entries: Seq<DirEntry>,
    dir: Seq<char>,
)
    requires
        is_orderly(fs, cache, st),
        is_anchored(fs, dir),
        is_listed(fs, dir),
        forall|i: int| 0 <= i < entries.len() ==> parent_of((#[trigger] entries[i]).path@) == Some(dir),
    ensures
        expanded(fs, cache, st, entries) matches Ok(next) ==> is_orderly(fs, cache, next),
    decreases entries.len(),
{
    if entries.len() > 0 {
        let front = entries.drop_last();
        let entry = entries.last();
        assert forall|i: int| 0 <= i < front.len() implies parent_of((#[trigger] front[i]).path@)
            == Some(dir) by {
            assert(front[i] == entries[i]);
        }
        lemma_expanded_orderly(fs, cache, st, front, dir);
        match expanded(fs, cache, st, front) {
            Ok(s) => {
                assert(entries[entries.len() - 1] == entry);
                lemma_anchored_child(fs, dir, entry.path@);
                match action_for(cache, fs, entry) {
                    Ok(EntryAction::Contribute(record)) => {
                        lemma_accumulate_orderly(fs, cache, s, entry.path@, record, entry.modified);
                    },
                    Ok(EntryAction::Reuse(record)) => {
                        lemma_reuse_orderly(fs, cache, s, entry.path@, record);
                    },
                    _ => {},
                }
                match entry_step(fs, cache, s, entry) {
                    Ok(next) => {
                        assert forall|i: int| 0 <= i < next.stack.len() implies is_anchored(
                            fs,
                            #[trigger] next.stack[i],
                        ) by {
                            if i < s.stack.len() {
                                assert(next.stack[i] == s.stack[i]);
                            }
                        }
                    },
                    Err(_) => {},
                }
            },
            Err(_) => {},
        }
    }
}

/// A step keeps the walk orderly, where the cache is closed and listings
/// hold children only. A directory that cannot be listed is marked so and
/// takes nothing away: no key that counts something lies in it.
pub proof fn lemma_step_orderly(
    fs: Map<Seq<char>, Probe>,
    cache: Map<Seq<char>, NodeRecord>,
    st: WalkState,
)
    requires
        st.stack.len() > 0,
        is_orderly(fs, cache, st),
        is_closed(cache),
        lists_children(fs),
    ensures
        walk_step(fs, cache, st) matches Ok(next) ==> is_orderly(fs, cache, next),
{
    let path = st.stack.last();
    let rest = WalkState { stack: st.stack.drop_last(), ..st };
    assert(is_anchored(fs, st.stack[st.stack.len() - 1]));
    assert forall|i: int| 0 <= i < rest.stack.len() implies is_anchored(fs, #[trigger] rest.stack[i]) by {
        assert(rest.stack[i] == st.stack[i]);
    }
    assert(is_orderly(fs, cache, rest));
    lemma_reuse_orderly(fs, cache, rest, path, cache[path]);
    if !cache.contains_key(path) && fs.contains_key(path) {
        lemma_ancestors(path);
        match fs[path] {
            Probe::Missing => {},
            Probe::Dir { modified, entries: Some(es) } => {
                assert forall|i: int| 0 <= i < es@.len() implies parent_of((#[trigger] es@[i]).path@)
                    == Some(path) by {
                    assert(fs[path]->Dir_entries->0@[i] == es@[i]);
                }
                lemma_expanded_orderly(fs, cache, rest, es@, path);
            },
            _ => {
                let stamp = match fs[path] {
                    Probe::File { modified, .. } => modified,
                    Probe::Dir { modified, .. } => modified,
                    Probe::Missing => 0,
                };
                let next = unreadable_at(rest, path, stamp);
                assert(!is_listed(fs, path));
                assert forall|k: Seq<char>| #[trigger] next.map.contains_key(k) implies (parent_of(
                    k,
                ) matches Some(q) ==> !counts(next.map[k]) || (next.map.contains_key(q) && at_least(
                    next.map[q],
                    next.map[k],
                ))) by {
                    if k != path && parent_of(k) == Some(path) {
                        assert(rest.map.contains_key(k));
                        if cache.contains_key(k) {
                            assert(cache.contains_key(path));
                        } else {
                            assert(is_listed(fs, path));
                        }
                    }
                }
                assert forall|k: Seq<char>| #[trigger]
                    next.map.contains_key(k) && !cache.contains_key(k) implies (parent_of(
                    k,
                ) matches Some(q) ==> is_listed(fs, q)) by {
                    if k == path && parent_of(path) is Some {
                        assert(ancestors(path)[1] == parent_of(path)->0);
                    }
                }
            },
        }
    }
}

/// After a walk the record of a parent is at least that of its child, in
/// size and in script count, wherever both are in the store. This holds of
/// a walk that begins orderly, over a cache that holds with every path its
/// parent, and a snapshot whose listings hold children only. Directories
/// that cannot be listed do not stand in its way.
pub proof fn lemma_walk_nested(
    fs: Map<Seq<char>, Probe>,
    cache: Map<Seq<char>, NodeRecord>,
    st: WalkState,
)
    requires
        is_orderly(fs, cache, st),
        is_closed(cache),
        lists_children(fs),
    ensures
        is_orderly(fs, cache, walk_run(fs, cache, st).0),
        is_nested(walk_run(fs, cache, st).0.map),
    decreases st.steps,
{
    if st.stack.len() > 0 && st.steps > 0 {
        lemma_step_orderly(fs, cache, st);
        match walk_step(fs, cache, st) {
            Ok(next) => {
                lemma_walk_nested(fs, cache, WalkState { steps: (st.steps - 1) as nat, ..next });
            },
            Err(_) => {},
        }
    }
}

/// A walk from start points that have no parent, over a nested cache that
/// holds with every path its parent, begins orderly.
pub proof fn lemma_start_orderly(
    fs: Map<Seq<char>, Probe>,
    cache: Map<Seq<char>, NodeRecord>,
    st: WalkState,
)
    requires
        st.map == cache,
        is_nested(cache),
        forall|i: int| 0 <= i < st.stack.len() ==> parent_of(#[trigger] st.stack[i]) is None,
    ensures
        is_orderly(fs, cache, st),
{
    assert forall|i: int| 0 <= i < st.stack.len() implies is_anchored(fs, #[trigger] st.stack[i]) by {
        lemma_ancestors(st.stack[i]);
        assert(parent_of(st.stack[i]) is None);
        if ancestors(st.stack[i]).len() > 1 {
            assert(parent_of(ancestors(st.stack[i])[0]) == Some(ancestors(st.stack[i])[1]));
        }
    }
}

/// Whether `fs` has looked at `path` and found something that it cannot
/// list: a file, or a directory that does not open.
pub open spec fn is_unlistable(fs: Map<Seq<char>, Probe>, path: Seq<char>) -> bool {
    fs.contains_key(path) && !(fs[path] is Missing) && !is_listed(fs, path)
}

/// Whether every listing that names `path` names it as a directory.
pub open spec fn is_named_as_dir(fs: Map<Seq<char>, Probe>, path: Seq<char>) -> bool {
    forall|dir: Seq<char>, i: int|
        #![trigger fs[dir], fs[dir]->Dir_entries->0@[i]]
        fs.contains_key(dir) && fs[dir] is Dir && fs[dir]->Dir_entries is Some && 0 <= i
            < fs[dir]->Dir_entries->0@.len() && fs[dir]->Dir_entries->0@[i].path@ == path
            ==> fs[dir]->Dir_entries->0@[i].is_dir
}

/// Whether the store, where it holds `path`, holds it as unreadable.
pub open spec fn is_kept_unreadable(fs: Map<Seq<char>, Probe>, st: WalkState, path: Seq<char>) -> bool {
    st.map.contains_key(path) ==> st.map[path] == NodeRecord::unreadable(stamp_or_zero(fs, path))
}

/// Whether `path` waits on the stack or is in the store.
pub open spec fn is_met(st: WalkState, path: Seq<char>) -> bool {
    st.stack.contains(path) || st.map.contains_key(path)
}

/// An anchored path has nothing unlistable above it.
pub proof fn lemma_not_above(fs: Map<Seq<char>, Probe>, path: Seq<char>, other: Seq<char>)
    requires
        is_anchored(fs, path),
        is_unlistable(fs, other),
        other != path,
    ensures
        !ancestors(path).contains(other),
{
    lemma_ancestors(path);
    if ancestors(path).contains(other) {
        let i = choose|i: int| 0 <= i < ancestors(path).len() && ancestors(path)[i] == other;
        assert(is_listed(fs, ancestors(path)[i]));
    }
}

/// Dealing with the entries of a listed directory leaves an unreadable path
/// as it is, and what was met stays met.
pub proof fn lemma_expanded_unreadable(
    fs: Map<Seq<char>, Probe>,
    cache: Map<Seq<char>, NodeRecord>,
    st: WalkState,
    entries: Seq<DirEntry>,
    dir: Seq<char>,
    path: Seq<char>,
)
    requires
        is_anchored(fs, dir),
        is_listed(fs, dir),
        forall|i: int| 0 <= i < entries.len() ==> parent_of((#[trigger] entries[i]).path@) == Some(dir),
        forall|i: int|
            0 <= i < entries.len() && (#[trigger] entries[i]).path@ == path ==> entries[i].is_dir,
        is_unlistable(fs, path),
        !cache.contains_key(path),
        is_kept_unreadable(fs, st, path),
    ensures
        expanded(fs, cache, st, entries) matches Ok(next) ==> is_kept_unreadable(fs, next, path) && (
        is_met(st, path) ==> is_met(next, path)),
    decreases entries.len(),
{
    if entries.len() > 0 {
        let front = entries.drop_last();
        let entry = entries.last();
        assert forall|i: int| 0 <= i < front.len() implies parent_of((#[trigger] front[i]).path@)
            == Some(dir) by {
            assert(front[i] == entries[i]);
        }
        assert forall|i: int| 0 <= i < front.len() && (#[trigger] front[i]).path@ == path implies front[i].is_dir by {
            assert(front[i] == entries[i]);
        }
        lemma_expanded_unreadable(fs, cache, st, front, dir, path);
        match expanded(fs, cache, st, front) {
            Ok(s) => {
                assert(entries[entries.len() - 1] == entry);
                lemma_anchored_child(fs, dir, entry.path@);
                lemma_ancestors(entry.path@);
                match entry_step(fs, cache, s, entry) {
                    Ok(next) => {
                        if entry.path@ != path {
                            lemma_not_above(fs, entry.path@, path);
                        }
                        match parent_of(entry.path@) {
                            Some(q) => {
                                lemma_anchored_above(fs, entry.path@, 1);
                                assert(q == dir);
                                if q != path {
                                    lemma_not_above(fs, q, path);
                                }
                            },
                            None => {},
                        }
                        if s.stack.contains(path) {
                            let i = choose|i: int| 0 <= i < s.stack.len() && s.stack[i] == path;
                            assert(next.stack[i] == path);
                        }
                    },
                    Err(_) => {},
                }
            },
            Err(_) => {},
        }
    }
}

/// A step leaves an unreadable path as it is, or marks it so; and what was
/// met stays met.
pub proof fn lemma_step_unreadable(
    fs: Map<Seq<char>, Probe>,
    cache: Map<Seq<char>, NodeRecord>,
    st: WalkState,
    path: Seq<char>,
)
    requires
        st.stack.len() > 0,
        is_orderly(fs, cache, st),
        lists_children(fs),
        is_named_as_dir(fs, path),
        is_unlistable(fs, path),
        !cache.contains_key(path),
        is_kept_unreadable(fs, st, path),
    ensures
        walk_step(fs, cache, st) matches Ok(next) ==> is_kept_unreadable(fs, next, path) && (is_met(
            st,
            path,
        ) ==> is_met(next, path)),
{
    let top = st.stack.last();
    let rest = WalkState { stack: st.stack.drop_last(), ..st };
    assert(st.stack[st.stack.len() - 1] == top);
    assert(is_anchored(fs, top));
    lemma_ancestors(top);
    match walk_step(fs, cache, st) {
        Ok(next) => {
            if st.stack.contains(path) && top != path {
                let i = choose|i: int| 0 <= i < st.stack.len() && st.stack[i] == path;
                assert(rest.stack[i] == path);
            }
            if cache.contains_key(top) {
                match parent_of(top) {
                    Some(q) => {
                        lemma_anchored_above(fs, top, 1);
                        lemma_not_above(fs, q, path);
                    },
                    None => {},
                }
            } else {
                match fs[top] {
                    Probe::Dir { modified, entries: Some(es) } => {
                        assert forall|i: int| 0 <= i < es@.len() implies parent_of(
                            (#[trigger] es@[i]).path@,
                        ) == Some(top) by {
                            assert(fs[top]->Dir_entries->0@[i] == es@[i]);
                        }
                        assert forall|i: int|
                            0 <= i < es@.len() && (#[trigger] es@[i]).path@ == path implies es@[i].is_dir by {
                            assert(fs[top]->Dir_entries->0@[i] == es@[i]);
                        }
                        lemma_expanded_unreadable(fs, cache, rest, es@, top, path);
                        if rest.stack.contains(path) {
                            assert(is_met(rest, path));
                        }
                    },
                    _ => {},
                }
            }
        },
        Err(_) => {},
    }
}

/// A directory that cannot be listed stays in the store as it was marked,
/// through the whole walk: size 0, script count 0, not allowed. Where the
/// walk met it and ends without a fault, it is in the store. This holds
/// where no listing names the path as a file.
pub proof fn lemma_walk_unreadable(
    fs: Map<Seq<char>, Probe>,
    cache: Map<Seq<char>, NodeRecord>,
    st: WalkState,
    path: Seq<char>,
)
    requires
        is_orderly(fs, cache, st),
        is_closed(cache),
        lists_children(fs),
        is_named_as_dir(fs, path),
        is_unlistable(fs, path),
        !cache.contains_key(path),
        is_kept_unreadable(fs, st, path),
    ensures
        is_kept_unreadable(fs, walk_run(fs, cache, st).0, path),
        is_met(st, path) && walk_run(fs, cache, st).1 is None ==> walk_run(
            fs,
            cache,
            st,
        ).0.map.contains_key(path) && walk_run(fs, cache, st).0.map[path] == NodeRecord::unreadable(
            stamp_or_zero(fs, path),
        ),
    decreases st.steps,
{
    if st.stack.len() > 0 && st.steps > 0 {
        lemma_step_orderly(fs, cache, st);
        lemma_step_unreadable(fs, cache, st, path);
        match walk_step(fs, cache, st) {
            Ok(next) => {
                lemma_walk_unreadable(fs, cache, WalkState { steps: (st.steps - 1) as nat, ..next }, path);
            },
            Err(_) => {},
        }
    }
}

/// The step that meets a directory which cannot be listed, and which the
/// cache does not hold, writes the unreadable record at that path and
/// changes nothing else: no key gains or loses, and no other record moves.
pub proof fn lemma_unreadable_step(
    fs: Map<Seq<char>, Probe>,
    cache: Map<Seq<char>, NodeRecord>,
    st: WalkState,
)
    requires
        st.stack.len() > 0,
        fs.contains_key(st.stack.last()),
        fs[st.stack.last()] is Dir,
        fs[st.stack.last()]->Dir_entries is None,
        !cache.contains_key(st.stack.last()),
    ensures
        walk_step(fs, cache, st) matches Ok(next) && next.map == st.map.insert(
            st.stack.last(),
            NodeRecord::unreadable(fs[st.stack.last()]->Dir_modified),
        ) && next.stack == st.stack.drop_last(),
        forall|k: Seq<char>|
            k != st.stack.last() && st.map.contains_key(k) ==> #[trigger] walk_step(
                fs,
                cache,
                st,
            )->Ok_0.map[k] == st.map[k],
{
}

/// Whether a walk over `cache` has nothing to do at `path`: the cache holds
/// it and it has no parent, or it is gone.
pub open spec fn is_done_with(fs: Map<Seq<char>, Probe>, cache: Map<Seq<char>, NodeRecord>, path: Seq<char>) -> bool {
    if cache.contains_key(path) {
        parent_of(path) is None
    } else {
        fs.contains_key(path) && fs[path] is Missing
    }
}

/// A walk over the cache, from start points that the cache holds and that
/// have no parent, or that are gone, gives the cache back: what has been
/// measured is not counted again.
pub proof fn lemma_walk_reproduces(
    fs: Map<Seq<char>, Probe>,
    cache: Map<Seq<char>, NodeRecord>,
    st: WalkState,
)
    requires
        st.map == cache,
        forall|i: int| 0 <= i < st.stack.len() ==> is_done_with(fs, cache, #[trigger] st.stack[i]),
        st.steps >= st.stack.len(),
    ensures
        walk_run(fs, cache, st).1 is None,
        walk_run(fs, cache, st).0.map == cache,
        walk_run(fs, cache, st).0.order == st.order,
    decreases st.steps,
{
    if st.stack.len() > 0 {
        let path = st.stack.last();
        assert(st.stack[st.stack.len() - 1] == path);
        assert(is_done_with(fs, cache, path));
        if cache.contains_key(path) {
            lemma_parentless_unstamped(fs, path);
        }
        let next = walk_step(fs, cache, st)->Ok_0;
        assert(walk_step(fs, cache, st) is Ok);
        assert(next.map == cache);
        assert(next.stack == st.stack.drop_last());
        assert forall|i: int| 0 <= i < next.stack.len() implies is_done_with(
            fs,
            cache,
            #[trigger] next.stack[i],
        ) by {
            assert(next.stack[i] == st.stack[i]);
        }
        lemma_walk_reproduces(fs, cache, WalkState { steps: (st.steps - 1) as nat, ..next });
    }
}

/// Nothing is wrong with the stamps above a path that has no parent.
pub proof fn lemma_parentless_unstamped(fs: Map<Seq<char>, Probe>, path: Seq<char>)
    requires
        parent_of(path) is None,
    ensures
        crate::walk::chain_fault(fs, path) is None,
{
}

/// A path that the cache no longer holds is measured afresh when a walk
/// meets it in a listing: a directory is entered, anything else contributes
/// what the disk says of it now.
pub proof fn lemma_evicted_is_measured(
    cache: Map<Seq<char>, NodeRecord>,
    fs: Map<Seq<char>, Probe>,
    entry: DirEntry,
)
    requires
        !cache.contains_key(entry.path@),
        !is_ignored(entry.path@),
    ensures
        action_for(cache, fs, entry) == (if entry.is_dir && !is_opaque_leaf(entry.path@) {
            Ok::<EntryAction, Fault>(EntryAction::Descend)
        } else {
            match leaf_size(fs, entry) {
                Ok(size) => Ok(EntryAction::Contribute(leaf_record(entry, size))),
                Err(f) => Err(f),
            }
        }),
{
}

/// A walk that has nothing to expand returns the cache as it is.
pub proof fn lemma_walk_nothing_to_expand(
    fs: Map<Seq<char>, Probe>,
    cache: Map<Seq<char>, NodeRecord>,
    st: WalkState,
)
    requires
        st.stack.len() == 0,
    ensures
        walk_run(fs, cache, st) == (st, None::<Fault>),
{
}

} // verus!
