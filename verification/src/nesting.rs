//! A parent is at least as big as its child: after a walk over a cache that
//! agrees with the disk, whatever invalidation has taken out of it.

use vstd::prelude::*;
use crate::fsview::{DirEntry, Probe};
use crate::laws::{at_least, counts, is_listed, lemma_ancestors_from, lists_children};
use crate::path::{ancestors, lemma_ancestors, lemma_parent_shorter, parent_of};
use crate::policy::is_ignored;
use crate::record::NodeRecord;
use crate::walk::{
    accumulate_into, accumulated, action_for, chain_fits, entry_or_zero, entry_step, expanded,
    reuse_into, stamp_or_zero, walk_run, walk_step, EntryAction, WalkState,
};

verus! {

/// Whether the listing of `dir` in `fs` names `path`.
pub open spec fn is_named_in(fs: Map<Seq<char>, Probe>, dir: Seq<char>, path: Seq<char>) -> bool {
    exists|i: int|
        0 <= i < fs[dir]->Dir_entries->0@.len() && (#[trigger] fs[dir]->Dir_entries->0@[i]).path@
            == path
}

/// Whether the cache agrees with the disk: a cached path whose parent the
/// cache does not hold is an entry of the listing of that parent, and is not
/// ignored.
pub open spec fn is_on_disk(fs: Map<Seq<char>, Probe>, cache: Map<Seq<char>, NodeRecord>) -> bool {
    forall|p: Seq<char>| #[trigger]
        cache.contains_key(p) ==> (parent_of(p) matches Some(q) ==> cache.contains_key(q) || (
        is_listed(fs, q) && is_named_in(fs, q, p) && !is_ignored(p)))
}

/// Whether every listing names a listed directory as a directory.
pub open spec fn names_dirs_as_dirs(fs: Map<Seq<char>, Probe>) -> bool {
    forall|dir: Seq<char>, i: int|
        #![trigger fs[dir], fs[dir]->Dir_entries->0@[i]]
        is_listed(fs, dir) && 0 <= i < fs[dir]->Dir_entries->0@.len() && is_listed(
            fs,
            fs[dir]->Dir_entries->0@[i].path@,
        ) ==> fs[dir]->Dir_entries->0@[i].is_dir
}

/// Whether, wherever `m` holds a path and its parent and the parent is
/// allowed, the parent is at least as big as the child, in size and in
/// script count.
pub open spec fn has_sound_pairs(m: Map<Seq<char>, NodeRecord>) -> bool {
    forall|p: Seq<char>| #[trigger]
        m.contains_key(p) ==> (parent_of(p) matches Some(q) ==> (m.contains_key(q) && m[q].is_allowed
            ==> at_least(m[q], m[p])))
}

/// Whether `dir` is in `m` and at least as big as each of its cached
/// children; true of a directory that has none.
pub open spec fn is_complete(cache: Map<Seq<char>, NodeRecord>, m: Map<Seq<char>, NodeRecord>, dir: Seq<char>) -> bool {
    forall|p: Seq<char>| #[trigger]
        cache.contains_key(p) && parent_of(p) == Some(dir) ==> m.contains_key(dir) && at_least(
            m[dir],
            cache[p],
        )
}

/// Whether `m` holds every cached path with its cached record.
pub open spec fn keeps_cache(cache: Map<Seq<char>, NodeRecord>, m: Map<Seq<char>, NodeRecord>) -> bool {
    forall|k: Seq<char>| #[trigger] cache.contains_key(k) ==> m.contains_key(k) && m[k] == cache[k]
}

/// Whether every path of `m` that the cache does not hold lies in a listed
/// directory that the cache does not hold either, and, where it counts
/// something, has that directory beside it, at least as big.
pub open spec fn is_grown(
    fs: Map<Seq<char>, Probe>,
    cache: Map<Seq<char>, NodeRecord>,
    m: Map<Seq<char>, NodeRecord>,
) -> bool {
    forall|p: Seq<char>| #[trigger]
        m.contains_key(p) && !cache.contains_key(p) ==> (parent_of(p) matches Some(q) ==> is_listed(
            fs,
            q,
        ) && !cache.contains_key(q) && (!counts(m[p]) || (m.contains_key(q) && at_least(m[q], m[p]))))
}

/// Whether every allowed path of `m` that the cache does not hold is
/// complete, but for the directory that is being dealt with.
pub open spec fn is_settled(
    cache: Map<Seq<char>, NodeRecord>,
    m: Map<Seq<char>, NodeRecord>,
    exempt: Option<Seq<char>>,
) -> bool {
    forall|q: Seq<char>| #[trigger]
        m.contains_key(q) && !cache.contains_key(q) && m[q].is_allowed && exempt != Some(q)
            ==> is_complete(cache, m, q)
}

/// Whether `dir` is listed, not cached, and complete or being dealt with.
pub open spec fn is_ready(
    fs: Map<Seq<char>, Probe>,
    cache: Map<Seq<char>, NodeRecord>,
    m: Map<Seq<char>, NodeRecord>,
    exempt: Option<Seq<char>>,
    dir: Seq<char>,
) -> bool {
    is_listed(fs, dir) && !cache.contains_key(dir) && (exempt == Some(dir) || is_complete(cache, m, dir))
}

/// Whether every directory above `path` is ready.
pub open spec fn is_rooted(
    fs: Map<Seq<char>, Probe>,
    cache: Map<Seq<char>, NodeRecord>,
    m: Map<Seq<char>, NodeRecord>,
    exempt: Option<Seq<char>>,
    path: Seq<char>,
) -> bool {
    forall|i: int|
        1 <= i < ancestors(path).len() ==> is_ready(fs, cache, m, exempt, #[trigger] ancestors(path)[i])
}

/// What holds of a walk between two steps, and, with the directory that is
/// being dealt with exempt, between two of its entries.
pub open spec fn is_sound(
    fs: Map<Seq<char>, Probe>,
    cache: Map<Seq<char>, NodeRecord>,
    st: WalkState,
    exempt: Option<Seq<char>>,
) -> bool {
    &&& keeps_cache(cache, st.map)
    &&& is_grown(fs, cache, st.map)
    &&& is_settled(cache, st.map, exempt)
    &&& forall|i: int| 0 <= i < st.stack.len() ==> is_rooted(fs, cache, st.map, exempt, #[trigger] st.stack[i])
}

/// Whether `after` holds all that `m` holds, nothing smaller, and changes
/// nothing that the cache holds.
pub open spec fn has_grown_from(
    cache: Map<Seq<char>, NodeRecord>,
    m: Map<Seq<char>, NodeRecord>,
    after: Map<Seq<char>, NodeRecord>,
) -> bool {
    forall|k: Seq<char>| #[trigger]
        m.contains_key(k) ==> after.contains_key(k) && at_least(after[k], m[k]) && (cache.contains_key(
            k,
        ) ==> after[k] == m[k])
}

/// What has grown keeps complete directories complete.
pub proof fn lemma_complete_stays(
    cache: Map<Seq<char>, NodeRecord>,
    m: Map<Seq<char>, NodeRecord>,
    after: Map<Seq<char>, NodeRecord>,
    dir: Seq<char>,
)
    requires
        has_grown_from(cache, m, after),
        is_complete(cache, m, dir),
    ensures
        is_complete(cache, after, dir),
{
    assert forall|p: Seq<char>| #[trigger]
        cache.contains_key(p) && parent_of(p) == Some(dir) implies after.contains_key(dir) && at_least(
        after[dir],
        cache[p],
    ) by {
        assert(m.contains_key(dir));
    }
}

/// What has grown keeps rooted paths rooted.
pub proof fn lemma_rooted_stays(
    fs: Map<Seq<char>, Probe>,
    cache: Map<Seq<char>, NodeRecord>,
    m: Map<Seq<char>, NodeRecord>,
    after: Map<Seq<char>, NodeRecord>,
    exempt: Option<Seq<char>>,
    path: Seq<char>,
)
    requires
        has_grown_from(cache, m, after),
        is_rooted(fs, cache, m, exempt, path),
    ensures
        is_rooted(fs, cache, after, exempt, path),
{
    assert forall|i: int| 1 <= i < ancestors(path).len() implies is_ready(
        fs,
        cache,
        after,
        exempt,
        #[trigger] ancestors(path)[i],
    ) by {
        let a = ancestors(path)[i];
        assert(is_ready(fs, cache, m, exempt, a));
        if exempt != Some(a) {
            lemma_complete_stays(cache, m, after, a);
        }
    }
}

/// Accumulating along a chain of ready directories keeps the store sound.
pub proof fn lemma_accumulated_sound(
    fs: Map<Seq<char>, Probe>,
    cache: Map<Seq<char>, NodeRecord>,
    m: Map<Seq<char>, NodeRecord>,
    path: Seq<char>,
    contribution: NodeRecord,
    own: u64,
    exempt: Option<Seq<char>>,
)
    requires
        keeps_cache(cache, m),
        is_grown(fs, cache, m),
        is_settled(cache, m, exempt),
        chain_fits(m, path, contribution),
        !cache.contains_key(path),
        exempt == Some(path) || is_complete(cache, m, path),
        is_rooted(fs, cache, m, exempt, path),
    ensures
        has_grown_from(cache, m, accumulated(m, path, contribution, own, fs)),
        keeps_cache(cache, accumulated(m, path, contribution, own, fs)),
        is_grown(fs, cache, accumulated(m, path, contribution, own, fs)),
        is_settled(cache, accumulated(m, path, contribution, own, fs), exempt),
        accumulated(m, path, contribution, own, fs).contains_key(path),
        at_least(accumulated(m, path, contribution, own, fs)[path], contribution),
{
    let after = accumulated(m, path, contribution, own, fs);
    let up = ancestors(path);
    lemma_ancestors(path);
    assert forall|i: int| 0 <= i < up.len() implies !cache.contains_key(#[trigger] up[i]) by {
        if i > 0 {
            assert(is_ready(fs, cache, m, exempt, up[i]));
        }
    }
    assert forall|k: Seq<char>| #[trigger] m.contains_key(k) implies after.contains_key(k) && at_least(
        after[k],
        m[k],
    ) && (cache.contains_key(k) ==> after[k] == m[k]) by {
        if up.contains(k) {
            let i = choose|i: int| 0 <= i < up.len() && up[i] == k;
            assert(entry_or_zero(m, up[i]).fits(contribution));
        }
    }
    assert(up.contains(up[0]));
    assert(entry_or_zero(m, up[0]).fits(contribution));
    assert forall|k: Seq<char>| #[trigger] cache.contains_key(k) implies after.contains_key(k)
        && after[k] == cache[k] by {
        assert(m.contains_key(k));
    }
    assert forall|p: Seq<char>| #[trigger] after.contains_key(p) && !cache.contains_key(p) implies (
    parent_of(p) matches Some(q) ==> is_listed(fs, q) && !cache.contains_key(q) && (!counts(after[p])
        || (after.contains_key(q) && at_least(after[q], after[p])))) by {
        match parent_of(p) {
            None => {},
            Some(q) => {
                if up.contains(p) {
                    let i = choose|i: int| 0 <= i < up.len() && up[i] == p;
                    assert(i < up.len() - 1);
                    assert(up[i + 1] == q);
                    assert(up.contains(q));
                    assert(is_ready(fs, cache, m, exempt, up[i + 1]));
                    assert(entry_or_zero(m, up[i]).fits(contribution));
                    assert(entry_or_zero(m, up[i + 1]).fits(contribution));
                    if m.contains_key(p) && counts(m[p]) {
                        assert(m.contains_key(q) && at_least(m[q], m[p]));
                    }
                } else {
                    assert(m.contains_key(p));
                    if counts(m[p]) {
                        assert(m.contains_key(q) && at_least(m[q], m[p]));
                    }
                }
            },
        }
    }
    assert forall|q: Seq<char>| #[trigger]
        after.contains_key(q) && !cache.contains_key(q) && after[q].is_allowed && exempt != Some(
            q,
        ) implies is_complete(cache, after, q) by {
        if up.contains(q) {
            let i = choose|i: int| 0 <= i < up.len() && up[i] == q;
            if i > 0 {
                assert(is_ready(fs, cache, m, exempt, up[i]));
            }
            assert(is_complete(cache, m, q));
        } else {
            assert(m.contains_key(q));
            assert(after[q] == m[q]);
            assert(is_complete(cache, m, q));
        }
        lemma_complete_stays(cache, m, after, q);
    }
}

/// Accumulating from a rooted path keeps the walk sound.
pub proof fn lemma_accumulate_sound(
    fs: Map<Seq<char>, Probe>,
    cache: Map<Seq<char>, NodeRecord>,
    st: WalkState,
    path: Seq<char>,
    contribution: NodeRecord,
    own: u64,
    exempt: Option<Seq<char>>,
)
    requires
        is_sound(fs, cache, st, exempt),
        !cache.contains_key(path),
        exempt == Some(path) || is_complete(cache, st.map, path),
        is_rooted(fs, cache, st.map, exempt, path),
    ensures
        accumulate_into(fs, st, path, contribution, own) matches Ok(next) ==> is_sound(
            fs,
            cache,
            next,
            exempt,
        ) && has_grown_from(cache, st.map, next.map) && next.stack == st.stack && next.map.contains_key(
            path,
        ) && at_least(next.map[path], contribution),
{
    match accumulate_into(fs, st, path, contribution, own) {
        Ok(next) => {
            lemma_accumulated_sound(fs, cache, st.map, path, contribution, own, exempt);
            assert forall|i: int| 0 <= i < next.stack.len() implies is_rooted(
                fs,
                cache,
                next.map,
                exempt,
                #[trigger] next.stack[i],
            ) by {
                lemma_rooted_stays(fs, cache, st.map, next.map, exempt, st.stack[i]);
            }
        },
        Err(_) => {},
    }
}

/// The directories above an ancestor of a rooted path are ready, and so is
/// each ancestor but the path itself.
pub proof fn lemma_rooted_above(
    fs: Map<Seq<char>, Probe>,
    cache: Map<Seq<char>, NodeRecord>,
    m: Map<Seq<char>, NodeRecord>,
    exempt: Option<Seq<char>>,
    path: Seq<char>,
    i: int,
)
    requires
        is_rooted(fs, cache, m, exempt, path),
        0 <= i < ancestors(path).len(),
    ensures
        is_rooted(fs, cache, m, exempt, ancestors(path)[i]),
        i > 0 ==> is_ready(fs, cache, m, exempt, ancestors(path)[i]),
{
    lemma_ancestors_from(path, i);
    let above = ancestors(ancestors(path)[i]);
    assert forall|j: int| 1 <= j < above.len() implies is_ready(fs, cache, m, exempt, #[trigger] above[j]) by {
        assert(above[j] == ancestors(path)[i + j]);
    }
}

/// Counting a record into the directories above a rooted path keeps the
/// walk sound, and the parent of the path is then at least as big as the
/// record.
pub proof fn lemma_reuse_sound(
    fs: Map<Seq<char>, Probe>,
    cache: Map<Seq<char>, NodeRecord>,
    st: WalkState,
    path: Seq<char>,
    contribution: NodeRecord,
    exempt: Option<Seq<char>>,
)
    requires
        is_sound(fs, cache, st, exempt),
        is_rooted(fs, cache, st.map, exempt, path),
    ensures
        reuse_into(fs, st, path, contribution) matches Ok(next) ==> is_sound(fs, cache, next, exempt)
            && has_grown_from(cache, st.map, next.map) && next.stack == st.stack && (parent_of(
            path,
        ) matches Some(q) ==> next.map.contains_key(q) && at_least(next.map[q], contribution)),
{
    lemma_ancestors(path);
    match reuse_into(fs, st, path, contribution) {
        Ok(next) => {
            match parent_of(path) {
                None => {},
                Some(q) => {
                    lemma_rooted_above(fs, cache, st.map, exempt, path, 1);
                    assert(ancestors(path)[1] == q);
                    lemma_accumulate_sound(fs, cache, st, q, contribution, stamp_or_zero(fs, q), exempt);
                    assert(accumulate_into(fs, st, q, contribution, stamp_or_zero(fs, q)) is Ok) by {
                        lemma_parent_shorter(path);
                    }
                },
            }
        },
        Err(_) => {},
    }
}

/// Whether the directory that is being dealt with is at least as big as
/// each cached entry among the first `n` of its listing.
pub open spec fn is_partly_complete(
    fs: Map<Seq<char>, Probe>,
    cache: Map<Seq<char>, NodeRecord>,
    m: Map<Seq<char>, NodeRecord>,
    entries: Seq<DirEntry>,
    dir: Seq<char>,
    n: int,
) -> bool {
    forall|k: int|
        0 <= k < n && cache.contains_key((#[trigger] entries[k]).path@) && !is_ignored(
            entries[k].path@,
        ) ==> m.contains_key(dir) && at_least(m[dir], cache[entries[k].path@])
}

/// Dealing with the entries of a listed, rooted directory keeps the walk
/// sound, with that directory exempt, and leaves the directory at least as
/// big as each of its cached entries.
pub proof fn lemma_expanded_sound(
    fs: Map<Seq<char>, Probe>,
    cache: Map<Seq<char>, NodeRecord>,
    st: WalkState,
    entries: Seq<DirEntry>,
    dir: Seq<char>,
)
    requires
        is_sound(fs, cache, st, Some(dir)),
        is_rooted(fs, cache, st.map, Some(dir), dir),
        is_listed(fs, dir),
        !cache.contains_key(dir),
        is_on_disk(fs, cache),
        forall|i: int| 0 <= i < entries.len() ==> parent_of((#[trigger] entries[i]).path@) == Some(dir),
        forall|i: int|
            0 <= i < entries.len() && is_listed(fs, (#[trigger] entries[i]).path@) ==> entries[i].is_dir,
    ensures
        expanded(fs, cache, st, entries) matches Ok(next) ==> is_sound(fs, cache, next, Some(dir))
            && has_grown_from(cache, st.map, next.map) && is_partly_complete(
            fs,
            cache,
            next.map,
            entries,
            dir,
            entries.len() as int,
        ),
    decreases entries.len(),
{
    if entries.len() > 0 {
        let front = entries.drop_last();
        let entry = entries.last();
        assert forall|i: int| 0 <= i < front.len() implies parent_of((#[trigger] front[i]).path@)
            == Some(dir) by {
            assert(front[i] == entries[i]);
        }
        assert forall|i: int|
            0 <= i < front.len() && is_listed(fs, (#[trigger] front[i]).path@) implies front[i].is_dir by {
            assert(front[i] == entries[i]);
        }
        lemma_expanded_sound(fs, cache, st, front, dir);
        match expanded(fs, cache, st, front) {
            Ok(s) => {
                let path = entry.path@;
                assert(entries[entries.len() - 1] == entry);
                lemma_parent_shorter(path);
                lemma_ancestors(path);
                lemma_ancestors(dir);
                assert(ancestors(path) =~= seq![path] + ancestors(dir));
                lemma_rooted_stays(fs, cache, st.map, s.map, Some(dir), dir);
                assert forall|j: int| 1 <= j < ancestors(path).len() implies is_ready(
                    fs,
                    cache,
                    s.map,
                    Some(dir),
                    #[trigger] ancestors(path)[j],
                ) by {
                    assert(ancestors(path)[j] == ancestors(dir)[j - 1]);
                }
                match entry_step(fs, cache, s, entry) {
                    Ok(next) => {
                        match action_for(cache, fs, entry) {
                            Ok(EntryAction::Contribute(record)) => {
                                assert(is_complete(cache, s.map, path)) by {
                                    assert forall|p: Seq<char>| #[trigger]
                                        cache.contains_key(p) && parent_of(p) == Some(path) implies false by {
                                        assert(is_listed(fs, path));
                                    }
                                }
                                lemma_accumulate_sound(fs, cache, s, path, record, entry.modified, Some(dir));
                            },
                            Ok(EntryAction::Reuse(record)) => {
                                lemma_reuse_sound(fs, cache, s, path, record, Some(dir));
                            },
                            Ok(EntryAction::Descend) => {
                                assert forall|i: int| 0 <= i < next.stack.len() implies is_rooted(
                                    fs,
                                    cache,
                                    next.map,
                                    Some(dir),
                                    #[trigger] next.stack[i],
                                ) by {
                                    if i < s.stack.len() {
                                        assert(next.stack[i] == s.stack[i]);
                                    }
                                }
                            },
                            _ => {},
                        }
                        assert(has_grown_from(cache, s.map, next.map));
                        assert forall|k: Seq<char>| #[trigger] st.map.contains_key(k) implies next.map.contains_key(
                            k,
                        ) && at_least(next.map[k], st.map[k]) && (cache.contains_key(k) ==> next.map[k]
                            == st.map[k]) by {
                            assert(s.map.contains_key(k));
                        }
                        assert forall|k: int|
                            0 <= k < entries.len() && cache.contains_key((#[trigger] entries[k]).path@)
                                && !is_ignored(entries[k].path@) implies next.map.contains_key(dir)
                            && at_least(next.map[dir], cache[entries[k].path@]) by {
                            if k < front.len() {
                                assert(front[k] == entries[k]);
                                assert(s.map.contains_key(dir) && at_least(
                                    s.map[dir],
                                    cache[entries[k].path@],
                                ));
                            }
                        }
                    },
                    Err(_) => {},
                }
            },
            Err(_) => {},
        }
    }
}

/// One step of a sound walk leaves it sound.
pub proof fn lemma_step_sound(fs: Map<Seq<char>, Probe>, cache: Map<Seq<char>, NodeRecord>, st: WalkState)
    requires
        is_sound(fs, cache, st, None),
        st.stack.len() > 0,
        is_on_disk(fs, cache),
        names_dirs_as_dirs(fs),
        lists_children(fs),
    ensures
        walk_step(fs, cache, st) matches Ok(next) ==> is_sound(fs, cache, next, None),
{
    let path = st.stack.last();
    let rest = WalkState { stack: st.stack.drop_last(), ..st };
    assert(is_rooted(fs, cache, st.map, None, st.stack[st.stack.len() - 1]));
    assert forall|i: int| 0 <= i < rest.stack.len() implies is_rooted(
        fs,
        cache,
        rest.map,
        None,
        #[trigger] rest.stack[i],
    ) by {
        assert(rest.stack[i] == st.stack[i]);
    }
    match walk_step(fs, cache, st) {
        Ok(next) => {
            if cache.contains_key(path) {
                lemma_reuse_sound(fs, cache, rest, path, cache[path], None);
            } else if is_listed(fs, path) {
                let entries = fs[path]->Dir_entries->0@;
                assert forall|i: int| 0 <= i < rest.stack.len() implies is_rooted(
                    fs,
                    cache,
                    rest.map,
                    Some(path),
                    #[trigger] rest.stack[i],
                ) by {
                    lemma_rooted_weaker(fs, cache, rest.map, path, rest.stack[i]);
                }
                lemma_rooted_weaker(fs, cache, rest.map, path, path);
                assert forall|i: int| 0 <= i < entries.len() implies parent_of((#[trigger] entries[i]).path@)
                    == Some(path) by {
                    assert(parent_of(fs[path]->Dir_entries->0@[i].path@) == Some(path));
                }
                assert forall|i: int|
                    0 <= i < entries.len() && is_listed(
                        fs,
                        (#[trigger] entries[i]).path@,
                    ) implies entries[i].is_dir by {
                    assert(fs[path]->Dir_entries->0@[i].is_dir);
                }
                lemma_expanded_sound(fs, cache, rest, entries, path);
                assert(is_complete(cache, next.map, path)) by {
                    assert forall|p: Seq<char>| #[trigger]
                        cache.contains_key(p) && parent_of(p) == Some(path) implies next.map.contains_key(path)
                        && at_least(next.map[path], cache[p]) by {
                        assert(is_named_in(fs, path, p));
                        let i = choose|i: int|
                            0 <= i < fs[path]->Dir_entries->0@.len() && (
                            #[trigger] fs[path]->Dir_entries->0@[i]).path@ == p;
                        assert(entries[i].path@ == p);
                    }
                }
                assert forall|i: int| 0 <= i < next.stack.len() implies is_rooted(
                    fs,
                    cache,
                    next.map,
                    None,
                    #[trigger] next.stack[i],
                ) by {
                    let s = next.stack[i];
                    assert(is_rooted(fs, cache, next.map, Some(path), s));
                    assert forall|j: int| 1 <= j < ancestors(s).len() implies is_ready(
                        fs,
                        cache,
                        next.map,
                        None,
                        #[trigger] ancestors(s)[j],
                    ) by {
                        assert(is_ready(fs, cache, next.map, Some(path), ancestors(s)[j]));
                    }
                }
            } else if fs[path] is Missing {
            } else {
                let m = st.map;
                let after = next.map;
                assert(after == m.insert(path, NodeRecord::unreadable(after[path].last_modified)));
                lemma_ancestors(path);
                assert forall|p: Seq<char>| #[trigger] after.contains_key(p) && !cache.contains_key(p) implies (
                parent_of(p) matches Some(q) ==> is_listed(fs, q) && !cache.contains_key(q) && (!counts(
                    after[p],
                ) || (after.contains_key(q) && at_least(after[q], after[p])))) by {
                    match parent_of(p) {
                        None => {},
                        Some(q) => {
                            if p == path {
                                assert(is_ready(fs, cache, m, None, ancestors(path)[1]));
                            } else {
                                assert(m.contains_key(p));
                            }
                        },
                    }
                }
                assert forall|q: Seq<char>| #[trigger]
                    after.contains_key(q) && !cache.contains_key(q) && after[q].is_allowed implies is_complete(
                    cache,
                    after,
                    q,
                ) by {
                    assert(q != path);
                    assert(m.contains_key(q));
                    assert(is_complete(cache, m, q));
                }
                assert forall|i: int| 0 <= i < next.stack.len() implies is_rooted(
                    fs,
                    cache,
                    after,
                    None,
                    #[trigger] next.stack[i],
                ) by {
                    let s = next.stack[i];
                    assert(is_rooted(fs, cache, m, None, rest.stack[i]));
                    assert forall|j: int| 1 <= j < ancestors(s).len() implies is_ready(
                        fs,
                        cache,
                        after,
                        None,
                        #[trigger] ancestors(s)[j],
                    ) by {
                        let a = ancestors(s)[j];
                        assert(is_ready(fs, cache, m, None, a));
                        assert(a != path);
                        assert(is_complete(cache, m, a));
                        assert forall|p: Seq<char>| #[trigger]
                            cache.contains_key(p) && parent_of(p) == Some(a) implies after.contains_key(a)
                            && at_least(after[a], cache[p]) by {
                            assert(m.contains_key(a));
                        }
                    }
                }
            }
        },
        Err(_) => {},
    }
}

/// What is rooted with no directory exempt is rooted with one exempt.
pub proof fn lemma_rooted_weaker(
    fs: Map<Seq<char>, Probe>,
    cache: Map<Seq<char>, NodeRecord>,
    m: Map<Seq<char>, NodeRecord>,
    dir: Seq<char>,
    path: Seq<char>,
)
    requires
        is_rooted(fs, cache, m, None, path),
    ensures
        is_rooted(fs, cache, m, Some(dir), path),
{
    assert forall|i: int| 1 <= i < ancestors(path).len() implies is_ready(
        fs,
        cache,
        m,
        Some(dir),
        #[trigger] ancestors(path)[i],
    ) by {
        assert(is_ready(fs, cache, m, None, ancestors(path)[i]));
    }
}

/// A sound walk ends sound.
pub proof fn lemma_run_sound(fs: Map<Seq<char>, Probe>, cache: Map<Seq<char>, NodeRecord>, st: WalkState)
    requires
        is_sound(fs, cache, st, None),
        is_on_disk(fs, cache),
        names_dirs_as_dirs(fs),
        lists_children(fs),
    ensures
        is_sound(fs, cache, walk_run(fs, cache, st).0, None),
    decreases st.steps,
{
    if st.stack.len() > 0 && st.steps > 0 {
        lemma_step_sound(fs, cache, st);
        match walk_step(fs, cache, st) {
            Ok(next) => {
                lemma_run_sound(fs, cache, WalkState { steps: (st.steps - 1) as nat, ..next });
            },
            Err(_) => {},
        }
    }
}

/// A parent is at least as big as its child, in size and in script count,
/// wherever a walk leaves both in the store and no step has marked the
/// parent as unreadable. The walk begins at rooted start points, which
/// those without a parent are, over a cache in which this holds already and
/// which agrees with the disk; the cache need not hold the parent of a path
/// that it holds, so what invalidation leaves of a store will do. The walk
/// may have stopped early, for a path that the snapshot has not looked at
/// yet.
pub proof fn lemma_walk_sound_pairs(
    fs: Map<Seq<char>, Probe>,
    cache: Map<Seq<char>, NodeRecord>,
    st: WalkState,
)
    requires
        st.map == cache,
        forall|i: int| 0 <= i < st.stack.len() ==> is_rooted(fs, cache, cache, None, #[trigger] st.stack[i]),
        has_sound_pairs(cache),
        is_on_disk(fs, cache),
        names_dirs_as_dirs(fs),
        lists_children(fs),
    ensures
        has_sound_pairs(walk_run(fs, cache, st).0.map),
{
    lemma_run_sound(fs, cache, st);
    let m = walk_run(fs, cache, st).0.map;
    assert forall|p: Seq<char>| #[trigger] m.contains_key(p) implies (parent_of(p) matches Some(q) ==> (
    m.contains_key(q) && m[q].is_allowed ==> at_least(m[q], m[p]))) by {
        match parent_of(p) {
            None => {},
            Some(q) => {
                if m.contains_key(q) && m[q].is_allowed {
                    if cache.contains_key(p) {
                        if !cache.contains_key(q) {
                            assert(is_complete(cache, m, q));
                        }
                    }
                }
            },
        }
    }
}

/// A path without a parent is rooted.
pub proof fn lemma_parentless_rooted(
    fs: Map<Seq<char>, Probe>,
    cache: Map<Seq<char>, NodeRecord>,
    m: Map<Seq<char>, NodeRecord>,
    path: Seq<char>,
)
    requires
        parent_of(path) is None,
    ensures
        is_rooted(fs, cache, m, None, path),
{
    lemma_ancestors(path);
    if ancestors(path).len() > 1 {
        assert(parent_of(ancestors(path)[0]) == Some(ancestors(path)[1]));
    }
}

/// With no cache at all, a walk from start points without a parent leaves
/// every parent that no step has marked as unreadable at least as big as
/// its child.
pub proof fn lemma_fresh_walk_sound_pairs(fs: Map<Seq<char>, Probe>, st: WalkState)
    requires
        st.map == Map::<Seq<char>, NodeRecord>::empty(),
        forall|i: int| 0 <= i < st.stack.len() ==> parent_of(#[trigger] st.stack[i]) is None,
        names_dirs_as_dirs(fs),
        lists_children(fs),
    ensures
        has_sound_pairs(walk_run(fs, Map::<Seq<char>, NodeRecord>::empty(), st).0.map),
{
    let cache = Map::<Seq<char>, NodeRecord>::empty();
    assert forall|i: int| 0 <= i < st.stack.len() implies is_rooted(fs, cache, cache, None, #[trigger] st.stack[i]) by {
        lemma_parentless_rooted(fs, cache, cache, st.stack[i]);
    }
    lemma_walk_sound_pairs(fs, cache, st);
}

} // verus!
