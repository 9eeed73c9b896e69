//! The walk over a snapshot that rebuilds the aggregates.

use vstd::prelude::*;
use crate::deep::{deep_size, pure_walk};
use crate::fault::{Fault, WalkError};
use crate::fsview::{stamp_of, DirEntry, FsSnapshot, Probe};
use crate::path::{ancestors, lemma_ancestors, lemma_parent_shorter, parent, parent_of};
use crate::policy::{is_ignored, is_opaque_leaf, is_script, treat_as_file, treat_as_ignore, treat_as_script};
use crate::record::NodeRecord;
use crate::store::{order_put, order_put_all, put_key, views, AggregateStore};
use crate::text::push_char;

verus! {

/// The record of `key` in `m`, or the zero record where it has none.
pub open spec fn entry_or_zero(m: Map<Seq<char>, NodeRecord>, key: Seq<char>) -> NodeRecord {
    if m.contains_key(key) {
        m[key]
    } else {
        NodeRecord::zero()
    }
}

/// The stamp that an accumulation from `path` writes at `key`: the caller's
/// for `path` itself, the snapshot's for an ancestor.
pub open spec fn chain_stamp(fs: Map<Seq<char>, Probe>, path: Seq<char>, own: u64, key: Seq<char>) -> u64 {
    if key == path {
        own
    } else {
        match stamp_of(fs, key) {
            Some(t) => t,
            None => 0,
        }
    }
}

/// `m` after `contribution` has been merged into `path` and into every
/// ancestor of `path`.
pub open spec fn accumulated(
    m: Map<Seq<char>, NodeRecord>,
    path: Seq<char>,
    contribution: NodeRecord,
    own: u64,
    fs: Map<Seq<char>, Probe>,
) -> Map<Seq<char>, NodeRecord> {
    Map::new(
        |k: Seq<char>| m.contains_key(k) || ancestors(path).contains(k),
        |k: Seq<char>|
            if ancestors(path).contains(k) {
                entry_or_zero(m, k).merged(contribution, chain_stamp(fs, path, own, k))
            } else {
                m[k]
            },
    )
}

/// The nearest proper ancestor of `path` for which `fs` holds no stamp.
pub open spec fn first_unstamped(fs: Map<Seq<char>, Probe>, path: Seq<char>) -> Option<Seq<char>>
    decreases path.len(),
{
    proof {
        lemma_parent_shorter(path);
    }
    match parent_of(path) {
        None => None,
        Some(q) => if stamp_of(fs, q) is None {
            Some(q)
        } else {
            first_unstamped(fs, q)
        },
    }
}

/// Whether `contribution` can be added at `path` and at each of its
/// ancestors without overflow.
pub open spec fn chain_fits(m: Map<Seq<char>, NodeRecord>, path: Seq<char>, contribution: NodeRecord) -> bool {
    forall|i: int|
        0 <= i < ancestors(path).len() ==> entry_or_zero(m, #[trigger] ancestors(path)[i]).fits(
            contribution,
        )
}

/// What is wrong with the stamps above `path`, if anything: the nearest
/// ancestor without one has either not been looked at or is gone.
pub open spec fn chain_fault(fs: Map<Seq<char>, Probe>, path: Seq<char>) -> Option<Fault> {
    match first_unstamped(fs, path) {
        Some(q) => if fs.contains_key(q) {
            Some(Fault::Vanished(q))
        } else {
            Some(Fault::Unknown(q))
        },
        None => None,
    }
}

/// What stops an accumulation from `path` upwards, if anything does.
pub open spec fn accumulate_fault(
    m: Map<Seq<char>, NodeRecord>,
    path: Seq<char>,
    contribution: NodeRecord,
    fs: Map<Seq<char>, Probe>,
) -> Option<Fault> {
    match chain_fault(fs, path) {
        Some(f) => Some(f),
        None => if chain_fits(m, path, contribution) {
            None
        } else {
            Some(Fault::Overflow)
        },
    }
}

/// Checks that `fs` holds a stamp for every proper ancestor of `path`.
pub fn check_chain(path: &str, fs: &FsSnapshot) -> (r: Result<(), WalkError>)
    ensures
        match chain_fault(fs@, path@) {
            None => r is Ok,
            Some(f) => r matches Err(e) && e@ == f,
        },
{
    let mut next = parent(path);
    let ghost mut cur = path@;
    loop
        invariant
            match next {
                Some(q) => parent_of(cur) == Some(q@),
                None => parent_of(cur) is None,
            },
            first_unstamped(fs@, path@) == first_unstamped(fs@, cur),
        decreases cur.len(),
    {
        proof {
            lemma_parent_shorter(cur);
        }
        match next {
            None => {
                return Ok(());
            },
            Some(q) => {
                match fs.probe(q.as_str()) {
                    None => {
                        return Err(WalkError::Unknown(q));
                    },
                    Some(Probe::Missing) => {
                        return Err(WalkError::Vanished(q));
                    },
                    Some(_) => {},
                }
                proof {
                    cur = q@;
                }
                next = parent(q.as_str());
            },
        }
    }
}

/// `path` and its ancestors, each with the stamp that an accumulation from
/// `path` writes there.
pub fn chain_of(path: &str, modified: u64, fs: &FsSnapshot) -> (r: Result<(Vec<String>, Vec<u64>), WalkError>)
    ensures
        match chain_fault(fs@, path@) {
            None => r matches Ok(found) && views(found.0@) == ancestors(path@) && found.1.len()
                == found.0.len() && (forall|j: int|
                0 <= j < found.1.len() ==> found.1[j] == chain_stamp(
                    fs@,
                    path@,
                    modified,
                    #[trigger] ancestors(path@)[j],
                )),
            Some(f) => r matches Err(e) && e@ == f,
        },
{
    let ghost anc = ancestors(path@);
    proof {
        lemma_ancestors(path@);
    }
    let mut chain: Vec<String> = Vec::new();
    let mut stamps: Vec<u64> = Vec::new();
    let mut cur: String = path.to_owned();
    let mut stamp: u64 = modified;
    let mut done: bool = false;
    assert(views(chain@) =~= anc.take(0));
    while !done
        invariant
            anc == ancestors(path@),
            chain.len() == stamps.len(),
            chain.len() <= anc.len(),
            !done ==> chain.len() < anc.len() && cur@ == anc[chain.len() as int],
            done ==> chain.len() == anc.len(),
            views(chain@) == anc.take(chain.len() as int),
            forall|j: int|
                0 <= j < stamps.len() ==> stamps[j] == chain_stamp(
                    fs@,
                    path@,
                    modified,
                    #[trigger] anc[j],
                ),
            !done ==> stamp == chain_stamp(fs@, path@, modified, cur@),
            !done ==> first_unstamped(fs@, path@) == first_unstamped(fs@, cur@),
            done ==> first_unstamped(fs@, path@) is None,
        decreases anc.len() - chain.len(),
    {
        let ghost n = chain.len() as int;
        proof {
            lemma_ancestors(path@);
        }
        let next = parent(cur.as_str());
        let ghost here = cur@;
        let ghost before = chain@;
        chain.push(cur);
        stamps.push(stamp);
        assert(views(chain@) =~= anc.take(n + 1)) by {
            assert(views(chain@) =~= views(before).push(here));
            assert(anc.take(n + 1) =~= anc.take(n).push(anc[n]));
        }
        match next {
            None => {
                cur = String::new();
                done = true;
                assert(n == anc.len() - 1);
            },
            Some(q) => {
                assert(n < anc.len() - 1);
                assert(q@ == anc[n + 1]);
                assert(anc[n + 1].len() < anc[0].len());
                match fs.probe(q.as_str()) {
                    None => {
                        return Err(WalkError::Unknown(q));
                    },
                    Some(Probe::Missing) => {
                        return Err(WalkError::Vanished(q));
                    },
                    Some(Probe::File { modified: t, .. }) => {
                        stamp = *t;
                    },
                    Some(Probe::Dir { modified: t, .. }) => {
                        stamp = *t;
                    },
                }
                cur = q;
            },
        }
    }
    assert(anc.take(chain.len() as int) =~= anc);
    Ok((chain, stamps))
}

/// Whether `cur` is `m` with the contribution merged into the first `n` of
/// the ancestors of `path`.
pub open spec fn written_upto(
    m: Map<Seq<char>, NodeRecord>,
    cur: Map<Seq<char>, NodeRecord>,
    path: Seq<char>,
    n: int,
    contribution: NodeRecord,
    own: u64,
    fs: Map<Seq<char>, Probe>,
) -> bool {
    let done = ancestors(path).take(n);
    &&& forall|k: Seq<char>| #[trigger] cur.contains_key(k) <==> m.contains_key(k) || done.contains(k)
    &&& forall|k: Seq<char>|
        done.contains(k) ==> #[trigger] cur[k] == entry_or_zero(m, k).merged(
            contribution,
            chain_stamp(fs, path, own, k),
        )
    &&& forall|k: Seq<char>| !done.contains(k) && m.contains_key(k) ==> #[trigger] cur[k] == m[k]
}

/// Before anything is written the map is as it was.
pub proof fn lemma_written_none(
    m: Map<Seq<char>, NodeRecord>,
    path: Seq<char>,
    contribution: NodeRecord,
    own: u64,
    fs: Map<Seq<char>, Probe>,
)
    ensures
        written_upto(m, m, path, 0, contribution, own, fs),
{
    assert(ancestors(path).take(0) =~= Seq::empty());
}

/// Writing the merged record of the next ancestor takes the map one
/// ancestor further, and that ancestor has not been written before.
pub proof fn lemma_written_step(
    m: Map<Seq<char>, NodeRecord>,
    cur: Map<Seq<char>, NodeRecord>,
    path: Seq<char>,
    n: int,
    contribution: NodeRecord,
    own: u64,
    fs: Map<Seq<char>, Probe>,
)
    requires
        0 <= n < ancestors(path).len(),
        written_upto(m, cur, path, n, contribution, own, fs),
    ensures
        entry_or_zero(cur, ancestors(path)[n]) == entry_or_zero(m, ancestors(path)[n]),
        written_upto(
            m,
            cur.insert(
                ancestors(path)[n],
                entry_or_zero(m, ancestors(path)[n]).merged(
                    contribution,
                    chain_stamp(fs, path, own, ancestors(path)[n]),
                ),
            ),
            path,
            n + 1,
            contribution,
            own,
            fs,
        ),
{
    let anc = ancestors(path);
    let seen = anc.take(n);
    let next = anc.take(n + 1);
    let key = anc[n];
    lemma_ancestors(path);
    assert(!seen.contains(key)) by {
        if seen.contains(key) {
            let j = choose|j: int| 0 <= j < seen.len() && seen[j] == key;
            assert(anc[n].len() < anc[j].len());
        }
    }
    assert forall|k: Seq<char>| next.contains(k) <==> seen.contains(k) || k == key by {
        if seen.contains(k) {
            let j = choose|j: int| 0 <= j < seen.len() && seen[j] == k;
            assert(next[j] == k);
        }
        if next.contains(k) {
            let j = choose|j: int| 0 <= j < next.len() && next[j] == k;
            if j < n {
                assert(seen[j] == k);
            }
        }
        assert(next[n] == key);
    }
    let value = entry_or_zero(m, key).merged(contribution, chain_stamp(fs, path, own, key));
    let after = cur.insert(key, value);
    assert forall|k: Seq<char>| #[trigger] after.contains_key(k) <==> m.contains_key(k)
        || next.contains(k) by {
        if k != key {
            assert(after.contains_key(k) == cur.contains_key(k));
        }
    }
    assert forall|k: Seq<char>| next.contains(k) implies #[trigger] after[k] == entry_or_zero(
        m,
        k,
    ).merged(contribution, chain_stamp(fs, path, own, k)) by {
        if k != key {
            assert(seen.contains(k));
            assert(after[k] == cur[k]);
        }
    }
    assert forall|k: Seq<char>| !next.contains(k) && m.contains_key(k) implies #[trigger] after[k]
        == m[k] by {
        assert(!seen.contains(k));
        assert(after[k] == cur[k]);
    }
}

/// When every ancestor has been written the accumulation is done.
pub proof fn lemma_written_all(
    m: Map<Seq<char>, NodeRecord>,
    cur: Map<Seq<char>, NodeRecord>,
    path: Seq<char>,
    contribution: NodeRecord,
    own: u64,
    fs: Map<Seq<char>, Probe>,
)
    requires
        written_upto(m, cur, path, ancestors(path).len() as int, contribution, own, fs),
    ensures
        cur == accumulated(m, path, contribution, own, fs),
{
    assert(ancestors(path).take(ancestors(path).len() as int) =~= ancestors(path));
    assert(cur =~= accumulated(m, path, contribution, own, fs));
}

/// The store that a walk fills.
pub struct _Storage {
    _map: AggregateStore,
}

impl View for _Storage {
    type V = Map<Seq<char>, NodeRecord>;

    closed spec fn view(&self) -> Self::V {
        self._map@
    }
}

impl _Storage {
    /// The keys in the order in which they were first written.
    pub closed spec fn order(&self) -> Seq<Seq<char>> {
        self._map.order()
    }

    /// The store inside is well formed.
    pub closed spec fn wf(&self) -> bool {
        self._map.wf()
    }

    /// An empty store.
    pub fn new() -> (s: Self)
        ensures
            s.wf(),
            s@ == Map::<Seq<char>, NodeRecord>::empty(),
            s.order() == Seq::<Seq<char>>::empty(),
    {
        _Storage { _map: AggregateStore::new() }
    }

    /// Hands out the store that was filled.
    pub fn consume(self) -> (m: AggregateStore)
        requires
            self.wf(),
        ensures
            m.wf(),
            m@ == self@,
            m.order() == self.order(),
    {
        self._map
    }

    /// Copies every entry of `cache` into the store, over what is there.
    pub fn load_cache(&mut self, cache: &AggregateStore)
        requires
            old(self).wf(),
            cache.wf(),
        ensures
            final(self).wf(),
            final(self)@ == old(self)@.union_prefer_right(cache@),
            final(self).order() == order_put_all(old(self).order(), cache.order()),
    {
        self.merge(cache)
    }

    /// Copies every entry of `cache` into the store, over what is there.
    pub fn merge(&mut self, cache: &AggregateStore)
        requires
            old(self).wf(),
            cache.wf(),
        ensures
            final(self).wf(),
            final(self)@ == old(self)@.union_prefer_right(cache@),
            final(self).order() == order_put_all(old(self).order(), cache.order()),
    {
        let n = cache.len();
        let ghost put = put_key();
        let mut i: usize = 0;
        while i < n
            invariant
                n == cache.order().len(),
                i <= n,
                cache.wf(),
                self.wf(),
                put == put_key(),
                self.order() == cache.order().take(i as int).fold_left(old(self).order(), put),
                forall|k: Seq<char>| #[trigger]
                    self@.contains_key(k) <==> old(self)@.contains_key(k) || cache.order().take(
                        i as int,
                    ).contains(k),
                forall|k: Seq<char>|
                    cache.order().take(i as int).contains(k) ==> #[trigger] self@[k] == cache@[k],
                forall|k: Seq<char>|
                    !cache.order().take(i as int).contains(k) ==> #[trigger] self@[k] == old(self)@[k],
            decreases n - i,
        {
            let key = cache.key(i);
            let ghost seen = cache.order().take(i as int);
            let ghost next = cache.order().take(i + 1);
            proof {
                cache.lemma_wf();
                assert(cache.order().contains(key@));
                assert(next.drop_last() =~= seen);
                assert(next.last() == key@);
                assert forall|k: Seq<char>| next.contains(k) <==> seen.contains(k) || k == key@ by {
                    if seen.contains(k) {
                        let j = choose|j: int| 0 <= j < seen.len() && seen[j] == k;
                        assert(next[j] == k);
                    }
                    if next.contains(k) {
                        let j = choose|j: int| 0 <= j < next.len() && next[j] == k;
                        if j < i {
                            assert(seen[j] == k);
                        }
                    }
                    assert(next[i as int] == key@);
                }
            }
            let value = match cache.get(key.as_str()) {
                Some(v) => v,
                None => NodeRecord::default(),
            };
            let ghost before = self@;
            self._map.insert(key.clone(), value);
            i += 1;
            proof {
                assert(cache.order().take(i as int) == next);
                assert(self@ == before.insert(key@, value));
                assert(cache@.contains_key(key@));
                assert(value == cache@[key@]);
                assert forall|k: Seq<char>| #[trigger]
                    self@.contains_key(k) <==> old(self)@.contains_key(k) || next.contains(k) by {
                    if k != key@ {
                        assert(self@.contains_key(k) == before.contains_key(k));
                    }
                }
                assert forall|k: Seq<char>| next.contains(k) implies #[trigger] self@[k] == cache@[k] by {
                    if k != key@ {
                        assert(seen.contains(k));
                        assert(before[k] == cache@[k]);
                    }
                }
                assert forall|k: Seq<char>| !next.contains(k) implies #[trigger] self@[k] == old(self)@[k] by {
                    assert(!seen.contains(k));
                    assert(k != key@);
                    assert(before[k] == old(self)@[k]);
                }
            }
        }
        proof {
            assert(cache.order().take(n as int) =~= cache.order());
            cache.lemma_wf();
            assert(self@ =~= old(self)@.union_prefer_right(cache@));
        }
    }

    /// Merges `adder` into the record of `path` and of every ancestor of
    /// `path`, creating records where there are none: size and script count
    /// grow by those of `adder`, the stamp of `path` becomes `modified`, that
    /// of an ancestor what `fs` holds for it, and each path counts as
    /// listable. Where an ancestor has no stamp in `fs` or a sum would
    /// overflow, nothing changes and the error says which.
    pub fn accumulate(&mut self, path: &str, adder: &NodeRecord, modified: u64, fs: &FsSnapshot) -> (r:
        Result<(), WalkError>)
        requires
            old(self).wf(),
        ensures
            final(self).wf(),
            match accumulate_fault(old(self)@, path@, *adder, fs@) {
                None => r is Ok && final(self)@ == accumulated(
                    old(self)@,
                    path@,
                    *adder,
                    modified,
                    fs@,
                ) && final(self).order() == order_put_all(old(self).order(), ancestors(path@)),
                Some(f) => r matches Err(e) && e@ == f && final(self)@ == old(self)@ && final(self).order() == old(self).order(),
            },
    {
        let ghost anc = ancestors(path@);
        let ghost m0 = self@;
        let ghost o0 = self.order();
        let (chain, stamps) = match chain_of(path, modified, fs) {
            Ok(found) => found,
            Err(e) => {
                return Err(e);
            },
        };
        let mut merged: Vec<NodeRecord> = Vec::new();
        let mut i: usize = 0;
        while i < chain.len()
            invariant
                i <= chain.len(),
                merged.len() == i,
                self.wf(),
                self@ == m0,
                self.order() == o0,
                m0 == old(self)@,
                o0 == old(self).order(),
                chain_fault(fs@, path@) is None,
                views(chain@) == ancestors(path@),
                chain.len() == stamps.len(),
                forall|j: int|
                    0 <= j < i ==> entry_or_zero(m0, #[trigger] ancestors(path@)[j]).fits(*adder)
                        && merged[j] == entry_or_zero(m0, ancestors(path@)[j]).merged(
                        *adder,
                        stamps[j],
                    ),
            decreases chain.len() - i,
        {
            assert(views(chain@)[i as int] == chain[i as int]@);
            let have = match self._map.get(chain[i].as_str()) {
                Some(v) => v,
                None => NodeRecord::default(),
            };
            if !have.can_add(adder) {
                assert(!entry_or_zero(m0, ancestors(path@)[i as int]).fits(*adder));
                return Err(WalkError::Overflow);
            }
            merged.push(
                NodeRecord::with(
                    have.size + adder.size,
                    stamps[i],
                    have.script_count + adder.script_count,
                    true,
                ),
            );
            i += 1;
        }
        let ghost put = put_key();
        let mut i: usize = 0;
        proof {
            lemma_written_none(m0, path@, *adder, modified, fs@);
            assert(anc.take(0).fold_left(o0, put) == o0);
        }
        while i < chain.len()
            invariant
                i <= chain.len(),
                self.wf(),
                anc == ancestors(path@),
                views(chain@) == anc,
                chain.len() == stamps.len(),
                chain.len() == merged.len(),
                forall|j: int|
                    0 <= j < chain.len() ==> stamps[j] == chain_stamp(
                        fs@,
                        path@,
                        modified,
                        #[trigger] anc[j],
                    ),
                forall|j: int|
                    0 <= j < chain.len() ==> merged[j] == entry_or_zero(m0, #[trigger] anc[j]).merged(
                        *adder,
                        stamps[j],
                    ),
                put == put_key(),
                self.order() == anc.take(i as int).fold_left(o0, put),
                written_upto(m0, self@, path@, i as int, *adder, modified, fs@),
            decreases chain.len() - i,
        {
            proof {
                assert(views(chain@)[i as int] == chain[i as int]@);
                assert(anc.take(i + 1).drop_last() =~= anc.take(i as int));
                assert(anc.take(i + 1).last() == anc[i as int]);
                lemma_written_step(m0, self@, path@, i as int, *adder, modified, fs@);
            }
            self._map.insert(chain[i].clone(), merged[i]);
            i += 1;
        }
        proof {
            assert(anc.take(i as int) =~= anc);
            lemma_written_all(m0, self@, path@, *adder, modified, fs@);
        }
        Ok(())
    }

    /// Merges `adder` into the record of every proper ancestor of `path`, as
    /// `accumulate` does from the parent of `path` on. The record of `path`
    /// itself stays as it is. This is how a path that the cache holds is
    /// counted: it has been measured, and its record is in the store already.
    pub fn accumulate_above(&mut self, path: &str, adder: &NodeRecord, fs: &FsSnapshot) -> (r: Result<
        (),
        WalkError,
    >)
        requires
            old(self).wf(),
        ensures
            final(self).wf(),
            match above_fault(old(self)@, path@, *adder, fs@) {
                None => r is Ok && final(self)@ == accumulated_above(old(self)@, path@, *adder, fs@)
                    && final(self).order() == order_above(old(self).order(), path@),
                Some(f) => r matches Err(e) && e@ == f && final(self)@ == old(self)@ && final(self).order()
                    == old(self).order(),
            },
    {
        let above = match parent(path) {
            Some(q) => q,
            None => {
                return Ok(());
            },
        };
        match fs.probe(above.as_str()) {
            None => Err(WalkError::Unknown(above)),
            Some(Probe::Missing) => Err(WalkError::Vanished(above)),
            Some(Probe::File { modified, .. }) => self.accumulate(above.as_str(), adder, *modified, fs),
            Some(Probe::Dir { modified, .. }) => self.accumulate(above.as_str(), adder, *modified, fs),
        }
    }

    /// Marks `path` as a directory that could not be listed: its sums are
    /// zero and its stamp is `modified`. No other entry changes.
    pub fn not_allowed(&mut self, path: &str, modified: u64)
        requires
            old(self).wf(),
        ensures
            final(self).wf(),
            final(self)@ == old(self)@.insert(path@, NodeRecord::unreadable(modified)),
            final(self).order() == order_put(old(self).order(), path@),
    {
        self._map.insert(path.to_owned(), NodeRecord::with(0, modified, 0, false));
    }
}

/// A walk in progress, as a mathematical value.
pub struct WalkState {
    /// Directories still to be expanded; the last one is next.
    pub stack: Seq<Seq<char>>,
    /// The records gathered so far.
    pub map: Map<Seq<char>, NodeRecord>,
    /// The keys of `map`, oldest first.
    pub order: Seq<Seq<char>>,
    /// How many more paths may be taken from the stack.
    pub steps: nat,
}

/// The size with which an entry that is not entered is counted: for an
/// opaque leaf the length of everything beneath it, for anything else its
/// own length.
pub open spec fn leaf_size(fs: Map<Seq<char>, Probe>, entry: DirEntry) -> Result<u64, Fault> {
    if is_opaque_leaf(entry.path@) {
        deep_size(fs, seq![entry.path@], entry.len, STEP_LIMIT as nat)
    } else {
        Ok(entry.len)
    }
}

/// What a file, or a directory measured as one unit, contributes where its
/// size is `size`.
pub open spec fn leaf_record(entry: DirEntry, size: u64) -> NodeRecord {
    NodeRecord {
        size,
        last_modified: entry.modified,
        script_count: if is_script(entry.path@) {
            1
        } else {
            0
        },
        is_allowed: true,
    }
}

/// `st` after `contribution` has been accumulated from `path` upwards.
pub open spec fn accumulate_into(
    fs: Map<Seq<char>, Probe>,
    st: WalkState,
    path: Seq<char>,
    contribution: NodeRecord,
    own: u64,
) -> Result<WalkState, Fault> {
    match accumulate_fault(st.map, path, contribution, fs) {
        Some(f) => Err(f),
        None => Ok(
            WalkState {
                map: accumulated(st.map, path, contribution, own, fs),
                order: order_put_all(st.order, ancestors(path)),
                ..st
            },
        ),
    }
}

/// The stamp that `fs` holds for `path`; 0 where it holds none.
pub open spec fn stamp_or_zero(fs: Map<Seq<char>, Probe>, path: Seq<char>) -> u64 {
    match stamp_of(fs, path) {
        Some(t) => t,
        None => 0,
    }
}

/// `m` after `contribution` has been merged into every proper ancestor of
/// `path`. The record of `path` itself stays as it is.
pub open spec fn accumulated_above(
    m: Map<Seq<char>, NodeRecord>,
    path: Seq<char>,
    contribution: NodeRecord,
    fs: Map<Seq<char>, Probe>,
) -> Map<Seq<char>, NodeRecord> {
    match parent_of(path) {
        None => m,
        Some(q) => accumulated(m, q, contribution, stamp_or_zero(fs, q), fs),
    }
}

/// The key order after every proper ancestor of `path` has been written.
pub open spec fn order_above(order: Seq<Seq<char>>, path: Seq<char>) -> Seq<Seq<char>> {
    match parent_of(path) {
        None => order,
        Some(q) => order_put_all(order, ancestors(q)),
    }
}

/// What stops an accumulation into the proper ancestors of `path`, if
/// anything does.
pub open spec fn above_fault(
    m: Map<Seq<char>, NodeRecord>,
    path: Seq<char>,
    contribution: NodeRecord,
    fs: Map<Seq<char>, Probe>,
) -> Option<Fault> {
    match chain_fault(fs, path) {
        Some(f) => Some(f),
        None => match parent_of(path) {
            None => None,
            Some(q) => if chain_fits(m, q, contribution) {
                None
            } else {
                Some(Fault::Overflow)
            },
        },
    }
}

/// `st` after the record that the cache holds for `path` has been counted
/// into the proper ancestors of `path`.
pub open spec fn reuse_into(
    fs: Map<Seq<char>, Probe>,
    st: WalkState,
    path: Seq<char>,
    contribution: NodeRecord,
) -> Result<WalkState, Fault> {
    match above_fault(st.map, path, contribution, fs) {
        Some(f) => Err(f),
        None => Ok(
            WalkState {
                map: accumulated_above(st.map, path, contribution, fs),
                order: order_above(st.order, path),
                ..st
            },
        ),
    }
}

/// What is done with one entry of a listing.
#[derive(Clone, Copy, Debug, PartialEq, Eq, Structural)]
pub enum EntryAction {
    /// The entry is ignored: nothing is done.
    Skip,
    /// The entry is a directory that is entered later.
    Descend,
    /// The entry is new: the record is accumulated from the entry upwards.
    Contribute(NodeRecord),
    /// The cache holds the entry: its record stays as it is and is counted
    /// into the directories above it.
    Reuse(NodeRecord),
}

/// What is done with `entry`: an ignored entry is passed over, a cached one
/// is counted into the directories above it, a directory waits to be
/// entered, and anything else contributes itself.
pub open spec fn action_for(
    cache: Map<Seq<char>, NodeRecord>,
    fs: Map<Seq<char>, Probe>,
    entry: DirEntry,
) -> Result<EntryAction, Fault> {
    let path = entry.path@;
    if is_ignored(path) {
        Ok(EntryAction::Skip)
    } else if cache.contains_key(path) {
        Ok(EntryAction::Reuse(cache[path]))
    } else if entry.is_dir && !is_opaque_leaf(path) {
        Ok(EntryAction::Descend)
    } else {
        match leaf_size(fs, entry) {
            Ok(size) => Ok(EntryAction::Contribute(leaf_record(entry, size))),
            Err(f) => Err(f),
        }
    }
}

/// Decides what is done with `entry`. An opaque leaf is measured here, over
/// `fs`, and what stops that measuring stops the decision.
pub fn entry_action(cache: &AggregateStore, fs: &FsSnapshot, entry: &DirEntry) -> (r: Result<
    EntryAction,
    WalkError,
>)
    ensures
        match action_for(cache@, fs@, *entry) {
            Ok(action) => r matches Ok(a) && a == action,
            Err(f) => r matches Err(e) && e@ == f,
        },
{
    let path = entry.path.as_str();
    if treat_as_ignore(path) {
        return Ok(EntryAction::Skip);
    }
    match cache.get(path) {
        Some(cached) => {
            return Ok(EntryAction::Reuse(cached));
        },
        None => {},
    }
    let opaque = treat_as_file(path);
    if entry.is_dir && !opaque {
        return Ok(EntryAction::Descend);
    }
    let size = if opaque {
        match pure_walk(entry, fs, STEP_LIMIT) {
            Ok(size) => size,
            Err(e) => {
                return Err(e);
            },
        }
    } else {
        entry.len
    };
    let scripts: u64 = if treat_as_script(path) {
        1
    } else {
        0
    };
    Ok(EntryAction::Contribute(NodeRecord::with(size, entry.modified, scripts, true)))
}

/// `st` after one entry of a listing has been dealt with: an ignored entry
/// is passed over, a cached one is counted into the directories above it, a
/// directory waits on the stack, and anything else contributes itself.
pub open spec fn entry_step(
    fs: Map<Seq<char>, Probe>,
    cache: Map<Seq<char>, NodeRecord>,
    st: WalkState,
    entry: DirEntry,
) -> Result<WalkState, Fault> {
    match action_for(cache, fs, entry) {
        Err(f) => Err(f),
        Ok(EntryAction::Skip) => Ok(st),
        Ok(EntryAction::Descend) => Ok(WalkState { stack: st.stack.push(entry.path@), ..st }),
        Ok(EntryAction::Contribute(record)) => accumulate_into(
            fs,
            st,
            entry.path@,
            record,
            entry.modified,
        ),
        Ok(EntryAction::Reuse(record)) => reuse_into(fs, st, entry.path@, record),
    }
}

/// `st` after each of `entries` has been dealt with in turn.
pub open spec fn expanded(
    fs: Map<Seq<char>, Probe>,
    cache: Map<Seq<char>, NodeRecord>,
    st: WalkState,
    entries: Seq<DirEntry>,
) -> Result<WalkState, Fault>
    decreases entries.len(),
{
    if entries.len() == 0 {
        Ok(st)
    } else {
        match expanded(fs, cache, st, entries.drop_last()) {
            Err(f) => Err(f),
            Ok(s) => entry_step(fs, cache, s, entries.last()),
        }
    }
}

/// Whether dealing with `entry` accumulates anything.
pub open spec fn contributes(
    cache: Map<Seq<char>, NodeRecord>,
    fs: Map<Seq<char>, Probe>,
    entry: DirEntry,
) -> bool {
    action_for(cache, fs, entry) matches Ok(action) && (action is Contribute || action is Reuse)
}

/// The first fault among the decisions on `entries` and the stamps that
/// they will need.
pub open spec fn listing_fault(
    fs: Map<Seq<char>, Probe>,
    cache: Map<Seq<char>, NodeRecord>,
    entries: Seq<DirEntry>,
) -> Option<Fault>
    decreases entries.len(),
{
    if entries.len() == 0 {
        None
    } else {
        match listing_fault(fs, cache, entries.drop_last()) {
            Some(f) => Some(f),
            None => match action_for(cache, fs, entries.last()) {
                Err(f) => Some(f),
                Ok(_) => if contributes(cache, fs, entries.last()) {
                    chain_fault(fs, entries.last().path@)
                } else {
                    None
                },
            },
        }
    }
}

/// One step of the walk: the path on top of the stack is taken off and
/// dealt with. A path that the cache holds is not looked at: its record
/// stays and is counted into the directories above it. Of the others, a
/// path that is gone is passed over, a path that cannot be listed is marked
/// so, and a listed directory has its entries dealt with.
pub open spec fn walk_step(
    fs: Map<Seq<char>, Probe>,
    cache: Map<Seq<char>, NodeRecord>,
    st: WalkState,
) -> Result<WalkState, Fault>
    recommends
        st.stack.len() > 0,
{
    let path = st.stack.last();
    let rest = WalkState { stack: st.stack.drop_last(), ..st };
    if cache.contains_key(path) {
        reuse_into(fs, rest, path, cache[path])
    } else if !fs.contains_key(path) {
        Err(Fault::Unknown(path))
    } else {
        match fs[path] {
            Probe::Missing => Ok(rest),
            Probe::File { modified, .. } => Ok(unreadable_at(rest, path, modified)),
            Probe::Dir { modified, entries } => match entries {
                None => Ok(unreadable_at(rest, path, modified)),
                Some(es) => match listing_fault(fs, cache, es@) {
                    Some(f) => Err(f),
                    None => expanded(fs, cache, rest, es@),
                },
            },
        }
    }
}

/// `st` with `path` marked as a directory that could not be listed.
pub open spec fn unreadable_at(st: WalkState, path: Seq<char>, modified: u64) -> WalkState {
    WalkState {
        map: st.map.insert(path, NodeRecord::unreadable(modified)),
        order: order_put(st.order, path),
        ..st
    }
}

/// The walk from `st` on: steps are taken until the stack is empty, a step
/// fails, or no steps are left. The state is the one reached before the
/// step that failed.
pub open spec fn walk_run(
    fs: Map<Seq<char>, Probe>,
    cache: Map<Seq<char>, NodeRecord>,
    st: WalkState,
) -> (WalkState, Option<Fault>)
    decreases st.steps,
{
    if st.stack.len() == 0 {
        (st, None)
    } else if st.steps == 0 {
        (st, Some(Fault::StepLimit))
    } else {
        match walk_step(fs, cache, st) {
            Err(f) => (st, Some(f)),
            Ok(next) => walk_run(fs, cache, WalkState { steps: (st.steps - 1) as nat, ..next }),
        }
    }
}

/// Checks the decisions on the entries of a listing and the stamps that
/// they will need.
pub fn check_listing(cache: &AggregateStore, fs: &FsSnapshot, entries: &Vec<DirEntry>) -> (r: Result<
    (),
    WalkError,
>)
    ensures
        match listing_fault(fs@, cache@, entries@) {
            None => r is Ok,
            Some(f) => r matches Err(e) && e@ == f,
        },
{
    let mut i: usize = 0;
    while i < entries.len()
        invariant
            i <= entries.len(),
            listing_fault(fs@, cache@, entries@.take(i as int)) is None,
        decreases entries.len() - i,
    {
        let entry = &entries[i];
        let path = entry.path.as_str();
        proof {
            assert(entries@.take(i + 1).drop_last() =~= entries@.take(i as int));
            assert(entries@.take(i + 1).last() == entries@[i as int]);
        }
        let needed = match entry_action(cache, fs, entry) {
            Ok(EntryAction::Contribute(_)) => true,
            Ok(EntryAction::Reuse(_)) => true,
            Ok(_) => false,
            Err(e) => {
                proof {
                    lemma_listing_fault_prefix(fs@, cache@, entries@, i + 1);
                }
                return Err(e);
            },
        };
        if needed {
            match check_chain(path, fs) {
                Ok(()) => {},
                Err(e) => {
                    proof {
                        lemma_listing_fault_prefix(fs@, cache@, entries@, i + 1);
                    }
                    return Err(e);
                },
            }
        }
        i += 1;
    }
    assert(entries@.take(i as int) =~= entries@);
    Ok(())
}

/// A walk in progress.
pub struct Walker {
    stack: Vec<String>,
    storage: _Storage,
    steps: u64,
}

impl View for Walker {
    type V = WalkState;

    closed spec fn view(&self) -> WalkState {
        WalkState {
            stack: views(self.stack@),
            map: self.storage@,
            order: self.storage.order(),
            steps: self.steps as nat,
        }
    }
}

impl Walker {
    /// The store inside is well formed.
    pub closed spec fn wf(&self) -> bool {
        self.storage.wf()
    }

    /// A walk that starts from `start_points`, the last of them first, with
    /// every entry of `cache` already in its store, and may take `steps`
    /// paths from its stack.
    pub fn new(start_points: Vec<String>, cache: &AggregateStore, steps: u64) -> (w: Self)
        requires
            cache.wf(),
        ensures
            w.wf(),
            w@ == (WalkState {
                stack: views(start_points@),
                map: cache@,
                order: cache.order(),
                steps: steps as nat,
            }),
    {
        let mut storage = _Storage::new();
        storage.merge(cache);
        proof {
            lemma_put_all_fresh(cache);
            assert(storage@ =~= cache@);
        }
        Walker { stack: start_points, storage, steps }
    }

    /// Deals with each entry of a listing in turn.
    fn expand(&mut self, cache: &AggregateStore, fs: &FsSnapshot, entries: &Vec<DirEntry>) -> (r:
        Result<(), WalkError>)
        requires
            old(self).wf(),
            cache.wf(),
            listing_fault(fs@, cache@, entries@) is None,
        ensures
            final(self).wf(),
            final(self)@.steps == old(self)@.steps,
            match expanded(fs@, cache@, old(self)@, entries@) {
                Ok(next) => r is Ok && final(self)@ == next,
                Err(f) => r matches Err(e) && e@ == f && f == Fault::Overflow,
            },
    {
        let mut i: usize = 0;
        while i < entries.len()
            invariant
                i <= entries.len(),
                self.wf(),
                cache.wf(),
                self.steps == old(self).steps,
                listing_fault(fs@, cache@, entries@) is None,
                expanded(fs@, cache@, old(self)@, entries@.take(i as int)) == Ok::<WalkState, Fault>(
                    self@,
                ),
            decreases entries.len() - i,
        {
            let entry = &entries[i];
            let path = entry.path.as_str();
            let ghost before = self@;
            proof {
                assert(entries@.take(i + 1).drop_last() =~= entries@.take(i as int));
                assert(entries@.take(i + 1).last() == entries@[i as int]);
                lemma_listing_fault_all(fs@, cache@, entries@, i as int);
            }
            let action = match entry_action(cache, fs, entry) {
                Ok(action) => action,
                Err(e) => {
                    return Err(e);
                },
            };
            let outcome = match action {
                EntryAction::Skip => Ok(()),
                EntryAction::Descend => {
                    let ghost stack = self.stack@;
                    self.stack.push(entry.path.clone());
                    assert(views(self.stack@) =~= views(stack).push(path@));
                    Ok(())
                },
                EntryAction::Contribute(record) => self.storage.accumulate(
                    path,
                    &record,
                    entry.modified,
                    fs,
                ),
                EntryAction::Reuse(record) => self.storage.accumulate_above(path, &record, fs),
            };
            match outcome {
                Ok(()) => {
                    assert(entry_step(fs@, cache@, before, entries@[i as int]) == Ok::<
                        WalkState,
                        Fault,
                    >(self@));
                },
                Err(e) => {
                    proof {
                        assert(entry_step(fs@, cache@, before, entries@[i as int]) == Err::<
                            WalkState,
                            Fault,
                        >(Fault::Overflow));
                        lemma_expanded_prefix(fs@, cache@, old(self)@, entries@, i + 1);
                    }
                    return Err(e);
                },
            }
            i += 1;
        }
        assert(entries@.take(i as int) =~= entries@);
        Ok(())
    }

    /// Takes the path on top of the stack and deals with it. Where the step
    /// fails for another reason than an overflow, the walk is as it was.
    fn step(&mut self, cache: &AggregateStore, fs: &FsSnapshot) -> (r: Result<(), WalkError>)
        requires
            old(self).wf(),
            cache.wf(),
            old(self)@.stack.len() > 0,
        ensures
            final(self).wf(),
            final(self)@.steps == old(self)@.steps,
            match walk_step(fs@, cache@, old(self)@) {
                Ok(next) => r is Ok && final(self)@ == next,
                Err(f) => r matches Err(e) && e@ == f && (f != Fault::Overflow ==> final(self)@
                    == old(self)@),
            },
    {
        let n = self.stack.len();
        let path = self.stack[n - 1].clone();
        let ghost st = self@;
        let ghost rest = WalkState { stack: st.stack.drop_last(), ..st };
        assert(path@ == st.stack.last());
        match cache.get(path.as_str()) {
            Some(record) => {
                match self.storage.accumulate_above(path.as_str(), &record, fs) {
                    Ok(()) => {},
                    Err(e) => {
                        return Err(e);
                    },
                }
                self.stack.pop();
                assert(views(self.stack@) =~= st.stack.drop_last());
                return Ok(());
            },
            None => {},
        }
        let probe = match fs.probe(path.as_str()) {
            None => {
                return Err(WalkError::Unknown(path));
            },
            Some(p) => p,
        };
        match probe {
            Probe::Missing => {
                self.stack.pop();
                assert(views(self.stack@) =~= st.stack.drop_last());
                Ok(())
            },
            Probe::File { modified, .. } => {
                self.storage.not_allowed(path.as_str(), *modified);
                self.stack.pop();
                assert(views(self.stack@) =~= st.stack.drop_last());
                Ok(())
            },
            Probe::Dir { modified, entries } => {
                match entries {
                    None => {
                        self.storage.not_allowed(path.as_str(), *modified);
                        self.stack.pop();
                        assert(views(self.stack@) =~= st.stack.drop_last());
                        Ok(())
                    },
                    Some(es) => {
                        match check_listing(cache, fs, es) {
                            Ok(()) => {},
                            Err(e) => {
                                return Err(e);
                            },
                        }
                        self.stack.pop();
                        assert(views(self.stack@) =~= st.stack.drop_last());
                        assert(self@ == rest);
                        self.expand(cache, fs, es)
                    },
                }
            },
        }
    }

    /// Takes steps until the stack is empty, a step fails, or no steps are
    /// left. Where it stops for another reason than an overflow, the walk
    /// stands before the step that failed: once the snapshot holds the path
    /// that was unknown, another call goes on from there.
    pub fn advance(&mut self, cache: &AggregateStore, fs: &FsSnapshot) -> (r: Result<(), WalkError>)
        requires
            old(self).wf(),
            cache.wf(),
        ensures
            final(self).wf(),
            match walk_run(fs@, cache@, old(self)@).1 {
                None => r is Ok && final(self)@ == walk_run(fs@, cache@, old(self)@).0,
                Some(f) => r matches Err(e) && e@ == f && (f != Fault::Overflow ==> final(self)@
                    == walk_run(fs@, cache@, old(self)@).0),
            },
    {
        loop
            invariant
                self.wf(),
                cache.wf(),
                walk_run(fs@, cache@, self@) == walk_run(fs@, cache@, old(self)@),
            decreases self.steps,
        {
            if self.stack.len() == 0 {
                return Ok(());
            }
            if self.steps == 0 {
                return Err(WalkError::StepLimit);
            }
            match self.step(cache, fs) {
                Ok(()) => {},
                Err(e) => {
                    return Err(e);
                },
            }
            self.steps = self.steps - 1;
        }
    }

    /// Whether nothing is left to expand.
    pub fn is_done(&self) -> (r: bool)
        ensures
            r == (self@.stack.len() == 0),
    {
        self.stack.len() == 0
    }

    /// Ends the walk and hands out its store.
    pub fn finish(self) -> (m: AggregateStore)
        requires
            self.wf(),
        ensures
            m.wf(),
            m@ == self@.map,
            m.order() == self@.order,
    {
        self.storage.consume()
    }
}

/// How many steps a walk may take when it is run in one go.
pub const STEP_LIMIT: u64 = 0xffff_ffff_ffff_ffff;

/// The state in which a walk from `start_points` over `cache` begins.
pub open spec fn walk_start(
    start_points: Seq<Seq<char>>,
    cache: Map<Seq<char>, NodeRecord>,
    order: Seq<Seq<char>>,
) -> WalkState {
    WalkState { stack: start_points, map: cache, order, steps: STEP_LIMIT as nat }
}

/// The entries of a cache that may be missing.
pub open spec fn cache_map(cache: Option<&AggregateStore>) -> Map<Seq<char>, NodeRecord> {
    match cache {
        Some(c) => c@,
        None => Map::empty(),
    }
}

/// The key order of a cache that may be missing.
pub open spec fn cache_order(cache: Option<&AggregateStore>) -> Seq<Seq<char>> {
    match cache {
        Some(c) => c.order(),
        None => Seq::empty(),
    }
}

/// Where the walk from `start_points` over `cache` ends, and the fault that
/// ended it, if one did.
pub open spec fn walk_outcome(
    fs: Map<Seq<char>, Probe>,
    start_points: Seq<Seq<char>>,
    cache: Option<&AggregateStore>,
) -> (WalkState, Option<Fault>) {
    walk_run(fs, cache_map(cache), walk_start(start_points, cache_map(cache), cache_order(cache)))
}

/// Walks `fs` from `start_points`, the last of them first, and returns the
/// aggregates. Every entry of `cache` is taken over, and a path that `cache`
/// holds is not entered. Stops with the first fault.
pub fn single_thread_walk(start_points: Vec<String>, cache: Option<&AggregateStore>, fs: &FsSnapshot) -> (r:
    Result<AggregateStore, WalkError>)
    requires
        cache matches Some(c) ==> c.wf(),
    ensures
        match walk_outcome(fs@, views(start_points@), cache).1 {
            None => r matches Ok(m) && m.wf() && m@ == walk_outcome(
                fs@,
                views(start_points@),
                cache,
            ).0.map && m.order() == walk_outcome(fs@, views(start_points@), cache).0.order,
            Some(f) => r matches Err(e) && e@ == f,
        },
{
    let none = AggregateStore::new();
    let readonly_cache = match cache {
        Some(c) => c,
        None => &none,
    };
    let mut walker = Walker::new(start_points, readonly_cache, STEP_LIMIT);
    match walker.advance(readonly_cache, fs) {
        Ok(()) => Ok(walker.finish()),
        Err(e) => Err(e),
    }
}

/// How many drive letters are tried: `C` to `Z`.
pub open spec fn drive_count() -> int {
    24
}

/// The root of the `i`-th drive.
pub open spec fn drive_root(i: int) -> Seq<char> {
    seq![(67 + i) as char, ':', '\\']
}

/// The roots of the drives from the `i`-th on that are there, in the order
/// of their letters. A letter that `fs` has not looked at is asked for; a
/// letter at which nothing is there is passed over.
pub open spec fn drives_from(fs: Map<Seq<char>, Probe>, i: int) -> Result<Seq<Seq<char>>, Fault>
    decreases drive_count() - i,
{
    if i < 0 || i >= drive_count() {
        Ok(Seq::empty())
    } else if !fs.contains_key(drive_root(i)) {
        Err(Fault::Unknown(drive_root(i)))
    } else {
        match drives_from(fs, i + 1) {
            Ok(rest) => if stamp_of(fs, drive_root(i)) is Some {
                Ok(seq![drive_root(i)] + rest)
            } else {
                Ok(rest)
            },
            Err(f) => Err(f),
        }
    }
}

/// Whether `path` is the root of a drive from the `i`-th on.
pub open spec fn is_drive_from(path: Seq<char>, i: int) -> bool {
    exists|j: int| i <= j < drive_count() && #[trigger] drive_root(j) == path
}

/// The drives that are found are exactly the candidates that are there: each
/// candidate that is there is found, and nothing else is.
pub proof fn lemma_drives_from(fs: Map<Seq<char>, Probe>, i: int)
    requires
        0 <= i <= drive_count(),
    ensures
        drives_from(fs, i) matches Ok(roots) ==> (forall|j: int|
            i <= j < drive_count() && stamp_of(fs, drive_root(j)) is Some ==> roots.contains(
                #[trigger] drive_root(j),
            )) && (forall|k: int|
            0 <= k < roots.len() ==> is_drive_from(#[trigger] roots[k], i) && stamp_of(fs, roots[k])
                is Some),
        drives_from(fs, i) is Ok <==> (forall|j: int|
            i <= j < drive_count() ==> fs.contains_key(#[trigger] drive_root(j))),
    decreases drive_count() - i,
{
    if i < drive_count() {
        lemma_drives_from(fs, i + 1);
        if fs.contains_key(drive_root(i)) {
            match drives_from(fs, i + 1) {
                Ok(rest) => {
                    let roots = drives_from(fs, i)->Ok_0;
                    let here = drive_root(i);
                    let kept = stamp_of(fs, here) is Some;
                    if kept {
                        assert(roots =~= seq![here] + rest);
                    }
                    assert forall|j: int|
                        i <= j < drive_count() && stamp_of(fs, drive_root(j)) is Some implies roots.contains(
                        #[trigger] drive_root(j),
                    ) by {
                        if j == i {
                            assert(roots[0] == here);
                        } else {
                            assert(rest.contains(drive_root(j)));
                            let k = choose|k: int| 0 <= k < rest.len() && rest[k] == drive_root(j);
                            if kept {
                                assert(roots[k + 1] == drive_root(j));
                            }
                        }
                    }
                    assert forall|k: int| 0 <= k < roots.len() implies is_drive_from(
                        #[trigger] roots[k],
                        i,
                    ) && stamp_of(fs, roots[k]) is Some by {
                        if kept && k == 0 {
                            assert(drive_root(i) == roots[0]);
                        } else {
                            let at = if kept {
                                k - 1
                            } else {
                                k
                            };
                            assert(rest[at] == roots[k]);
                            assert(is_drive_from(rest[at], i + 1));
                            let w = choose|w: int|
                                i + 1 <= w < drive_count() && #[trigger] drive_root(w) == rest[at];
                            assert(i <= w < drive_count() && drive_root(w) == roots[k]);
                        }
                    }
                },
                Err(_) => {},
            }
        }
    }
}

/// The roots of the drives that `fs` has seen to be there, from `C:\` to
/// `Z:\`, in the order of their letters.
pub fn get_drives(fs: &FsSnapshot) -> (r: Result<Vec<String>, WalkError>)
    ensures
        match drives_from(fs@, 0) {
            Ok(roots) => r matches Ok(v) && views(v@) == roots,
            Err(f) => r matches Err(e) && e@ == f,
        },
{
    let mut drives: Vec<String> = Vec::new();
    let mut i: u8 = 0;
    assert(views(drives@) =~= Seq::<Seq<char>>::empty());
    while i < 24
        invariant
            i <= 24,
            drives_from(fs@, 0) == (match drives_from(fs@, i as int) {
                Ok(rest) => Ok::<Seq<Seq<char>>, Fault>(views(drives@) + rest),
                Err(f) => Err(f),
            }),
        decreases 24 - i,
    {
        let letter = (67 + i) as char;
        let mut root = String::new();
        push_char(&mut root, letter);
        push_char(&mut root, ':');
        push_char(&mut root, '\\');
        assert(root@ =~= drive_root(i as int));
        let there = match fs.probe(root.as_str()) {
            None => {
                return Err(WalkError::Unknown(root));
            },
            Some(Probe::Missing) => false,
            Some(_) => true,
        };
        if there {
            let ghost before = views(drives@);
            drives.push(root);
            proof {
                assert(views(drives@) =~= before.push(drive_root(i as int)));
                match drives_from(fs@, i + 1) {
                    Ok(rest) => {
                        assert(before + (seq![drive_root(i as int)] + rest) =~= views(drives@) + rest);
                    },
                    Err(f) => {},
                }
            }
        }
        i += 1;
    }
    assert(views(drives@) + Seq::<Seq<char>>::empty() =~= views(drives@));
    Ok(drives)
}

/// Walks every drive that `fs` has seen.
pub fn walk_scan(cache: Option<&AggregateStore>, fs: &FsSnapshot) -> (r: Result<AggregateStore, WalkError>)
    requires
        cache matches Some(c) ==> c.wf(),
    ensures
        match drives_from(fs@, 0) {
            Err(f) => r matches Err(e) && e@ == f,
            Ok(roots) => match walk_outcome(fs@, roots, cache).1 {
                None => r matches Ok(m) && m.wf() && m@ == walk_outcome(fs@, roots, cache).0.map
                    && m.order() == walk_outcome(fs@, roots, cache).0.order,
                Some(f) => r matches Err(e) && e@ == f,
            },
        },
{
    match get_drives(fs) {
        Ok(drives) => single_thread_walk(drives, cache, fs),
        Err(e) => Err(e),
    }
}

/// A fault among the first `n` entries is the fault of the whole listing.
pub proof fn lemma_listing_fault_prefix(
    fs: Map<Seq<char>, Probe>,
    cache: Map<Seq<char>, NodeRecord>,
    entries: Seq<DirEntry>,
    n: int,
)
    requires
        0 <= n <= entries.len(),
        listing_fault(fs, cache, entries.take(n)) is Some,
    ensures
        listing_fault(fs, cache, entries) == listing_fault(fs, cache, entries.take(n)),
    decreases entries.len() - n,
{
    if n < entries.len() {
        assert(entries.take(n + 1).drop_last() =~= entries.take(n));
        lemma_listing_fault_prefix(fs, cache, entries, n + 1);
    } else {
        assert(entries.take(n) =~= entries);
    }
}

/// In a listing without fault, every entry that contributes has its stamps.
pub proof fn lemma_listing_fault_all(
    fs: Map<Seq<char>, Probe>,
    cache: Map<Seq<char>, NodeRecord>,
    entries: Seq<DirEntry>,
    i: int,
)
    requires
        0 <= i < entries.len(),
        listing_fault(fs, cache, entries) is None,
    ensures
        action_for(cache, fs, entries[i]) is Ok,
        contributes(cache, fs, entries[i]) ==> chain_fault(fs, entries[i].path@) is None,
    decreases entries.len(),
{
    if i < entries.len() - 1 {
        lemma_listing_fault_all(fs, cache, entries.drop_last(), i);
    }
}

/// A failure among the first `n` entries is the failure of the whole listing.
pub proof fn lemma_expanded_prefix(
    fs: Map<Seq<char>, Probe>,
    cache: Map<Seq<char>, NodeRecord>,
    st: WalkState,
    entries: Seq<DirEntry>,
    n: int,
)
    requires
        0 <= n <= entries.len(),
        expanded(fs, cache, st, entries.take(n)) is Err,
    ensures
        expanded(fs, cache, st, entries) == expanded(fs, cache, st, entries.take(n)),
    decreases entries.len() - n,
{
    if n < entries.len() {
        assert(entries.take(n + 1).drop_last() =~= entries.take(n));
        lemma_expanded_prefix(fs, cache, st, entries, n + 1);
    } else {
        assert(entries.take(n) =~= entries);
    }
}

/// Writing the keys of a well-formed store into an empty order gives its
/// own order back.
pub proof fn lemma_put_all_fresh(cache: &AggregateStore)
    requires
        cache.wf(),
    ensures
        order_put_all(Seq::<Seq<char>>::empty(), cache.order()) == cache.order(),
{
    cache.lemma_wf();
    lemma_put_all_distinct(cache.order());
}

/// Writing distinct keys into an empty order lists them as they came.
pub proof fn lemma_put_all_distinct(keys: Seq<Seq<char>>)
    requires
        keys.no_duplicates(),
    ensures
        order_put_all(Seq::<Seq<char>>::empty(), keys) == keys,
    decreases keys.len(),
{
    let put = put_key();
    if keys.len() > 0 {
        let front = keys.drop_last();
        lemma_put_all_distinct(front);
        assert(keys.fold_left(Seq::<Seq<char>>::empty(), put) == put(
            front.fold_left(Seq::<Seq<char>>::empty(), put),
            keys.last(),
        ));
        if front.contains(keys.last()) {
            let i = choose|i: int| 0 <= i < front.len() && front[i] == keys.last();
            assert(keys[i] == keys[keys.len() - 1]);
        }
        assert(front.push(keys.last()) =~= keys);
    } else {
        assert(keys =~= Seq::<Seq<char>>::empty());
    }
}

} // verus!
