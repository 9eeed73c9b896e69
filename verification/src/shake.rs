//! Invalidation: stale entries leave the store before a walk.

use vstd::prelude::*;
use crate::fault::{Fault, WalkError};
use crate::fsview::{stamp_of, FsSnapshot, Probe};
use crate::path::{
    lemma_bounds, lemma_parent_shorter, name_end, name_start, parent, parent_of, trim_end,
};
use crate::record::NodeRecord;
use crate::store::{
    has_prefix, lemma_order_without, map_outside, order_outside, order_without, views,
    AggregateStore,
};
use crate::text::same_text;

verus! {

/// How many keys one invalidation starts from.
pub const BATCH: usize = 200;

/// Where a key of `len` characters goes into `batch`, which is sorted by
/// rising length: behind every key that is not longer.
pub open spec fn insert_point(batch: Seq<Seq<char>>, len: nat) -> int
    decreases batch.len(),
{
    if batch.len() > 0 && batch.last().len() > len {
        insert_point(batch.drop_last(), len)
    } else {
        batch.len() as int
    }
}

/// `batch` with `key` put in its place; where that makes more than `limit`
/// keys, the first one leaves.
pub open spec fn batch_insert(batch: Seq<Seq<char>>, key: Seq<char>, limit: nat) -> Seq<Seq<char>> {
    let grown = batch.insert(insert_point(batch, key.len()), key);
    if grown.len() > limit {
        grown.drop_first()
    } else {
        grown
    }
}

/// The `limit` longest keys of `order`, the longest last; among keys of one
/// length the later ones of `order` stand behind the earlier ones.
pub open spec fn longest(order: Seq<Seq<char>>, limit: nat) -> Seq<Seq<char>>
    decreases order.len(),
{
    if order.len() == 0 {
        Seq::empty()
    } else {
        batch_insert(longest(order.drop_last(), limit), order.last(), limit)
    }
}

/// The test that the children of `dir` pass.
pub open spec fn is_child_of(dir: Seq<char>) -> spec_fn(Seq<char>) -> bool {
    |k: Seq<char>| parent_of(k) == Some(dir)
}

/// The keys of `order` whose parent is `dir`.
pub open spec fn children_in(order: Seq<Seq<char>>, dir: Seq<char>) -> Seq<Seq<char>> {
    order.filter(is_child_of(dir))
}

/// An invalidation in progress, as a mathematical value.
pub struct ShakeState {
    /// The records that are left.
    pub map: Map<Seq<char>, NodeRecord>,
    /// The keys of `map`, oldest first.
    pub order: Seq<Seq<char>>,
    /// The paths still to be examined; the last one is next.
    pub work: Seq<Seq<char>>,
}

/// One step of invalidation: the last path of the worklist is examined. Where
/// it is gone, every key that begins with it leaves the store. Where its
/// stamp differs from the stored one, it leaves the store and its children in
/// the store join the worklist. Else nothing but the worklist changes.
pub open spec fn shake_step(fs: Map<Seq<char>, Probe>, st: ShakeState) -> Result<ShakeState, Fault>
    recommends
        st.work.len() > 0,
{
    let path = st.work.last();
    let rest = st.work.drop_last();
    if !fs.contains_key(path) {
        Err(Fault::Unknown(path))
    } else {
        match stamp_of(fs, path) {
            None => Ok(
                ShakeState {
                    map: map_outside(st.map, path),
                    order: order_outside(st.order, path),
                    work: rest,
                },
            ),
            Some(stamp) => if st.order.contains(path) && st.map[path].last_modified != stamp {
                let order = order_without(st.order, path);
                Ok(
                    ShakeState {
                        map: st.map.remove(path),
                        order,
                        work: rest + children_in(order, path),
                    },
                )
            } else {
                Ok(ShakeState { work: rest, ..st })
            },
        }
    }
}

/// Invalidation from `st` on: steps are taken until the worklist is empty or
/// the snapshot lacks the path that is next. The state is the one reached.
pub open spec fn shake_run(fs: Map<Seq<char>, Probe>, st: ShakeState) -> (ShakeState, Option<Fault>)
    decreases st.order.len(), st.work.len(),
{
    if st.work.len() == 0 {
        (st, None)
    } else {
        proof {
            lemma_step_shrinks(fs, st);
        }
        match shake_step(fs, st) {
            Err(f) => (st, Some(f)),
            Ok(next) => shake_run(fs, next),
        }
    }
}

/// The state in which the invalidation of a store begins.
pub open spec fn shake_start(map: Map<Seq<char>, NodeRecord>, order: Seq<Seq<char>>, limit: nat) -> ShakeState {
    ShakeState { map, order, work: longest(order, limit) }
}

/// The `limit` longest keys of `store`, the longest last.
pub fn longest_keys(store: &AggregateStore, limit: usize) -> (batch: Vec<String>)
    requires
        store.wf(),
    ensures
        views(batch@) == longest(store.order(), limit as nat),
{
    let mut batch: Vec<String> = Vec::new();
    let mut lens: Vec<usize> = Vec::new();
    let n = store.len();
    let mut i: usize = 0;
    assert(store.order().take(0) =~= Seq::<Seq<char>>::empty());
    assert(views(batch@) =~= Seq::<Seq<char>>::empty());
    while i < n
        invariant
            n == store.order().len(),
            i <= n,
            views(batch@) == longest(store.order().take(i as int), limit as nat),
            lens.len() == batch.len(),
            batch.len() <= i,
            forall|j: int| 0 <= j < lens.len() ==> lens[j] == (#[trigger] batch[j])@.len(),
        decreases n - i,
    {
        let key = store.key(i);
        let len = key.as_str().unicode_len();
        let ghost before = views(batch@);
        proof {
            assert(store.order().take(i + 1).drop_last() =~= store.order().take(i as int));
            assert(store.order().take(i + 1).last() == key@);
        }
        let mut pos: usize = batch.len();
        assert(before.take(pos as int) =~= before);
        while pos > 0 && lens[pos - 1] > len
            invariant
                pos <= batch.len(),
                lens.len() == batch.len(),
                before == views(batch@),
                forall|j: int| 0 <= j < lens.len() ==> lens[j] == (#[trigger] batch[j])@.len(),
                insert_point(before.take(pos as int), len as nat) == insert_point(before, len as nat),
            decreases pos,
        {
            proof {
                assert(before.take(pos as int).drop_last() =~= before.take(pos - 1));
                assert(before.take(pos as int).last() == batch[pos - 1]@);
            }
            pos -= 1;
        }
        proof {
            if pos > 0 {
                assert(before.take(pos as int).last() == batch[pos - 1]@);
            }
            assert(insert_point(before, len as nat) == pos);
        }
        batch.insert(pos, key.clone());
        lens.insert(pos, len);
        assert(views(batch@) =~= before.insert(pos as int, key@));
        if batch.len() > limit {
            let ghost grown = views(batch@);
            batch.remove(0);
            lens.remove(0);
            assert(views(batch@) =~= grown.drop_first());
        }
        i += 1;
    }
    assert(store.order().take(i as int) =~= store.order());
    batch
}

/// Runs the steps of an invalidation on `store` and `work`.
fn shake_loop(store: &mut AggregateStore, work: &mut Vec<String>, fs: &FsSnapshot) -> (r: Result<
    (),
    WalkError,
>)
    requires
        old(store).wf(),
    ensures
        final(store).wf(),
        (ShakeState { map: final(store)@, order: final(store).order(), work: views(final(work)@) })
            == shake_run(
            fs@,
            (ShakeState { map: old(store)@, order: old(store).order(), work: views(old(work)@) }),
        ).0,
        match shake_run(
            fs@,
            (ShakeState { map: old(store)@, order: old(store).order(), work: views(old(work)@) }),
        ).1 {
            None => r is Ok,
            Some(f) => r matches Err(e) && e@ == f,
        },
{
    let ghost start = ShakeState { map: store@, order: store.order(), work: views(work@) };
    loop
        invariant
            store.wf(),
            start == (ShakeState {
                map: old(store)@,
                order: old(store).order(),
                work: views(old(work)@),
            }),
            shake_run(fs@, (ShakeState { map: store@, order: store.order(), work: views(work@) }))
                == shake_run(fs@, start),
        decreases store.order().len(), work.len(),
    {
        let ghost st = ShakeState { map: store@, order: store.order(), work: views(work@) };
        if work.len() == 0 {
            return Ok(());
        }
        proof {
            lemma_step_shrinks(fs@, st);
            store.lemma_wf();
        }
        let path = work[work.len() - 1].clone();
        assert(path@ == st.work.last());
        if !fs.knows(path.as_str()) {
            return Err(WalkError::Unknown(path));
        }
        work.pop();
        assert(views(work@) =~= st.work.drop_last());
        match fs.modified(path.as_str()) {
            None => {
                store.remove_prefixed(path.as_str());
            },
            Some(stamp) => {
                let stale = match store.get(path.as_str()) {
                    Some(record) => record.last_modified != stamp,
                    None => false,
                };
                if stale {
                    store.remove(path.as_str());
                    push_children(store, work, path.as_str());
                }
            },
        }
        proof {
            let next = ShakeState { map: store@, order: store.order(), work: views(work@) };
            assert(shake_step(fs@, st) == Ok::<ShakeState, Fault>(next));
        }
    }
}

/// Puts the keys of `store` whose parent is `dir` on `work`.
fn push_children(store: &AggregateStore, work: &mut Vec<String>, dir: &str)
    requires
        store.wf(),
    ensures
        views(final(work)@) == views(old(work)@) + children_in(store.order(), dir@),
{
    let ghost child = is_child_of(dir@);
    let ghost base = views(work@);
    let n = store.len();
    let mut i: usize = 0;
    assert(store.order().take(0).filter(child) =~= Seq::<Seq<char>>::empty()) by {
        reveal(Seq::filter);
    }
    assert(base + Seq::<Seq<char>>::empty() =~= base);
    while i < n
        invariant
            n == store.order().len(),
            i <= n,
            child == is_child_of(dir@),
            views(work@) == base + store.order().take(i as int).filter(child),
        decreases n - i,
    {
        let key = store.key(i);
        let ghost seen = store.order().take(i as int);
        proof {
            assert(store.order().take(i + 1) =~= seen.push(key@));
            seen.lemma_filter_push(key@, child);
        }
        let is_child = match parent(key.as_str()) {
            Some(q) => same_text(q.as_str(), dir),
            None => false,
        };
        if is_child {
            let ghost before = work@;
            work.push(key.clone());
            assert(views(work@) =~= views(before).push(key@));
            assert(base + seen.filter(child).push(key@) =~= (base + seen.filter(child)).push(key@));
        }
        i += 1;
    }
    assert(store.order().take(i as int) =~= store.order());
}

/// Removes from `path_map` what can no longer be trusted, starting from its
/// `BATCH` longest keys. Where the snapshot has not looked at a path that is
/// to be examined, the store is left as far as the invalidation came.
pub fn tree_shaking(path_map: &mut AggregateStore, fs: &FsSnapshot) -> (r: Result<(), WalkError>)
    requires
        old(path_map).wf(),
    ensures
        final(path_map).wf(),
        final(path_map)@ == shake_run(
            fs@,
            shake_start(old(path_map)@, old(path_map).order(), BATCH as nat),
        ).0.map,
        final(path_map).order() == shake_run(
            fs@,
            shake_start(old(path_map)@, old(path_map).order(), BATCH as nat),
        ).0.order,
        match shake_run(fs@, shake_start(old(path_map)@, old(path_map).order(), BATCH as nat)).1 {
            None => r is Ok,
            Some(f) => r matches Err(e) && e@ == f,
        },
{
    let mut work = longest_keys(path_map, BATCH);
    shake_loop(path_map, &mut work, fs)
}

/// An invalidation in progress.
pub struct Shaker {
    store: AggregateStore,
    work: Vec<String>,
}

impl View for Shaker {
    type V = ShakeState;

    closed spec fn view(&self) -> ShakeState {
        ShakeState { map: self.store@, order: self.store.order(), work: views(self.work@) }
    }
}

impl Shaker {
    /// The store inside is well formed.
    pub closed spec fn wf(&self) -> bool {
        self.store.wf()
    }

    /// An invalidation of `store` that starts from its `limit` longest keys.
    pub fn new(store: AggregateStore, limit: usize) -> (s: Self)
        requires
            store.wf(),
        ensures
            s.wf(),
            s@ == shake_start(store@, store.order(), limit as nat),
    {
        let work = longest_keys(&store, limit);
        Shaker { store, work }
    }

    /// Takes steps until the worklist is empty or the snapshot lacks the path
    /// that is next; once the snapshot holds it, another call goes on.
    pub fn run(&mut self, fs: &FsSnapshot) -> (r: Result<(), WalkError>)
        requires
            old(self).wf(),
        ensures
            final(self).wf(),
            final(self)@ == shake_run(fs@, old(self)@).0,
            match shake_run(fs@, old(self)@).1 {
                None => r is Ok,
                Some(f) => r matches Err(e) && e@ == f,
            },
    {
        shake_loop(&mut self.store, &mut self.work, fs)
    }

    /// Ends the invalidation and hands out what is left of the store.
    pub fn finish(self) -> (m: AggregateStore)
        requires
            self.wf(),
        ensures
            m.wf(),
            m@ == self@.map,
            m.order() == self@.order,
    {
        self.store
    }
}

/// A step leaves fewer keys, or as many keys and less work.
pub proof fn lemma_step_shrinks(fs: Map<Seq<char>, Probe>, st: ShakeState)
    requires
        st.work.len() > 0,
    ensures
        shake_step(fs, st) matches Ok(next) ==> next.order.len() < st.order.len() || (next.order.len()
            == st.order.len() && next.work.len() < st.work.len()),
{
    lemma_order_without(st.order, st.work.last());
}

/// Whether the order of `st` lists exactly the keys of its map.
pub open spec fn agrees(st: ShakeState) -> bool {
    forall|k: Seq<char>| #[trigger] st.order.contains(k) <==> st.map.contains_key(k)
}

/// Whether `fs` holds for every key of `m` the stamp that `m` holds: nothing
/// has changed on disk since `m` was made.
pub open spec fn unchanged_since(fs: Map<Seq<char>, Probe>, m: Map<Seq<char>, NodeRecord>) -> bool {
    forall|k: Seq<char>| #[trigger] m.contains_key(k) ==> stamp_of(fs, k) == Some(m[k].last_modified)
}

/// A step keeps the order and the map in agreement, adds no key and changes
/// no record.
pub proof fn lemma_step_agrees(fs: Map<Seq<char>, Probe>, st: ShakeState)
    requires
        st.work.len() > 0,
        agrees(st),
    ensures
        shake_step(fs, st) matches Ok(next) ==> agrees(next) && (forall|k: Seq<char>| #[trigger]
            next.map.contains_key(k) ==> st.map.contains_key(k) && next.map[k] == st.map[k]),
{
    lemma_order_without(st.order, st.work.last());
}

/// The place where a key goes into a batch lies within the batch.
pub proof fn lemma_insert_point(batch: Seq<Seq<char>>, len: nat)
    ensures
        0 <= insert_point(batch, len) <= batch.len(),
    decreases batch.len(),
{
    if batch.len() > 0 && batch.last().len() > len {
        lemma_insert_point(batch.drop_last(), len);
    }
}

/// The batch holds keys of the order only, at most `limit` of them, and all
/// of them where the order holds no more than `limit`.
pub proof fn lemma_longest(order: Seq<Seq<char>>, limit: nat)
    ensures
        longest(order, limit).len() <= order.len(),
        longest(order, limit).len() <= limit,
        forall|i: int|
            0 <= i < longest(order, limit).len() ==> order.contains(#[trigger] longest(order, limit)[i]),
        order.len() <= limit ==> longest(order, limit).len() == order.len() && (forall|k: Seq<char>|
            order.contains(k) ==> #[trigger] longest(order, limit).contains(k)),
    decreases order.len(),
{
    if order.len() > 0 {
        let front = order.drop_last();
        let key = order.last();
        let batch = longest(front, limit);
        lemma_longest(front, limit);
        lemma_insert_point(batch, key.len());
        let pos = insert_point(batch, key.len());
        let grown = batch.insert(pos, key);
        let result = longest(order, limit);
        assert(order[order.len() - 1] == key);
        assert forall|i: int| 0 <= i < grown.len() implies order.contains(#[trigger] grown[i]) by {
            if i < pos {
                assert(grown[i] == batch[i]);
                let j = choose|j: int| 0 <= j < front.len() && front[j] == batch[i];
                assert(order[j] == batch[i]);
            } else if i > pos {
                assert(grown[i] == batch[i - 1]);
                let j = choose|j: int| 0 <= j < front.len() && front[j] == batch[i - 1];
                assert(order[j] == batch[i - 1]);
            }
        }
        assert forall|i: int| 0 <= i < result.len() implies order.contains(#[trigger] result[i]) by {
            if grown.len() > limit {
                assert(result[i] == grown[i + 1]);
            }
        }
        if order.len() <= limit {
            assert(result == grown);
            assert forall|k: Seq<char>| order.contains(k) implies #[trigger] result.contains(k) by {
                let j = choose|j: int| 0 <= j < order.len() && order[j] == k;
                if j < front.len() {
                    assert(front[j] == k);
                    assert(front.contains(k));
                    assert(longest(front, limit).contains(k));
                    let b = choose|b: int| 0 <= b < batch.len() && batch[b] == k;
                    if b < pos {
                        assert(grown[b] == k);
                    } else {
                        assert(grown[b + 1] == k);
                    }
                } else {
                    assert(grown[pos] == k);
                }
            }
        }
    }
}

/// Where nothing has changed on disk, invalidation takes nothing out of the
/// store, whatever it starts from.
pub proof fn lemma_unchanged_stays(fs: Map<Seq<char>, Probe>, st: ShakeState)
    requires
        agrees(st),
        unchanged_since(fs, st.map),
        forall|i: int| 0 <= i < st.work.len() ==> st.order.contains(#[trigger] st.work[i]),
    ensures
        shake_run(fs, st) == (ShakeState { work: Seq::empty(), ..st }, None::<Fault>),
    decreases st.work.len(),
{
    if st.work.len() == 0 {
        assert(st.work =~= Seq::empty());
    } else {
        let path = st.work.last();
        assert(st.order.contains(st.work[st.work.len() - 1]));
        assert(st.map.contains_key(path));
        let next = ShakeState { work: st.work.drop_last(), ..st };
        assert(shake_step(fs, st) == Ok::<ShakeState, Fault>(next));
        assert forall|i: int| 0 <= i < next.work.len() implies st.order.contains(
            #[trigger] next.work[i],
        ) by {
            assert(next.work[i] == st.work[i]);
        }
        lemma_unchanged_stays(fs, next);
    }
}

/// Where nothing has changed on disk since a store was made, its
/// invalidation ends without a fault and leaves every record as it was.
pub proof fn lemma_no_change_no_eviction(
    fs: Map<Seq<char>, Probe>,
    m: Map<Seq<char>, NodeRecord>,
    order: Seq<Seq<char>>,
    limit: nat,
)
    requires
        forall|k: Seq<char>| #[trigger] order.contains(k) <==> m.contains_key(k),
        unchanged_since(fs, m),
    ensures
        shake_run(fs, shake_start(m, order, limit)).1 is None,
        shake_run(fs, shake_start(m, order, limit)).0.map == m,
        shake_run(fs, shake_start(m, order, limit)).0.order == order,
{
    lemma_longest(order, limit);
    lemma_unchanged_stays(fs, shake_start(m, order, limit));
}

/// A path whose stamp on disk differs from the stored one, and which is on
/// the worklist, is not in the store when invalidation has run.
pub proof fn lemma_stale_leaves(fs: Map<Seq<char>, Probe>, st: ShakeState, path: Seq<char>)
    requires
        agrees(st),
        st.work.contains(path) || !st.map.contains_key(path),
        fs.contains_key(path),
        stamp_of(fs, path) is Some,
        st.map.contains_key(path) ==> Some(st.map[path].last_modified) != stamp_of(fs, path),
        shake_run(fs, st).1 is None,
    ensures
        !shake_run(fs, st).0.map.contains_key(path),
    decreases st.order.len(), st.work.len(),
{
    if st.work.len() > 0 {
        lemma_step_shrinks(fs, st);
        lemma_step_agrees(fs, st);
        lemma_order_without(st.order, st.work.last());
        let next = shake_step(fs, st)->Ok_0;
        let top = st.work.last();
        let rest = st.work.drop_last();
        if top != path && st.work.contains(path) {
            let i = choose|i: int| 0 <= i < st.work.len() && st.work[i] == path;
            assert(rest[i] == path);
            assert(next.work[i] == path);
        }
        lemma_stale_leaves(fs, next, path);
    }
}

/// The step that examines a path whose stamp differs from the stored one
/// takes it out of the store and puts its children in the store on the
/// worklist.
pub proof fn lemma_stale_step(fs: Map<Seq<char>, Probe>, st: ShakeState)
    requires
        st.work.len() > 0,
        agrees(st),
        st.map.contains_key(st.work.last()),
        stamp_of(fs, st.work.last()) is Some,
        Some(st.map[st.work.last()].last_modified) != stamp_of(fs, st.work.last()),
    ensures
        shake_step(fs, st) == Ok::<ShakeState, Fault>(
            ShakeState {
                map: st.map.remove(st.work.last()),
                order: order_without(st.order, st.work.last()),
                work: st.work.drop_last() + children_in(
                    order_without(st.order, st.work.last()),
                    st.work.last(),
                ),
            },
        ),
{
}

/// Where a path on the worklist is gone from the disk, no key that begins
/// with it is in the store when invalidation has run.
pub proof fn lemma_gone_leaves(fs: Map<Seq<char>, Probe>, st: ShakeState, path: Seq<char>)
    requires
        agrees(st),
        st.work.contains(path) || (forall|k: Seq<char>|
            has_prefix(k, path) ==> !(#[trigger] st.map.contains_key(k))),
        fs.contains_key(path),
        stamp_of(fs, path) is None,
        shake_run(fs, st).1 is None,
    ensures
        forall|k: Seq<char>|
            has_prefix(k, path) ==> !(#[trigger] shake_run(fs, st).0.map.contains_key(k)),
    decreases st.order.len(), st.work.len(),
{
    if st.work.len() > 0 {
        lemma_step_shrinks(fs, st);
        lemma_step_agrees(fs, st);
        lemma_order_without(st.order, st.work.last());
        let next = shake_step(fs, st)->Ok_0;
        let top = st.work.last();
        let rest = st.work.drop_last();
        if top != path && st.work.contains(path) {
            let i = choose|i: int| 0 <= i < st.work.len() && st.work[i] == path;
            assert(rest[i] == path);
            assert(next.work[i] == path);
        }
        lemma_gone_leaves(fs, next, path);
    }
}

/// A path begins with the characters of its parent.
pub proof fn lemma_parent_is_prefix(child: Seq<char>, above: Seq<char>)
    requires
        parent_of(child) == Some(above),
    ensures
        has_prefix(child, above),
{
    lemma_parent_shorter(child);
    let start = name_start(child, name_end(child));
    lemma_bounds(child, start);
    let cut = trim_end(child, start);
    assert(above == child.subrange(0, cut));
    assert(above.len() == cut);
    assert(above =~= child.subrange(0, above.len() as int));
}

/// The children of `dir` among `order` are exactly the keys of `order` whose
/// parent is `dir`.
pub proof fn lemma_children_in(order: Seq<Seq<char>>, dir: Seq<char>, key: Seq<char>)
    ensures
        children_in(order, dir).contains(key) <==> order.contains(key) && parent_of(key) == Some(dir),
{
    crate::store::lemma_filter_keeps(order, is_child_of(dir));
}

/// Where a changed directory is on the worklist, each of its children in
/// the store is examined in its turn: a child that is gone from the disk, or
/// whose stamp differs from the stored one, is not in the store when
/// invalidation has run, whether or not it was on the worklist at first.
pub proof fn lemma_child_revalidated(
    fs: Map<Seq<char>, Probe>,
    st: ShakeState,
    dir: Seq<char>,
    child: Seq<char>,
)
    requires
        agrees(st),
        parent_of(child) == Some(dir),
        stamp_of(fs, dir) is Some,
        st.map.contains_key(dir) ==> Some(st.map[dir].last_modified) != stamp_of(fs, dir),
        fs.contains_key(child),
        st.map.contains_key(child) ==> Some(st.map[child].last_modified) != stamp_of(fs, child),
        st.work.contains(child) || !st.map.contains_key(child) || (st.work.contains(dir)
            && st.map.contains_key(dir)),
        shake_run(fs, st).1 is None,
    ensures
        !shake_run(fs, st).0.map.contains_key(child),
    decreases st.order.len(), st.work.len(),
{
    if st.work.len() > 0 {
        lemma_step_shrinks(fs, st);
        lemma_step_agrees(fs, st);
        let top = st.work.last();
        let rest = st.work.drop_last();
        lemma_order_without(st.order, top);
        lemma_parent_is_prefix(child, dir);
        let next = shake_step(fs, st)->Ok_0;
        assert(st.work[st.work.len() - 1] == top);
        if st.map.contains_key(child) {
            if top == child {
                assert(!next.map.contains_key(child));
            } else if st.work.contains(child) {
                let i = choose|i: int| 0 <= i < st.work.len() && st.work[i] == child;
                assert(rest[i] == child);
                assert(next.work[i] == child);
            } else if top == dir {
                lemma_children_in(order_without(st.order, dir), dir, child);
                assert(child != dir) by {
                    lemma_parent_shorter(child);
                }
                let found = children_in(order_without(st.order, dir), dir);
                let i = choose|i: int| 0 <= i < found.len() && found[i] == child;
                assert(next.work[rest.len() + i] == child);
            } else {
                let i = choose|i: int| 0 <= i < st.work.len() && st.work[i] == dir;
                assert(rest[i] == dir);
                assert(next.work[i] == dir);
                if !next.map.contains_key(dir) {
                    assert(stamp_of(fs, top) is None);
                    assert(has_prefix(dir, top));
                    assert(has_prefix(child, top)) by {
                        assert(top.len() <= dir.len() <= child.len());
                        assert(child.subrange(0, top.len() as int) =~= dir.subrange(0, top.len() as int));
                    }
                }
            }
        }
        lemma_child_revalidated(fs, next, dir, child);
    }
}

/// Where a changed directory is among the first `limit` longest keys of a
/// store, the invalidation of that store takes out each child of it that is
/// gone from the disk or has another stamp there.
pub proof fn lemma_children_revalidated(
    fs: Map<Seq<char>, Probe>,
    m: Map<Seq<char>, NodeRecord>,
    order: Seq<Seq<char>>,
    limit: nat,
    dir: Seq<char>,
    child: Seq<char>,
)
    requires
        forall|k: Seq<char>| #[trigger] order.contains(k) <==> m.contains_key(k),
        m.contains_key(dir),
        longest(order, limit).contains(dir),
        stamp_of(fs, dir) is Some,
        stamp_of(fs, dir) != Some(m[dir].last_modified),
        parent_of(child) == Some(dir),
        fs.contains_key(child),
        m.contains_key(child) ==> stamp_of(fs, child) != Some(m[child].last_modified),
        shake_run(fs, shake_start(m, order, limit)).1 is None,
    ensures
        !shake_run(fs, shake_start(m, order, limit)).0.map.contains_key(child),
{
    lemma_child_revalidated(fs, shake_start(m, order, limit), dir, child);
}

/// Invalidation takes records out and changes none: what is in the store
/// afterwards was there before, with the same record.
pub proof fn lemma_shake_keeps_records(fs: Map<Seq<char>, Probe>, st: ShakeState)
    requires
        agrees(st),
    ensures
        forall|k: Seq<char>| #[trigger]
            shake_run(fs, st).0.map.contains_key(k) ==> st.map.contains_key(k) && shake_run(
                fs,
                st,
            ).0.map[k] == st.map[k],
        agrees(shake_run(fs, st).0),
    decreases st.order.len(), st.work.len(),
{
    if st.work.len() > 0 {
        lemma_step_shrinks(fs, st);
        lemma_step_agrees(fs, st);
        match shake_step(fs, st) {
            Ok(next) => {
                lemma_shake_keeps_records(fs, next);
            },
            Err(_) => {},
        }
    }
}

/// A stale path among the first `limit` longest keys of a store is evicted
/// by the invalidation of that store.
pub proof fn lemma_staleness_detected(
    fs: Map<Seq<char>, Probe>,
    m: Map<Seq<char>, NodeRecord>,
    order: Seq<Seq<char>>,
    limit: nat,
    path: Seq<char>,
)
    requires
        forall|k: Seq<char>| #[trigger] order.contains(k) <==> m.contains_key(k),
        m.contains_key(path),
        longest(order, limit).contains(path),
        stamp_of(fs, path) is Some,
        stamp_of(fs, path) != Some(m[path].last_modified),
        shake_run(fs, shake_start(m, order, limit)).1 is None,
    ensures
        !shake_run(fs, shake_start(m, order, limit)).0.map.contains_key(path),
{
    lemma_stale_leaves(fs, shake_start(m, order, limit), path);
}

/// Where a path among the first `limit` longest keys of a store is gone from
/// the disk, the invalidation of that store takes out every key that begins
/// with it.
pub proof fn lemma_deletion_propagates(
    fs: Map<Seq<char>, Probe>,
    m: Map<Seq<char>, NodeRecord>,
    order: Seq<Seq<char>>,
    limit: nat,
    path: Seq<char>,
)
    requires
        forall|k: Seq<char>| #[trigger] order.contains(k) <==> m.contains_key(k),
        longest(order, limit).contains(path),
        fs.contains_key(path),
        stamp_of(fs, path) is None,
        shake_run(fs, shake_start(m, order, limit)).1 is None,
    ensures
        forall|k: Seq<char>|
            has_prefix(k, path) ==> !(#[trigger] shake_run(
                fs,
                shake_start(m, order, limit),
            ).0.map.contains_key(k)),
{
    lemma_gone_leaves(fs, shake_start(m, order, limit), path);
}

} // verus!
