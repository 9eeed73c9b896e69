//! The aggregate store: a map from path to record that remembers the order
//! in which its keys arrived.

use vstd::prelude::*;
use vstd::hash_map::StringHashMap;
use crate::record::NodeRecord;
use crate::text::{chars_of, matches_at, same_text};

verus! {

/// The character sequences of a sequence of strings.
pub open spec fn views(v: Seq<String>) -> Seq<Seq<char>> {
    v.map_values(|s: String| s@)
}

/// The key order after `key` has been written: a new key goes to the end.
pub open spec fn order_put(order: Seq<Seq<char>>, key: Seq<char>) -> Seq<Seq<char>> {
    if order.contains(key) {
        order
    } else {
        order.push(key)
    }
}

/// `order_put` as a function value.
pub open spec fn put_key() -> spec_fn(Seq<Seq<char>>, Seq<char>) -> Seq<Seq<char>> {
    |o: Seq<Seq<char>>, k: Seq<char>| order_put(o, k)
}

/// The key order after each of `keys` has been written in turn.
pub open spec fn order_put_all(order: Seq<Seq<char>>, keys: Seq<Seq<char>>) -> Seq<Seq<char>> {
    keys.fold_left(order, put_key())
}

/// Whether `key` begins with the characters of `prefix`.
pub open spec fn has_prefix(key: Seq<char>, prefix: Seq<char>) -> bool {
    prefix.is_prefix_of(key)
}

/// The test that every key but `key` passes.
pub open spec fn is_not(key: Seq<char>) -> spec_fn(Seq<char>) -> bool {
    |k: Seq<char>| k != key
}

/// The test that the keys pass which do not begin with `prefix`.
pub open spec fn lies_outside(prefix: Seq<char>) -> spec_fn(Seq<char>) -> bool {
    |k: Seq<char>| !has_prefix(k, prefix)
}

/// `order` without `key`.
pub open spec fn order_without(order: Seq<Seq<char>>, key: Seq<char>) -> Seq<Seq<char>> {
    order.filter(is_not(key))
}

/// `order` without the keys that begin with `prefix`.
pub open spec fn order_outside(order: Seq<Seq<char>>, prefix: Seq<char>) -> Seq<Seq<char>> {
    order.filter(lies_outside(prefix))
}

/// `m` without the keys that begin with `prefix`.
pub open spec fn map_outside(m: Map<Seq<char>, NodeRecord>, prefix: Seq<char>) -> Map<
    Seq<char>,
    NodeRecord,
> {
    Map::new(|k: Seq<char>| m.contains_key(k) && !has_prefix(k, prefix), |k: Seq<char>| m[k])
}

/// A map from path to record. Its view is the mathematical map; `order`
/// lists the keys, each once, oldest first.
pub struct AggregateStore {
    keys: Vec<String>,
    map: StringHashMap<NodeRecord>,
}

impl View for AggregateStore {
    type V = Map<Seq<char>, NodeRecord>;

    closed spec fn view(&self) -> Self::V {
        self.map@
    }
}

impl AggregateStore {
    /// The keys in the order in which they were first written.
    pub closed spec fn order(&self) -> Seq<Seq<char>> {
        views(self.keys@)
    }

    /// The order lists exactly the keys of the map, none of them twice.
    pub closed spec fn wf(&self) -> bool {
        &&& self.order().no_duplicates()
        &&& forall|k: Seq<char>| self.order().contains(k) <==> self@.contains_key(k)
    }

    /// What `wf` says, for callers outside this module.
    pub proof fn lemma_wf(&self)
        requires
            self.wf(),
        ensures
            self.order().no_duplicates(),
            forall|k: Seq<char>| self.order().contains(k) <==> self@.contains_key(k),
            self.order().to_set() == self@.dom(),
            self@.dom().finite(),
            self@.len() == self.order().len(),
    {
        assert(self.order().to_set() =~= self@.dom());
        vstd::seq_lib::seq_to_set_is_finite(self.order());
        self.order().unique_seq_to_set();
    }

    /// An empty store.
    pub fn new() -> (s: Self)
        ensures
            s.wf(),
            s@ == Map::<Seq<char>, NodeRecord>::empty(),
            s.order() == Seq::<Seq<char>>::empty(),
    {
        let s = AggregateStore { keys: Vec::new(), map: StringHashMap::new() };
        assert(s.order() =~= Seq::<Seq<char>>::empty());
        s
    }

    /// How many paths the store holds.
    pub fn len(&self) -> (n: usize)
        requires
            self.wf(),
        ensures
            n == self.order().len(),
            n == self@.len(),
    {
        proof {
            self.lemma_wf();
        }
        self.keys.len()
    }

    /// The `i`-th key in `order`.
    pub fn key(&self, i: usize) -> (k: &String)
        requires
            i < self.order().len(),
        ensures
            k@ == self.order()[i as int],
    {
        &self.keys[i]
    }

    /// Whether `key` has a record.
    pub fn contains_key(&self, key: &str) -> (r: bool)
        ensures
            r == self@.contains_key(key@),
    {
        self.map.contains_key(key)
    }

    /// The record of `key`, if there is one.
    pub fn get(&self, key: &str) -> (r: Option<NodeRecord>)
        ensures
            r == self@.get(key@),
    {
        match self.map.get(key) {
            Some(v) => Some(*v),
            None => None,
        }
    }

    /// Writes `value` at `key`, replacing what was there.
    pub fn insert(&mut self, key: String, value: NodeRecord)
        requires
            old(self).wf(),
        ensures
            final(self).wf(),
            final(self)@ == old(self)@.insert(key@, value),
            final(self).order() == order_put(old(self).order(), key@),
    {
        if !self.map.contains_key(key.as_str()) {
            let k = key.clone();
            self.keys.push(k);
            assert(views(self.keys@) =~= views(old(self).keys@).push(key@));
            assert(!old(self).order().contains(key@));
            assert(self.order().no_duplicates());
        }
        self.map.insert(key, value);
        assert forall|k: Seq<char>| self.order().contains(k) <==> self@.contains_key(k) by {
            if old(self).order().contains(k) {
                let i = choose|i: int| 0 <= i < old(self).order().len() && old(self).order()[i] == k;
                assert(self.order()[i] == k);
            }
            if k == key@ && !old(self)@.contains_key(key@) {
                assert(self.order()[old(self).order().len() as int] == k);
            }
        }
    }

    /// Drops `key` and its record, if it is there.
    pub fn remove(&mut self, key: &str)
        requires
            old(self).wf(),
        ensures
            final(self).wf(),
            final(self)@ == old(self)@.remove(key@),
            final(self).order() == order_without(old(self).order(), key@),
    {
        let ghost keep = is_not(key@);
        let ghost before = self.order();
        let mut kept: Vec<String> = Vec::new();
        let mut i: usize = 0;
        while i < self.keys.len()
            invariant
                i <= self.keys.len(),
                self.keys == old(self).keys,
                self.map == old(self).map,
                before == views(self.keys@),
                keep == is_not(key@),
                views(kept@) == before.take(i as int).filter(keep),
            decreases self.keys.len() - i,
        {
            proof {
                assert(before.take(i + 1) =~= before.take(i as int).push(before[i as int]));
                before.take(i as int).lemma_filter_push(before[i as int], keep);
            }
            if !same_text(self.keys[i].as_str(), key) {
                let k = self.keys[i].clone();
                let ghost prev = kept@;
                kept.push(k);
                assert(views(kept@) =~= views(prev).push(before[i as int]));
            }
            i += 1;
        }
        assert(before.take(i as int) =~= before);
        self.keys = kept;
        self.map.remove(key);
        proof {
            lemma_filter_keeps(before, keep);
            assert forall|k: Seq<char>| self.order().contains(k) <==> self@.contains_key(k) by {
                if self.order().contains(k) {
                    assert(before.contains(k) && keep(k));
                }
                if self@.contains_key(k) {
                    assert(before.contains(k) && keep(k));
                }
            }
        }
    }

    /// Drops every key that begins with the characters of `prefix`.
    pub fn remove_prefixed(&mut self, prefix: &str)
        requires
            old(self).wf(),
        ensures
            final(self).wf(),
            final(self)@ == map_outside(old(self)@, prefix@),
            final(self).order() == order_outside(old(self).order(), prefix@),
    {
        let ghost keep = lies_outside(prefix@);
        let ghost before = self.order();
        let pat = chars_of(prefix);
        let mut kept: Vec<String> = Vec::new();
        let mut i: usize = 0;
        while i < self.keys.len()
            invariant
                i <= self.keys.len(),
                self.keys == old(self).keys,
                old(self).wf(),
                before == views(self.keys@),
                pat@ == prefix@,
                keep == lies_outside(prefix@),
                views(kept@) == before.take(i as int).filter(keep),
                forall|k: Seq<char>| self.map@.contains_key(k) <==> old(self)@.contains_key(k) && (keep(k) || !before.take(i as int).contains(k)),
                forall|k: Seq<char>| self.map@.contains_key(k) ==> self.map@[k] == old(self)@[k],
            decreases self.keys.len() - i,
        {
            proof {
                assert(before.take(i + 1) =~= before.take(i as int).push(before[i as int]));
                before.take(i as int).lemma_filter_push(before[i as int], keep);
            }
            let name = chars_of(self.keys[i].as_str());
            assert(name@.skip(0) =~= name@);
            if matches_at(&name, 0, &pat) {
                self.map.remove(self.keys[i].as_str());
            } else {
                let k = self.keys[i].clone();
                let ghost prev = kept@;
                kept.push(k);
                assert(views(kept@) =~= views(prev).push(before[i as int]));
            }
            proof {
                let seen = before.take(i as int);
                let next = before.take(i + 1);
                assert forall|k: Seq<char>| self.map@.contains_key(k) <==> old(self)@.contains_key(k) && (keep(k) || !next.contains(k)) by {
                    if next.contains(k) && k != before[i as int] {
                        let j = choose|j: int| 0 <= j < next.len() && next[j] == k;
                        assert(seen[j] == k);
                    }
                    if seen.contains(k) {
                        let j = choose|j: int| 0 <= j < seen.len() && seen[j] == k;
                        assert(next[j] == k);
                    }
                    assert(next[i as int] == before[i as int]);
                }
            }
            i += 1;
        }
        assert(before.take(i as int) =~= before);
        self.keys = kept;
        proof {
            lemma_filter_keeps(before, keep);
            assert forall|k: Seq<char>| keep(k) == !has_prefix(k, prefix@) by {}
            assert forall|k: Seq<char>| #[trigger]
                self@.contains_key(k) <==> old(self)@.contains_key(k) && !has_prefix(k, prefix@) by {
                if old(self)@.contains_key(k) {
                    assert(before.contains(k));
                }
            }
            assert(self@ =~= map_outside(old(self)@, prefix@));
        }
    }

    /// A store with the same keys, order and records.
    pub fn duplicate(&self) -> (s: Self)
        requires
            self.wf(),
        ensures
            s.wf(),
            s@ == self@,
            s.order() == self.order(),
    {
        let mut s = AggregateStore::new();
        let mut i: usize = 0;
        while i < self.keys.len()
            invariant
                i <= self.keys.len(),
                self.wf(),
                s.wf(),
                s.order() == self.order().take(i as int),
                forall|k: Seq<char>| #[trigger] s@.contains_key(k) ==> self@.contains_key(k) && s@[k] == self@[k],
            decreases self.keys.len() - i,
        {
            let k = self.keys[i].clone();
            let ghost prev = s.order();
            assert(self.order()[i as int] == k@);
            assert(self.order().contains(k@));
            let v = match self.map.get(k.as_str()) {
                Some(v) => *v,
                None => NodeRecord::default(),
            };
            proof {
                if prev.contains(k@) {
                    let j = choose|j: int| 0 <= j < prev.len() && prev[j] == k@;
                    assert(self.order()[j] == k@);
                }
            }
            assert(self@.contains_key(k@));
            assert(v == self@[k@]);
            let ghost before = s@;
            s.insert(k, v);
            assert(s@ == before.insert(self.order()[i as int], v));
            assert(s.order() =~= self.order().take(i + 1));
            assert forall|x: Seq<char>| #[trigger] s@.contains_key(x) implies self@.contains_key(x) && s@[x] == self@[x] by {
                if x != self.order()[i as int] {
                    assert(before.contains_key(x));
                }
            }
            i += 1;
        }
        assert(self.order().take(i as int) =~= self.order());
        assert(s@ =~= self@) by {
            assert forall|k: Seq<char>| self@.contains_key(k) implies s@.contains_key(k) by {
                assert(self.order().contains(k));
                assert(s.order().contains(k));
            }
        }
        s
    }
}

/// What is left of an order after a key or a prefix has been taken out.
pub proof fn lemma_order_without(order: Seq<Seq<char>>, key: Seq<char>)
    ensures
        forall|k: Seq<char>| #[trigger]
            order_without(order, key).contains(k) <==> order.contains(k) && k != key,
        forall|k: Seq<char>| #[trigger]
            order_outside(order, key).contains(k) <==> order.contains(k) && !has_prefix(k, key),
        order.no_duplicates() ==> order_without(order, key).no_duplicates() && order_outside(
            order,
            key,
        ).no_duplicates(),
        order_without(order, key).len() <= order.len(),
        order_outside(order, key).len() <= order.len(),
        order.contains(key) ==> order_without(order, key).len() < order.len(),
        !order.contains(key) ==> order_without(order, key) == order,
{
    let f = is_not(key);
    let g = lies_outside(key);
    lemma_filter_keeps(order, f);
    lemma_filter_keeps(order, g);
    order.lemma_filter_len(f);
    order.lemma_filter_len(g);
    if order.contains(key) {
        lemma_filter_drops(order, f, key);
    } else {
        lemma_filter_all(order, f);
    }
}

/// Filtering out an element that is there makes the sequence shorter.
pub proof fn lemma_filter_drops<A>(s: Seq<A>, keep: spec_fn(A) -> bool, x: A)
    requires
        s.contains(x),
        !keep(x),
    ensures
        s.filter(keep).len() < s.len(),
    decreases s.len(),
{
    reveal(Seq::filter);
    let front = s.drop_last();
    front.lemma_filter_len(keep);
    if s.last() != x {
        let i = choose|i: int| 0 <= i < s.len() && s[i] == x;
        assert(front[i] == x);
        lemma_filter_drops(front, keep, x);
    }
}

/// Filtering changes nothing where every element passes.
pub proof fn lemma_filter_all<A>(s: Seq<A>, keep: spec_fn(A) -> bool)
    requires
        forall|i: int| 0 <= i < s.len() ==> keep(#[trigger] s[i]),
    ensures
        s.filter(keep) == s,
    decreases s.len(),
{
    reveal(Seq::filter);
    if s.len() > 0 {
        let front = s.drop_last();
        assert forall|i: int| 0 <= i < front.len() implies keep(#[trigger] front[i]) by {
            assert(front[i] == s[i]);
        }
        lemma_filter_all(front, keep);
        assert(keep(s[s.len() - 1]));
        assert(front.push(s.last()) =~= s);
    }
}

/// Filtering keeps exactly the elements that pass, and adds no duplicates.
pub proof fn lemma_filter_keeps<A>(s: Seq<A>, keep: spec_fn(A) -> bool)
    ensures
        forall|x: A| #[trigger] s.filter(keep).contains(x) <==> s.contains(x) && keep(x),
        s.no_duplicates() ==> s.filter(keep).no_duplicates(),
    decreases s.len(),
{
    reveal(Seq::filter);
    if s.len() > 0 {
        let front = s.drop_last();
        let last = s.last();
        let f = front.filter(keep);
        lemma_filter_keeps(front, keep);
        assert(s =~= front.push(last));
        assert forall|x: A| #[trigger] s.filter(keep).contains(x) <==> s.contains(x) && keep(x) by {
            if s.filter(keep).contains(x) {
                let i = choose|i: int| 0 <= i < s.filter(keep).len() && s.filter(keep)[i] == x;
                if keep(last) && i == f.len() {
                    assert(s[s.len() - 1] == x);
                } else {
                    assert(f[i] == x);
                    assert(f.contains(x));
                    let j = choose|j: int| 0 <= j < front.len() && front[j] == x;
                    assert(s[j] == x);
                }
            }
            if s.contains(x) && keep(x) {
                let i = choose|i: int| 0 <= i < s.len() && s[i] == x;
                if i < s.len() - 1 {
                    assert(front[i] == x);
                    assert(front.contains(x));
                    assert(f.contains(x));
                    let j = choose|j: int| 0 <= j < f.len() && f[j] == x;
                    assert(s.filter(keep)[j] == x);
                } else {
                    assert(s.filter(keep)[f.len() as int] == x);
                }
            }
        }
        if s.no_duplicates() {
            assert(front.no_duplicates());
            if keep(last) {
                if f.contains(last) {
                    assert(front.contains(last));
                    let i = choose|i: int| 0 <= i < front.len() && front[i] == last;
                    assert(s[i] == front[i]);
                    assert(s[i] == s[s.len() - 1]);
                    assert(false);
                }
                assert(f.push(last).no_duplicates());
            }
        }
    }
}

} // verus!
