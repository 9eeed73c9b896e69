//! The environment: variables by name, each with its values in order.

use vstd::prelude::*;
use crate::store::{is_not, lemma_filter_all, order_put, order_without, views};
use crate::text::same_text;

verus! {

/// One variable as a mathematical value: its name and its values.
pub type Binding = (Seq<char>, Seq<Seq<char>>);

/// The view of one stored variable, as a function value.
pub open spec fn binding_of() -> spec_fn((String, Vec<String>)) -> Binding {
    |e: (String, Vec<String>)| (e.0@, views(e.1@))
}

/// The views of stored variables.
pub open spec fn bindings(entries: Seq<(String, Vec<String>)>) -> Seq<Binding> {
    entries.map_values(binding_of())
}

/// The name of a variable, as a function value.
pub open spec fn name_of() -> spec_fn(Binding) -> Seq<char> {
    |b: Binding| b.0
}

/// The names of `entries` in order.
pub open spec fn names_of(entries: Seq<Binding>) -> Seq<Seq<char>> {
    entries.map_values(name_of())
}

/// The map that `entries` give when they are written in turn.
pub open spec fn env_map(entries: Seq<Binding>) -> Map<Seq<char>, Seq<Seq<char>>>
    decreases entries.len(),
{
    if entries.len() == 0 {
        Map::empty()
    } else {
        env_map(entries.drop_last()).insert(entries.last().0, entries.last().1)
    }
}

/// The map of `entries` holds exactly their names.
pub proof fn lemma_env_dom(entries: Seq<Binding>)
    ensures
        forall|k: Seq<char>| #[trigger] env_map(entries).contains_key(k) <==> names_of(entries).contains(k),
    decreases entries.len(),
{
    let names = names_of(entries);
    if entries.len() > 0 {
        let front = entries.drop_last();
        lemma_env_dom(front);
        assert(names_of(front) =~= names.drop_last());
        let last = entries.last();
        assert(env_map(entries) == env_map(front).insert(last.0, last.1));
        assert(names[names.len() - 1] == last.0);
        assert forall|k: Seq<char>| #[trigger] env_map(entries).contains_key(k) <==> names.contains(
            k,
        ) by {
            assert(env_map(entries).contains_key(k) <==> (k == last.0 || env_map(front).contains_key(
                k,
            )));
            if names.contains(k) {
                let i = choose|i: int| 0 <= i < names.len() && names[i] == k;
                if i < front.len() {
                    assert(names_of(front)[i] == k);
                }
            }
            if names_of(front).contains(k) {
                let i = choose|i: int| 0 <= i < front.len() && names_of(front)[i] == k;
                assert(names[i] == k);
            }
            assert(names[names.len() - 1] == entries.last().0);
        }
    }
}

/// Where no name comes twice, the map holds for each name its values.
pub proof fn lemma_env_lookup(entries: Seq<Binding>, i: int)
    requires
        names_of(entries).no_duplicates(),
        0 <= i < entries.len(),
    ensures
        env_map(entries).contains_key(entries[i].0),
        env_map(entries)[entries[i].0] == entries[i].1,
    decreases entries.len(),
{
    let names = names_of(entries);
    let front = entries.drop_last();
    assert(names_of(front) =~= names.drop_last());
    if i < entries.len() - 1 {
        lemma_env_lookup(front, i);
        assert(names[i] != names[entries.len() - 1]);
    }
}

/// Taking out the `i`-th of distinct elements leaves all that differ from it.
pub proof fn lemma_remove_is_filter(s: Seq<Seq<char>>, i: int)
    requires
        s.no_duplicates(),
        0 <= i < s.len(),
    ensures
        s.remove(i) == order_without(s, s[i]),
    decreases s.len(),
{
    reveal(Seq::filter);
    let keep = is_not(s[i]);
    let front = s.drop_last();
    if i == s.len() - 1 {
        assert forall|j: int| 0 <= j < front.len() implies keep(#[trigger] front[j]) by {
            assert(front[j] == s[j]);
        }
        lemma_filter_all(front, keep);
        assert(s.remove(i) =~= front);
    } else {
        lemma_remove_is_filter(front, i);
        assert(front[i] == s[i]);
        assert(s.last() == s[s.len() - 1]);
        assert(keep(s.last()));
        assert(s.remove(i) =~= front.remove(i).push(s.last()));
    }
}

/// The variables of an environment.
pub struct EnvHashMap {
    entries: Vec<(String, Vec<String>)>,
}

impl View for EnvHashMap {
    type V = Map<Seq<char>, Seq<Seq<char>>>;

    closed spec fn view(&self) -> Self::V {
        env_map(bindings(self.entries@))
    }
}

/// A copy of `v`.
pub fn copy_strings(v: &Vec<String>) -> (r: Vec<String>)
    ensures
        views(r@) == views(v@),
{
    let mut r: Vec<String> = Vec::new();
    let mut i: usize = 0;
    assert(views(r@) =~= views(v@).take(0));
    while i < v.len()
        invariant
            i <= v.len(),
            views(r@) == views(v@).take(i as int),
        decreases v.len() - i,
    {
        let ghost before = views(r@);
        let s = v[i].clone();
        r.push(s);
        assert(views(r@) =~= before.push(v[i as int]@));
        assert(views(r@) =~= views(v@).take(i + 1));
        i += 1;
    }
    assert(views(v@).take(i as int) =~= views(v@));
    r
}

impl EnvHashMap {
    /// The names in the order in which they were first written.
    pub closed spec fn names(&self) -> Seq<Seq<char>> {
        names_of(bindings(self.entries@))
    }

    /// No name comes twice.
    pub closed spec fn wf(&self) -> bool {
        self.names().no_duplicates()
    }

    /// The names are those of the map, and there are as many.
    pub proof fn lemma_wf(&self)
        requires
            self.wf(),
        ensures
            self.names().no_duplicates(),
            forall|k: Seq<char>| #[trigger] self@.contains_key(k) <==> self.names().contains(k),
    {
        lemma_env_dom(bindings(self.entries@));
    }

    /// An environment without variables.
    pub fn new() -> (e: Self)
        ensures
            e.wf(),
            e@ == Map::<Seq<char>, Seq<Seq<char>>>::empty(),
            e.names() == Seq::<Seq<char>>::empty(),
    {
        let e = EnvHashMap { entries: Vec::new() };
        assert(e.names() =~= Seq::<Seq<char>>::empty());
        assert(bindings(e.entries@) =~= Seq::<Binding>::empty());
        e
    }

    /// How many variables there are.
    pub fn len(&self) -> (n: usize)
        ensures
            n == self.names().len(),
    {
        self.entries.len()
    }

    /// The name of the `i`-th variable.
    pub fn name_at(&self, i: usize) -> (name: &String)
        requires
            i < self.names().len(),
        ensures
            name@ == self.names()[i as int],
    {
        &self.entries[i].0
    }

    /// The values of the `i`-th variable.
    pub fn values_at(&self, i: usize) -> (values: &Vec<String>)
        requires
            self.wf(),
            i < self.names().len(),
        ensures
            self@.contains_key(self.names()[i as int]),
            views(values@) == self@[self.names()[i as int]],
    {
        proof {
            lemma_env_lookup(bindings(self.entries@), i as int);
        }
        &self.entries[i].1
    }

    /// Where `name` stands among the names.
    pub fn position(&self, name: &str) -> (r: Option<usize>)
        requires
            self.wf(),
        ensures
            match r {
                Some(i) => i < self.names().len() && self.names()[i as int] == name@
                    && self@.contains_key(name@),
                None => !self@.contains_key(name@),
            },
    {
        proof {
            self.lemma_wf();
        }
        let mut i: usize = 0;
        while i < self.entries.len()
            invariant
                i <= self.entries.len(),
                self.wf(),
                forall|j: int| 0 <= j < i ==> self.names()[j] != name@,
            decreases self.entries.len() - i,
        {
            if same_text(self.entries[i].0.as_str(), name) {
                proof {
                    self.lemma_wf();
                    assert(self.names()[i as int] == name@);
                    assert(self.names().contains(name@));
                }
                return Some(i);
            }
            i += 1;
        }
        proof {
            self.lemma_wf();
        }
        None
    }

    /// Whether there is a variable `name`.
    pub fn contains_key(&self, name: &str) -> (r: bool)
        requires
            self.wf(),
        ensures
            r == self@.contains_key(name@),
    {
        self.position(name).is_some()
    }

    /// The values of `name`, if there is such a variable.
    pub fn get(&self, name: &str) -> (r: Option<&Vec<String>>)
        requires
            self.wf(),
        ensures
            match r {
                Some(values) => self@.contains_key(name@) && views(values@) == self@[name@],
                None => !self@.contains_key(name@),
            },
    {
        match self.position(name) {
            Some(i) => Some(self.values_at(i)),
            None => None,
        }
    }

    /// Gives `name` the values `values`, replacing what it had.
    pub fn insert(&mut self, name: String, values: Vec<String>)
        requires
            old(self).wf(),
        ensures
            final(self).wf(),
            final(self)@ == old(self)@.insert(name@, views(values@)),
            final(self).names() == order_put(old(self).names(), name@),
    {
        let ghost before = bindings(self.entries@);
        proof {
            self.lemma_wf();
        }
        match self.position(name.as_str()) {
            Some(i) => {
                self.entries.set(i, (name, values));
                proof {
                    let after = bindings(self.entries@);
                    assert(after =~= before.update(i as int, (name@, views(values@))));
                    assert(names_of(after) =~= names_of(before));
                    lemma_env_dom(after);
                    lemma_env_dom(before);
                    assert forall|k: Seq<char>| #[trigger]
                        env_map(after).contains_key(k) implies env_map(after)[k] == env_map(
                        before,
                    ).insert(name@, views(values@))[k] by {
                        let j = choose|j: int| 0 <= j < names_of(after).len() && names_of(after)[j] == k;
                        lemma_env_lookup(after, j);
                        lemma_env_lookup(before, j);
                    }
                    assert(env_map(after) =~= env_map(before).insert(name@, views(values@)));
                }
            },
            None => {
                self.entries.push((name, values));
                proof {
                    let after = bindings(self.entries@);
                    assert(after =~= before.push((name@, views(values@))));
                    assert(after.drop_last() =~= before);
                    assert(names_of(after) =~= names_of(before).push(name@));
                }
            },
        }
    }

    /// Drops the variable `name`, if there is one.
    pub fn remove(&mut self, name: &str)
        requires
            old(self).wf(),
        ensures
            final(self).wf(),
            final(self)@ == old(self)@.remove(name@),
            final(self).names() == order_without(old(self).names(), name@),
    {
        let ghost before = bindings(self.entries@);
        proof {
            self.lemma_wf();
        }
        match self.position(name) {
            Some(i) => {
                self.entries.remove(i);
                proof {
                    let after = bindings(self.entries@);
                    assert(after =~= before.remove(i as int));
                    assert(names_of(after) =~= names_of(before).remove(i as int));
                    lemma_remove_is_filter(names_of(before), i as int);
                    crate::store::lemma_order_without(names_of(before), name@);
                    lemma_env_dom(after);
                    lemma_env_dom(before);
                    assert forall|k: Seq<char>| #[trigger]
                        env_map(after).contains_key(k) implies env_map(after)[k] == env_map(
                        before,
                    )[k] by {
                        let j = choose|j: int| 0 <= j < names_of(after).len() && names_of(after)[j] == k;
                        lemma_env_lookup(after, j);
                        if j < i {
                            lemma_env_lookup(before, j);
                        } else {
                            lemma_env_lookup(before, j + 1);
                        }
                    }
                    assert(env_map(after) =~= env_map(before).remove(name@));
                }
            },
            None => {
                proof {
                    crate::store::lemma_order_without(self.names(), name@);
                    assert(self@ =~= self@.remove(name@));
                }
            },
        }
    }

    /// An environment with the same variables and values.
    pub fn duplicate(&self) -> (e: Self)
        requires
            self.wf(),
        ensures
            e.wf(),
            e@ == self@,
            e.names() == self.names(),
    {
        let mut entries: Vec<(String, Vec<String>)> = Vec::new();
        let mut i: usize = 0;
        assert(bindings(entries@) =~= bindings(self.entries@).take(0));
        while i < self.entries.len()
            invariant
                i <= self.entries.len(),
                bindings(entries@) == bindings(self.entries@).take(i as int),
            decreases self.entries.len() - i,
        {
            let ghost before = bindings(entries@);
            let name = self.entries[i].0.clone();
            let values = copy_strings(&self.entries[i].1);
            entries.push((name, values));
            assert(bindings(entries@) =~= before.push(bindings(self.entries@)[i as int]));
            assert(bindings(entries@) =~= bindings(self.entries@).take(i + 1));
            i += 1;
        }
        assert(bindings(self.entries@).take(i as int) =~= bindings(self.entries@));
        EnvHashMap { entries }
    }
}

} // verus!
