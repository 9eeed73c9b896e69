//! From two environments to the commands that turn one into the other, and
//! from what the system prints to an environment.

use vstd::prelude::*;
use crate::env::EnvHashMap;
use crate::persist::{find, lemma_find};
use crate::store::views;
use crate::task::Vars;
use crate::text::{chars_of, same_text, string_of};

verus! {

/// Whether `a` and `b` hold the same strings in the same order.
pub fn same_strings(a: &Vec<String>, b: &Vec<String>) -> (r: bool)
    ensures
        r == (views(a@) == views(b@)),
{
    if a.len() != b.len() {
        assert(views(a@).len() != views(b@).len());
        return false;
    }
    let mut same = true;
    let mut i: usize = 0;
    while same && i < a.len()
        invariant
            a.len() == b.len(),
            i <= a.len(),
            same ==> forall|j: int| 0 <= j < i ==> views(a@)[j] == views(b@)[j],
            !same ==> views(a@) != views(b@),
        decreases a.len() - i,
    {
        if !same_text(a[i].as_str(), b[i].as_str()) {
            assert(views(a@)[i as int] != views(b@)[i as int]);
            same = false;
        }
        i += 1;
    }
    assert(same ==> views(a@) =~= views(b@));
    same
}

/// `values` in a row, with `sep` between two of them.
pub open spec fn joined(values: Seq<Seq<char>>, sep: Seq<char>) -> Seq<char>
    decreases values.len(),
{
    if values.len() == 0 {
        Seq::empty()
    } else if values.len() == 1 {
        values[0]
    } else {
        joined(values.drop_last(), sep) + sep + values.last()
    }
}

/// How a command begins.
pub open spec fn command_head() -> Seq<char> {
    "[Environment]::SetEnvironmentVariable(\""@
}

/// What stands between the name and the values. The semicolon before the
/// first value keeps a variable with one empty value from being dropped.
pub open spec fn command_middle() -> Seq<char> {
    "\", \";"@
}

/// How a command that sets a variable ends.
pub open spec fn command_tail() -> Seq<char> {
    "\", [EnvironmentVariableTarget]::User)"@
}

/// How a command that drops a variable ends.
pub open spec fn command_drop() -> Seq<char> {
    "\", $null, [EnvironmentVariableTarget]::User)"@
}

/// The command that gives `name` the values `values`.
pub open spec fn update_command(name: Seq<char>, values: Seq<Seq<char>>) -> Seq<char> {
    command_head() + name + command_middle() + joined(values, ";"@) + command_tail()
}

/// The command that drops `name`.
pub open spec fn delete_command(name: Seq<char>) -> Seq<char> {
    command_head() + name + command_drop()
}

/// The test that the names pass which `new` gives other values than `old`.
pub open spec fn is_changed(old: Vars, new: Vars) -> spec_fn(Seq<char>) -> bool {
    |k: Seq<char>| !(old.contains_key(k) && old[k] == new[k])
}

/// The test that the names pass which `new` lacks.
pub open spec fn is_dropped(new: Vars) -> spec_fn(Seq<char>) -> bool {
    |k: Seq<char>| !new.contains_key(k)
}

/// `update_command` over `new` as a function value.
pub open spec fn update_of(new: Vars) -> spec_fn(Seq<char>) -> Seq<char> {
    |k: Seq<char>| update_command(k, new[k])
}

/// `delete_command` as a function value.
pub open spec fn delete_of() -> spec_fn(Seq<char>) -> Seq<char> {
    |k: Seq<char>| delete_command(k)
}

/// The commands that turn `old` into `new`: first one for each variable of
/// `new` that `old` lacks or holds otherwise, then one for each variable of
/// `old` that `new` lacks.
pub open spec fn commands(old: Vars, old_names: Seq<Seq<char>>, new: Vars, new_names: Seq<Seq<char>>) -> Seq<
    Seq<char>,
> {
    new_names.filter(is_changed(old, new)).map_values(update_of(new)) + old_names.filter(
        is_dropped(new),
    ).map_values(delete_of())
}

/// Works out how to turn one environment into another.
pub struct UpdateResolver<'a> {
    old_env: &'a EnvHashMap,
    new_env: &'a EnvHashMap,
}

impl<'a> UpdateResolver<'a> {
    /// Both environments are well formed.
    pub closed spec fn wf(&self) -> bool {
        self.old_env.wf() && self.new_env.wf()
    }

    /// The commands that `resolve` gives.
    pub closed spec fn plan(&self) -> Seq<Seq<char>> {
        commands(self.old_env@, self.old_env.names(), self.new_env@, self.new_env.names())
    }

    /// A resolver from `old_env` to `new_env`.
    pub fn new(old_env: &'a EnvHashMap, new_env: &'a EnvHashMap) -> (r: Self)
        requires
            old_env.wf(),
            new_env.wf(),
        ensures
            r.wf(),
            r.plan() == commands(old_env@, old_env.names(), new_env@, new_env.names()),
    {
        UpdateResolver { old_env, new_env }
    }

    /// The names to set and the names to drop.
    fn _filter(&self) -> (r: (Vec<String>, Vec<String>))
        requires
            self.wf(),
        ensures
            views(r.0@) == self.new_env.names().filter(is_changed(self.old_env@, self.new_env@)),
            views(r.1@) == self.old_env.names().filter(is_dropped(self.new_env@)),
    {
        let mut updates: Vec<String> = Vec::new();
        let mut deletes: Vec<String> = Vec::new();
        let ghost changed = is_changed(self.old_env@, self.new_env@);
        let ghost dropped = is_dropped(self.new_env@);
        let ghost new_names = self.new_env.names();
        let ghost old_names = self.old_env.names();
        proof {
            reveal(Seq::filter);
            assert(views(updates@) =~= new_names.take(0).filter(changed));
            assert(views(deletes@) =~= old_names.take(0).filter(dropped));
        }
        let n = self.new_env.len();
        let mut i: usize = 0;
        while i < n
            invariant
                self.wf(),
                n == new_names.len(),
                new_names == self.new_env.names(),
                changed == is_changed(self.old_env@, self.new_env@),
                i <= n,
                views(updates@) == new_names.take(i as int).filter(changed),
            decreases n - i,
        {
            let name = self.new_env.name_at(i);
            let values = self.new_env.values_at(i);
            proof {
                assert(new_names.take(i + 1) =~= new_names.take(i as int).push(name@));
                new_names.take(i as int).lemma_filter_push(name@, changed);
            }
            let same = match self.old_env.get(name.as_str()) {
                Some(old_values) => same_strings(old_values, values),
                None => false,
            };
            if !same {
                let ghost before = views(updates@);
                updates.push(name.clone());
                assert(views(updates@) =~= before.push(name@));
            }
            i += 1;
        }
        assert(new_names.take(n as int) =~= new_names);
        let m = self.old_env.len();
        let mut j: usize = 0;
        while j < m
            invariant
                self.wf(),
                m == old_names.len(),
                old_names == self.old_env.names(),
                dropped == is_dropped(self.new_env@),
                j <= m,
                views(deletes@) == old_names.take(j as int).filter(dropped),
            decreases m - j,
        {
            let name = self.old_env.name_at(j);
            proof {
                assert(old_names.take(j + 1) =~= old_names.take(j as int).push(name@));
                old_names.take(j as int).lemma_filter_push(name@, dropped);
            }
            if !self.new_env.contains_key(name.as_str()) {
                let ghost before = views(deletes@);
                deletes.push(name.clone());
                assert(views(deletes@) =~= before.push(name@));
            }
            j += 1;
        }
        assert(old_names.take(m as int) =~= old_names);
        (updates, deletes)
    }

    /// The command for each name to set and each name to drop.
    fn _create_tasks(&self, updates: &Vec<String>, deletes: &Vec<String>) -> (tasks: Vec<String>)
        requires
            self.wf(),
            forall|i: int| 0 <= i < updates.len() ==> self.new_env@.contains_key(#[trigger] updates[i]@),
        ensures
            views(tasks@) == views(updates@).map_values(update_of(self.new_env@)) + views(
                deletes@,
            ).map_values(delete_of()),
    {
        let mut tasks: Vec<String> = Vec::new();
        let ghost first = views(updates@).map_values(update_of(self.new_env@));
        let ghost second = views(deletes@).map_values(delete_of());
        assert(views(tasks@) =~= first.take(0));
        let mut i: usize = 0;
        while i < updates.len()
            invariant
                self.wf(),
                i <= updates.len(),
                first == views(updates@).map_values(update_of(self.new_env@)),
                forall|i: int|
                    0 <= i < updates.len() ==> self.new_env@.contains_key(#[trigger] updates[i]@),
                views(tasks@) == first.take(i as int),
            decreases updates.len() - i,
        {
            let name = &updates[i];
            assert(self.new_env@.contains_key(updates[i as int]@));
            let mut command = "[Environment]::SetEnvironmentVariable(\"".to_owned();
            command.append(name.as_str());
            command.append("\", \";");
            match self.new_env.get(name.as_str()) {
                Some(values) => {
                    join_into(&mut command, values);
                },
                None => {},
            }
            command.append("\", [EnvironmentVariableTarget]::User)");
            assert(command@ =~= update_command(name@, self.new_env@[name@]));
            let ghost before = views(tasks@);
            tasks.push(command);
            assert(views(tasks@) =~= before.push(first[i as int]));
            assert(views(tasks@) =~= first.take(i + 1));
            i += 1;
        }
        assert(first.take(i as int) =~= first);
        assert(first + second.take(0) =~= first);
        let mut j: usize = 0;
        while j < deletes.len()
            invariant
                j <= deletes.len(),
                second == views(deletes@).map_values(delete_of()),
                views(tasks@) == first + second.take(j as int),
            decreases deletes.len() - j,
        {
            let name = &deletes[j];
            let mut command = "[Environment]::SetEnvironmentVariable(\"".to_owned();
            command.append(name.as_str());
            command.append("\", $null, [EnvironmentVariableTarget]::User)");
            assert(command@ =~= delete_command(name@));
            let ghost before = views(tasks@);
            tasks.push(command);
            assert(views(tasks@) =~= before.push(second[j as int]));
            assert(views(tasks@) =~= first + second.take(j + 1));
            j += 1;
        }
        assert(second.take(j as int) =~= second);
        tasks
    }

    /// The commands that turn the old environment into the new one.
    pub fn resolve(&self) -> (tasks: Vec<String>)
        requires
            self.wf(),
        ensures
            views(tasks@) == self.plan(),
    {
        let (updates, deletes) = self._filter();
        proof {
            self.new_env.lemma_wf();
            let changed = is_changed(self.old_env@, self.new_env@);
            assert forall|i: int| 0 <= i < updates.len() implies self.new_env@.contains_key(
                #[trigger] updates[i]@,
            ) by {
                assert(views(updates@)[i] == updates[i]@);
                assert(views(updates@).contains(updates[i]@));
                self.new_env.names().lemma_filter_contains_rev(changed, updates[i]@);
            }
        }
        self._create_tasks(&updates, &deletes)
    }
}

/// Appends `values` with a semicolon between two of them.
fn join_into(out: &mut String, values: &Vec<String>)
    ensures
        final(out)@ == old(out)@ + joined(views(values@), ";"@),
{
    let ghost all = views(values@);
    let mut i: usize = 0;
    assert(out@ =~= old(out)@ + joined(all.take(0), ";"@));
    while i < values.len()
        invariant
            i <= values.len(),
            all == views(values@),
            out@ == old(out)@ + joined(all.take(i as int), ";"@),
        decreases values.len() - i,
    {
        proof {
            assert(all.take(i + 1).drop_last() =~= all.take(i as int));
            assert(all.take(i + 1).last() == values[i as int]@);
            if i == 0 {
                assert(all.take(1)[0] == values[0]@);
            }
        }
        if i > 0 {
            out.append(";");
        }
        out.append(values[i].as_str());
        assert(out@ =~= old(out)@ + joined(all.take(i + 1), ";"@));
        i += 1;
    }
    assert(all.take(i as int) =~= all);
}

/// The characters that count as blank.
pub open spec fn is_space(c: char) -> bool {
    ('\u{9}' <= c && c <= '\u{d}') || c == ' ' || c == '\u{85}' || c == '\u{a0}' || c == '\u{1680}' || (
    '\u{2000}' <= c && c <= '\u{200a}') || c == '\u{2028}' || c == '\u{2029}' || c == '\u{202f}' || c
        == '\u{205f}' || c == '\u{3000}'
}

/// Whether `s` holds blanks only.
pub open spec fn is_blank(s: Seq<char>) -> bool {
    forall|i: int| 0 <= i < s.len() ==> is_space(#[trigger] s[i])
}

/// The test that the strings pass which are not blank.
pub open spec fn not_blank() -> spec_fn(Seq<char>) -> bool {
    |s: Seq<char>| !is_blank(s)
}

/// The parts of `t[from..]` between its semicolons.
pub open spec fn pieces(t: Seq<char>, from: int) -> Seq<Seq<char>>
    decreases t.len() - from,
{
    if from < 0 || from > t.len() {
        Seq::empty()
    } else {
        proof {
            lemma_find(t, from, t.len() as int, ';');
        }
        let end = find(t, from, t.len() as int, ';');
        if end >= t.len() {
            seq![t.subrange(from, end)]
        } else {
            seq![t.subrange(from, end)] + pieces(t, end + 1)
        }
    }
}

/// The values that `t` lists: its parts between semicolons, without the
/// blank ones.
pub open spec fn listed_values(t: Seq<char>) -> Seq<Seq<char>> {
    pieces(t, 0).filter(not_blank())
}

/// Whether `c` counts as blank.
fn space(c: char) -> (r: bool)
    ensures
        r == is_space(c),
{
    ('\u{9}' <= c && c <= '\u{d}') || c == ' ' || c == '\u{85}' || c == '\u{a0}' || c == '\u{1680}' || (
    '\u{2000}' <= c && c <= '\u{200a}') || c == '\u{2028}' || c == '\u{2029}' || c == '\u{202f}' || c
        == '\u{205f}' || c == '\u{3000}'
}

/// Whether `t[from..to]` holds blanks only.
fn blank(t: &Vec<char>, from: usize, to: usize) -> (r: bool)
    requires
        from <= to <= t.len(),
    ensures
        r == is_blank(t@.subrange(from as int, to as int)),
{
    let ghost s = t@.subrange(from as int, to as int);
    let mut i: usize = from;
    while i < to
        invariant
            from <= i <= to <= t.len(),
            s == t@.subrange(from as int, to as int),
            forall|j: int| 0 <= j < i - from ==> is_space(#[trigger] s[j]),
        decreases to - i,
    {
        if !space(t[i]) {
            assert(!is_space(s[i - from]));
            return false;
        }
        i += 1;
    }
    true
}

/// The values that `text` lists: its parts between semicolons, without the
/// blank ones.
pub fn split_values(text: &str) -> (values: Vec<String>)
    ensures
        views(values@) == listed_values(text@),
{
    let t = chars_of(text);
    let mut values: Vec<String> = Vec::new();
    let ghost keep = not_blank();
    let ghost mut done: Seq<Seq<char>> = Seq::empty();
    let mut pos: usize = 0;
    let mut more = true;
    proof {
        reveal(Seq::filter);
        assert(views(values@) =~= done.filter(keep));
        assert(done + pieces(t@, 0) =~= pieces(t@, 0));
    }
    while more
        invariant
            t@ == text@,
            keep == not_blank(),
            pos <= t.len(),
            views(values@) == done.filter(keep),
            more ==> pieces(t@, 0) == done + pieces(t@, pos as int),
            !more ==> pieces(t@, 0) == done,
        decreases t.len() - pos, (if more { 1int } else { 0int }),
    {
        proof {
            lemma_find(t@, pos as int, t.len() as int, ';');
        }
        let end = find_semicolon(&t, pos);
        let ghost piece = t@.subrange(pos as int, end as int);
        proof {
            done.lemma_filter_push(piece, keep);
        }
        if !blank(&t, pos, end) {
            let ghost before = views(values@);
            values.push(string_of(&t, pos, end));
            assert(views(values@) =~= before.push(piece));
        }
        proof {
            let old_done = done;
            done = done.push(piece);
            if end < t.len() {
                assert(old_done + (seq![piece] + pieces(t@, end + 1)) =~= done + pieces(t@, end + 1));
            } else {
                assert(old_done + seq![piece] =~= done);
            }
        }
        if end < t.len() {
            pos = end + 1;
        } else {
            more = false;
        }
    }
    values
}

/// The first semicolon of `t[from..]`; its length where there is none.
fn find_semicolon(t: &Vec<char>, from: usize) -> (r: usize)
    requires
        from <= t.len(),
    ensures
        r == find(t@, from as int, t.len() as int, ';'),
        from <= r <= t.len(),
{
    let mut i: usize = from;
    while i < t.len() && t[i] != ';'
        invariant
            from <= i <= t.len(),
            find(t@, i as int, t.len() as int, ';') == find(t@, from as int, t.len() as int, ';'),
        decreases t.len() - i,
    {
        i += 1;
    }
    i
}

/// The environment that the pairs of name and listed values give, a later
/// pair replacing an earlier one of the same name.
pub open spec fn environment_of(pairs: Seq<(String, String)>) -> Vars
    decreases pairs.len(),
{
    if pairs.len() == 0 {
        Map::empty()
    } else {
        environment_of(pairs.drop_last()).insert(pairs.last().0@, listed_values(pairs.last().1@))
    }
}

/// The environment that the system reports: each variable with the values
/// that its text lists.
pub fn parse_environment(pairs: &Vec<(String, String)>) -> (env: EnvHashMap)
    ensures
        env.wf(),
        env@ == environment_of(pairs@),
{
    let mut env = EnvHashMap::new();
    let mut i: usize = 0;
    assert(pairs@.take(0) =~= Seq::<(String, String)>::empty());
    while i < pairs.len()
        invariant
            i <= pairs.len(),
            env.wf(),
            env@ == environment_of(pairs@.take(i as int)),
        decreases pairs.len() - i,
    {
        proof {
            assert(pairs@.take(i + 1).drop_last() =~= pairs@.take(i as int));
            assert(pairs@.take(i + 1).last() == pairs@[i as int]);
        }
        let values = split_values(pairs[i].1.as_str());
        env.insert(pairs[i].0.clone(), values);
        i += 1;
    }
    assert(pairs@.take(i as int) =~= pairs@);
    env
}

} // verus!
