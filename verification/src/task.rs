//! The log of edits to the environment, and what it does to the variables.

use vstd::prelude::*;
use crate::env::{copy_strings, EnvHashMap};
use crate::store::views;
use crate::text::same_text;

verus! {

/// The variables of an environment as a mathematical value.
pub type Vars = Map<Seq<char>, Seq<Seq<char>>>;

/// `s` with the values at `i` and `j` exchanged.
pub open spec fn swapped(s: Seq<Seq<char>>, i: int, j: int) -> Seq<Seq<char>> {
    s.update(i, s[j]).update(j, s[i])
}

/// The environment was read for the first time.
#[derive(Debug)]
pub struct InitLog {}

/// The edits so far were written to the system.
#[derive(Debug)]
pub struct FlushLog {}

/// A value was put behind the values of a variable.
#[derive(Debug)]
pub struct AddValueLog {
    pub variable: String,
    pub value: String,
}

/// The value at `index` was taken out of a variable.
#[derive(Debug)]
pub struct DeleteValueLog {
    pub variable: String,
    pub index: usize,
    pub value: String,
}

/// The value at `index` was changed.
#[derive(Debug)]
pub struct UpdateValueLog {
    pub variable: String,
    pub index: usize,
    pub old_value: String,
    pub new_value: String,
}

/// Two values of a variable changed places.
#[derive(Debug)]
pub struct OrderValueLog {
    pub variable: String,
    pub index_before: usize,
    pub index_after: usize,
    pub value: String,
}

/// A variable without values was made.
#[derive(Debug)]
pub struct AddVariableLog {
    pub variable: String,
}

/// A variable was dropped; `values` is what it held.
#[derive(Debug)]
pub struct DeleteVariableLog {
    pub variable: String,
    pub values: Vec<String>,
}

impl AddValueLog {
    /// The variables after the edit; `None` where the variable is missing.
    pub open spec fn applied(&self, m: Vars) -> Option<Vars> {
        if m.contains_key(self.variable@) {
            Some(m.insert(self.variable@, m[self.variable@].push(self.value@)))
        } else {
            None
        }
    }

    /// The variables before the edit; `None` where the variable is missing
    /// or does not end with the value.
    pub open spec fn reverted(&self, m: Vars) -> Option<Vars> {
        if m.contains_key(self.variable@) && m[self.variable@].len() > 0 && m[self.variable@].last()
            == self.value@ {
            Some(m.insert(self.variable@, m[self.variable@].drop_last()))
        } else {
            None
        }
    }

    /// Does the edit, or leaves `map` alone and says `false`.
    pub fn forward(&self, map: &mut EnvHashMap) -> (done: bool)
        requires
            old(map).wf(),
        ensures
            final(map).wf(),
            match self.applied(old(map)@) {
                Some(m) => done && final(map)@ == m,
                None => !done && final(map)@ == old(map)@,
            },
    {
        let mut values = match map.get(self.variable.as_str()) {
            Some(v) => copy_strings(v),
            None => {
                return false;
            },
        };
        let ghost before = views(values@);
        values.push(self.value.clone());
        assert(views(values@) =~= before.push(self.value@));
        map.insert(self.variable.clone(), values);
        true
    }

    /// Undoes the edit, or leaves `map` alone and says `false`.
    pub fn backword(&self, map: &mut EnvHashMap) -> (done: bool)
        requires
            old(map).wf(),
        ensures
            final(map).wf(),
            match self.reverted(old(map)@) {
                Some(m) => done && final(map)@ == m,
                None => !done && final(map)@ == old(map)@,
            },
    {
        let mut values = match map.get(self.variable.as_str()) {
            Some(v) => copy_strings(v),
            None => {
                return false;
            },
        };
        let n = values.len();
        if n == 0 {
            return false;
        }
        assert(views(values@).last() == values[n - 1]@);
        if !same_text(values[n - 1].as_str(), self.value.as_str()) {
            return false;
        }
        let ghost before = views(values@);
        values.pop();
        assert(views(values@) =~= before.drop_last());
        map.insert(self.variable.clone(), values);
        true
    }
}

impl DeleteValueLog {
    /// The variables after the edit; `None` where the variable is missing
    /// or has no value at the index.
    pub open spec fn applied(&self, m: Vars) -> Option<Vars> {
        if m.contains_key(self.variable@) && self.index < m[self.variable@].len() {
            Some(m.insert(self.variable@, m[self.variable@].remove(self.index as int)))
        } else {
            None
        }
    }

    /// The variables before the edit; `None` where the variable is missing
    /// or is too short for the index.
    pub open spec fn reverted(&self, m: Vars) -> Option<Vars> {
        if m.contains_key(self.variable@) && self.index <= m[self.variable@].len() {
            Some(m.insert(self.variable@, m[self.variable@].insert(self.index as int, self.value@)))
        } else {
            None
        }
    }

    /// Does the edit, or leaves `map` alone and says `false`.
    pub fn forward(&self, map: &mut EnvHashMap) -> (done: bool)
        requires
            old(map).wf(),
        ensures
            final(map).wf(),
            match self.applied(old(map)@) {
                Some(m) => done && final(map)@ == m,
                None => !done && final(map)@ == old(map)@,
            },
    {
        let mut values = match map.get(self.variable.as_str()) {
            Some(v) => copy_strings(v),
            None => {
                return false;
            },
        };
        if self.index >= values.len() {
            return false;
        }
        let ghost before = views(values@);
        values.remove(self.index);
        assert(views(values@) =~= before.remove(self.index as int));
        map.insert(self.variable.clone(), values);
        true
    }

    /// Undoes the edit, or leaves `map` alone and says `false`.
    pub fn backword(&self, map: &mut EnvHashMap) -> (done: bool)
        requires
            old(map).wf(),
        ensures
            final(map).wf(),
            match self.reverted(old(map)@) {
                Some(m) => done && final(map)@ == m,
                None => !done && final(map)@ == old(map)@,
            },
    {
        let mut values = match map.get(self.variable.as_str()) {
            Some(v) => copy_strings(v),
            None => {
                return false;
            },
        };
        if self.index > values.len() {
            return false;
        }
        let ghost before = views(values@);
        values.insert(self.index, self.value.clone());
        assert(views(values@) =~= before.insert(self.index as int, self.value@));
        map.insert(self.variable.clone(), values);
        true
    }
}

impl UpdateValueLog {
    /// The variables after the change from `from` to `to`; `None` where the
    /// variable is missing or does not hold `from` at the index.
    pub open spec fn changed(&self, m: Vars, from: Seq<char>, to: Seq<char>) -> Option<Vars> {
        if m.contains_key(self.variable@) && self.index < m[self.variable@].len()
            && m[self.variable@][self.index as int] == from {
            Some(m.insert(self.variable@, m[self.variable@].update(self.index as int, to)))
        } else {
            None
        }
    }

    /// The variables after the edit.
    pub open spec fn applied(&self, m: Vars) -> Option<Vars> {
        self.changed(m, self.old_value@, self.new_value@)
    }

    /// The variables before the edit.
    pub open spec fn reverted(&self, m: Vars) -> Option<Vars> {
        self.changed(m, self.new_value@, self.old_value@)
    }

    /// Changes the value at the index from `from` to `to`, or leaves `map`
    /// alone and says `false`.
    fn change(&self, map: &mut EnvHashMap, from: &String, to: &String) -> (done: bool)
        requires
            old(map).wf(),
        ensures
            final(map).wf(),
            match self.changed(old(map)@, from@, to@) {
                Some(m) => done && final(map)@ == m,
                None => !done && final(map)@ == old(map)@,
            },
    {
        let mut values = match map.get(self.variable.as_str()) {
            Some(v) => copy_strings(v),
            None => {
                return false;
            },
        };
        if self.index >= values.len() {
            return false;
        }
        assert(views(values@)[self.index as int] == values[self.index as int]@);
        if !same_text(values[self.index].as_str(), from.as_str()) {
            return false;
        }
        let ghost before = views(values@);
        values.set(self.index, to.clone());
        assert(views(values@) =~= before.update(self.index as int, to@));
        map.insert(self.variable.clone(), values);
        true
    }

    /// Does the edit, or leaves `map` alone and says `false`.
    pub fn forward(&self, map: &mut EnvHashMap) -> (done: bool)
        requires
            old(map).wf(),
        ensures
            final(map).wf(),
            match self.applied(old(map)@) {
                Some(m) => done && final(map)@ == m,
                None => !done && final(map)@ == old(map)@,
            },
    {
        self.change(map, &self.old_value, &self.new_value)
    }

    /// Undoes the edit, or leaves `map` alone and says `false`.
    pub fn backword(&self, map: &mut EnvHashMap) -> (done: bool)
        requires
            old(map).wf(),
        ensures
            final(map).wf(),
            match self.reverted(old(map)@) {
                Some(m) => done && final(map)@ == m,
                None => !done && final(map)@ == old(map)@,
            },
    {
        self.change(map, &self.new_value, &self.old_value)
    }
}

impl OrderValueLog {
    /// The variables after the edit, which is its own reverse; `None` where
    /// the variable is missing or has no value at one of the indices.
    pub open spec fn applied(&self, m: Vars) -> Option<Vars> {
        if m.contains_key(self.variable@) && self.index_before < m[self.variable@].len()
            && self.index_after < m[self.variable@].len() {
            Some(
                m.insert(
                    self.variable@,
                    swapped(m[self.variable@], self.index_before as int, self.index_after as int),
                ),
            )
        } else {
            None
        }
    }

    /// The variables before the edit.
    pub open spec fn reverted(&self, m: Vars) -> Option<Vars> {
        self.applied(m)
    }

    /// Does the edit, or leaves `map` alone and says `false`.
    pub fn forward(&self, map: &mut EnvHashMap) -> (done: bool)
        requires
            old(map).wf(),
        ensures
            final(map).wf(),
            match self.applied(old(map)@) {
                Some(m) => done && final(map)@ == m,
                None => !done && final(map)@ == old(map)@,
            },
    {
        let mut values = match map.get(self.variable.as_str()) {
            Some(v) => copy_strings(v),
            None => {
                return false;
            },
        };
        if self.index_before >= values.len() || self.index_after >= values.len() {
            return false;
        }
        let ghost before = views(values@);
        let a = values[self.index_before].clone();
        let b = values[self.index_after].clone();
        values.set(self.index_before, b);
        values.set(self.index_after, a);
        assert(views(values@) =~= swapped(before, self.index_before as int, self.index_after as int));
        map.insert(self.variable.clone(), values);
        true
    }

    /// Undoes the edit, or leaves `map` alone and says `false`.
    pub fn backword(&self, map: &mut EnvHashMap) -> (done: bool)
        requires
            old(map).wf(),
        ensures
            final(map).wf(),
            match self.reverted(old(map)@) {
                Some(m) => done && final(map)@ == m,
                None => !done && final(map)@ == old(map)@,
            },
    {
        self.forward(map)
    }
}

impl AddVariableLog {
    /// The variables after the edit; `None` where the variable is there.
    pub open spec fn applied(&self, m: Vars) -> Option<Vars> {
        if m.contains_key(self.variable@) {
            None
        } else {
            Some(m.insert(self.variable@, Seq::empty()))
        }
    }

    /// The variables before the edit; `None` where the variable is missing.
    pub open spec fn reverted(&self, m: Vars) -> Option<Vars> {
        if m.contains_key(self.variable@) {
            Some(m.remove(self.variable@))
        } else {
            None
        }
    }

    /// Does the edit, or leaves `map` alone and says `false`.
    pub fn forward(&self, map: &mut EnvHashMap) -> (done: bool)
        requires
            old(map).wf(),
        ensures
            final(map).wf(),
            match self.applied(old(map)@) {
                Some(m) => done && final(map)@ == m,
                None => !done && final(map)@ == old(map)@,
            },
    {
        if map.contains_key(self.variable.as_str()) {
            return false;
        }
        let values: Vec<String> = Vec::new();
        assert(views(values@) =~= Seq::<Seq<char>>::empty());
        map.insert(self.variable.clone(), values);
        true
    }

    /// Undoes the edit, or leaves `map` alone and says `false`.
    pub fn backword(&self, map: &mut EnvHashMap) -> (done: bool)
        requires
            old(map).wf(),
        ensures
            final(map).wf(),
            match self.reverted(old(map)@) {
                Some(m) => done && final(map)@ == m,
                None => !done && final(map)@ == old(map)@,
            },
    {
        if !map.contains_key(self.variable.as_str()) {
            return false;
        }
        map.remove(self.variable.as_str());
        true
    }
}

impl DeleteVariableLog {
    /// The variables after the edit; `None` where the variable is missing.
    pub open spec fn applied(&self, m: Vars) -> Option<Vars> {
        if m.contains_key(self.variable@) {
            Some(m.remove(self.variable@))
        } else {
            None
        }
    }

    /// The variables before the edit; `None` where the variable is there.
    pub open spec fn reverted(&self, m: Vars) -> Option<Vars> {
        if m.contains_key(self.variable@) {
            None
        } else {
            Some(m.insert(self.variable@, views(self.values@)))
        }
    }

    /// Does the edit, or leaves `map` alone and says `false`.
    pub fn forward(&self, map: &mut EnvHashMap) -> (done: bool)
        requires
            old(map).wf(),
        ensures
            final(map).wf(),
            match self.applied(old(map)@) {
                Some(m) => done && final(map)@ == m,
                None => !done && final(map)@ == old(map)@,
            },
    {
        if !map.contains_key(self.variable.as_str()) {
            return false;
        }
        map.remove(self.variable.as_str());
        true
    }

    /// Undoes the edit, or leaves `map` alone and says `false`.
    pub fn backword(&self, map: &mut EnvHashMap) -> (done: bool)
        requires
            old(map).wf(),
        ensures
            final(map).wf(),
            match self.reverted(old(map)@) {
                Some(m) => done && final(map)@ == m,
                None => !done && final(map)@ == old(map)@,
            },
    {
        if map.contains_key(self.variable.as_str()) {
            return false;
        }
        map.insert(self.variable.clone(), copy_strings(&self.values));
        true
    }
}

/// One entry of the log. The names of the variants are part of what is sent
/// to the front end.
#[derive(Debug)]
pub enum TaskLogData {
    Init(InitLog),
    Flush(FlushLog),
    AddVariable(AddVariableLog),
    DelVariable(DeleteVariableLog),
    AppendValue(AddValueLog),
    DeleteValue(DeleteValueLog),
    ModifyValue(UpdateValueLog),
    ReorderValue(OrderValueLog),
}

impl TaskLogData {
    /// Whether the entry marks a point at which the system and the log agree.
    pub open spec fn is_mark(&self) -> bool {
        self is Init || self is Flush
    }

    /// The variables after the entry; `None` where it cannot be done.
    pub open spec fn applied(&self, m: Vars) -> Option<Vars> {
        match self {
            TaskLogData::Init(_) => Some(m),
            TaskLogData::Flush(_) => Some(m),
            TaskLogData::AddVariable(log) => log.applied(m),
            TaskLogData::DelVariable(log) => log.applied(m),
            TaskLogData::AppendValue(log) => log.applied(m),
            TaskLogData::DeleteValue(log) => log.applied(m),
            TaskLogData::ModifyValue(log) => log.applied(m),
            TaskLogData::ReorderValue(log) => log.applied(m),
        }
    }

    /// The variables before the entry; `None` where it cannot be undone.
    pub open spec fn reverted(&self, m: Vars) -> Option<Vars> {
        match self {
            TaskLogData::Init(_) => Some(m),
            TaskLogData::Flush(_) => Some(m),
            TaskLogData::AddVariable(log) => log.reverted(m),
            TaskLogData::DelVariable(log) => log.reverted(m),
            TaskLogData::AppendValue(log) => log.reverted(m),
            TaskLogData::DeleteValue(log) => log.reverted(m),
            TaskLogData::ModifyValue(log) => log.reverted(m),
            TaskLogData::ReorderValue(log) => log.reverted(m),
        }
    }

    /// Whether the entry is `Init` or `Flush`.
    pub fn marks(&self) -> (r: bool)
        ensures
            r == self.is_mark(),
    {
        match self {
            TaskLogData::Init(_) => true,
            TaskLogData::Flush(_) => true,
            _ => false,
        }
    }

    /// Does the entry, or leaves `map` alone and says `false`.
    pub fn forward(&self, map: &mut EnvHashMap) -> (done: bool)
        requires
            old(map).wf(),
        ensures
            final(map).wf(),
            match self.applied(old(map)@) {
                Some(m) => done && final(map)@ == m,
                None => !done && final(map)@ == old(map)@,
            },
    {
        match self {
            TaskLogData::Init(_) => true,
            TaskLogData::Flush(_) => true,
            TaskLogData::AddVariable(log) => log.forward(map),
            TaskLogData::DelVariable(log) => log.forward(map),
            TaskLogData::AppendValue(log) => log.forward(map),
            TaskLogData::DeleteValue(log) => log.forward(map),
            TaskLogData::ModifyValue(log) => log.forward(map),
            TaskLogData::ReorderValue(log) => log.forward(map),
        }
    }

    /// Undoes the entry, or leaves `map` alone and says `false`.
    pub fn backword(&self, map: &mut EnvHashMap) -> (done: bool)
        requires
            old(map).wf(),
        ensures
            final(map).wf(),
            match self.reverted(old(map)@) {
                Some(m) => done && final(map)@ == m,
                None => !done && final(map)@ == old(map)@,
            },
    {
        match self {
            TaskLogData::Init(_) => true,
            TaskLogData::Flush(_) => true,
            TaskLogData::AddVariable(log) => log.backword(map),
            TaskLogData::DelVariable(log) => log.backword(map),
            TaskLogData::AppendValue(log) => log.backword(map),
            TaskLogData::DeleteValue(log) => log.backword(map),
            TaskLogData::ModifyValue(log) => log.backword(map),
            TaskLogData::ReorderValue(log) => log.backword(map),
        }
    }
}

/// An entry of the log with the time at which it was made, in milliseconds
/// since the epoch.
#[derive(Debug)]
pub struct TaskLog {
    pub timestamp: u128,
    pub data: TaskLogData,
}

impl TaskLog {
    /// The entry for a first reading of the environment.
    pub open spec fn init_spec(timestamp: u128) -> TaskLog {
        TaskLog { timestamp, data: TaskLogData::Init(InitLog {  }) }
    }

    /// The entry for a write to the system.
    pub open spec fn flush_spec(timestamp: u128) -> TaskLog {
        TaskLog { timestamp, data: TaskLogData::Flush(FlushLog {  }) }
    }

    /// The entry for a first reading of the environment.
    pub fn init(timestamp: u128) -> (log: Self)
        ensures
            log == TaskLog::init_spec(timestamp),
    {
        TaskLog { timestamp, data: TaskLogData::Init(InitLog {  }) }
    }

    /// The entry for a write to the system.
    pub fn flush(timestamp: u128) -> (log: Self)
        ensures
            log == TaskLog::flush_spec(timestamp),
    {
        TaskLog { timestamp, data: TaskLogData::Flush(FlushLog {  }) }
    }

    /// The entry for `data`, made at `timestamp`.
    pub fn at(timestamp: u128, data: TaskLogData) -> (log: Self)
        ensures
            log.timestamp == timestamp,
            log.data == data,
    {
        TaskLog { timestamp, data }
    }
}

/// The variables after each of `tasks` has been done in turn; `None` where
/// one of them cannot be done.
pub open spec fn forward_all(m: Vars, tasks: Seq<TaskLog>) -> Option<Vars>
    decreases tasks.len(),
{
    if tasks.len() == 0 {
        Some(m)
    } else {
        match forward_all(m, tasks.drop_last()) {
            Some(before) => tasks.last().data.applied(before),
            None => None,
        }
    }
}

/// The variables after each of `tasks` has been undone, the last first;
/// `None` where one of them cannot be undone.
pub open spec fn backward_all(m: Vars, tasks: Seq<TaskLog>) -> Option<Vars>
    decreases tasks.len(),
{
    if tasks.len() == 0 {
        Some(m)
    } else {
        match tasks.last().data.reverted(m) {
            Some(before) => backward_all(before, tasks.drop_last()),
            None => None,
        }
    }
}

/// Where the entries begin that came after the last `Init` or `Flush`.
pub open spec fn since_mark(tasks: Seq<TaskLog>) -> int
    decreases tasks.len(),
{
    if tasks.len() == 0 {
        0
    } else if tasks.last().data.is_mark() {
        tasks.len() as int
    } else {
        since_mark(tasks.drop_last())
    }
}

/// `since_mark` lies within the log.
pub proof fn lemma_since_mark(tasks: Seq<TaskLog>)
    ensures
        0 <= since_mark(tasks) <= tasks.len(),
        forall|i: int| since_mark(tasks) <= i < tasks.len() ==> !(#[trigger] tasks[i]).data.is_mark(),
        since_mark(tasks) > 0 ==> tasks[since_mark(tasks) - 1].data.is_mark(),
    decreases tasks.len(),
{
    if tasks.len() > 0 && !tasks.last().data.is_mark() {
        let front = tasks.drop_last();
        lemma_since_mark(front);
        assert forall|i: int| since_mark(tasks) <= i < tasks.len() implies !(
        #[trigger] tasks[i]).data.is_mark() by {
            if i < front.len() {
                assert(front[i] == tasks[i]);
            }
        }
        if since_mark(tasks) > 0 {
            assert(front[since_mark(tasks) - 1] == tasks[since_mark(tasks) - 1]);
        }
    }
}

/// Plays a part of the log over an environment.
pub struct TaskResolver<'a> {
    env: &'a EnvHashMap,
    tasks: &'a [TaskLog],
}

impl<'r> TaskResolver<'r> {
    /// The environment from which the resolver starts.
    pub closed spec fn start(&self) -> Vars {
        self.env@
    }

    /// The entries that the resolver plays.
    pub closed spec fn log(&self) -> Seq<TaskLog> {
        self.tasks@
    }

    /// The environment inside is well formed.
    pub closed spec fn wf(&self) -> bool {
        self.env.wf()
    }

    /// A resolver of `tasks` over `env`.
    pub fn new(env: &'r EnvHashMap, tasks: &'r [TaskLog]) -> (r: Self)
        requires
            env.wf(),
        ensures
            r.wf(),
            r.start() == env@,
            r.log() == tasks@,
    {
        TaskResolver { env, tasks }
    }

    /// The environment after the entries have been done in turn; `None`
    /// where one of them cannot be done.
    pub fn forward(&self) -> (r: Option<EnvHashMap>)
        requires
            self.wf(),
        ensures
            match forward_all(self.start(), self.log()) {
                Some(m) => r matches Some(e) && e.wf() && e@ == m,
                None => r is None,
            },
    {
        let mut map = self.env.duplicate();
        let mut i: usize = 0;
        assert(self.tasks@.take(0) =~= Seq::<TaskLog>::empty());
        while i < self.tasks.len()
            invariant
                i <= self.tasks.len(),
                map.wf(),
                forward_all(self.env@, self.tasks@.take(i as int)) == Some(map@),
            decreases self.tasks.len() - i,
        {
            proof {
                assert(self.tasks@.take(i + 1).drop_last() =~= self.tasks@.take(i as int));
                assert(self.tasks@.take(i + 1).last() == self.tasks@[i as int]);
            }
            if !self.tasks[i].data.forward(&mut map) {
                proof {
                    lemma_forward_prefix(self.env@, self.tasks@, i + 1);
                }
                return None;
            }
            i += 1;
        }
        assert(self.tasks@.take(i as int) =~= self.tasks@);
        Some(map)
    }

    /// The environment after the entries have been undone, the last first;
    /// `None` where one of them cannot be undone.
    pub fn backword(&self) -> (r: Option<EnvHashMap>)
        requires
            self.wf(),
        ensures
            match backward_all(self.start(), self.log()) {
                Some(m) => r matches Some(e) && e.wf() && e@ == m,
                None => r is None,
            },
    {
        let mut map = self.env.duplicate();
        let mut i: usize = self.tasks.len();
        assert(self.tasks@.take(i as int) =~= self.tasks@);
        while i > 0
            invariant
                i <= self.tasks.len(),
                map.wf(),
                backward_all(self.env@, self.tasks@) == backward_all(map@, self.tasks@.take(i as int)),
            decreases i,
        {
            proof {
                assert(self.tasks@.take(i as int).drop_last() =~= self.tasks@.take(i - 1));
                assert(self.tasks@.take(i as int).last() == self.tasks@[i - 1]);
            }
            if !self.tasks[i - 1].data.backword(&mut map) {
                return None;
            }
            i -= 1;
        }
        Some(map)
    }
}

/// Where a part of the log cannot be done, the whole log cannot.
pub proof fn lemma_forward_prefix(m: Vars, tasks: Seq<TaskLog>, n: int)
    requires
        0 <= n <= tasks.len(),
        forward_all(m, tasks.take(n)) is None,
    ensures
        forward_all(m, tasks) is None,
    decreases tasks.len() - n,
{
    if n < tasks.len() {
        assert(tasks.take(n + 1).drop_last() =~= tasks.take(n));
        lemma_forward_prefix(m, tasks, n + 1);
    } else {
        assert(tasks.take(n) =~= tasks);
    }
}

} // verus!
