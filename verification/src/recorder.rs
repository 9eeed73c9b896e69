//! From the values that a variable had and the values it is given to the
//! entry that says what was done.

use vstd::prelude::*;
use crate::env::EnvHashMap;
use crate::store::views;
use crate::task::Vars;
use crate::text::same_text;

verus! {

/// A value was put at `index`, behind the values that were there.
#[derive(Debug)]
pub struct AddValueLogData {
    pub variable: String,
    pub index: usize,
    pub value: String,
}

/// The value at `index`, the last one, was taken away.
#[derive(Debug)]
pub struct DeleteValueLogData {
    pub variable: String,
    pub index: usize,
    pub value: String,
}

/// The value at `index` was changed.
#[derive(Debug)]
pub struct UpdateValueLogData {
    pub variable: String,
    pub index: usize,
    pub old_value: String,
    pub new_value: String,
}

/// Two values changed places. Which of the two was moved cannot be told.
#[derive(Debug)]
pub struct OrderValueLogData {
    pub variable: String,
    pub candidate1: usize,
    pub candidate2: usize,
}

/// A variable without values was made.
#[derive(Debug)]
pub struct AddVariableLogData {
    pub variable: String,
}

/// A variable was dropped.
#[derive(Debug)]
pub struct DeleteVariableLogData {
    pub variable: String,
}

/// The edits so far were written to the system.
#[derive(Debug)]
pub struct FlushLogData {}

/// The environment was read for the first time.
#[derive(Debug)]
pub struct InitLogData {}

/// What was done.
#[derive(Debug)]
pub enum TaskLogData {
    Init(InitLogData),
    Flush(FlushLogData),
    AddValue(AddValueLogData),
    DeleteValue(DeleteValueLogData),
    UpdateValue(UpdateValueLogData),
    OrderValue(OrderValueLogData),
    AddVariable(AddVariableLogData),
    DeleteVariable(DeleteVariableLogData),
}

/// What was done, as a mathematical value.
pub enum Deed {
    Init,
    Flush,
    AddValue { variable: Seq<char>, index: int, value: Seq<char> },
    DeleteValue { variable: Seq<char>, index: int, value: Seq<char> },
    UpdateValue { variable: Seq<char>, index: int, old_value: Seq<char>, new_value: Seq<char> },
    OrderValue { variable: Seq<char>, candidate1: int, candidate2: int },
    AddVariable { variable: Seq<char> },
    DeleteVariable { variable: Seq<char> },
}

impl View for TaskLogData {
    type V = Deed;

    open spec fn view(&self) -> Deed {
        match self {
            TaskLogData::Init(_) => Deed::Init,
            TaskLogData::Flush(_) => Deed::Flush,
            TaskLogData::AddValue(l) => Deed::AddValue {
                variable: l.variable@,
                index: l.index as int,
                value: l.value@,
            },
            TaskLogData::DeleteValue(l) => Deed::DeleteValue {
                variable: l.variable@,
                index: l.index as int,
                value: l.value@,
            },
            TaskLogData::UpdateValue(l) => Deed::UpdateValue {
                variable: l.variable@,
                index: l.index as int,
                old_value: l.old_value@,
                new_value: l.new_value@,
            },
            TaskLogData::OrderValue(l) => Deed::OrderValue {
                variable: l.variable@,
                candidate1: l.candidate1 as int,
                candidate2: l.candidate2 as int,
            },
            TaskLogData::AddVariable(l) => Deed::AddVariable { variable: l.variable@ },
            TaskLogData::DeleteVariable(l) => Deed::DeleteVariable { variable: l.variable@ },
        }
    }
}

/// What was done, and when, in milliseconds since the epoch.
#[derive(Debug)]
pub struct TaskLog {
    pub timestamp: u128,
    pub data: TaskLogData,
}

/// A list of entries.
pub struct Recorder {
    pub tasks: Vec<TaskLog>,
}

impl Recorder {
    /// A recorder without entries.
    pub fn new() -> (r: Self)
        ensures
            r.tasks@ == Seq::<TaskLog>::empty(),
    {
        Recorder { tasks: Vec::new() }
    }

    /// Puts `task` behind the entries.
    pub fn add_task(&mut self, task: TaskLog)
        ensures
            final(self).tasks@ == old(self).tasks@.push(task),
    {
        self.tasks.push(task);
    }

    /// Puts `logs` behind the entries.
    pub fn load(&mut self, logs: Vec<TaskLog>)
        ensures
            final(self).tasks@ == old(self).tasks@ + logs@,
    {
        let mut logs = logs;
        self.tasks.append(&mut logs);
    }
}

/// Whether `a` and `b` hold the same strings, however often and in whatever
/// order.
pub open spec fn same_members(a: Seq<Seq<char>>, b: Seq<Seq<char>>) -> bool {
    &&& forall|i: int| 0 <= i < a.len() ==> b.contains(#[trigger] a[i])
    &&& forall|j: int| 0 <= j < b.len() ==> a.contains(#[trigger] b[j])
}

/// The places among the first `n` at which `a` and `b` differ, rising.
pub open spec fn differing(a: Seq<Seq<char>>, b: Seq<Seq<char>>, n: int) -> Seq<int>
    decreases n,
{
    if n <= 0 {
        Seq::empty()
    } else if a[n - 1] != b[n - 1] {
        differing(a, b, n - 1).push(n - 1)
    } else {
        differing(a, b, n - 1)
    }
}

/// What was done when `variable` of `env` was given `values`; `None` where
/// that cannot be told: the variable is missing, or the values are those it
/// had, or as many others that differ at one place only.
pub open spec fn made(env: Vars, variable: Seq<char>, values: Option<Seq<Seq<char>>>) -> Option<Deed> {
    match values {
        None => Some(Deed::DeleteVariable { variable }),
        Some(new) => if new.len() == 0 {
            Some(Deed::AddVariable { variable })
        } else if !env.contains_key(variable) {
            None
        } else {
            let old = env[variable];
            let places = differing(old, new, old.len() as int);
            if old.len() < new.len() {
                Some(Deed::AddValue { variable, index: old.len() as int, value: new[old.len() as int] })
            } else if old.len() > new.len() {
                Some(Deed::DeleteValue { variable, index: old.len() - 1, value: old[old.len() - 1] })
            } else if same_members(old, new) {
                if places.len() >= 2 {
                    Some(Deed::OrderValue { variable, candidate1: places[0], candidate2: places[1] })
                } else {
                    None
                }
            } else if places.len() >= 1 {
                Some(
                    Deed::UpdateValue {
                        variable,
                        index: places[0],
                        old_value: old[places[0]],
                        new_value: new[places[0]],
                    },
                )
            } else {
                None
            }
        },
    }
}

/// The values of a list that may be missing.
pub open spec fn views_of(values: Option<Vec<String>>) -> Option<Seq<Seq<char>>> {
    match values {
        Some(v) => Some(views(v@)),
        None => None,
    }
}

/// Whether `v` holds `s`.
fn holds(v: &Vec<String>, s: &str) -> (r: bool)
    ensures
        r == views(v@).contains(s@),
{
    let mut i: usize = 0;
    while i < v.len()
        invariant
            i <= v.len(),
            forall|j: int| 0 <= j < i ==> views(v@)[j] != s@,
        decreases v.len() - i,
    {
        if same_text(v[i].as_str(), s) {
            assert(views(v@)[i as int] == s@);
            return true;
        }
        i += 1;
    }
    false
}

/// Whether every string of `a` is in `b`.
fn all_held(a: &Vec<String>, b: &Vec<String>) -> (r: bool)
    ensures
        r == (forall|i: int| 0 <= i < a.len() ==> views(b@).contains(#[trigger] views(a@)[i])),
{
    let mut i: usize = 0;
    while i < a.len()
        invariant
            i <= a.len(),
            forall|j: int| 0 <= j < i ==> views(b@).contains(#[trigger] views(a@)[j]),
        decreases a.len() - i,
    {
        if !holds(b, a[i].as_str()) {
            assert(!views(b@).contains(views(a@)[i as int]));
            return false;
        }
        i += 1;
    }
    true
}

/// The first two places at which `a` and `b` differ.
fn first_places(a: &Vec<String>, b: &Vec<String>) -> (r: (Option<usize>, Option<usize>))
    requires
        a.len() == b.len(),
    ensures
        ({
            let places = differing(views(a@), views(b@), a.len() as int);
            &&& r.0 is Some <==> places.len() >= 1
            &&& r.1 is Some <==> places.len() >= 2
            &&& r.0 matches Some(i) ==> i == places[0] && i < a.len()
            &&& r.1 matches Some(j) ==> j == places[1] && j < a.len()
        }),
{
    let mut first: Option<usize> = None;
    let mut second: Option<usize> = None;
    let mut i: usize = 0;
    while i < a.len()
        invariant
            i <= a.len(),
            a.len() == b.len(),
            ({
                let places = differing(views(a@), views(b@), i as int);
                &&& first is Some <==> places.len() >= 1
                &&& second is Some <==> places.len() >= 2
                &&& first matches Some(x) ==> x == places[0] && x < i
                &&& second matches Some(y) ==> y == places[1] && y < i
            }),
        decreases a.len() - i,
    {
        if !same_text(a[i].as_str(), b[i].as_str()) {
            assert(views(a@)[i as int] != views(b@)[i as int]);
            match first {
                None => {
                    first = Some(i);
                },
                Some(_) => match second {
                    None => {
                        second = Some(i);
                    },
                    Some(_) => {},
                },
            }
        }
        i += 1;
    }
    (first, second)
}

/// What the word `what` stands for.
pub open spec fn named_deed(what: Seq<char>) -> Option<Deed> {
    if what == "init"@ {
        Some(Deed::Init)
    } else if what == "flush"@ {
        Some(Deed::Flush)
    } else {
        None
    }
}

/// Makes entries of the log.
pub struct TaskBuilder;

impl TaskBuilder {
    /// The entry for what was done when `variable` of `env` was given
    /// `values`, or was dropped where `values` is `None`. The values must
    /// tell what was done: where a list with values is given, the variable is
    /// there and the list differs from what it holds in a way that one entry
    /// can say.
    pub fn make(env: &EnvHashMap, variable: &str, values: Option<Vec<String>>, timestamp: u128) -> (log:
        TaskLog)
        requires
            env.wf(),
            made(env@, variable@, views_of(values)) is Some,
        ensures
            log.timestamp == timestamp,
            Some(log.data@) == made(env@, variable@, views_of(values)),
    {
        match TaskBuilder::try_make(env, variable, values, timestamp) {
            Some(log) => log,
            None => vstd::pervasive::unreached(),
        }
    }

    /// As `make`, for any values: `None` where they do not tell what was
    /// done.
    pub fn try_make(env: &EnvHashMap, variable: &str, values: Option<Vec<String>>, timestamp: u128) -> (r:
        Option<TaskLog>)
        requires
            env.wf(),
        ensures
            match made(env@, variable@, views_of(values)) {
                Some(deed) => r matches Some(log) && log.timestamp == timestamp && log.data@ == deed,
                None => r is None,
            },
    {
        let new = match values {
            None => {
                return Some(
                    TaskLog {
                        timestamp,
                        data: TaskLogData::DeleteVariable(
                            DeleteVariableLogData { variable: variable.to_owned() },
                        ),
                    },
                );
            },
            Some(v) => v,
        };
        if new.len() == 0 {
            return Some(
                TaskLog {
                    timestamp,
                    data: TaskLogData::AddVariable(AddVariableLogData { variable: variable.to_owned() }),
                },
            );
        }
        let old = match env.get(variable) {
            Some(v) => v,
            None => {
                return None;
            },
        };
        let old_len = old.len();
        let new_len = new.len();
        if old_len < new_len {
            assert(views(new@)[old_len as int] == new[old_len as int]@);
            Some(
                TaskLog {
                    timestamp,
                    data: TaskLogData::AddValue(
                        AddValueLogData {
                            variable: variable.to_owned(),
                            index: old_len,
                            value: new[old_len].clone(),
                        },
                    ),
                },
            )
        } else if old_len > new_len {
            assert(views(old@)[old_len - 1] == old[old_len - 1]@);
            Some(
                TaskLog {
                    timestamp,
                    data: TaskLogData::DeleteValue(
                        DeleteValueLogData {
                            variable: variable.to_owned(),
                            index: old_len - 1,
                            value: old[old_len - 1].clone(),
                        },
                    ),
                },
            )
        } else {
            let same = all_held(old, &new) && all_held(&new, old);
            assert(same == same_members(views(old@), views(new@)));
            let (first, second) = first_places(old, &new);
            if same {
                match (first, second) {
                    (Some(i), Some(j)) => Some(
                        TaskLog {
                            timestamp,
                            data: TaskLogData::OrderValue(
                                OrderValueLogData {
                                    variable: variable.to_owned(),
                                    candidate1: i,
                                    candidate2: j,
                                },
                            ),
                        },
                    ),
                    _ => None,
                }
            } else {
                match first {
                    Some(i) => {
                        assert(views(old@)[i as int] == old[i as int]@);
                        assert(views(new@)[i as int] == new[i as int]@);
                        Some(
                            TaskLog {
                                timestamp,
                                data: TaskLogData::UpdateValue(
                                    UpdateValueLogData {
                                        variable: variable.to_owned(),
                                        index: i,
                                        old_value: old[i].clone(),
                                        new_value: new[i].clone(),
                                    },
                                ),
                            },
                        )
                    },
                    None => None,
                }
            }
        }
    }

    /// The entry for `init` or `flush`. No other word is an action.
    pub fn action(what: &str, timestamp: u128) -> (log: TaskLog)
        requires
            named_deed(what@) is Some,
        ensures
            log.timestamp == timestamp,
            Some(log.data@) == named_deed(what@),
    {
        match TaskBuilder::try_action(what, timestamp) {
            Some(log) => log,
            None => vstd::pervasive::unreached(),
        }
    }

    /// As `action`, for any word: `None` where it is neither `init` nor
    /// `flush`.
    pub fn try_action(what: &str, timestamp: u128) -> (r: Option<TaskLog>)
        ensures
            match named_deed(what@) {
                Some(deed) => r matches Some(log) && log.timestamp == timestamp && log.data@ == deed,
                None => r is None,
            },
    {
        if same_text(what, "init") {
            Some(TaskLog { timestamp, data: TaskLogData::Init(InitLogData {  }) })
        } else if same_text(what, "flush") {
            Some(TaskLog { timestamp, data: TaskLogData::Flush(FlushLogData {  }) })
        } else {
            None
        }
    }
}

/// Where two lists of one length differ in their members, they differ at a
/// place.
pub proof fn lemma_members_differ(a: Seq<Seq<char>>, b: Seq<Seq<char>>)
    requires
        a.len() == b.len(),
        !same_members(a, b),
    ensures
        differing(a, b, a.len() as int).len() >= 1,
{
    lemma_no_places(a, b, a.len() as int);
    if differing(a, b, a.len() as int).len() == 0 {
        assert(a =~= b);
        assert forall|i: int| 0 <= i < a.len() implies b.contains(#[trigger] a[i]) by {
            assert(b[i] == a[i]);
        }
        assert forall|j: int| 0 <= j < b.len() implies a.contains(#[trigger] b[j]) by {
            assert(a[j] == b[j]);
        }
    }
}

/// Where no place is found among the first `n`, the lists agree there.
pub proof fn lemma_no_places(a: Seq<Seq<char>>, b: Seq<Seq<char>>, n: int)
    requires
        0 <= n <= a.len(),
        a.len() == b.len(),
    ensures
        differing(a, b, n).len() == 0 ==> forall|i: int| 0 <= i < n ==> a[i] == b[i],
    decreases n,
{
    if n > 0 {
        lemma_no_places(a, b, n - 1);
    }
}

} // verus!
