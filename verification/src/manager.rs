//! The keeper of the log, and the commands that write an environment to the
//! system.

use vstd::prelude::*;
use vstd::slice::slice_subrange;
use crate::env::EnvHashMap;
use crate::resolve::{commands, UpdateResolver};
use crate::store::views;
use crate::task::{forward_all, lemma_since_mark, since_mark, TaskLog, TaskResolver, Vars};

verus! {

/// Why nothing was undone.
#[derive(Debug, PartialEq, Eq)]
pub enum UndoError {
    /// No edit has been made since the last `Init` or `Flush`.
    NothingToUndo,
}

/// The environment as the system holds it, and the log of edits since.
pub struct TaskManager {
    cur_env: EnvHashMap,
    tasks: Vec<TaskLog>,
}

impl Default for TaskManager {
    /// A manager with no variables and an empty log.
    fn default() -> (tm: Self)
        ensures
            tm.wf(),
            tm.env() == Map::<Seq<char>, Seq<Seq<char>>>::empty(),
            tm.log() == Seq::<TaskLog>::empty(),
    {
        TaskManager::new()
    }
}

impl TaskManager {
    /// The environment as the system holds it.
    pub closed spec fn env(&self) -> Vars {
        self.cur_env@
    }

    /// The log.
    pub closed spec fn log(&self) -> Seq<TaskLog> {
        self.tasks@
    }

    /// The environment inside is well formed.
    pub closed spec fn wf(&self) -> bool {
        self.cur_env.wf()
    }

    /// The entries that came after the last `Init` or `Flush`.
    pub open spec fn pending(&self) -> Seq<TaskLog> {
        self.log().subrange(since_mark(self.log()), self.log().len() as int)
    }

    /// A manager with no variables and an empty log.
    pub fn new() -> (tm: Self)
        ensures
            tm.wf(),
            tm.env() == Map::<Seq<char>, Seq<Seq<char>>>::empty(),
            tm.log() == Seq::<TaskLog>::empty(),
    {
        TaskManager { cur_env: EnvHashMap::new(), tasks: Vec::new() }
    }

    /// Takes `data` as what the system holds, over what was there, and logs
    /// a first reading.
    pub fn init(&mut self, data: &EnvHashMap, timestamp: u128)
        requires
            old(self).wf(),
            data.wf(),
        ensures
            final(self).wf(),
            final(self).env() == old(self).env().union_prefer_right(data@),
            final(self).log() == old(self).log().push(TaskLog::init_spec(timestamp)),
    {
        let n = data.len();
        let mut i: usize = 0;
        while i < n
            invariant
                n == data.names().len(),
                i <= n,
                data.wf(),
                self.wf(),
                self.tasks == old(self).tasks,
                forall|k: Seq<char>| #[trigger]
                    self.env().contains_key(k) <==> old(self).env().contains_key(k) || data.names().take(
                        i as int,
                    ).contains(k),
                forall|k: Seq<char>|
                    data.names().take(i as int).contains(k) ==> #[trigger] self.env()[k] == data@[k],
                forall|k: Seq<char>|
                    !data.names().take(i as int).contains(k) ==> #[trigger] self.env()[k] == old(
                        self,
                    ).env()[k],
            decreases n - i,
        {
            let ghost seen = data.names().take(i as int);
            let ghost next = data.names().take(i + 1);
            let ghost before = self.env();
            let name = data.name_at(i).clone();
            let values = crate::env::copy_strings(data.values_at(i));
            proof {
                assert forall|k: Seq<char>| next.contains(k) <==> seen.contains(k) || k == name@ by {
                    if seen.contains(k) {
                        let j = choose|j: int| 0 <= j < seen.len() && seen[j] == k;
                        assert(next[j] == k);
                    }
                    if next.contains(k) {
                        let j = choose|j: int| 0 <= j < next.len() && next[j] == k;
                        if j < i {
                            assert(seen[j] == k);
                        }
                    }
                    assert(next[i as int] == name@);
                }
            }
            self.cur_env.insert(name, values);
            i += 1;
            proof {
                assert(data.names().take(i as int) == next);
                assert forall|k: Seq<char>| #[trigger]
                    self.env().contains_key(k) <==> old(self).env().contains_key(k) || next.contains(
                        k,
                    ) by {
                    if k != data.names()[i - 1] {
                        assert(self.env().contains_key(k) == before.contains_key(k));
                    }
                }
                assert forall|k: Seq<char>| next.contains(k) implies #[trigger] self.env()[k]
                    == data@[k] by {
                    if k != data.names()[i - 1] {
                        assert(seen.contains(k));
                        assert(self.env()[k] == before[k]);
                    }
                }
                assert forall|k: Seq<char>| !next.contains(k) implies #[trigger] self.env()[k] == old(
                    self,
                ).env()[k] by {
                    assert(!seen.contains(k));
                    assert(self.env()[k] == before[k]);
                }
            }
        }
        proof {
            assert(data.names().take(n as int) =~= data.names());
            data.lemma_wf();
            assert(self.env() =~= old(self).env().union_prefer_right(data@));
        }
        self.tasks.push(TaskLog::init(timestamp));
    }

    /// Takes `data` as what the system holds now, and logs a write.
    pub fn flush(&mut self, data: EnvHashMap, timestamp: u128)
        requires
            data.wf(),
        ensures
            final(self).wf(),
            final(self).env() == data@,
            final(self).log() == old(self).log().push(TaskLog::flush_spec(timestamp)),
    {
        self.tasks.push(TaskLog::flush(timestamp));
        self.cur_env = data;
    }

    /// Puts `task` at the end of the log.
    pub fn add_task(&mut self, task: TaskLog)
        ensures
            final(self).log() == old(self).log().push(task),
            final(self).env() == old(self).env(),
            final(self).wf() == old(self).wf(),
    {
        self.tasks.push(task);
    }

    /// The entries of the log, oldest first.
    pub fn task_list(&self) -> (tasks: &Vec<TaskLog>)
        ensures
            tasks@ == self.log(),
    {
        &self.tasks
    }

    /// Where the entries begin that came after the last `Init` or `Flush`.
    fn _since_last_flush_tasks(&self) -> (first: usize)
        ensures
            first == since_mark(self.log()),
            first <= self.log().len(),
    {
        let mut i: usize = self.tasks.len();
        proof {
            lemma_since_mark(self.tasks@);
            assert(self.tasks@.take(i as int) =~= self.tasks@);
        }
        while i > 0 && !self.tasks[i - 1].data.marks()
            invariant
                i <= self.tasks.len(),
                since_mark(self.tasks@.take(i as int)) == since_mark(self.tasks@),
            decreases i,
        {
            proof {
                assert(self.tasks@.take(i as int).drop_last() =~= self.tasks@.take(i - 1));
                assert(self.tasks@.take(i as int).last() == self.tasks@[i - 1]);
            }
            i -= 1;
        }
        proof {
            if i > 0 {
                assert(self.tasks@.take(i as int).last() == self.tasks@[i - 1]);
            }
        }
        i
    }

    /// The environment as it will be once the pending edits are written;
    /// `None` where one of them cannot be done.
    pub fn get_cur_env(&self) -> (r: Option<EnvHashMap>)
        requires
            self.wf(),
        ensures
            match forward_all(self.env(), self.pending()) {
                Some(m) => r matches Some(e) && e.wf() && e@ == m,
                None => r is None,
            },
    {
        let first = self._since_last_flush_tasks();
        let tasks = slice_subrange(self.tasks.as_slice(), first, self.tasks.len());
        TaskResolver::new(&self.cur_env, tasks).forward()
    }

    /// The names of the variables as the system holds them, in order.
    pub closed spec fn names(&self) -> Seq<Seq<char>> {
        self.cur_env.names()
    }

    /// The commands that write the pending edits to the system; `None` where
    /// one of the edits cannot be done. The variables to set come in the
    /// order in which the edited environment holds them.
    pub fn pending_commands(&self) -> (r: Option<Vec<String>>)
        requires
            self.wf(),
        ensures
            match forward_all(self.env(), self.pending()) {
                Some(m) => r matches Some(tasks) && exists|order: Seq<Seq<char>>|
                    order.no_duplicates() && (forall|k: Seq<char>| #[trigger]
                        order.contains(k) <==> m.contains_key(k)) && views(tasks@) == #[trigger] commands(
                        self.env(),
                        self.names(),
                        m,
                        order,
                    ),
                None => r is None,
            },
    {
        match self.get_cur_env() {
            Some(wanted) => {
                proof {
                    wanted.lemma_wf();
                }
                let tasks = UpdateResolver::new(&self.cur_env, &wanted).resolve();
                assert(views(tasks@) == commands(self.env(), self.names(), wanted@, wanted.names()));
                Some(tasks)
            },
            None => None,
        }
    }

    /// Whether an edit has been made since the last `Init` or `Flush`.
    pub fn is_dirty(&self) -> (r: bool)
        ensures
            r == (self.pending().len() > 0),
    {
        let first = self._since_last_flush_tasks();
        first < self.tasks.len()
    }

    /// Takes the last edit out of the log and hands it out. An `Init` or a
    /// `Flush` stays: where the log ends with one, or is empty, nothing is
    /// undone.
    pub fn try_undo(&mut self) -> (r: Result<TaskLog, UndoError>)
        ensures
            final(self).env() == old(self).env(),
            final(self).wf() == old(self).wf(),
            match r {
                Ok(task) => old(self).pending().len() > 0 && task == old(self).log().last()
                    && final(self).log() == old(self).log().drop_last(),
                Err(e) => e == UndoError::NothingToUndo && old(self).pending().len() == 0
                    && final(self).log() == old(self).log(),
            },
    {
        if !self.is_dirty() {
            return Err(UndoError::NothingToUndo);
        }
        match self.tasks.pop() {
            Some(task) => Ok(task),
            None => Err(UndoError::NothingToUndo),
        }
    }
}

} // verus!
