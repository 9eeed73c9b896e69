//! What the front end sees: notes, tree nodes, and the state behind them.

use vstd::prelude::*;
use crate::env::EnvHashMap;
use crate::fault::WalkError;
use crate::fsview::{seen_as_dir, FsSnapshot, Probe};
use crate::manager::TaskManager;
use crate::path::{file_name, file_name_of};
use crate::record::NodeRecord;
use crate::storage::{children_of, roots_of, row_views, Storage, StorageUpdater};
use crate::task::{forward_all, TaskLog, TaskLogData};

verus! {

/// A note for the user.
#[derive(Debug)]
pub struct Notification {
    pub color: String,
    pub timestamp: i64,
    pub title: Option<String>,
    pub message: String,
}

impl Notification {
    /// Whether the note has the given colour and message, no title and no time.
    pub open spec fn says(&self, color: Seq<char>, message: Seq<char>) -> bool {
        self.color@ == color && self.timestamp == 0 && self.title is None && self.message@ == message
    }

    /// A note in `color` that says `message`.
    pub fn new(color: &str, message: &str) -> (n: Self)
        ensures
            n.says(color@, message@),
    {
        Notification { color: color.to_owned(), timestamp: 0, title: None, message: message.to_owned() }
    }

    /// A note of success.
    pub fn success(message: &str) -> (n: Self)
        ensures
            n.says("success"@, message@),
    {
        Notification::new("success", message)
    }

    /// A note of failure.
    pub fn error(message: &str) -> (n: Self)
        ensures
            n.says("error"@, message@),
    {
        Notification::new("error", message)
    }

    /// A warning.
    pub fn warning(message: &str) -> (n: Self)
        ensures
            n.says("warning"@, message@),
    {
        Notification::new("warning", message)
    }

    /// A note that tells something.
    pub fn info(message: &str) -> (n: Self)
        ensures
            n.says("info"@, message@),
    {
        Notification::new("info", message)
    }
}

/// One line of the tree that the front end shows.
#[derive(Debug)]
pub struct TreeNode {
    pub name: String,
    pub abs_path: String,
    pub size: u64,
    pub scripts_count: u64,
    pub is_dir: bool,
    pub is_allowed: bool,
}

/// The name under which a path is shown: its last component, or the whole
/// path where it has none.
pub open spec fn shown_name(path: Seq<char>) -> Seq<char> {
    if file_name_of(path).len() > 0 {
        file_name_of(path)
    } else {
        path
    }
}

impl TreeNode {
    /// Whether the node shows `path` with `record`.
    pub open spec fn shows(&self, path: Seq<char>, record: NodeRecord, is_dir: bool) -> bool {
        &&& self.name@ == shown_name(path)
        &&& self.abs_path@ == path
        &&& self.size == record.size
        &&& self.scripts_count == record.script_count
        &&& self.is_dir == is_dir
        &&& self.is_allowed == record.is_allowed
    }

    /// The node for `abs_path` with `record`.
    pub fn new(abs_path: String, record: &NodeRecord, is_dir: bool) -> (node: Self)
        ensures
            node.shows(abs_path@, *record, is_dir),
    {
        let last = file_name(abs_path.as_str());
        let name = if last.as_str().unicode_len() > 0 {
            last
        } else {
            abs_path.clone()
        };
        TreeNode {
            name,
            abs_path,
            size: record.size,
            scripts_count: record.script_count,
            is_dir,
            is_allowed: record.is_allowed,
        }
    }
}

/// The environment as it stands with the pending edits, and whether there
/// are any.
pub struct SendState {
    pub env: EnvHashMap,
    pub dirty: bool,
}

/// What the log can do for the front end.
pub trait AppTaskAction: Sized {
    /// What the methods need and keep.
    spec fn tasks_valid(&self) -> bool;

    /// Takes `data` as what the system holds now, and logs a write.
    fn flush(&mut self, data: EnvHashMap, timestamp: u128)
        requires
            old(self).tasks_valid(),
            data.wf(),
        ensures
            final(self).tasks_valid(),
    ;

    /// The environment with the pending edits; `None` where one of them
    /// cannot be done.
    fn send_state(&self) -> (r: Option<SendState>)
        requires
            self.tasks_valid(),
    ;

    /// Logs an edit made at `timestamp`.
    fn receive_state(&mut self, task: TaskLogData, timestamp: u128)
        requires
            old(self).tasks_valid(),
        ensures
            final(self).tasks_valid(),
    ;

    /// Takes back the last edit and says what was done.
    fn undo(&mut self) -> (n: Notification)
        requires
            old(self).tasks_valid(),
        ensures
            final(self).tasks_valid(),
    ;
}

/// What the tree of sizes can do for the front end.
pub trait AppFSTAction: Sized {
    /// What the methods need and keep.
    spec fn tree_valid(&self) -> bool;

    /// The nodes beneath `abs_path`, or the drives where there is none.
    fn children(&self, abs_path: Option<&str>, fs: &FsSnapshot) -> (r: Result<Vec<TreeNode>, WalkError>)
        requires
            self.tree_valid(),
    ;

    /// Sets the flag where `option` holds one, and says how things stand.
    fn state(&mut self, option: Option<bool>) -> (r: (bool, Notification))
        requires
            old(self).tree_valid(),
        ensures
            final(self).tree_valid(),
    ;

    /// An updater over a copy of the records.
    fn generater(&self) -> (u: StorageUpdater)
        requires
            self.tree_valid(),
        ensures
            u.wf(),
    ;

    /// Takes over the records of `s`.
    fn replace(&mut self, s: Storage)
        requires
            old(self).tree_valid(),
            s.wf(),
        ensures
            final(self).tree_valid(),
    ;
}

/// The log and the tree of sizes together.
pub struct AppState {
    tm: TaskManager,
    s: Storage,
}

/// What is said after `task` has been taken back.
pub open spec fn undo_message(task: TaskLogData) -> Seq<char> {
    match task {
        TaskLogData::Flush(_) => "[illigal calling] Cannot undo TaskLog::Flush"@,
        TaskLogData::Init(_) => "[illigal calling] Cannot undo TaskLog::Init"@,
        TaskLogData::AddVariable(log) => "Undo Task: 重新删除 '"@ + log.variable@ + "'"@,
        TaskLogData::DelVariable(log) => "Undo Task: 恢复 '"@ + log.variable@ + "'"@,
        TaskLogData::AppendValue(log) => "Undo Task: 重新删除变量 '"@ + log.variable@ + "' 中的 '"@
            + log.value@,
        TaskLogData::DeleteValue(log) => "Undo Task: 恢复变量 '"@ + log.variable@ + "' 中的 '"@
            + log.value@ + "'"@,
        TaskLogData::ModifyValue(log) => "Undo Task: 恢复值 '"@ + log.new_value@ + "' 为 '"@
            + log.old_value@ + "'"@,
        TaskLogData::ReorderValue(log) => "Undo Task: 恢复变量 '"@ + log.variable@ + "' 的排序"@,
    }
}

/// Says what was done when `task` was taken back.
pub fn describe_undo(task: &TaskLogData) -> (message: String)
    ensures
        message@ == undo_message(*task),
{
    match task {
        TaskLogData::Flush(_) => "[illigal calling] Cannot undo TaskLog::Flush".to_owned(),
        TaskLogData::Init(_) => "[illigal calling] Cannot undo TaskLog::Init".to_owned(),
        TaskLogData::AddVariable(log) => {
            let mut m = "Undo Task: 重新删除 '".to_owned();
            m.append(log.variable.as_str());
            m.append("'");
            m
        },
        TaskLogData::DelVariable(log) => {
            let mut m = "Undo Task: 恢复 '".to_owned();
            m.append(log.variable.as_str());
            m.append("'");
            m
        },
        TaskLogData::AppendValue(log) => {
            let mut m = "Undo Task: 重新删除变量 '".to_owned();
            m.append(log.variable.as_str());
            m.append("' 中的 '");
            m.append(log.value.as_str());
            m
        },
        TaskLogData::DeleteValue(log) => {
            let mut m = "Undo Task: 恢复变量 '".to_owned();
            m.append(log.variable.as_str());
            m.append("' 中的 '");
            m.append(log.value.as_str());
            m.append("'");
            m
        },
        TaskLogData::ModifyValue(log) => {
            let mut m = "Undo Task: 恢复值 '".to_owned();
            m.append(log.new_value.as_str());
            m.append("' 为 '");
            m.append(log.old_value.as_str());
            m.append("'");
            m
        },
        TaskLogData::ReorderValue(log) => {
            let mut m = "Undo Task: 恢复变量 '".to_owned();
            m.append(log.variable.as_str());
            m.append("' 的排序");
            m
        },
    }
}

impl AppState {
    /// The log inside.
    pub closed spec fn manager(&self) -> TaskManager {
        self.tm
    }

    /// The storage inside.
    pub closed spec fn storage(&self) -> Storage {
        self.s
    }

    /// Both parts are well formed.
    pub open spec fn wf(&self) -> bool {
        self.manager().wf() && self.storage().wf()
    }

    /// The log inside.
    pub fn tasks(&self) -> (tm: &TaskManager)
        ensures
            *tm == self.manager(),
    {
        &self.tm
    }

    /// The storage inside.
    pub fn store(&self) -> (s: &Storage)
        ensures
            *s == self.storage(),
    {
        &self.s
    }

    /// A state around a log and a storage.
    pub fn new(tm: TaskManager, s: Storage) -> (state: Self)
        ensures
            state.manager() == tm,
            state.storage() == s,
    {
        AppState { tm, s }
    }

    /// Puts `task` at the end of the log.
    pub fn add_task(&mut self, task: TaskLog)
        ensures
            final(self).manager().log() == old(self).manager().log().push(task),
            final(self).manager().env() == old(self).manager().env(),
            final(self).manager().wf() == old(self).manager().wf(),
            final(self).storage() == old(self).storage(),
    {
        self.tm.add_task(task);
    }

    /// The entries of the log, oldest first.
    pub fn task_list(&self) -> (tasks: &Vec<TaskLog>)
        ensures
            tasks@ == self.manager().log(),
    {
        self.tm.task_list()
    }

    /// The environment with the pending edits done; `None` where one of
    /// them cannot be done.
    pub fn get_cur_env(&self) -> (r: Option<EnvHashMap>)
        requires
            self.manager().wf(),
        ensures
            match forward_all(self.manager().env(), self.manager().pending()) {
                Some(m) => r matches Some(e) && e.wf() && e@ == m,
                None => r is None,
            },
    {
        self.tm.get_cur_env()
    }

    /// Whether edits are pending.
    pub fn is_dirty(&self) -> (r: bool)
        ensures
            r == (self.manager().pending().len() > 0),
    {
        self.tm.is_dirty()
    }
}

impl AppTaskAction for AppState {
    open spec fn tasks_valid(&self) -> bool {
        self.wf()
    }

    fn flush(&mut self, data: EnvHashMap, timestamp: u128)
        ensures
            final(self).manager().env() == data@,
            final(self).manager().log() == old(self).manager().log().push(TaskLog::flush_spec(timestamp)),
            final(self).storage() == old(self).storage(),
    {
        self.tm.flush(data, timestamp);
    }

    fn send_state(&self) -> (r: Option<SendState>)
        ensures
            match forward_all(self.manager().env(), self.manager().pending()) {
                Some(m) => r matches Some(state) && state.env.wf() && state.env@ == m && state.dirty == (
                self.manager().pending().len() > 0),
                None => r is None,
            },
    {
        match self.tm.get_cur_env() {
            Some(env) => Some(SendState { env, dirty: self.tm.is_dirty() }),
            None => None,
        }
    }

    fn receive_state(&mut self, task: TaskLogData, timestamp: u128)
        ensures
            final(self).manager().log() == old(self).manager().log().push(
                (TaskLog { timestamp, data: task }),
            ),
            final(self).manager().env() == old(self).manager().env(),
            final(self).storage() == old(self).storage(),
    {
        self.tm.add_task(TaskLog::at(timestamp, task));
    }

    fn undo(&mut self) -> (n: Notification)
        ensures
            final(self).storage() == old(self).storage(),
            final(self).manager().env() == old(self).manager().env(),
            old(self).manager().pending().len() > 0 ==> final(self).manager().log() == old(
                self,
            ).manager().log().drop_last() && n.says(
                if old(self).manager().log().last().data.is_mark() {
                    "warning"@
                } else {
                    "success"@
                },
                undo_message(old(self).manager().log().last().data),
            ),
            old(self).manager().pending().len() == 0 ==> final(self).manager().log() == old(
                self,
            ).manager().log() && n.says("warning"@, "[illigal calling] No task to undo"@),
    {
        match self.tm.try_undo() {
            Ok(task) => {
                let message = describe_undo(&task.data);
                if task.data.marks() {
                    Notification::warning(message.as_str())
                } else {
                    Notification::success(message.as_str())
                }
            },
            Err(_) => Notification::warning("[illigal calling] No task to undo"),
        }
    }
}

/// The nodes for `rows`, each a directory where `fs` has seen it as one.
pub open spec fn shown_rows(nodes: Seq<TreeNode>, rows: Seq<(Seq<char>, NodeRecord)>, fs: Map<Seq<char>, Probe>) -> bool {
    &&& nodes.len() == rows.len()
    &&& forall|i: int|
        0 <= i < nodes.len() ==> (#[trigger] nodes[i]).shows(rows[i].0, rows[i].1, seen_as_dir(fs, rows[i].0))
}

impl AppFSTAction for AppState {
    open spec fn tree_valid(&self) -> bool {
        self.wf()
    }

    fn children(&self, abs_path: Option<&str>, fs: &FsSnapshot) -> (r: Result<Vec<TreeNode>, WalkError>)
        ensures
            match (match abs_path {
                None => roots_of(self.storage()@, fs@),
                Some(p) => children_of(self.storage()@, fs@, p@),
            }) {
                Ok(rows) => r matches Ok(nodes) && shown_rows(nodes@, rows, fs@),
                Err(f) => r matches Err(e) && e@ == f,
            },
    {
        let rows = match self.s.children(abs_path, fs) {
            Ok(rows) => rows,
            Err(e) => {
                return Err(e);
            },
        };
        let mut nodes: Vec<TreeNode> = Vec::new();
        let mut i: usize = 0;
        while i < rows.len()
            invariant
                i <= rows.len(),
                nodes.len() == i,
                forall|j: int|
                    0 <= j < i ==> (#[trigger] nodes[j]).shows(
                        row_views(rows@)[j].0,
                        row_views(rows@)[j].1,
                        seen_as_dir(fs@, row_views(rows@)[j].0),
                    ),
            decreases rows.len() - i,
        {
            let is_dir = fs.is_dir(rows[i].0.as_str());
            let node = TreeNode::new(rows[i].0.clone(), &rows[i].1, is_dir);
            assert(row_views(rows@)[i as int] == (rows[i as int].0@, rows[i as int].1));
            nodes.push(node);
            i += 1;
        }
        Ok(nodes)
    }

    fn state(&mut self, option: Option<bool>) -> (r: (bool, Notification))
        ensures
            final(self).manager() == old(self).manager(),
            final(self).storage()@ == old(self).storage()@,
            match option {
                Some(flag) => r.0 == flag && final(self).storage().busy() == flag && r.1.says(
                    if flag {
                        "info"@
                    } else {
                        "success"@
                    },
                    if flag {
                        "Scanning started"@
                    } else {
                        "Scanning complete"@
                    },
                ),
                None => r.0 == old(self).storage().busy() && final(self).storage().busy() == r.0
                    && r.1.says(
                    if r.0 {
                        "warning"@
                    } else {
                        "info"@
                    },
                    if r.0 {
                        "Scanning in progress, do not interrupt"@
                    } else {
                        "No Scanning planned"@
                    },
                ),
            },
    {
        match option {
            Some(flag) => {
                self.s.set_updating(flag);
                if flag {
                    (flag, Notification::info("Scanning started"))
                } else {
                    (flag, Notification::success("Scanning complete"))
                }
            },
            None => {
                let busy = self.s.is_updating();
                let note = if busy {
                    Notification::warning("Scanning in progress, do not interrupt")
                } else {
                    Notification::info("No Scanning planned")
                };
                (busy, note)
            },
        }
    }

    fn generater(&self) -> (u: StorageUpdater)
        ensures
            u@ == self.storage()@,
            u.order() == self.storage().order(),
    {
        self.s.generater()
    }

    fn replace(&mut self, s: Storage)
        ensures
            final(self).manager() == old(self).manager(),
            final(self).storage()@ == s@,
            final(self).storage().order() == s.order(),
            final(self).storage().busy() == old(self).storage().busy(),
    {
        self.s.replace(s);
    }
}

} // verus!
