use dirscan::env::EnvHashMap;
use dirscan::fault::WalkError;
use dirscan::fsview::{DirEntry, FsSnapshot, Probe};
use dirscan::manager::TaskManager;
use dirscan::record::NodeRecord;
use dirscan::state::{describe_undo, AppFSTAction, AppState, AppTaskAction, Notification, TreeNode};
use dirscan::storage::Storage;
use dirscan::task::{AddValueLog, AddVariableLog, TaskLog, TaskLogData, UpdateValueLog};

fn state_with(text: &str) -> AppState {
    let mut tm = TaskManager::new();
    let mut env = EnvHashMap::new();
    env.insert("PATH".to_string(), vec!["a".to_string()]);
    tm.init(&env, 1);
    AppState::new(tm, Storage::load(Some(text)).unwrap())
}

fn tree() -> FsSnapshot {
    let mut fs = FsSnapshot::new();
    fs.record(
        "/r".to_string(),
        Probe::Dir {
            modified: 2,
            entries: Some(vec![
                DirEntry { path: "/r/a".to_string(), is_dir: false, len: 10, modified: 4 },
                DirEntry { path: "/r/$hidden".to_string(), is_dir: true, len: 0, modified: 4 },
                DirEntry { path: "/r/b".to_string(), is_dir: true, len: 0, modified: 3 },
            ]),
        },
    );
    fs.record("/r/file".to_string(), Probe::File { len: 1, modified: 1 });
    fs.record("/r/locked".to_string(), Probe::Dir { modified: 1, entries: None });
    fs
}

#[test]
fn notes_carry_colour_and_message() {
    let n = Notification::new("teal", "hello");
    assert_eq!((n.color.as_str(), n.timestamp, n.title.clone(), n.message.as_str()), ("teal", 0, None, "hello"));
    assert_eq!(Notification::success("m").color, "success");
    assert_eq!(Notification::error("m").color, "error");
    assert_eq!(Notification::warning("m").color, "warning");
    assert_eq!(Notification::info("m").color, "info");
    assert_eq!(Notification::info("m").message, "m");
}

#[test]
fn tree_nodes_are_named_by_their_last_component() {
    let n = TreeNode::new("D:\\Scoop\\apps".to_string(), &NodeRecord::with(9, 1, 2, false), true);
    assert_eq!(n.name, "apps");
    assert_eq!(n.abs_path, "D:\\Scoop\\apps");
    assert_eq!((n.size, n.scripts_count, n.is_dir, n.is_allowed), (9, 2, true, false));
    let root = TreeNode::new("D:\\".to_string(), &NodeRecord::default(), true);
    assert_eq!(root.name, "D:\\");
}

#[test]
fn children_show_the_listing_with_records() {
    let state = state_with("/r/a,10,4,0,true\n/r/b,5,3,1,false\n");
    let nodes = state.children(Some("/r"), &tree()).unwrap();
    assert_eq!(nodes.len(), 2);
    assert_eq!((nodes[0].name.as_str(), nodes[0].size, nodes[0].is_dir, nodes[0].is_allowed), ("a", 10, false, true));
    assert_eq!(
        (nodes[1].abs_path.as_str(), nodes[1].size, nodes[1].scripts_count, nodes[1].is_dir, nodes[1].is_allowed),
        ("/r/b", 5, 1, true, false)
    );
    let fresh = state_with("");
    let nodes = fresh.children(Some("/r"), &tree()).unwrap();
    assert_eq!((nodes[0].size, nodes[0].is_allowed), (0, false));
    assert!(state.children(Some("/r/file"), &tree()).unwrap().is_empty());
    assert!(state.children(Some("/r/locked"), &tree()).unwrap().is_empty());
    match state.children(Some("/elsewhere"), &tree()) {
        Err(WalkError::Unknown(p)) => assert_eq!(p, "/elsewhere"),
        other => panic!("{:?}", other),
    }
}

#[test]
fn children_of_nothing_are_the_drives() {
    let state = state_with("C:\\,7,1,1,true\n");
    let mut fs = FsSnapshot::new();
    fs.record("C:\\".to_string(), Probe::Dir { modified: 1, entries: None });
    fs.record("D:\\".to_string(), Probe::Dir { modified: 1, entries: None });
    fs.record("E:\\".to_string(), Probe::Missing);
    for letter in 'F'..='Z' {
        fs.record(format!("{}:\\", letter), Probe::Missing);
    }
    let nodes = state.children(None, &fs).unwrap();
    assert_eq!(nodes.len(), 2);
    assert_eq!((nodes[0].name.as_str(), nodes[0].size, nodes[0].is_dir), ("C:\\", 7, true));
    assert_eq!((nodes[1].abs_path.as_str(), nodes[1].size, nodes[1].is_allowed), ("D:\\", 0, false));
    let rows = Storage::load(Some("C:\\,7,1,1,true\n")).unwrap().children(None, &fs).unwrap();
    assert_eq!(rows[0], ("C:\\".to_string(), NodeRecord::with(7, 1, 1, true)));
    assert_eq!(rows[1], ("D:\\".to_string(), NodeRecord::default()));
}

#[test]
fn state_sets_and_tells_the_flag() {
    let mut state = state_with("");
    let (busy, note) = state.state(None);
    assert_eq!((busy, note.color.as_str(), note.message.as_str()), (false, "info", "No Scanning planned"));
    let (busy, note) = state.state(Some(true));
    assert_eq!((busy, note.color.as_str(), note.message.as_str()), (true, "info", "Scanning started"));
    let (busy, note) = state.state(None);
    assert_eq!(
        (busy, note.color.as_str(), note.message.as_str()),
        (true, "warning", "Scanning in progress, do not interrupt")
    );
    let (busy, note) = state.state(Some(false));
    assert_eq!((busy, note.color.as_str(), note.message.as_str()), (false, "success", "Scanning complete"));
}

#[test]
fn refresh_by_generater_and_replace() {
    let mut state = state_with("C:\\old,1,1,0,true\n");
    state.state(Some(true));
    let mut fs = FsSnapshot::new();
    fs.record("C:\\old".to_string(), Probe::Missing);
    fs.record(
        "C:\\".to_string(),
        Probe::Dir {
            modified: 1,
            entries: Some(vec![DirEntry { path: "C:\\new.bat".to_string(), is_dir: false, len: 3, modified: 2 }]),
        },
    );
    for letter in 'D'..='Z' {
        fs.record(format!("{}:\\", letter), Probe::Missing);
    }
    let fresh = state.generater().consume(&fs).unwrap();
    assert_eq!(fresh.dump(), "C:\\,3,1,1,true\nC:\\new.bat,3,2,1,true\n");
    state.replace(fresh);
    let (busy, _) = state.state(None);
    assert!(busy);
    let nodes = state.children(Some("C:\\"), &fs).unwrap();
    assert_eq!((nodes[0].name.as_str(), nodes[0].size, nodes[0].scripts_count), ("new.bat", 3, 1));
}

#[test]
fn edits_are_received_sent_and_undone() {
    let mut state = state_with("");
    let sent = state.send_state().unwrap();
    assert!(!sent.dirty);
    state.receive_state(
        TaskLogData::AppendValue(AddValueLog { variable: "PATH".to_string(), value: "b".to_string() }),
        5,
    );
    let sent = state.send_state().unwrap();
    assert!(sent.dirty);
    assert_eq!(sent.env.get("PATH").cloned(), Some(vec!["a".to_string(), "b".to_string()]));
    let note = state.undo();
    assert_eq!((note.color.as_str(), note.message.as_str()), ("success", "Undo Task: 重新删除变量 'PATH' 中的 'b"));
    let note = state.undo();
    assert_eq!((note.color.as_str(), note.message.as_str()), ("warning", "[illigal calling] No task to undo"));
    let mut env = EnvHashMap::new();
    env.insert("X".to_string(), vec![]);
    state.flush(env, 9);
    let sent = state.send_state().unwrap();
    assert!(!sent.dirty);
    assert_eq!(sent.env.len(), 1);
    state.receive_state(
        TaskLogData::AppendValue(AddValueLog { variable: "GONE".to_string(), value: "b".to_string() }),
        10,
    );
    assert!(state.send_state().is_none());
}

#[test]
fn undo_is_described() {
    assert_eq!(
        describe_undo(&TaskLogData::AddVariable(AddVariableLog { variable: "V".to_string() })),
        "Undo Task: 重新删除 'V'"
    );
    assert_eq!(
        describe_undo(&TaskLogData::ModifyValue(UpdateValueLog {
            variable: "V".to_string(),
            index: 0,
            old_value: "o".to_string(),
            new_value: "n".to_string(),
        })),
        "Undo Task: 恢复值 'n' 为 'o'"
    );
    assert_eq!(describe_undo(&TaskLog::flush(1).data), "[illigal calling] Cannot undo TaskLog::Flush");
    assert_eq!(describe_undo(&TaskLog::init(1).data), "[illigal calling] Cannot undo TaskLog::Init");
}

#[test]
fn the_state_logs_edits_and_shows_them_done() {
    let mut state = state_with("");
    assert!(!state.is_dirty());
    assert_eq!(state.task_list().len(), 1);
    let edit = TaskLogData::AppendValue(AddValueLog { variable: "PATH".to_string(), value: "b".to_string() });
    state.add_task(TaskLog::at(5, edit));
    assert!(state.is_dirty());
    assert_eq!(state.task_list().len(), 2);
    assert_eq!(state.task_list()[1].timestamp, 5);
    let env = state.get_cur_env().unwrap();
    assert_eq!(env.get("PATH"), Some(&vec!["a".to_string(), "b".to_string()]));
    let gone = TaskLogData::AppendValue(AddValueLog { variable: "NONE".to_string(), value: "b".to_string() });
    state.add_task(TaskLog::at(6, gone));
    assert!(state.get_cur_env().is_none());
}
