use dirscan::env::EnvHashMap;
use dirscan::manager::{TaskManager, UndoError};
use dirscan::resolve::{parse_environment, split_values, UpdateResolver};
use dirscan::task::{
    AddValueLog, AddVariableLog, DeleteValueLog, DeleteVariableLog, OrderValueLog, TaskLog, TaskLogData,
    TaskResolver, UpdateValueLog,
};

fn strings(v: &[&str]) -> Vec<String> {
    v.iter().map(|s| s.to_string()).collect()
}

fn env(rows: &[(&str, &[&str])]) -> EnvHashMap {
    let mut e = EnvHashMap::new();
    for (k, v) in rows {
        e.insert(k.to_string(), strings(v));
    }
    e
}

fn values(e: &EnvHashMap, name: &str) -> Option<Vec<String>> {
    e.get(name).cloned()
}

fn same(a: &EnvHashMap, b: &EnvHashMap) -> bool {
    a.len() == b.len() && (0..a.len()).all(|i| values(b, a.name_at(i)) == values(a, a.name_at(i)))
}

fn append(variable: &str, value: &str) -> TaskLogData {
    TaskLogData::AppendValue(AddValueLog { variable: variable.to_string(), value: value.to_string() })
}

fn log(data: TaskLogData) -> TaskLog {
    TaskLog::at(7, data)
}

#[test]
fn env_keeps_what_is_written() {
    let mut e = env(&[("PATH", &["a", "b"]), ("HOME", &["h"])]);
    assert_eq!(e.len(), 2);
    assert_eq!(values(&e, "PATH"), Some(strings(&["a", "b"])));
    assert_eq!(values(&e, "path"), None);
    assert!(e.contains_key("HOME"));
    e.insert("PATH".to_string(), strings(&["c"]));
    assert_eq!(e.len(), 2);
    assert_eq!(e.name_at(0), "PATH");
    assert_eq!(values(&e, "PATH"), Some(strings(&["c"])));
    e.remove("PATH");
    e.remove("NOPE");
    assert_eq!(e.len(), 1);
    assert_eq!(e.name_at(0), "HOME");
    let d = e.duplicate();
    assert!(same(&d, &e));
}

#[test]
fn append_and_take_back() {
    let mut e = env(&[("PATH", &["a"])]);
    let task = append("PATH", "b");
    assert!(task.forward(&mut e));
    assert_eq!(values(&e, "PATH"), Some(strings(&["a", "b"])));
    assert!(task.backword(&mut e));
    assert_eq!(values(&e, "PATH"), Some(strings(&["a"])));
    assert!(!task.backword(&mut e));
    assert_eq!(values(&e, "PATH"), Some(strings(&["a"])));
    assert!(!append("NOPE", "b").forward(&mut e));
    let mut none = env(&[("PATH", &[])]);
    assert!(!task.backword(&mut none));
}

#[test]
fn delete_value_and_put_back() {
    let mut e = env(&[("PATH", &["a", "b", "c"])]);
    let task = TaskLogData::DeleteValue(DeleteValueLog {
        variable: "PATH".to_string(),
        index: 1,
        value: "b".to_string(),
    });
    assert!(task.forward(&mut e));
    assert_eq!(values(&e, "PATH"), Some(strings(&["a", "c"])));
    assert!(task.backword(&mut e));
    assert_eq!(values(&e, "PATH"), Some(strings(&["a", "b", "c"])));
    let far = TaskLogData::DeleteValue(DeleteValueLog {
        variable: "PATH".to_string(),
        index: 3,
        value: "z".to_string(),
    });
    assert!(!far.forward(&mut e));
    assert!(far.backword(&mut e));
    assert_eq!(values(&e, "PATH"), Some(strings(&["a", "b", "c", "z"])));
    let too_far = TaskLogData::DeleteValue(DeleteValueLog {
        variable: "PATH".to_string(),
        index: 9,
        value: "z".to_string(),
    });
    assert!(!too_far.backword(&mut e));
}

#[test]
fn modify_value_checks_what_is_there() {
    let mut e = env(&[("PATH", &["a", "b"])]);
    let task = TaskLogData::ModifyValue(UpdateValueLog {
        variable: "PATH".to_string(),
        index: 1,
        old_value: "b".to_string(),
        new_value: "B".to_string(),
    });
    assert!(!task.backword(&mut e));
    assert!(task.forward(&mut e));
    assert_eq!(values(&e, "PATH"), Some(strings(&["a", "B"])));
    assert!(!task.forward(&mut e));
    assert!(task.backword(&mut e));
    assert_eq!(values(&e, "PATH"), Some(strings(&["a", "b"])));
    let out = TaskLogData::ModifyValue(UpdateValueLog {
        variable: "PATH".to_string(),
        index: 2,
        old_value: "b".to_string(),
        new_value: "B".to_string(),
    });
    assert!(!out.forward(&mut e));
}

#[test]
fn reorder_is_its_own_reverse() {
    let mut e = env(&[("PATH", &["a", "b", "c"])]);
    let task = TaskLogData::ReorderValue(OrderValueLog {
        variable: "PATH".to_string(),
        index_before: 0,
        index_after: 2,
        value: "a".to_string(),
    });
    assert!(task.forward(&mut e));
    assert_eq!(values(&e, "PATH"), Some(strings(&["c", "b", "a"])));
    assert!(task.backword(&mut e));
    assert_eq!(values(&e, "PATH"), Some(strings(&["a", "b", "c"])));
    let out = TaskLogData::ReorderValue(OrderValueLog {
        variable: "PATH".to_string(),
        index_before: 0,
        index_after: 3,
        value: "a".to_string(),
    });
    assert!(!out.forward(&mut e));
}

#[test]
fn variables_come_and_go() {
    let mut e = env(&[("PATH", &["a"])]);
    let add = TaskLogData::AddVariable(AddVariableLog { variable: "NEW".to_string() });
    assert!(add.forward(&mut e));
    assert_eq!(values(&e, "NEW"), Some(vec![]));
    assert!(!add.forward(&mut e));
    assert!(add.backword(&mut e));
    assert!(!e.contains_key("NEW"));
    assert!(!add.backword(&mut e));
    let del = TaskLogData::DelVariable(DeleteVariableLog {
        variable: "PATH".to_string(),
        values: strings(&["a"]),
    });
    assert!(!del.backword(&mut e));
    assert!(del.forward(&mut e));
    assert_eq!(e.len(), 0);
    assert!(!del.forward(&mut e));
    assert!(del.backword(&mut e));
    assert_eq!(values(&e, "PATH"), Some(strings(&["a"])));
}

#[test]
fn marks_change_nothing() {
    let mut e = env(&[("PATH", &["a"])]);
    assert!(TaskLog::init(1).data.forward(&mut e));
    assert!(TaskLog::flush(2).data.backword(&mut e));
    assert_eq!(values(&e, "PATH"), Some(strings(&["a"])));
    assert_eq!(TaskLog::init(1).timestamp, 1);
    assert!(matches!(TaskLog::flush(2).data, TaskLogData::Flush(_)));
    assert!(TaskLog::init(1).data.marks());
    assert!(!append("PATH", "b").marks());
}

#[test]
fn resolver_plays_the_log_both_ways() {
    let start = env(&[("PATH", &["a"])]);
    let tasks = vec![
        log(append("PATH", "b")),
        log(TaskLogData::AddVariable(AddVariableLog { variable: "NEW".to_string() })),
        log(append("NEW", "n")),
    ];
    let after = TaskResolver::new(&start, &tasks).forward().unwrap();
    assert_eq!(values(&after, "PATH"), Some(strings(&["a", "b"])));
    assert_eq!(values(&after, "NEW"), Some(strings(&["n"])));
    assert_eq!(values(&start, "PATH"), Some(strings(&["a"])));
    let back = TaskResolver::new(&after, &tasks).backword().unwrap();
    assert!(same(&back, &start));
    assert!(TaskResolver::new(&start, &tasks).backword().is_none());
    let bad = vec![log(append("PATH", "b")), log(append("NOPE", "x"))];
    assert!(TaskResolver::new(&start, &bad).forward().is_none());
    let none: Vec<TaskLog> = Vec::new();
    assert!(same(&TaskResolver::new(&start, &none).forward().unwrap(), &start));
}

#[test]
fn manager_counts_edits_since_the_last_mark() {
    let mut tm = TaskManager::new();
    assert!(!tm.is_dirty());
    tm.init(&env(&[("PATH", &["a"])]), 1);
    assert!(!tm.is_dirty());
    assert_eq!(values(&tm.get_cur_env().unwrap(), "PATH"), Some(strings(&["a"])));
    tm.add_task(log(append("PATH", "b")));
    tm.add_task(log(append("PATH", "c")));
    assert!(tm.is_dirty());
    assert_eq!(values(&tm.get_cur_env().unwrap(), "PATH"), Some(strings(&["a", "b", "c"])));
    let undone = tm.try_undo().unwrap();
    assert!(matches!(undone.data, TaskLogData::AppendValue(ref l) if l.value == "c"));
    assert_eq!(values(&tm.get_cur_env().unwrap(), "PATH"), Some(strings(&["a", "b"])));
    tm.flush(env(&[("PATH", &["a", "b"])]), 2);
    assert!(!tm.is_dirty());
    assert_eq!(tm.try_undo().err(), Some(UndoError::NothingToUndo));
    assert_eq!(values(&tm.get_cur_env().unwrap(), "PATH"), Some(strings(&["a", "b"])));
    tm.add_task(log(append("NOPE", "x")));
    assert!(tm.get_cur_env().is_none());
}

#[test]
fn manager_init_lays_data_over_what_is_there() {
    let mut tm = TaskManager::new();
    tm.init(&env(&[("A", &["1"]), ("B", &["2"])]), 1);
    tm.init(&env(&[("B", &["3"]), ("C", &["4"])]), 2);
    let e = tm.get_cur_env().unwrap();
    assert_eq!(e.len(), 3);
    assert_eq!(values(&e, "A"), Some(strings(&["1"])));
    assert_eq!(values(&e, "B"), Some(strings(&["3"])));
    assert_eq!(values(&e, "C"), Some(strings(&["4"])));
}

#[test]
fn values_are_split_at_semicolons() {
    assert_eq!(split_values("a;b;c"), strings(&["a", "b", "c"]));
    assert_eq!(split_values("a;;b;"), strings(&["a", "b"]));
    assert_eq!(split_values(";a; ;\t;b c ;"), strings(&["a", "b c "]));
    assert!(split_values("").is_empty());
    assert!(split_values(" \u{3000}\u{a0}").is_empty());
    assert_eq!(split_values("C:\\bin"), strings(&["C:\\bin"]));
    for c in ['\u{9}', '\u{d}', ' ', '\u{85}', '\u{1680}', '\u{2000}', '\u{200a}', '\u{2028}', '\u{205f}'] {
        assert!(c.is_whitespace());
        assert!(split_values(&c.to_string()).is_empty());
    }
    for c in ['\u{8}', '\u{e}', '\u{200b}', '\u{180e}', 'x'] {
        assert!(!c.is_whitespace());
        assert_eq!(split_values(&c.to_string()).len(), 1);
    }
}

#[test]
fn blanks_are_what_the_standard_library_calls_whitespace() {
    for code in 0u32..0x11000 {
        if let Some(c) = char::from_u32(code) {
            assert_eq!(split_values(&c.to_string()).is_empty(), c.is_whitespace() || c == ';', "{:x}", code);
        }
    }
}

#[test]
fn environment_is_read_from_pairs() {
    let pairs = vec![
        ("PATH".to_string(), "C:\\a;C:\\b;".to_string()),
        ("EMPTY".to_string(), "".to_string()),
        ("PATH".to_string(), "C:\\c".to_string()),
    ];
    let e = parse_environment(&pairs);
    assert_eq!(e.len(), 2);
    assert_eq!(values(&e, "PATH"), Some(strings(&["C:\\c"])));
    assert_eq!(values(&e, "EMPTY"), Some(vec![]));
}

#[test]
fn commands_set_what_changed_and_drop_what_left() {
    let old = env(&[("KEEP", &["k"]), ("CHANGE", &["a"]), ("DROP", &["d"])]);
    let new = env(&[("KEEP", &["k"]), ("CHANGE", &["a", "b"]), ("NEW", &[])]);
    let commands = UpdateResolver::new(&old, &new).resolve();
    assert_eq!(
        commands,
        vec![
            "[Environment]::SetEnvironmentVariable(\"CHANGE\", \";a;b\", [EnvironmentVariableTarget]::User)",
            "[Environment]::SetEnvironmentVariable(\"NEW\", \";\", [EnvironmentVariableTarget]::User)",
            "[Environment]::SetEnvironmentVariable(\"DROP\", $null, [EnvironmentVariableTarget]::User)",
        ]
    );
    assert!(UpdateResolver::new(&old, &old).resolve().is_empty());
}
