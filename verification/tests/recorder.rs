use dirscan::env::EnvHashMap;
use dirscan::recorder::{AddValueLogData, Recorder, TaskBuilder, TaskLog, TaskLogData};

fn strings(v: &[&str]) -> Vec<String> {
    v.iter().map(|s| s.to_string()).collect()
}

fn env() -> EnvHashMap {
    let mut e = EnvHashMap::new();
    e.insert("PATH".to_string(), strings(&["a", "b", "c"]));
    e.insert("TWICE".to_string(), strings(&["a", "a", "b"]));
    e
}

fn make(variable: &str, values: Option<&[&str]>) -> Option<TaskLogData> {
    TaskBuilder::try_make(&env(), variable, values.map(strings), 42).map(|log| {
        assert_eq!(log.timestamp, 42);
        log.data
    })
}

#[test]
fn a_missing_list_drops_the_variable() {
    assert!(matches!(make("PATH", None), Some(TaskLogData::DeleteVariable(l)) if l.variable == "PATH"));
    assert!(matches!(make("NEW", None), Some(TaskLogData::DeleteVariable(l)) if l.variable == "NEW"));
}

#[test]
fn an_empty_list_makes_the_variable() {
    assert!(matches!(make("NEW", Some(&[])), Some(TaskLogData::AddVariable(l)) if l.variable == "NEW"));
}

#[test]
fn a_longer_list_adds_a_value() {
    match make("PATH", Some(&["a", "b", "c", "d", "e"])) {
        Some(TaskLogData::AddValue(l)) => assert_eq!((l.variable.as_str(), l.index, l.value.as_str()), ("PATH", 3, "d")),
        other => panic!("{:?}", other),
    }
}

#[test]
fn a_shorter_list_deletes_the_last_value() {
    match make("PATH", Some(&["a", "c"])) {
        Some(TaskLogData::DeleteValue(l)) => assert_eq!((l.variable.as_str(), l.index, l.value.as_str()), ("PATH", 2, "c")),
        other => panic!("{:?}", other),
    }
}

#[test]
fn the_same_values_in_another_order_are_a_swap() {
    match make("PATH", Some(&["c", "b", "a"])) {
        Some(TaskLogData::OrderValue(l)) => assert_eq!((l.candidate1, l.candidate2), (0, 2)),
        other => panic!("{:?}", other),
    }
    match make("PATH", Some(&["b", "c", "a"])) {
        Some(TaskLogData::OrderValue(l)) => assert_eq!((l.candidate1, l.candidate2), (0, 1)),
        other => panic!("{:?}", other),
    }
}

#[test]
fn another_value_is_an_update_at_the_first_place() {
    match make("PATH", Some(&["a", "x", "y"])) {
        Some(TaskLogData::UpdateValue(l)) => {
            assert_eq!((l.index, l.old_value.as_str(), l.new_value.as_str()), (1, "b", "x"))
        }
        other => panic!("{:?}", other),
    }
}

#[test]
fn what_cannot_be_told_gives_nothing() {
    assert!(make("PATH", Some(&["a", "b", "c"])).is_none());
    assert!(make("NOPE", Some(&["a"])).is_none());
    assert!(make("TWICE", Some(&["a", "b", "b"])).is_none());
}

#[test]
fn actions_have_names() {
    assert!(matches!(TaskBuilder::action("init", 1), TaskLog { timestamp: 1, data: TaskLogData::Init(_) }));
    assert!(matches!(TaskBuilder::action("flush", 2), TaskLog { timestamp: 2, data: TaskLogData::Flush(_) }));
    assert!(matches!(TaskBuilder::try_action("init", 1), Some(TaskLog { timestamp: 1, data: TaskLogData::Init(_) })));
    assert!(TaskBuilder::try_action("Init", 3).is_none());
    assert!(TaskBuilder::try_action("", 3).is_none());
    let made = TaskBuilder::make(&env(), "PATH", Some(strings(&["a", "b"])), 7);
    assert!(matches!(made, TaskLog { timestamp: 7, data: TaskLogData::DeleteValue(l) } if l.index == 2));
}

#[test]
fn recorder_keeps_entries_in_order() {
    let mut r = Recorder::new();
    assert!(r.tasks.is_empty());
    r.add_task(TaskBuilder::action("init", 1));
    r.load(vec![TaskBuilder::action("flush", 2), TaskBuilder::action("init", 3)]);
    assert_eq!(r.tasks.iter().map(|t| t.timestamp).collect::<Vec<_>>(), vec![1, 2, 3]);
}

#[test]
fn test_task_log_batch_load() {
    let rawtext = r#"
    [
        {
            "timestamp": 0,
            "data": {
                "AddValue": {
                    "variable": "test",
                    "index": 0,
                    "value": "a"
                }
            }
        },
        {
            "timestamp": 1,
            "data": {
                "AddValue": {
                    "variable": "test",
                    "index": 1,
                    "value": "b"
                }
            }
        },
        {
            "timestamp": 2,
            "data": {
                "AddValue": {
                    "variable": "test",
                    "index": 2,
                    "value": "c"
                }
            }
        }
    ]"#;
    let parsed: serde_json::Value = serde_json::from_str(rawtext).unwrap();
    let logs: Vec<TaskLog> = parsed
        .as_array()
        .unwrap()
        .iter()
        .map(|entry| {
            let data = &entry["data"]["AddValue"];
            TaskLog {
                timestamp: entry["timestamp"].as_u64().unwrap() as u128,
                data: TaskLogData::AddValue(AddValueLogData {
                    variable: data["variable"].as_str().unwrap().to_string(),
                    index: data["index"].as_u64().unwrap() as usize,
                    value: data["value"].as_str().unwrap().to_string(),
                }),
            }
        })
        .collect();
    assert_eq!(logs.len(), 3);
    let mut recorder = Recorder::new();
    recorder.load(logs);
    assert_eq!(recorder.tasks.len(), 3);
    assert!(matches!(&recorder.tasks[2].data, TaskLogData::AddValue(l) if l.index == 2 && l.value == "c"));
}
