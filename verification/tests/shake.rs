use dirscan::fault::WalkError;
use dirscan::fsview::{FsSnapshot, Probe};
use dirscan::record::NodeRecord;
use dirscan::shake::{longest_keys, tree_shaking, Shaker, BATCH};
use dirscan::store::AggregateStore;

fn store_of(rows: &[(&str, u64)]) -> AggregateStore {
    let mut s = AggregateStore::new();
    for (k, stamp) in rows {
        s.insert(k.to_string(), NodeRecord::with(1, *stamp, 0, true));
    }
    s
}

fn seen(rows: &[(&str, Option<u64>)]) -> FsSnapshot {
    let mut fs = FsSnapshot::new();
    for (k, stamp) in rows {
        let probe = match stamp {
            Some(t) => Probe::Dir { modified: *t, entries: None },
            None => Probe::Missing,
        };
        fs.record(k.to_string(), probe);
    }
    fs
}

fn keys(s: &AggregateStore) -> Vec<String> {
    (0..s.len()).map(|i| s.key(i).clone()).collect()
}

#[test]
fn batch_is_two_hundred() {
    assert_eq!(BATCH, 200);
}

#[test]
fn longest_keys_come_last() {
    let s = store_of(&[("/r", 1), ("/r/b/c", 1), ("/q", 1), ("/r/b", 1), ("/", 1)]);
    assert_eq!(longest_keys(&s, 10), vec!["/", "/r", "/q", "/r/b", "/r/b/c"]);
    assert_eq!(longest_keys(&s, 3), vec!["/q", "/r/b", "/r/b/c"]);
    assert_eq!(longest_keys(&s, 1), vec!["/r/b/c"]);
    assert!(longest_keys(&s, 0).is_empty());
    assert!(longest_keys(&AggregateStore::new(), 5).is_empty());
}

#[test]
fn nothing_changed_nothing_leaves() {
    let mut s = store_of(&[("/r", 1), ("/r/a", 2), ("/r/b", 3)]);
    let fs = seen(&[("/r", Some(1)), ("/r/a", Some(2)), ("/r/b", Some(3))]);
    assert!(tree_shaking(&mut s, &fs).is_ok());
    assert_eq!(keys(&s), vec!["/r", "/r/a", "/r/b"]);
    assert_eq!(s.get("/r/a"), Some(NodeRecord::with(1, 2, 0, true)));
}

#[test]
fn a_changed_path_leaves_alone() {
    let mut s = store_of(&[("/r", 1), ("/r/a", 2), ("/r/b", 3), ("/r/b/c", 4)]);
    let fs = seen(&[("/r", Some(1)), ("/r/a", Some(2)), ("/r/b", Some(30)), ("/r/b/c", Some(4))]);
    assert!(tree_shaking(&mut s, &fs).is_ok());
    assert_eq!(keys(&s), vec!["/r", "/r/a", "/r/b/c"]);
}

#[test]
fn a_path_that_is_gone_takes_all_that_begins_with_it() {
    let mut s = store_of(&[("/r", 1), ("/r/b", 3), ("/r/b/c", 4), ("/r/bc", 5), ("/r/a", 2)]);
    let fs = seen(&[("/r", Some(1)), ("/r/a", Some(2)), ("/r/b", None), ("/r/b/c", None), ("/r/bc", Some(5))]);
    assert!(tree_shaking(&mut s, &fs).is_ok());
    assert_eq!(keys(&s), vec!["/r", "/r/a"]);
}

#[test]
fn children_of_a_changed_path_are_examined_beyond_the_batch() {
    let mut s = store_of(&[("/d", 1), ("/d/x", 2), ("/d/y", 3), ("/e/zzzzzz", 4)]);
    let fs = seen(&[("/d", Some(10)), ("/d/x", Some(20)), ("/d/y", Some(3)), ("/e/zzzzzz", Some(4))]);
    let mut shaker = Shaker::new(s.duplicate(), 4);
    assert!(shaker.run(&fs).is_ok());
    assert_eq!(keys(&shaker.finish()), vec!["/d/y", "/e/zzzzzz"]);
    let only_short = seen(&[("/d", Some(10)), ("/d/x", Some(20)), ("/d/y", Some(30))]);
    let mut small = AggregateStore::new();
    for k in ["/d/x", "/d/y", "/d"] {
        small.insert(k.to_string(), s.get(k).unwrap());
    }
    s = small;
    let mut shaker = Shaker::new(s, 1);
    assert!(shaker.run(&only_short).is_ok());
    let left = shaker.finish();
    assert_eq!(keys(&left), vec!["/d/x", "/d"]);
}

#[test]
fn a_stale_path_outside_the_batch_stays() {
    let s = store_of(&[("/a", 1), ("/long/path", 2)]);
    let fs = seen(&[("/a", Some(100)), ("/long/path", Some(2))]);
    let mut shaker = Shaker::new(s, 1);
    assert!(shaker.run(&fs).is_ok());
    assert_eq!(keys(&shaker.finish()), vec!["/a", "/long/path"]);
}

#[test]
fn invalidation_asks_and_goes_on() {
    let s = store_of(&[("/r", 1), ("/r/a", 2)]);
    let mut fs = FsSnapshot::new();
    let mut shaker = Shaker::new(s, BATCH);
    match shaker.run(&fs) {
        Err(WalkError::Unknown(p)) => assert_eq!(p, "/r/a"),
        other => panic!("{:?}", other),
    }
    fs.record("/r/a".to_string(), Probe::File { len: 1, modified: 20 });
    match shaker.run(&fs) {
        Err(WalkError::Unknown(p)) => assert_eq!(p, "/r"),
        other => panic!("{:?}", other),
    }
    fs.record("/r".to_string(), Probe::Dir { modified: 1, entries: None });
    assert!(shaker.run(&fs).is_ok());
    assert_eq!(keys(&shaker.finish()), vec!["/r"]);
}

#[test]
fn a_path_on_the_worklist_twice_is_examined_once() {
    let mut s = store_of(&[("/d", 1), ("/d/x", 2)]);
    let fs = seen(&[("/d", Some(10)), ("/d/x", Some(20))]);
    assert!(tree_shaking(&mut s, &fs).is_ok());
    assert_eq!(s.len(), 0);
}
