use dirscan::fault::WalkError;
use dirscan::fsview::{DirEntry, FsSnapshot, Probe};
use dirscan::record::NodeRecord;
use dirscan::shared::_RowLockStorageHelper;
use dirscan::store::AggregateStore;
use dirscan::walk::_Storage;

fn dir(modified: u64) -> Probe {
    Probe::Dir { modified, entries: None }
}

fn slash_tree() -> FsSnapshot {
    let mut fs = FsSnapshot::new();
    fs.record("/".to_string(), dir(1));
    fs.record("/r".to_string(), dir(2));
    fs.record("/r/b".to_string(), dir(3));
    fs
}

#[test]
fn store_keeps_what_is_written() {
    let mut s = AggregateStore::new();
    assert_eq!(s.len(), 0);
    s.insert("/r".to_string(), NodeRecord::with(15, 2, 1, true));
    s.insert("/r/a".to_string(), NodeRecord::with(10, 4, 0, true));
    s.insert("/r".to_string(), NodeRecord::with(16, 2, 1, true));
    assert_eq!(s.len(), 2);
    assert_eq!(s.get("/r"), Some(NodeRecord::with(16, 2, 1, true)));
    assert_eq!(s.get("/r/a"), Some(NodeRecord::with(10, 4, 0, true)));
    assert_eq!(s.get("/x"), None);
    assert!(s.contains_key("/r/a"));
    assert_eq!(s.key(0).as_str(), "/r");
    assert_eq!(s.key(1).as_str(), "/r/a");
}

#[test]
fn store_remove_and_prefix() {
    let mut s = AggregateStore::new();
    for k in ["/r", "/r/b", "/r/bc", "/r/b/c", "/q"] {
        s.insert(k.to_string(), NodeRecord::with(1, 1, 0, true));
    }
    s.remove("/q");
    assert_eq!(s.len(), 4);
    assert!(!s.contains_key("/q"));
    s.remove("/nothing");
    assert_eq!(s.len(), 4);
    s.remove_prefixed("/r/b");
    assert_eq!(s.len(), 1);
    assert!(s.contains_key("/r"));
    assert!(!s.contains_key("/r/bc"));
    assert!(!s.contains_key("/r/b/c"));
}

#[test]
fn store_duplicate_is_equal() {
    let mut s = AggregateStore::new();
    s.insert("/b".to_string(), NodeRecord::with(1, 2, 3, true));
    s.insert("/a".to_string(), NodeRecord::with(4, 5, 6, false));
    let d = s.duplicate();
    assert_eq!(d.len(), 2);
    assert_eq!(d.key(0).as_str(), "/b");
    assert_eq!(d.get("/a"), Some(NodeRecord::with(4, 5, 6, false)));
}

#[test]
fn record_default_and_add() {
    let zero = NodeRecord::default();
    assert_eq!(zero, NodeRecord::with(0, 0, 0, false));
    let mut r = NodeRecord::with(10, 7, 1, false);
    assert!(r.can_add(&NodeRecord::with(5, 9, 2, true)));
    r.add_assign(NodeRecord::with(5, 9, 2, true));
    assert_eq!(r, NodeRecord::with(15, 7, 3, false));
    assert!(!r.can_add(&NodeRecord::with(u64::MAX, 0, 0, true)));
    assert!(!r.can_add(&NodeRecord::with(0, 0, u64::MAX, true)));
}

#[test]
fn accumulate_reaches_every_ancestor() {
    let fs = slash_tree();
    let mut s = _Storage::new();
    let leaf = NodeRecord::with(5, 40, 1, true);
    assert!(s.accumulate("/r/b/c.exe", &leaf, 40, &fs).is_ok());
    let m = s.consume();
    assert_eq!(m.len(), 4);
    assert_eq!(m.get("/r/b/c.exe"), Some(NodeRecord::with(5, 40, 1, true)));
    assert_eq!(m.get("/r/b"), Some(NodeRecord::with(5, 3, 1, true)));
    assert_eq!(m.get("/r"), Some(NodeRecord::with(5, 2, 1, true)));
    assert_eq!(m.get("/"), Some(NodeRecord::with(5, 1, 1, true)));
}

#[test]
fn accumulate_adds_to_what_is_there() {
    let fs = slash_tree();
    let mut s = _Storage::new();
    s.accumulate("/r/a", &NodeRecord::with(10, 4, 0, true), 4, &fs).unwrap();
    s.accumulate("/r/b/c.exe", &NodeRecord::with(5, 40, 1, true), 40, &fs).unwrap();
    let m = s.consume();
    assert_eq!(m.get("/r"), Some(NodeRecord::with(15, 2, 1, true)));
    assert_eq!(m.get("/"), Some(NodeRecord::with(15, 1, 1, true)));
    assert_eq!(m.get("/r/b"), Some(NodeRecord::with(5, 3, 1, true)));
    assert_eq!(m.get("/r/a"), Some(NodeRecord::with(10, 4, 0, true)));
}

#[test]
fn accumulate_takes_the_stamp_of_the_path_not_of_the_contribution() {
    let fs = slash_tree();
    let mut s = _Storage::new();
    s.accumulate("/r/a", &NodeRecord::with(10, 999, 0, false), 4, &fs).unwrap();
    let m = s.consume();
    assert_eq!(m.get("/r/a"), Some(NodeRecord::with(10, 4, 0, true)));
    assert_eq!(m.get("/r"), Some(NodeRecord::with(10, 2, 0, true)));
}

#[test]
fn accumulate_asks_for_an_ancestor_it_has_not_seen() {
    let mut fs = FsSnapshot::new();
    fs.record("/r".to_string(), dir(2));
    let mut s = _Storage::new();
    match s.accumulate("/r/a", &NodeRecord::with(10, 4, 0, true), 4, &fs) {
        Err(WalkError::Unknown(p)) => assert_eq!(p, "/"),
        other => panic!("{:?}", other),
    }
    assert_eq!(s.consume().len(), 0);
}

#[test]
fn accumulate_stops_at_a_vanished_ancestor() {
    let mut fs = FsSnapshot::new();
    fs.record("/r".to_string(), Probe::Missing);
    let mut s = _Storage::new();
    match s.accumulate("/r/a", &NodeRecord::with(10, 4, 0, true), 4, &fs) {
        Err(WalkError::Vanished(p)) => assert_eq!(p, "/r"),
        other => panic!("{:?}", other),
    }
}

#[test]
fn accumulate_refuses_an_overflow_and_changes_nothing() {
    let fs = slash_tree();
    let mut s = _Storage::new();
    s.accumulate("/r/a", &NodeRecord::with(u64::MAX - 1, 4, 0, true), 4, &fs).unwrap();
    match s.accumulate("/r/b/c", &NodeRecord::with(2, 5, 0, true), 5, &fs) {
        Err(WalkError::Overflow) => {},
        other => panic!("{:?}", other),
    }
    let m = s.consume();
    assert_eq!(m.len(), 3);
    assert_eq!(m.get("/r"), Some(NodeRecord::with(u64::MAX - 1, 2, 0, true)));
    assert_eq!(m.get("/r/b/c"), None);
}

#[test]
fn accumulate_above_leaves_the_path_itself() {
    let fs = slash_tree();
    let mut s = _Storage::new();
    s.not_allowed("/r/b", 3);
    s.accumulate_above("/r/b", &NodeRecord::with(5, 77, 1, true), &fs).unwrap();
    s.accumulate_above("/", &NodeRecord::with(5, 77, 1, true), &fs).unwrap();
    match s.accumulate_above("/x/y", &NodeRecord::with(5, 77, 1, true), &fs) {
        Err(WalkError::Unknown(p)) => assert_eq!(p, "/x"),
        other => panic!("{:?}", other),
    }
    let m = s.consume();
    assert_eq!(m.len(), 3);
    assert_eq!(m.get("/r/b"), Some(NodeRecord::with(0, 3, 0, false)));
    assert_eq!(m.get("/r"), Some(NodeRecord::with(5, 2, 1, true)));
    assert_eq!(m.get("/"), Some(NodeRecord::with(5, 1, 1, true)));
}

#[test]
fn not_allowed_touches_one_path_only() {
    let fs = slash_tree();
    let mut s = _Storage::new();
    s.accumulate("/r/a", &NodeRecord::with(10, 4, 0, true), 4, &fs).unwrap();
    s.not_allowed("/r/locked", 77);
    s.not_allowed("/r/a", 78);
    let m = s.consume();
    assert_eq!(m.get("/r/locked"), Some(NodeRecord::with(0, 77, 0, false)));
    assert_eq!(m.get("/r/a"), Some(NodeRecord::with(0, 78, 0, false)));
    assert_eq!(m.get("/r"), Some(NodeRecord::with(10, 2, 0, true)));
    assert_eq!(m.get("/"), Some(NodeRecord::with(10, 1, 0, true)));
}

#[test]
fn merge_copies_the_cache() {
    let mut cache = AggregateStore::new();
    cache.insert("/r".to_string(), NodeRecord::with(15, 2, 1, true));
    cache.insert("/r/a".to_string(), NodeRecord::with(10, 4, 0, true));
    let mut s = _Storage::new();
    s.not_allowed("/r", 1);
    s.merge(&cache);
    let m = s.consume();
    assert_eq!(m.len(), 2);
    assert_eq!(m.get("/r"), Some(NodeRecord::with(15, 2, 1, true)));
    assert_eq!(m.get("/r/a"), Some(NodeRecord::with(10, 4, 0, true)));
}

#[test]
fn snapshot_answers_what_it_was_told() {
    let mut fs = FsSnapshot::new();
    assert!(!fs.knows("/r"));
    fs.record(
        "/r".to_string(),
        Probe::Dir {
            modified: 2,
            entries: Some(vec![
                DirEntry { path: "/r/a".to_string(), is_dir: false, len: 10, modified: 4 },
                DirEntry { path: "/r/b".to_string(), is_dir: true, len: 0, modified: 3 },
            ]),
        },
    );
    fs.record("/r/f".to_string(), Probe::File { len: 3, modified: 9 });
    fs.record("/gone".to_string(), Probe::Missing);
    assert!(fs.knows("/r"));
    assert_eq!(fs.modified("/r"), Some(2));
    assert_eq!(fs.modified("/r/f"), Some(9));
    assert_eq!(fs.modified("/gone"), None);
    assert_eq!(fs.modified("/never"), None);
    assert!(fs.is_dir("/r"));
    assert!(fs.is_dir("/r/b"));
    assert!(!fs.is_dir("/r/a"));
    assert!(!fs.is_dir("/r/f"));
    assert!(!fs.is_dir("/r/zzz"));
    assert!(matches!(fs.probe("/gone"), Some(Probe::Missing)));
    assert!(fs.probe("/never").is_none());
}

#[test]
fn sharded_map_is_filled_like_the_store() {
    let fs = slash_tree();
    let mut cache = AggregateStore::new();
    cache.insert("/r/old".to_string(), NodeRecord::with(1, 1, 0, true));
    let mut map = dashmap::DashMap::new();
    _RowLockStorageHelper::load_cache(&mut map, &cache);
    assert_eq!(map.len(), 1);
    _RowLockStorageHelper::accumulate(&mut map, "/r/a", &NodeRecord::with(10, 4, 0, true), 4, &fs).unwrap();
    _RowLockStorageHelper::accumulate(&mut map, "/r/b/c.exe", &NodeRecord::with(5, 40, 1, true), 40, &fs).unwrap();
    _RowLockStorageHelper::not_allowed(&mut map, "/r/locked", 9);
    match _RowLockStorageHelper::accumulate(&mut map, "/x/y", &NodeRecord::with(1, 1, 0, true), 1, &fs) {
        Err(WalkError::Unknown(p)) => assert_eq!(p, "/x"),
        other => panic!("{:?}", other),
    }
    match _RowLockStorageHelper::accumulate(&mut map, "/r/z", &NodeRecord::with(u64::MAX, 1, 0, true), 1, &fs) {
        Err(WalkError::Overflow) => {},
        other => panic!("{:?}", other),
    }
    assert_eq!(*map.get("/r").unwrap(), NodeRecord::with(15, 2, 1, true));
    let store = _RowLockStorageHelper::turn(map);
    assert_eq!(store.len(), 7);
    assert_eq!(store.get("/r/old"), Some(NodeRecord::with(1, 1, 0, true)));
    assert_eq!(store.get("/"), Some(NodeRecord::with(15, 1, 1, true)));
    assert_eq!(store.get("/r/b"), Some(NodeRecord::with(5, 3, 1, true)));
    assert_eq!(store.get("/r/locked"), Some(NodeRecord::with(0, 9, 0, false)));
    assert_eq!(store.get("/r/z"), None);

    let mut plain = _Storage::new();
    plain.merge(&cache);
    plain.accumulate("/r/a", &NodeRecord::with(10, 4, 0, true), 4, &fs).unwrap();
    plain.accumulate("/r/b/c.exe", &NodeRecord::with(5, 40, 1, true), 40, &fs).unwrap();
    plain.not_allowed("/r/locked", 9);
    let plain = plain.consume();
    assert_eq!(dirscan::persist::dump(&plain), dirscan::persist::dump(&store));
}
