use std::sync::{Condvar, Mutex};

use crossbeam::queue::SegQueue;
use dirscan::deep::pure_walk;
use dirscan::fault::WalkError;
use dirscan::fsview::{DirEntry, FsSnapshot, Probe};
use dirscan::record::NodeRecord;
use dirscan::shared::_RowLockStorageHelper;
use dirscan::store::AggregateStore;
use dirscan::walk::{entry_action, single_thread_walk, EntryAction};
use dirscan::workers::StopFlags;

fn file(path: &str, len: u64, modified: u64) -> DirEntry {
    DirEntry { path: path.to_string(), is_dir: false, len, modified }
}

fn sub(path: &str, modified: u64) -> DirEntry {
    DirEntry { path: path.to_string(), is_dir: true, len: 100, modified }
}

fn tree() -> FsSnapshot {
    let mut fs = FsSnapshot::new();
    fs.record("/".to_string(), Probe::Dir { modified: 1, entries: None });
    fs.record(
        "/r".to_string(),
        Probe::Dir { modified: 2, entries: Some(vec![file("/r/a", 10, 4), sub("/r/b", 3), sub("/r/$x", 3)]) },
    );
    fs.record(
        "/r/b".to_string(),
        Probe::Dir { modified: 3, entries: Some(vec![file("/r/b/c.exe", 5, 5), sub("/r/b/locked", 6)]) },
    );
    fs.record("/r/b/locked".to_string(), Probe::Dir { modified: 6, entries: None });
    fs.record("/r/$x".to_string(), Probe::Dir { modified: 3, entries: Some(Vec::new()) });
    fs
}

#[test]
fn workers_stop_when_all_are_idle() {
    let mut flags = StopFlags::new(3);
    assert_eq!(flags.len(), 3);
    assert!(!flags.all_idle());
    assert!(!flags.mark_idle(0));
    assert!(!flags.mark_idle(2));
    assert!(!flags.mark_idle(2));
    flags.mark_busy(0);
    assert!(!flags.mark_idle(1));
    assert!(flags.mark_idle(0));
    assert!(flags.all_idle());
    flags.mark_busy(1);
    assert!(!flags.all_idle());
    assert!(StopFlags::new(0).all_idle());
}

#[test]
fn deep_size_sums_the_subtree() {
    let fs = tree();
    assert_eq!(pure_walk(&sub("/r", 2), &fs, 100).unwrap(), 100 + 10 + 100 + 100 + 5 + 100);
    assert_eq!(pure_walk(&file("/r/a", 10, 4), &{
        let mut f = tree();
        f.record("/r/a".to_string(), Probe::File { len: 10, modified: 4 });
        f
    }, 100).unwrap(), 10);
    match pure_walk(&sub("/r", 2), &fs, 3) {
        Err(WalkError::StepLimit) => {},
        other => panic!("{:?}", other),
    }
    assert_eq!(pure_walk(&sub("/r", 2), &fs, 4).unwrap(), 415);
    match pure_walk(&sub("/q", 2), &fs, 9) {
        Err(WalkError::Unknown(p)) => assert_eq!(p, "/q"),
        other => panic!("{:?}", other),
    }
    let mut big = FsSnapshot::new();
    big.record("/b".to_string(), Probe::Dir { modified: 1, entries: Some(vec![file("/b/x", u64::MAX, 1)]) });
    match pure_walk(&sub("/b", 1), &big, 9) {
        Err(WalkError::Overflow) => {},
        other => panic!("{:?}", other),
    }
}

#[test]
fn the_sharded_map_counts_a_cached_path_above_it_only() {
    let mut fs = FsSnapshot::new();
    fs.record("/".to_string(), Probe::Dir { modified: 1, entries: None });
    let mut map = dashmap::DashMap::new();
    map.insert("/r".to_string(), NodeRecord::with(10, 2, 1, true));
    _RowLockStorageHelper::accumulate_above(&mut map, "/r", &NodeRecord::with(10, 2, 1, true), &fs).unwrap();
    assert_eq!(*map.get("/r").unwrap(), NodeRecord::with(10, 2, 1, true));
    assert_eq!(*map.get("/").unwrap(), NodeRecord::with(10, 1, 1, true));
    _RowLockStorageHelper::accumulate_above(&mut map, "/", &NodeRecord::with(5, 5, 5, true), &fs).unwrap();
    assert_eq!(*map.get("/").unwrap(), NodeRecord::with(10, 1, 1, true));
    match _RowLockStorageHelper::accumulate_above(&mut map, "/x/y", &NodeRecord::with(1, 1, 0, true), &fs) {
        Err(WalkError::Unknown(p)) => assert_eq!(p, "/x"),
        other => panic!("{:?}", other),
    }
}

#[test]
fn entries_are_sorted_into_actions() {
    let mut cache = AggregateStore::new();
    cache.insert("/r/cached".to_string(), NodeRecord::with(7, 8, 9, false));
    let fs = FsSnapshot::new();
    let decide = |entry: &DirEntry| entry_action(&cache, &fs, entry).unwrap();
    assert_eq!(decide(&sub("/r/$x", 1)), EntryAction::Skip);
    assert_eq!(decide(&sub("/r/b", 1)), EntryAction::Descend);
    assert_eq!(decide(&sub("/r/cached", 1)), EntryAction::Reuse(NodeRecord::with(7, 8, 9, false)));
    assert_eq!(decide(&file("/r/a.ps1", 3, 4)), EntryAction::Contribute(NodeRecord::with(3, 4, 1, true)));
    assert_eq!(decide(&file("/r/a", 3, 4)), EntryAction::Contribute(NodeRecord::with(3, 4, 0, true)));
}

#[test]
fn steps_on_the_sharded_map_give_what_the_walk_gives() {
    let fs = tree();
    let cache = AggregateStore::new();
    let mut map = dashmap::DashMap::new();
    let mut queue = vec!["/r".to_string()];
    while let Some(path) = queue.pop() {
        let dirs = _RowLockStorageHelper::step(&mut map, &cache, &fs, &path).unwrap();
        queue.extend(dirs);
    }
    let shared = _RowLockStorageHelper::turn(map);
    let walked = single_thread_walk(vec!["/r".to_string()], Some(&cache), &fs).unwrap();
    assert_eq!(dirscan::persist::dump(&shared), dirscan::persist::dump(&walked));
    assert_eq!(shared.get("/r/b/locked"), Some(NodeRecord::with(0, 6, 0, false)));
    assert_eq!(shared.get("/r"), Some(NodeRecord::with(15, 2, 1, true)));
    let mut map = dashmap::DashMap::new();
    match _RowLockStorageHelper::step(&mut map, &cache, &fs, "/nowhere") {
        Err(WalkError::Unknown(p)) => assert_eq!(p, "/nowhere"),
        other => panic!("{:?}", other),
    }
    assert_eq!(map.len(), 0);
}

struct Shared {
    pending: SegQueue<String>,
    stop: StopFlags,
    map: dashmap::DashMap<String, NodeRecord>,
}

fn walk_on_threads(start_points: Vec<String>, cache: &AggregateStore, fs: &FsSnapshot, threads: usize) -> AggregateStore {
    let pending = SegQueue::new();
    for root in start_points {
        pending.push(root);
    }
    let mut map = dashmap::DashMap::new();
    _RowLockStorageHelper::load_cache(&mut map, cache);
    let lock = Mutex::new(Shared { pending, stop: StopFlags::new(threads), map });
    let wake = Condvar::new();
    crossbeam::scope(|scope| {
        for worker in 0..threads {
            let (lock, wake) = (&lock, &wake);
            scope.spawn(move |_| loop {
                let mut shared = lock.lock().unwrap();
                let path = loop {
                    if let Some(path) = shared.pending.pop() {
                        shared.stop.mark_busy(worker);
                        break Some(path);
                    }
                    if shared.stop.mark_idle(worker) {
                        wake.notify_all();
                        break None;
                    }
                    shared = wake.wait(shared).unwrap();
                };
                let path = match path {
                    Some(path) => path,
                    None => return,
                };
                let dirs = _RowLockStorageHelper::step(&mut shared.map, cache, fs, &path).unwrap();
                for dir in dirs {
                    shared.pending.push(dir);
                }
                wake.notify_all();
            });
        }
    })
    .unwrap();
    _RowLockStorageHelper::turn(lock.into_inner().unwrap().map)
}

fn scoop() -> FsSnapshot {
    let mut fs = FsSnapshot::new();
    fs.record("D:\\".to_string(), Probe::Dir { modified: 1, entries: None });
    let mut top = Vec::new();
    for i in 0..40 {
        let dir = format!("D:\\Scoop\\app{}", i);
        top.push(sub(&dir, 10 + i));
        let mut inner = Vec::new();
        for j in 0..25 {
            inner.push(file(&format!("{}\\f{}.{}", dir, j, if j % 5 == 0 { "exe" } else { "txt" }), 100 + j, 50));
        }
        fs.record(dir, Probe::Dir { modified: 10 + i, entries: Some(inner) });
    }
    fs.record("D:\\Scoop".to_string(), Probe::Dir { modified: 2, entries: Some(top) });
    fs
}

#[test]
fn no_cache_parallel() {
    let fs = scoop();
    let start = vec!["D:\\Scoop".to_string()];
    let s = walk_on_threads(start, &AggregateStore::new(), &fs, 4);
    println!("no_cache_parallel done with {}", s.get("D:\\Scoop").unwrap().size);
    let size: u64 = 40 * (0..25).map(|j| 100 + j).sum::<u64>();
    assert_eq!(s.get("D:\\Scoop"), Some(NodeRecord::with(size, 2, 40 * 5, true)));
    assert_eq!(s.get("D:\\").unwrap().size, size);
    assert_eq!(s.len(), 2 + 40 + 40 * 25);
    let walked = single_thread_walk(vec!["D:\\Scoop".to_string()], None, &fs).unwrap();
    assert_eq!(dirscan::persist::dump(&s), dirscan::persist::dump(&walked));
}

#[test]
fn with_cache_parallel() {
    let fs = scoop();
    let mut cache = dirscan::persist::load("D:\\Scoop\\app7,9000,17,3,true\nD:\\Scoop\\gone,5,1,0,true\n").unwrap();
    let mut seen = scoop();
    seen.record("D:\\Scoop\\gone".to_string(), Probe::Missing);
    seen.record("D:\\Scoop\\app7".to_string(), Probe::Dir { modified: 17, entries: None });
    dirscan::shake::tree_shaking(&mut cache, &seen).unwrap();
    assert_eq!(cache.len(), 1);
    let start = vec!["D:\\Scoop".to_string()];
    let s = walk_on_threads(start, &cache, &fs, 3);
    println!("no_cache_parallel done with {}", s.get("D:\\Scoop").unwrap().size);
    let each: u64 = (0..25).map(|j| 100 + j).sum();
    assert_eq!(s.get("D:\\Scoop").unwrap().size, 39 * each + 9000);
    assert_eq!(s.get("D:\\Scoop\\app7"), Some(NodeRecord::with(9000, 17, 3, true)));
    assert_eq!(s.get("D:\\Scoop\\app7\\f0.exe"), None);
    let walked = single_thread_walk(vec!["D:\\Scoop".to_string()], Some(&cache), &fs).unwrap();
    assert_eq!(dirscan::persist::dump(&s), dirscan::persist::dump(&walked));
}
