use dirscan::fault::WalkError;
use dirscan::fsview::{DirEntry, FsSnapshot, Probe};
use dirscan::record::NodeRecord;
use dirscan::shake::tree_shaking;
use dirscan::storage::{Storage, StorageUpdater};
use dirscan::store::AggregateStore;
use dirscan::walk::{get_drives, single_thread_walk, walk_scan, Walker, STEP_LIMIT};

fn file(path: &str, len: u64, modified: u64) -> DirEntry {
    DirEntry { path: path.to_string(), is_dir: false, len, modified }
}

fn sub(path: &str, modified: u64) -> DirEntry {
    DirEntry { path: path.to_string(), is_dir: true, len: 4096, modified }
}

fn listing(modified: u64, entries: Vec<DirEntry>) -> Probe {
    Probe::Dir { modified, entries: Some(entries) }
}

fn small_tree() -> FsSnapshot {
    let mut fs = FsSnapshot::new();
    fs.record("/".to_string(), Probe::Dir { modified: 1, entries: None });
    fs.record("/r".to_string(), listing(2, vec![file("/r/a", 10, 4), sub("/r/b", 3)]));
    fs.record("/r/b".to_string(), listing(3, vec![file("/r/b/c.exe", 5, 5)]));
    fs
}

fn scoop() -> FsSnapshot {
    let mut fs = FsSnapshot::new();
    fs.record("D:\\".to_string(), Probe::Dir { modified: 1, entries: None });
    fs.record(
        "D:\\Scoop".to_string(),
        listing(2, vec![sub("D:\\Scoop\\apps", 3), file("D:\\Scoop\\config.json", 120, 4)]),
    );
    fs.record(
        "D:\\Scoop\\apps".to_string(),
        listing(3, vec![file("D:\\Scoop\\apps\\git.exe", 3000, 5), file("D:\\Scoop\\apps\\run.bat", 80, 6)]),
    );
    fs
}

fn no_other_drives(fs: &mut FsSnapshot) {
    for letter in 'C'..='Z' {
        let root = format!("{}:\\", letter);
        if !fs.knows(&root) {
            fs.record(root, Probe::Missing);
        }
    }
}

fn empty() -> AggregateStore {
    AggregateStore::new()
}

#[test]
fn end_to_end_scenario() {
    let s = single_thread_walk(vec!["/r".to_string()], None, &small_tree()).unwrap();
    assert_eq!(s.get("/r/a"), Some(NodeRecord::with(10, 4, 0, true)));
    assert_eq!(s.get("/r/b/c.exe"), Some(NodeRecord::with(5, 5, 1, true)));
    assert_eq!(s.get("/r/b"), Some(NodeRecord::with(5, 3, 1, true)));
    assert_eq!(s.get("/r"), Some(NodeRecord::with(15, 2, 1, true)));
    assert_eq!(s.get("/"), Some(NodeRecord::with(15, 1, 1, true)));
    assert_eq!(s.len(), 5);
}

#[test]
fn no_cache_single() {
    let start = vec!["D:\\Scoop".to_string()];
    let s = single_thread_walk(start, None, &scoop()).unwrap();
    println!("no_cache_single done with {}", s.get("D:\\Scoop").unwrap().size);
    assert_eq!(s.get("D:\\Scoop").unwrap().size, 3200);
    assert_eq!(s.get("D:\\Scoop").unwrap().script_count, 2);
    assert_eq!(s.get("D:\\").unwrap().size, 3200);
}

#[test]
fn with_cache_single() {
    let cache_s = Storage::load(Some("D:\\Scoop\\apps,3080,3,2,true\n")).unwrap();
    let fs = scoop();
    let mut cache = StorageUpdater::from(cache_s).into_store();
    tree_shaking(&mut cache, &fs).unwrap();
    let start = vec!["D:\\Scoop".to_string()];
    let s = single_thread_walk(start, Some(&cache), &fs).unwrap();
    println!("no_cache_single done with {}", s.get("D:\\Scoop").unwrap().size);
    assert_eq!(s.get("D:\\Scoop").unwrap().size, 3200);
    assert_eq!(s.get("D:\\Scoop\\apps"), Some(NodeRecord::with(3080, 3, 2, true)));
    assert_eq!(s.get("D:\\Scoop\\apps\\git.exe"), None);
}

#[test]
fn parent_is_at_least_its_child() {
    let s = single_thread_walk(vec!["/r".to_string()], None, &small_tree()).unwrap();
    for i in 0..s.len() {
        let k = s.key(i);
        if let Some(q) = dirscan::path::parent(k) {
            assert!(s.get(&q).unwrap().size >= s.get(k).unwrap().size);
        }
    }
}

#[test]
fn a_directory_that_cannot_be_listed_is_marked() {
    let mut fs = small_tree();
    fs.record("/r/b".to_string(), Probe::Dir { modified: 3, entries: None });
    let s = single_thread_walk(vec!["/r".to_string()], None, &fs).unwrap();
    assert_eq!(s.get("/r/b"), Some(NodeRecord::with(0, 3, 0, false)));
    assert_eq!(s.get("/r"), Some(NodeRecord::with(10, 2, 0, true)));
    assert_eq!(s.get("/r/b/c.exe"), None);
}

#[test]
fn a_start_point_that_is_a_file_is_marked() {
    let mut fs = small_tree();
    fs.record("/r/a".to_string(), Probe::File { len: 10, modified: 4 });
    let s = single_thread_walk(vec!["/r/a".to_string()], None, &fs).unwrap();
    assert_eq!(s.len(), 1);
    assert_eq!(s.get("/r/a"), Some(NodeRecord::with(0, 4, 0, false)));
}

#[test]
fn a_start_point_that_is_gone_is_passed_over() {
    let mut fs = small_tree();
    fs.record("/nowhere".to_string(), Probe::Missing);
    let s = single_thread_walk(vec!["/nowhere".to_string()], None, &fs).unwrap();
    assert_eq!(s.len(), 0);
}

#[test]
fn ignored_entries_stay_out() {
    let mut fs = small_tree();
    fs.record(
        "/r".to_string(),
        listing(
            2,
            vec![
                file("/r/a", 10, 4),
                sub("/r/$RECYCLE.BIN", 9),
                file("/r/$secret.exe", 1000, 9),
                sub("/r/System Volume Information", 9),
                sub("/r/b", 3),
            ],
        ),
    );
    fs.record("/r/$RECYCLE.BIN".to_string(), listing(9, vec![file("/r/$RECYCLE.BIN/x", 500, 9)]));
    let s = single_thread_walk(vec!["/r".to_string()], None, &fs).unwrap();
    assert_eq!(s.len(), 5);
    assert_eq!(s.get("/r"), Some(NodeRecord::with(15, 2, 1, true)));
    for i in 0..s.len() {
        assert!(!s.key(i).contains('$'));
        assert!(!s.key(i).contains("System Volume"));
    }
}

#[test]
fn a_cached_entry_contributes_and_is_not_entered() {
    let mut cache = empty();
    cache.insert("/r/b".to_string(), NodeRecord::with(500, 3, 7, true));
    let mut fs = small_tree();
    fs.record("/r/b".to_string(), Probe::Missing);
    let s = single_thread_walk(vec!["/r".to_string()], Some(&cache), &fs).unwrap();
    assert_eq!(s.get("/r/b"), Some(NodeRecord::with(500, 3, 7, true)));
    assert_eq!(s.get("/r"), Some(NodeRecord::with(510, 2, 7, true)));
    assert_eq!(s.get("/"), Some(NodeRecord::with(510, 1, 7, true)));
    assert_eq!(s.get("/r/b/c.exe"), None);
}

#[test]
fn a_cached_start_point_keeps_its_record_and_counts_above() {
    let mut cache = empty();
    cache.insert("/r".to_string(), NodeRecord::with(10, 99, 0, false));
    let s = single_thread_walk(vec!["/r".to_string()], Some(&cache), &small_tree()).unwrap();
    assert_eq!(s.get("/r"), Some(NodeRecord::with(10, 99, 0, false)));
    assert_eq!(s.get("/"), Some(NodeRecord::with(10, 1, 0, true)));
    assert_eq!(s.get("/r/a"), None);
    assert_eq!(s.len(), 2);
}

#[test]
fn a_cached_start_point_without_parent_comes_back_as_it_was() {
    let mut cache = empty();
    cache.insert("/".to_string(), NodeRecord::with(15, 7, 1, true));
    let mut fs = FsSnapshot::new();
    fs.record("/".to_string(), Probe::Dir { modified: 7, entries: Some(vec![file("/a", 99, 1)]) });
    let s = single_thread_walk(vec!["/".to_string()], Some(&cache), &fs).unwrap();
    assert_eq!(s.len(), 1);
    assert_eq!(s.get("/"), Some(NodeRecord::with(15, 7, 1, true)));
    let unseen = single_thread_walk(vec!["/".to_string()], Some(&cache), &FsSnapshot::new()).unwrap();
    assert_eq!(unseen.get("/"), Some(NodeRecord::with(15, 7, 1, true)));
}

#[test]
fn a_walk_over_its_own_result_gives_it_back() {
    let mut fs = FsSnapshot::new();
    fs.record("/".to_string(), listing(1, vec![sub("/r", 2), file("/top.bat", 4, 9)]));
    fs.record("/r".to_string(), listing(2, vec![file("/r/a", 10, 4), sub("/r/b", 3)]));
    fs.record("/r/b".to_string(), listing(3, vec![file("/r/b/c.exe", 5, 5), sub("/r/b/locked", 6)]));
    fs.record("/r/b/locked".to_string(), Probe::Dir { modified: 6, entries: None });
    fs.record("D:\\".to_string(), listing(1, vec![file("D:\\x.dll", 7, 2)]));
    let start = vec!["/".to_string(), "D:\\".to_string()];
    let first = single_thread_walk(start.clone(), None, &fs).unwrap();
    assert_eq!(first.get("/"), Some(NodeRecord::with(19, 1, 2, true)));
    assert_eq!(first.get("D:\\"), Some(NodeRecord::with(7, 1, 1, true)));
    let second = single_thread_walk(start, Some(&first), &fs).unwrap();
    assert_eq!(second.len(), first.len());
    for i in 0..first.len() {
        assert_eq!(second.key(i), first.key(i));
        assert_eq!(second.get(first.key(i)), first.get(first.key(i)));
    }
}

#[test]
fn a_cached_file_keeps_its_length() {
    let mut cache = empty();
    cache.insert("/r/a".to_string(), NodeRecord::with(10, 4, 0, true));
    let s = single_thread_walk(vec!["/r".to_string()], Some(&cache), &small_tree()).unwrap();
    assert_eq!(s.get("/r/a"), Some(NodeRecord::with(10, 4, 0, true)));
    assert_eq!(s.get("/r"), Some(NodeRecord::with(15, 2, 1, true)));
}

#[test]
fn without_start_points_the_cache_comes_back() {
    let mut cache = empty();
    cache.insert("/r".to_string(), NodeRecord::with(10, 2, 0, true));
    let s = single_thread_walk(Vec::new(), Some(&cache), &FsSnapshot::new()).unwrap();
    assert_eq!(s.len(), 1);
    assert_eq!(s.get("/r"), Some(NodeRecord::with(10, 2, 0, true)));
}

#[test]
fn the_walk_asks_for_what_it_has_not_seen_and_goes_on() {
    let mut fs = FsSnapshot::new();
    let cache = empty();
    let mut walker = Walker::new(vec!["/r".to_string()], &cache, STEP_LIMIT);
    let mut asked = Vec::new();
    let full = small_tree();
    loop {
        match walker.advance(&cache, &fs) {
            Ok(()) => break,
            Err(WalkError::Unknown(p)) => {
                let probe = match full.probe(&p) {
                    Some(Probe::Dir { modified, entries: Some(es) }) => Probe::Dir {
                        modified: *modified,
                        entries: Some(
                            es.iter()
                                .map(|e| DirEntry { path: e.path.clone(), is_dir: e.is_dir, len: e.len, modified: e.modified })
                                .collect(),
                        ),
                    },
                    Some(Probe::Dir { modified, entries: None }) => Probe::Dir { modified: *modified, entries: None },
                    Some(Probe::File { len, modified }) => Probe::File { len: *len, modified: *modified },
                    _ => Probe::Missing,
                };
                fs.record(p.clone(), probe);
                asked.push(p);
            },
            Err(e) => panic!("{:?}", e),
        }
    }
    assert!(walker.is_done());
    assert_eq!(asked, vec!["/r", "/", "/r/b"]);
    let s = walker.finish();
    assert_eq!(s.get("/r"), Some(NodeRecord::with(15, 2, 1, true)));
    assert_eq!(s.get("/"), Some(NodeRecord::with(15, 1, 1, true)));
}

#[test]
fn a_vanished_ancestor_stops_the_walk() {
    let mut fs = small_tree();
    fs.record("/".to_string(), Probe::Missing);
    match single_thread_walk(vec!["/r".to_string()], None, &fs) {
        Err(WalkError::Vanished(p)) => assert_eq!(p, "/"),
        other => panic!("{:?}", other.map(|s| s.len())),
    }
}

#[test]
fn an_overflow_stops_the_walk() {
    let mut fs = small_tree();
    fs.record("/r".to_string(), listing(2, vec![file("/r/a", u64::MAX, 4), file("/r/z", 1, 4)]));
    match single_thread_walk(vec!["/r".to_string()], None, &fs) {
        Err(WalkError::Overflow) => {},
        other => panic!("{:?}", other.map(|s| s.len())),
    }
}

#[test]
fn the_walk_stops_when_its_steps_are_used_up() {
    let cache = empty();
    let fs = small_tree();
    let mut walker = Walker::new(vec!["/r".to_string()], &cache, 1);
    match walker.advance(&cache, &fs) {
        Err(WalkError::StepLimit) => {},
        other => panic!("{:?}", other),
    }
    let mut walker = Walker::new(vec!["/r".to_string()], &cache, 2);
    assert!(walker.advance(&cache, &fs).is_ok());
}

#[test]
fn a_listing_that_lists_itself_ends_at_the_step_limit() {
    let mut fs = FsSnapshot::new();
    fs.record("/".to_string(), Probe::Dir { modified: 1, entries: None });
    fs.record("/r".to_string(), listing(2, vec![sub("/r", 2)]));
    let cache = empty();
    let mut walker = Walker::new(vec!["/r".to_string()], &cache, 1000);
    match walker.advance(&cache, &fs) {
        Err(WalkError::StepLimit) => {},
        other => panic!("{:?}", other),
    }
}

#[test]
fn test_get_drives() {
    let mut fs = FsSnapshot::new();
    fs.record("C:\\".to_string(), Probe::Dir { modified: 1, entries: None });
    fs.record("D:\\".to_string(), Probe::Dir { modified: 1, entries: None });
    fs.record("E:\\".to_string(), Probe::Missing);
    fs.record("F:\\".to_string(), Probe::File { len: 1, modified: 1 });
    fs.record("Z:\\".to_string(), Probe::Dir { modified: 1, entries: Some(Vec::new()) });
    match get_drives(&fs) {
        Err(WalkError::Unknown(p)) => assert_eq!(p, "G:\\"),
        other => panic!("{:?}", other),
    }
    no_other_drives(&mut fs);
    let drives = get_drives(&fs).unwrap();
    for d in &drives {
        println!("{:?}", d);
    }
    assert_eq!(drives, vec!["C:\\", "D:\\", "F:\\", "Z:\\"]);
}

#[test]
fn a_missing_letter_does_not_end_the_drives() {
    let mut fs = FsSnapshot::new();
    fs.record("C:\\".to_string(), Probe::Dir { modified: 1, entries: None });
    fs.record("E:\\".to_string(), Probe::Dir { modified: 1, entries: None });
    no_other_drives(&mut fs);
    assert_eq!(get_drives(&fs).unwrap(), vec!["C:\\", "E:\\"]);
    let mut none = FsSnapshot::new();
    no_other_drives(&mut none);
    assert!(get_drives(&none).unwrap().is_empty());
}

#[test]
fn drives_ask_for_the_letter_they_have_not_seen() {
    let mut fs = FsSnapshot::new();
    match get_drives(&fs) {
        Err(WalkError::Unknown(p)) => assert_eq!(p, "C:\\"),
        other => panic!("{:?}", other),
    }
    for letter in 'C'..='Z' {
        fs.record(format!("{}:\\", letter), Probe::Dir { modified: 1, entries: None });
    }
    let drives = get_drives(&fs).unwrap();
    assert_eq!(drives.len(), 24);
    assert_eq!(drives[23], "Z:\\");
}

#[test]
fn walk_scan_walks_every_drive() {
    let mut fs = scoop();
    fs.record("C:\\".to_string(), listing(1, vec![file("C:\\boot.ps1", 7, 2)]));
    fs.record("D:\\".to_string(), listing(1, vec![sub("D:\\Scoop", 2), sub("D:\\$RECYCLE.BIN", 2)]));
    fs.record("E:\\".to_string(), Probe::Missing);
    fs.record("G:\\".to_string(), listing(1, vec![file("G:\\g", 2, 2)]));
    no_other_drives(&mut fs);
    let s = walk_scan(None, &fs).unwrap();
    assert_eq!(s.get("G:\\"), Some(NodeRecord::with(2, 1, 0, true)));
    assert_eq!(s.get("C:\\"), Some(NodeRecord::with(7, 1, 1, true)));
    assert_eq!(s.get("D:\\"), Some(NodeRecord::with(3200, 1, 2, true)));
    assert_eq!(s.get("D:\\Scoop\\apps"), Some(NodeRecord::with(3080, 3, 2, true)));
    assert_eq!(s.get("D:\\$RECYCLE.BIN"), None);
}

#[test]
fn scanner_test_scan() {
    let mut s1 = Storage::load(Some("D:\\Scoop\\old.txt,5,1,0,true\n")).unwrap();
    let mut fs = scoop();
    fs.record("C:\\".to_string(), Probe::Missing);
    fs.record("D:\\".to_string(), Probe::Missing);
    fs.record("D:\\Scoop\\old.txt".to_string(), Probe::Missing);
    no_other_drives(&mut fs);
    assert!(get_drives(&fs).unwrap().is_empty());
    s1.update(&fs).unwrap();
    assert_eq!(s1.len(), 0);
    assert_eq!(s1.dump(), "");
}

#[test]
fn mod_test_scan() {
    let s1 = Storage::load(Some("C:\\gone,5,1,0,true\nC:\\kept.exe,9,2,1,true\n")).unwrap();
    let mut fs = FsSnapshot::new();
    fs.record("C:\\".to_string(), listing(1, vec![file("C:\\kept.exe", 9, 2), file("C:\\new", 3, 3)]));
    fs.record("D:\\".to_string(), Probe::Missing);
    fs.record("C:\\gone".to_string(), Probe::Missing);
    fs.record("C:\\kept.exe".to_string(), Probe::File { len: 9, modified: 2 });
    no_other_drives(&mut fs);
    let s2 = StorageUpdater::from(s1);
    let s1: Storage = s2.consume(&fs).unwrap();
    assert_eq!(s1.dump(), "C:\\,12,1,1,true\nC:\\kept.exe,9,2,1,true\nC:\\new,3,3,0,true\n");
    assert!(!s1.is_updating());
}

#[test]
fn a_failed_refresh_keeps_the_store() {
    let mut s = Storage::load(Some("C:\\kept,9,2,1,true\n")).unwrap();
    let fs = FsSnapshot::new();
    match s.update(&fs) {
        Err(WalkError::Unknown(p)) => assert_eq!(p, "C:\\kept"),
        other => panic!("{:?}", other),
    }
    assert_eq!(s.dump(), "C:\\kept,9,2,1,true\n");
}

#[test]
fn a_cache_without_the_parent_still_leaves_the_parent_above_its_child() {
    let mut fs = FsSnapshot::new();
    fs.record("/".to_string(), listing(1, vec![sub("/r", 2)]));
    fs.record("/r".to_string(), listing(2, vec![file("/r/a", 10, 4), sub("/r/b", 3)]));
    let mut cache = AggregateStore::new();
    cache.insert("/r/b/c.exe".to_string(), NodeRecord::with(5, 5, 1, true));
    cache.insert("/r/b".to_string(), NodeRecord::with(5, 3, 1, true));
    let s = single_thread_walk(vec!["/".to_string()], Some(&cache), &fs).unwrap();
    assert_eq!(s.get("/r/b"), Some(NodeRecord::with(5, 3, 1, true)));
    assert_eq!(s.get("/r/b/c.exe"), Some(NodeRecord::with(5, 5, 1, true)));
    assert_eq!(s.get("/r/a"), Some(NodeRecord::with(10, 4, 0, true)));
    assert_eq!(s.get("/r"), Some(NodeRecord::with(15, 2, 1, true)));
    assert_eq!(s.get("/"), Some(NodeRecord::with(15, 1, 1, true)));
    assert_eq!(s.len(), 5);
}

#[test]
fn a_changed_directory_of_files_is_counted_as_the_disk_has_it_now() {
    let mut fs = FsSnapshot::new();
    fs.record(
        "/".to_string(),
        listing(9, vec![file("/a.txt", 7, 9), file("/b.bat", 20, 8), file("/c.bin", 300, 7)]),
    );
    fs.record("/a.txt".to_string(), Probe::File { len: 7, modified: 9 });
    let mut old = AggregateStore::new();
    old.insert("/a.txt".to_string(), NodeRecord::with(1, 1, 0, true));
    old.insert("/".to_string(), NodeRecord::with(1, 1, 0, true));
    let mut shaken = old.duplicate();
    tree_shaking(&mut shaken, &fs).unwrap();
    assert_eq!(shaken.get("/"), None);
    let s = single_thread_walk(vec!["/".to_string()], Some(&shaken), &fs).unwrap();
    let root = s.get("/").unwrap();
    assert_eq!(root.size, 327);
    assert_eq!(root.script_count, 1);
    assert!(root.is_allowed);
}
