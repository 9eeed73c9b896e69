use dirscan::persist::{dump, load, sorted_keys, LoadError};
use dirscan::record::NodeRecord;
use dirscan::storage::{Persist, Storage, StorageUpdater};
use dirscan::store::AggregateStore;

fn sample() -> AggregateStore {
    let mut s = AggregateStore::new();
    s.insert("/r/b/c.exe".to_string(), NodeRecord::with(5, 1700000003, 1, true));
    s.insert("/r".to_string(), NodeRecord::with(15, 1700000000, 1, true));
    s.insert("/r/locked".to_string(), NodeRecord::with(0, 1700000009, 0, false));
    s.insert("/r/a".to_string(), NodeRecord::with(10, 1700000001, 0, true));
    s.insert("/r/b".to_string(), NodeRecord::with(5, 1700000002, 1, true));
    s
}

#[test]
fn dump_writes_sorted_rows() {
    let text = dump(&sample());
    assert_eq!(
        text,
        "/r,15,1700000000,1,true\n\
         /r/a,10,1700000001,0,true\n\
         /r/b,5,1700000002,1,true\n\
         /r/b/c.exe,5,1700000003,1,true\n\
         /r/locked,0,1700000009,0,false\n"
    );
}

#[test]
fn dump_of_nothing_is_empty() {
    assert_eq!(dump(&AggregateStore::new()), "");
}

#[test]
fn sorted_keys_rise_by_code_point() {
    let mut s = AggregateStore::new();
    for k in ["b", "a", "B", "ab", "", "é", "a/b", "z"] {
        s.insert(k.to_string(), NodeRecord::default());
    }
    let keys = sorted_keys(&s);
    assert_eq!(keys, vec!["", "B", "a", "a/b", "ab", "b", "z", "é"]);
}

#[test]
fn load_reads_what_dump_wrote() {
    let store = sample();
    let back = load(&dump(&store)).unwrap();
    assert_eq!(back.len(), store.len());
    for i in 0..store.len() {
        let k = store.key(i);
        assert_eq!(back.get(k), store.get(k));
    }
}

#[test]
fn round_trip_keeps_extreme_numbers_and_odd_paths() {
    let mut s = AggregateStore::new();
    s.insert("D:\\Scoop\\apps".to_string(), NodeRecord::with(u64::MAX, u64::MAX, u64::MAX, true));
    s.insert("".to_string(), NodeRecord::with(0, 0, 0, false));
    s.insert("/with space/\"quote\"".to_string(), NodeRecord::with(7, 8, 9, true));
    s.insert("/ünï/cödé".to_string(), NodeRecord::with(1, 2, 3, false));
    let back = load(&dump(&s)).unwrap();
    assert_eq!(back.len(), 4);
    for i in 0..s.len() {
        let k = s.key(i);
        assert_eq!(back.get(k), s.get(k));
    }
    assert_eq!(dump(&back), dump(&s));
}

#[test]
fn load_of_nothing_is_empty() {
    assert_eq!(load("").unwrap().len(), 0);
    assert_eq!(load("\n\n").unwrap().len(), 0);
}

#[test]
fn load_takes_a_last_line_without_line_feed() {
    let s = load("/r,1,2,3,true\n/r/a,4,5,6,false").unwrap();
    assert_eq!(s.len(), 2);
    assert_eq!(s.get("/r/a"), Some(NodeRecord::with(4, 5, 6, false)));
}

#[test]
fn load_lets_a_later_row_stand() {
    let s = load("/r,1,2,3,true\n/r,4,5,6,false\n").unwrap();
    assert_eq!(s.len(), 1);
    assert_eq!(s.get("/r"), Some(NodeRecord::with(4, 5, 6, false)));
}

#[test]
fn load_accepts_leading_zeros() {
    let s = load("/r,007,0,00,true\n").unwrap();
    assert_eq!(s.get("/r"), Some(NodeRecord::with(7, 0, 0, true)));
}

#[test]
fn load_refuses_what_is_no_row() {
    for bad in [
        "/r,1,2,3\n",
        "/r,1,2,3,yes\n",
        "/r,1,2,3,true,extra\n",
        "/r,1,2,x,true\n",
        "/r,,2,3,true\n",
        "/r,-1,2,3,true\n",
        "/r,1,2,3,TRUE\n",
        "/r,18446744073709551616,2,3,true\n",
        "/r,99999999999999999999999999,2,3,true\n",
        "/r 1 2 3 true\n",
        "/r,1,2,3,true\r\n",
        "/r,1,2,3,true\nrubbish\n",
        ",,,\n",
        "1,2,3,true\n",
    ] {
        assert_eq!(load(bad).err(), Some(LoadError::Malformed), "{:?}", bad);
    }
}

#[test]
fn load_takes_the_largest_number() {
    let s = load("/r,18446744073709551615,2,3,true\n").unwrap();
    assert_eq!(s.get("/r"), Some(NodeRecord::with(u64::MAX, 2, 3, true)));
}

#[test]
fn a_comma_in_a_path_comes_back() {
    let mut s = AggregateStore::new();
    s.insert("C:\\Program Files\\Foo, Inc".to_string(), NodeRecord::with(1, 2, 3, true));
    s.insert(",".to_string(), NodeRecord::with(4, 5, 6, false));
    s.insert("a,1,2,3,true".to_string(), NodeRecord::with(7, 8, 9, true));
    let text = dump(&s);
    assert_eq!(text, ",,4,5,6,false\nC:\\Program Files\\Foo, Inc,1,2,3,true\na,1,2,3,true,7,8,9,true\n");
    let back = load(&text).unwrap();
    assert_eq!(back.len(), 3);
    assert_eq!(back.get("C:\\Program Files\\Foo, Inc"), Some(NodeRecord::with(1, 2, 3, true)));
    assert_eq!(back.get(","), Some(NodeRecord::with(4, 5, 6, false)));
    assert_eq!(back.get("a,1,2,3,true"), Some(NodeRecord::with(7, 8, 9, true)));
}

#[test]
fn a_row_is_read_from_its_end() {
    let s = load("/a,b,1,2,3,true\n").unwrap();
    assert_eq!(s.len(), 1);
    assert_eq!(s.get("/a,b"), Some(NodeRecord::with(1, 2, 3, true)));
    let s = load(",1,2,3,true\n").unwrap();
    assert_eq!(s.get(""), Some(NodeRecord::with(1, 2, 3, true)));
}

#[test]
fn a_line_feed_in_a_path_does_not_come_back() {
    let mut s = AggregateStore::new();
    s.insert("/a\nb".to_string(), NodeRecord::with(1, 2, 3, true));
    assert_eq!(load(&dump(&s)).err(), Some(LoadError::Malformed));
}

#[test]
fn storage_loads_and_dumps() {
    let empty = Storage::load(None).unwrap();
    assert_eq!(empty.len(), 0);
    assert!(!empty.is_updating());
    let text = dump(&sample());
    let s = Storage::load(Some(&text)).unwrap();
    assert_eq!(s.len(), 5);
    assert_eq!(s.get("/r/a"), Some(NodeRecord::with(10, 1700000001, 0, true)));
    assert_eq!(s.dump(), text);
    assert!(Storage::load(Some("nonsense")).is_err());
}

#[test]
fn rows_agree_with_the_csv_crate() {
    let store = sample();
    let text = dump(&store);
    let mut reader = csv::ReaderBuilder::new().has_headers(false).from_reader(text.as_bytes());
    let mut n = 0;
    for row in reader.records() {
        let row = row.unwrap();
        assert_eq!(row.len(), 5);
        let record = store.get(&row[0]).unwrap();
        assert_eq!(row[1].parse::<u64>().unwrap(), record.size);
        assert_eq!(row[2].parse::<u64>().unwrap(), record.last_modified);
        assert_eq!(row[3].parse::<u64>().unwrap(), record.script_count);
        assert_eq!(row[4].parse::<bool>().unwrap(), record.is_allowed);
        n += 1;
    }
    assert_eq!(n, store.len());
    let mut writer = csv::Writer::from_writer(vec![]);
    for k in sorted_keys(&store) {
        let v = store.get(&k).unwrap();
        writer
            .write_record(&[
                k,
                v.size.to_string(),
                v.last_modified.to_string(),
                v.script_count.to_string(),
                v.is_allowed.to_string(),
            ])
            .unwrap();
    }
    assert_eq!(String::from_utf8(writer.into_inner().unwrap()).unwrap(), text);
}

#[test]
fn storage_and_updater_pass_the_records_on() {
    let text = dump(&sample());
    let mut storage = Storage::_load(Some(&text)).unwrap();
    storage.set_updating(true);
    let updater = StorageUpdater::from(storage);
    let back = Storage::from(updater);
    assert!(!back.is_updating());
    assert_eq!(back._dump(), text);
    let copy: Storage = back.generater().into();
    assert_eq!(copy.dump(), text);
    assert_eq!(Storage::default().dump(), "");
    assert!(Storage::_load(None).unwrap().dump().is_empty());
    assert!(Storage::_load(Some("x")).is_err());
}
