use std::collections::BTreeMap;

use kvs::codec::encode_command;
use kvs::segment::{get_sorted_file_list, log_path};
use kvs::{Command, KvReader, KvStore, KvsError, Segment};

/// A data directory in memory, and a store that is driven over it the way
/// a program drives it over files.
struct Dir {
    files: BTreeMap<String, Vec<u8>>,
}

struct Engine {
    store: KvStore,
    reader: KvReader,
}

impl Dir {
    fn new() -> Dir {
        Dir {
            files: BTreeMap::new(),
        }
    }

    fn segment_count(&self) -> usize {
        self.files.len()
    }

    fn total_bytes(&self) -> usize {
        self.files.values().map(|f| f.len()).sum()
    }
}

impl Engine {
    fn open(dir: &mut Dir, threshold: u64) -> Result<Engine, KvsError> {
        let names: Vec<String> = dir.files.keys().cloned().collect();
        let list = get_sorted_file_list(&names);
        let segments: Vec<Segment> = list
            .iter()
            .map(|&file_no| Segment {
                file_no,
                data: dir.files[&log_path(file_no)].clone(),
            })
            .collect();
        let store = KvStore::open_with_threshold(&segments, threshold)?;
        let mut reader = KvReader::new();
        for &file_no in &list {
            reader.insert(file_no);
        }
        dir.files
            .entry(log_path(store.current_file_no()))
            .or_default();
        reader.insert(store.current_file_no());
        Ok(Engine { store, reader })
    }

    fn sweep(dir: &mut Dir, stale: &[u64]) {
        for &file_no in stale {
            dir.files.remove(&log_path(file_no));
        }
    }

    fn fetch(
        reader: &mut KvReader,
        dir: &mut Dir,
        pos: &kvs::CommandPos,
        safe_point: u64,
    ) -> Vec<u8> {
        let access = reader.read(pos, safe_point);
        Engine::sweep(dir, &access.stale);
        let file = &dir.files[&log_path(pos.file_no)];
        let start = pos.start as usize;
        let end = (pos.start + pos.len) as usize;
        file[start..end.min(file.len())].to_vec()
    }

    fn write(&mut self, dir: &mut Dir, cmd: Command) -> Result<(), KvsError> {
        let bytes = encode_command(&cmd)?;
        let file = dir
            .files
            .get_mut(&log_path(self.store.current_file_no()))
            .unwrap();
        let pos = file.len() as u64;
        file.extend_from_slice(&bytes);
        let new_pos = file.len() as u64;
        if self.store.write(cmd, pos, new_pos) {
            self.compact(dir)?;
        }
        Ok(())
    }

    fn compact(&mut self, dir: &mut Dir) -> Result<(), KvsError> {
        let compaction_no = self.store.start_compaction()?;
        dir.files
            .insert(log_path(self.store.current_file_no()), Vec::new());
        self.reader.insert(self.store.current_file_no());
        self.reader.insert(compaction_no);
        let mut out = Vec::new();
        let mut copied = Vec::new();
        for pos in self.store.sources() {
            let bytes = Engine::fetch(&mut self.reader, dir, &pos, self.store.safe_point());
            copied.push(bytes.len() as u64);
            out.extend_from_slice(&bytes);
        }
        dir.files.insert(log_path(compaction_no), out);
        self.store.compaction(compaction_no, &copied)?;
        let stale = self.reader.remove_stale_files(self.store.safe_point());
        Engine::sweep(dir, &stale);
        Ok(())
    }

    fn set(&mut self, dir: &mut Dir, key: &str, value: &str) -> Result<(), KvsError> {
        self.write(dir, Command::Put(key.to_string(), value.to_string()))
    }

    fn get(&mut self, dir: &mut Dir, key: &str) -> Result<Option<String>, KvsError> {
        match self.store.get(key) {
            None => Ok(None),
            Some(pos) => {
                let bytes = Engine::fetch(&mut self.reader, dir, &pos, self.store.safe_point());
                KvStore::read_value(&bytes).map(Some)
            }
        }
    }

    fn remove(&mut self, dir: &mut Dir, key: &str) -> Result<(), KvsError> {
        let cmd = self.store.remove(key.to_string())?;
        self.write(dir, cmd)
    }
}

fn not_found(r: Result<(), KvsError>, key: &str) -> bool {
    matches!(r, Err(KvsError::NotFoundError(k)) if k == key)
}

#[test]
fn get_stored_value() {
    let mut dir = Dir::new();
    let mut store = Engine::open(&mut dir, 1024).unwrap();
    store.set(&mut dir, "k1", "v1").unwrap();
    assert_eq!(store.get(&mut dir, "k1").unwrap(), Some("v1".to_string()));
    store.set(&mut dir, "key2", "value2").unwrap();
    assert_eq!(store.get(&mut dir, "k1").unwrap(), Some("v1".to_string()));
    assert_eq!(
        store.get(&mut dir, "key2").unwrap(),
        Some("value2".to_string())
    );
}

#[test]
fn overwrite_value() {
    let mut dir = Dir::new();
    let mut store = Engine::open(&mut dir, 1024).unwrap();
    store.set(&mut dir, "k1", "v1").unwrap();
    store.set(&mut dir, "k1", "v2").unwrap();
    assert_eq!(store.get(&mut dir, "k1").unwrap(), Some("v2".to_string()));
    assert_eq!(store.store.len(), 1);
    // The first record is dead: {"Set":["k1","v1"]} is 19 bytes long.
    assert_eq!(store.store.uncompacted_bytes(), 19);
}

#[test]
fn remove_key() {
    let mut dir = Dir::new();
    let mut store = Engine::open(&mut dir, 1024).unwrap();
    store.set(&mut dir, "k1", "v1").unwrap();
    store.remove(&mut dir, "k1").unwrap();
    assert_eq!(store.get(&mut dir, "k1").unwrap(), None);
    assert!(not_found(store.remove(&mut dir, "k1"), "k1"));
    // The record of the key and the tombstone {"Rm":"k1"} are dead.
    assert_eq!(store.store.uncompacted_bytes(), 19 + 11);
}

#[test]
fn get_non_existent_key() {
    let mut dir = Dir::new();
    let mut store = Engine::open(&mut dir, 1024).unwrap();
    assert_eq!(store.get(&mut dir, "k1").unwrap(), None);
    store.set(&mut dir, "k1", "v1").unwrap();
    assert_eq!(store.get(&mut dir, "k2").unwrap(), None);
    assert!(not_found(store.remove(&mut dir, "k2"), "k2"));
}

#[test]
fn open_empty_directory() {
    let mut dir = Dir::new();
    let store = Engine::open(&mut dir, 1024).unwrap();
    assert_eq!(store.store.len(), 0);
    assert_eq!(store.store.current_file_no(), 1);
    assert_eq!(store.store.safe_point(), 0);
    assert_eq!(store.store.uncompacted_bytes(), 0);
    assert_eq!(dir.segment_count(), 1);
    assert!(dir.files.contains_key("1.db"));
}

#[test]
fn empty_key_and_value() {
    let mut dir = Dir::new();
    let mut store = Engine::open(&mut dir, 1024).unwrap();
    store.set(&mut dir, "", "").unwrap();
    store.set(&mut dir, "k", "").unwrap();
    store.set(&mut dir, "x", "v").unwrap();
    assert_eq!(store.get(&mut dir, "").unwrap(), Some(String::new()));
    assert_eq!(store.get(&mut dir, "k").unwrap(), Some(String::new()));
    store.set(&mut dir, "", "now set").unwrap();
    assert_eq!(store.get(&mut dir, "").unwrap(), Some("now set".to_string()));
    store.remove(&mut dir, "").unwrap();
    assert_eq!(store.get(&mut dir, "").unwrap(), None);
    let mut again = Engine::open(&mut dir, 1024).unwrap();
    assert_eq!(again.get(&mut dir, "").unwrap(), None);
    assert_eq!(again.get(&mut dir, "k").unwrap(), Some(String::new()));
    assert_eq!(again.get(&mut dir, "x").unwrap(), Some("v".to_string()));
}

#[test]
fn set_twice_reads_like_set_once() {
    let mut once_dir = Dir::new();
    let mut once = Engine::open(&mut once_dir, 1024).unwrap();
    let mut twice_dir = Dir::new();
    let mut twice = Engine::open(&mut twice_dir, 1024).unwrap();
    for store_dir in [(&mut once, &mut once_dir), (&mut twice, &mut twice_dir)] {
        store_dir.0.set(store_dir.1, "a", "1").unwrap();
        store_dir.0.set(store_dir.1, "b", "2").unwrap();
    }
    once.set(&mut once_dir, "k", "v").unwrap();
    twice.set(&mut twice_dir, "k", "v").unwrap();
    twice.set(&mut twice_dir, "k", "v").unwrap();
    for key in ["a", "b", "k", "absent"] {
        assert_eq!(
            once.get(&mut once_dir, key).unwrap(),
            twice.get(&mut twice_dir, key).unwrap()
        );
    }
}

#[test]
fn values_survive_reopening() {
    let mut dir = Dir::new();
    let mut store = Engine::open(&mut dir, 1024).unwrap();
    store.set(&mut dir, "k1", "v1").unwrap();
    store.set(&mut dir, "k2", "v2").unwrap();
    store.set(&mut dir, "k1", "v3").unwrap();
    store.remove(&mut dir, "k2").unwrap();
    drop(store);
    let mut store = Engine::open(&mut dir, 1024).unwrap();
    assert_eq!(store.store.current_file_no(), 2);
    assert_eq!(store.get(&mut dir, "k1").unwrap(), Some("v3".to_string()));
    assert_eq!(store.get(&mut dir, "k2").unwrap(), None);
    assert!(not_found(store.remove(&mut dir, "k2"), "k2"));
    // Dead after replay: the first record of k1, the record of k2 and its
    // tombstone.
    assert_eq!(store.store.uncompacted_bytes(), 19 + 19 + 11);
    store.set(&mut dir, "k2", "v4").unwrap();
    drop(store);
    let mut store = Engine::open(&mut dir, 1024).unwrap();
    assert_eq!(store.store.current_file_no(), 3);
    assert_eq!(store.get(&mut dir, "k1").unwrap(), Some("v3".to_string()));
    assert_eq!(store.get(&mut dir, "k2").unwrap(), Some("v4".to_string()));
}

#[test]
fn many_keys_and_compaction() {
    let mut dir = Dir::new();
    let mut store = Engine::open(&mut dir, 1024).unwrap();
    for i in 1..=10_000 {
        store
            .set(&mut dir, &format!("key{}", i), "value")
            .unwrap();
    }
    for i in 1..=10_000 {
        assert_eq!(
            store.get(&mut dir, &format!("key{}", i)).unwrap(),
            Some("value".to_string())
        );
    }
    // Nothing was overwritten, so nothing was compacted.
    assert_eq!(dir.segment_count(), 1);
    for round in 0..5 {
        for i in 1..=10_000 {
            store
                .set(&mut dir, &format!("key{}", i), &format!("value{}", round))
                .unwrap();
        }
    }
    assert!(dir.segment_count() <= 3);
    assert!(store.store.uncompacted_bytes() <= 1024);
    for i in 1..=10_000 {
        assert_eq!(
            store.get(&mut dir, &format!("key{}", i)).unwrap(),
            Some("value4".to_string())
        );
    }
    drop(store);
    let mut store = Engine::open(&mut dir, 1024).unwrap();
    for i in 1..=10_000 {
        assert_eq!(
            store.get(&mut dir, &format!("key{}", i)).unwrap(),
            Some("value4".to_string())
        );
    }
}

#[test]
fn compaction_reclaims_dead_bytes() {
    let mut dir = Dir::new();
    let mut store = Engine::open(&mut dir, 100).unwrap();
    store.set(&mut dir, "b", "2").unwrap();
    store.set(&mut dir, "a", "1").unwrap();
    // Each record is 17 bytes long; every overwrite kills one of them.
    for _ in 0..5 {
        store.set(&mut dir, "a", "1").unwrap();
    }
    assert_eq!(store.store.uncompacted_bytes(), 85);
    assert_eq!(store.store.safe_point(), 0);
    assert_eq!(store.store.current_file_no(), 1);
    store.set(&mut dir, "a", "1").unwrap();
    // 102 dead bytes are more than 100: the log was compacted.
    assert_eq!(store.store.uncompacted_bytes(), 0);
    assert_eq!(store.store.safe_point(), 2);
    assert_eq!(store.store.current_file_no(), 3);
    // The compaction segment holds the live records in the order of their
    // keys, and the old segment is gone.
    assert_eq!(
        dir.files["2.db"],
        b"{\"Set\":[\"a\",\"1\"]}{\"Set\":[\"b\",\"2\"]}".to_vec()
    );
    assert!(dir.files["3.db"].is_empty());
    assert!(!dir.files.contains_key("1.db"));
    assert_eq!(dir.segment_count(), 2);
    assert_eq!(dir.total_bytes(), 34);
    assert_eq!(
        store.store.get("a"),
        Some(kvs::CommandPos {
            file_no: 2,
            start: 0,
            len: 17
        })
    );
    assert_eq!(
        store.store.get("b"),
        Some(kvs::CommandPos {
            file_no: 2,
            start: 17,
            len: 17
        })
    );
    assert_eq!(store.get(&mut dir, "a").unwrap(), Some("1".to_string()));
    assert_eq!(store.get(&mut dir, "b").unwrap(), Some("2".to_string()));
    store.set(&mut dir, "c", "3").unwrap();
    assert_eq!(
        store.store.get("c"),
        Some(kvs::CommandPos {
            file_no: 3,
            start: 0,
            len: 17
        })
    );
    drop(store);
    let mut store = Engine::open(&mut dir, 100).unwrap();
    assert_eq!(store.store.current_file_no(), 4);
    assert_eq!(store.get(&mut dir, "a").unwrap(), Some("1".to_string()));
    assert_eq!(store.get(&mut dir, "b").unwrap(), Some("2".to_string()));
    assert_eq!(store.get(&mut dir, "c").unwrap(), Some("3".to_string()));
}

#[test]
fn repeated_compaction_keeps_few_segments() {
    let mut dir = Dir::new();
    let mut store = Engine::open(&mut dir, 1024).unwrap();
    let mut compactions = 0;
    let mut safe_point = 0;
    for i in 0..3_000 {
        store
            .set(&mut dir, &format!("key{}", i % 10), &format!("{}", i))
            .unwrap();
        if store.store.safe_point() != safe_point {
            safe_point = store.store.safe_point();
            compactions += 1;
        }
        assert!(dir.segment_count() <= 3);
    }
    assert!(compactions >= 3);
    assert!(dir.segment_count() <= 2);
    for k in 0..10 {
        assert_eq!(
            store.get(&mut dir, &format!("key{}", k)).unwrap(),
            Some(format!("{}", 2990 + k))
        );
    }
}

#[test]
fn reader_sees_every_finished_write() {
    let mut dir = Dir::new();
    let mut store = Engine::open(&mut dir, 1024).unwrap();
    let mut other = store.reader.clone();
    for i in 0..10_000 {
        let key = format!("key{}", i % 50);
        if i % 2 == 0 {
            store.set(&mut dir, &key, &format!("value{}", i)).unwrap();
            let pos = store.store.get(&key).unwrap();
            let bytes = Engine::fetch(&mut other, &mut dir, &pos, store.store.safe_point());
            assert_eq!(KvStore::read_value(&bytes).unwrap(), format!("value{}", i));
        } else {
            let earlier = format!("key{}", (i - 1) % 50);
            store.remove(&mut dir, &earlier).unwrap();
            assert_eq!(store.store.get(&earlier), None);
        }
    }
}

#[test]
fn damaged_segment_is_refused() {
    let mut dir = Dir::new();
    dir.files
        .insert("1.db".to_string(), b"{\"Set\":[\"a\",\"1\"]}{\"Set\":[\"b\"".to_vec());
    assert!(matches!(
        Engine::open(&mut dir, 1024),
        Err(KvsError::SerDeError)
    ));
}

#[test]
fn other_files_are_ignored() {
    let mut dir = Dir::new();
    dir.files.insert("engine.conf".to_string(), b"kvs".to_vec());
    dir.files
        .insert("notes.txt".to_string(), b"not a record".to_vec());
    dir.files
        .insert("7.db".to_string(), b"{\"Set\":[\"a\",\"1\"]}".to_vec());
    let mut store = Engine::open(&mut dir, 1024).unwrap();
    assert_eq!(store.store.current_file_no(), 8);
    assert_eq!(store.get(&mut dir, "a").unwrap(), Some("1".to_string()));
}
