use kvs::{CommandPos, KvReader};

fn sorted(mut v: Vec<u64>) -> Vec<u64> {
    v.sort();
    v
}

#[test]
fn handles_are_noted_once() {
    let mut reader = KvReader::new();
    assert!(!reader.contains_key(1));
    assert!(reader.insert(1));
    assert!(!reader.insert(1));
    assert!(reader.insert(2));
    assert!(reader.contains_key(1));
    assert!(reader.contains_key(2));
    assert!(!reader.contains_key(3));
}

#[test]
fn stale_handles_are_dropped() {
    let mut reader = KvReader::new();
    for file_no in [5, 1, 9, 3, 7] {
        reader.insert(file_no);
    }
    assert_eq!(reader.remove_stale_files(0), Vec::<u64>::new());
    assert_eq!(sorted(reader.remove_stale_files(5)), vec![1, 3]);
    for file_no in [5, 7, 9] {
        assert!(reader.contains_key(file_no));
    }
    for file_no in [1, 3] {
        assert!(!reader.contains_key(file_no));
    }
    assert_eq!(reader.remove_stale_files(5), Vec::<u64>::new());
    assert_eq!(sorted(reader.remove_stale_files(u64::MAX)), vec![5, 7, 9]);
    assert!(!reader.contains_key(9));
}

#[test]
fn reading_prepares_the_handle() {
    let mut reader = KvReader::new();
    reader.insert(1);
    reader.insert(2);
    let pos = CommandPos {
        file_no: 2,
        start: 0,
        len: 10,
    };
    let access = reader.read(&pos, 0);
    assert!(access.stale.is_empty());
    assert!(!access.open);
    let moved = CommandPos {
        file_no: 4,
        start: 0,
        len: 10,
    };
    let access = reader.read(&moved, 4);
    assert_eq!(sorted(access.stale), vec![1, 2]);
    assert!(access.open);
    assert!(reader.contains_key(4));
    assert!(!reader.contains_key(2));
    let access = reader.read(&moved, 4);
    assert!(access.stale.is_empty());
    assert!(!access.open);
}

#[test]
fn a_clone_starts_without_handles() {
    let mut reader = KvReader::new();
    reader.insert(1);
    let mut other = reader.clone();
    assert!(!other.contains_key(1));
    assert!(other.insert(1));
    assert!(reader.contains_key(1));
}
