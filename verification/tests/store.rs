use kvs::codec::encode_command;
use kvs::store::{segments_ascend, COMPACTION_THRESHOLD};
use kvs::{intialise_mem_map, Command, CommandPos, Index, KvStore, KvWriter, KvsError, Segment};

fn set(key: &str, value: &str) -> Command {
    Command::Put(key.to_string(), value.to_string())
}

fn rm(key: &str) -> Command {
    Command::Rm(key.to_string())
}

fn log(commands: &[Command]) -> Vec<u8> {
    let mut bytes = Vec::new();
    for cmd in commands {
        bytes.extend_from_slice(&encode_command(cmd).unwrap());
    }
    bytes
}

fn pos(file_no: u64, start: u64, len: u64) -> CommandPos {
    CommandPos {
        file_no,
        start,
        len,
    }
}

#[test]
fn a_segment_is_replayed_into_the_index() {
    // Records of 17, 17, 18, 10 and 17 bytes.
    let bytes = log(&[
        set("a", "1"),
        set("b", "2"),
        set("a", "33"),
        rm("b"),
        set("c", "3"),
    ]);
    let mut index = Index::new();
    assert_eq!(intialise_mem_map(4, &bytes, &mut index).unwrap(), 17 + 17 + 10);
    assert_eq!(index.len(), 2);
    assert_eq!(index.get("a"), Some(pos(4, 34, 18)));
    assert_eq!(index.get("b"), None);
    assert_eq!(index.get("c"), Some(pos(4, 62, 17)));
    // A second segment goes on with the same index.
    let more = log(&[rm("a"), rm("zzz"), set("c", "4")]);
    assert_eq!(
        intialise_mem_map(5, &more, &mut index).unwrap(),
        (18 + 10) + 12 + 17
    );
    assert_eq!(index.get("a"), None);
    assert_eq!(index.get("c"), Some(pos(5, 22, 17)));
}

#[test]
fn white_space_belongs_to_the_record_behind_it() {
    let bytes = b"{\"Set\":[\"a\",\"1\"]}\n {\"Set\":[\"b\",\"2\"]}\n";
    let mut index = Index::new();
    assert_eq!(intialise_mem_map(1, bytes, &mut index).unwrap(), 0);
    assert_eq!(index.get("a"), Some(pos(1, 0, 17)));
    assert_eq!(index.get("b"), Some(pos(1, 17, 19)));
    let mut index = Index::new();
    assert_eq!(intialise_mem_map(1, b"", &mut index).unwrap(), 0);
    assert_eq!(intialise_mem_map(1, b" \n", &mut index).unwrap(), 0);
    assert_eq!(index.len(), 0);
}

#[test]
fn a_get_record_in_the_log_changes_nothing() {
    let bytes = log(&[set("a", "1"), Command::Get("a".to_string())]);
    let mut index = Index::new();
    assert_eq!(intialise_mem_map(1, &bytes, &mut index).unwrap(), 0);
    assert_eq!(index.get("a"), Some(pos(1, 0, 17)));
    assert_eq!(index.len(), 1);
}

#[test]
fn replay_stops_at_damage() {
    let mut bytes = log(&[set("a", "1"), set("b", "2")]);
    bytes.extend_from_slice(b"{\"Set\":[\"c\"");
    let mut index = Index::new();
    assert!(matches!(
        intialise_mem_map(1, &bytes, &mut index),
        Err(KvsError::SerDeError)
    ));
    assert_eq!(index.get("a"), Some(pos(1, 0, 17)));
    assert_eq!(index.get("b"), Some(pos(1, 17, 17)));
    assert_eq!(index.get("c"), None);
}

#[test]
fn opening_reads_the_segments_in_their_order() {
    let segments = vec![
        Segment {
            file_no: 2,
            data: log(&[set("a", "1"), set("b", "2")]),
        },
        Segment {
            file_no: 5,
            data: log(&[set("a", "3"), rm("b")]),
        },
        Segment {
            file_no: 6,
            data: Vec::new(),
        },
    ];
    let store = KvStore::open(&segments).unwrap();
    assert_eq!(store.current_file_no(), 7);
    assert_eq!(store.safe_point(), 0);
    assert_eq!(store.uncompacted_bytes(), 17 + 17 + 10);
    assert_eq!(store.len(), 1);
    assert_eq!(store.get("a"), Some(pos(5, 0, 17)));
    assert_eq!(store.get("b"), None);
    let none = KvStore::open(&[]).unwrap();
    assert_eq!(none.current_file_no(), 1);
    assert_eq!(none.len(), 0);
    assert_eq!(COMPACTION_THRESHOLD, 1024 * 1024);
}

#[test]
fn opening_fails_on_damage_and_on_the_last_number() {
    let damaged = vec![
        Segment {
            file_no: 1,
            data: log(&[set("a", "1")]),
        },
        Segment {
            file_no: 2,
            data: b"{\"Set\":".to_vec(),
        },
    ];
    assert!(matches!(
        KvStore::open(&damaged),
        Err(KvsError::SerDeError)
    ));
    let last = vec![Segment {
        file_no: u64::MAX,
        data: Vec::new(),
    }];
    assert!(matches!(KvStore::open(&last), Err(KvsError::PathError)));
    let nearly = vec![Segment {
        file_no: u64::MAX - 1,
        data: Vec::new(),
    }];
    assert_eq!(KvStore::open(&nearly).unwrap().current_file_no(), u64::MAX);
}

#[test]
fn writes_are_counted() {
    let mut store = KvStore::open_with_threshold(&[], 40).unwrap();
    assert!(!store.write(set("a", "1"), 0, 17));
    assert!(!store.write(set("b", "2"), 17, 34));
    assert_eq!(store.uncompacted_bytes(), 0);
    assert!(!store.write(set("a", "3"), 34, 51));
    assert_eq!(store.uncompacted_bytes(), 17);
    assert_eq!(store.get("a"), Some(pos(1, 34, 17)));
    // The tombstone kills the record of b and is dead itself: 17 + 10.
    assert!(store.write(rm("b"), 51, 61));
    assert_eq!(store.uncompacted_bytes(), 44);
    assert_eq!(store.get("b"), None);
    // A tombstone for a key that is not live is dead alone.
    assert!(store.write(rm("nobody"), 61, 76));
    assert_eq!(store.uncompacted_bytes(), 59);
    assert!(store.write(Command::Get("a".to_string()), 76, 90));
    assert_eq!(store.uncompacted_bytes(), 59);
    assert_eq!(store.len(), 1);
}

#[test]
fn the_count_of_dead_bytes_stops_at_the_largest_number() {
    let mut store = KvStore::open_with_threshold(&[], u64::MAX).unwrap();
    store.write(set("a", "1"), 0, u64::MAX);
    assert!(!store.write(set("a", "1"), 0, u64::MAX));
    assert_eq!(store.uncompacted_bytes(), u64::MAX);
    assert!(!store.write(set("a", "1"), 0, 17));
    assert_eq!(store.uncompacted_bytes(), u64::MAX);
}

#[test]
fn removal_asks_for_a_live_key() {
    let mut store = KvStore::open(&[]).unwrap();
    assert!(matches!(
        store.remove("a".to_string()),
        Err(KvsError::NotFoundError(k)) if k == "a"
    ));
    store.write(set("a", "1"), 0, 17);
    assert!(matches!(
        store.remove("a".to_string()),
        Ok(Command::Rm(k)) if k == "a"
    ));
    store.write(rm("a"), 17, 27);
    assert!(matches!(
        store.remove("a".to_string()),
        Err(KvsError::NotFoundError(k)) if k == "a"
    ));
}

#[test]
fn values_are_read_from_set_records_only() {
    assert_eq!(
        KvStore::read_value(b"{\"Set\":[\"k\",\"v\"]}").unwrap(),
        "v"
    );
    assert_eq!(KvStore::read_value(b" {\"Set\":[\"k\",\"\"]} ").unwrap(), "");
    assert!(matches!(
        KvStore::read_value(b"{\"Rm\":\"k\"}"),
        Err(KvsError::UnexpectedCommandError)
    ));
    assert!(matches!(
        KvStore::read_value(b"{\"Get\":\"k\"}"),
        Err(KvsError::UnexpectedCommandError)
    ));
    assert!(matches!(
        KvStore::read_value(b"{\"Set\":[\"k\",\"v\"]"),
        Err(KvsError::SerDeError)
    ));
    assert!(matches!(
        KvStore::read_value(b""),
        Err(KvsError::SerDeError)
    ));
}

#[test]
fn compaction_takes_two_numbers_and_moves_the_index() {
    let mut store = KvStore::open_with_threshold(&[], 10).unwrap();
    store.write(set("b", "2"), 0, 17);
    store.write(set("a", "1"), 17, 34);
    assert!(store.write(set("b", "22"), 34, 52));
    assert_eq!(store.sources(), vec![pos(1, 17, 17), pos(1, 34, 18)]);
    assert_eq!(store.start_compaction().unwrap(), 2);
    assert_eq!(store.current_file_no(), 3);
    assert_eq!(store.safe_point(), 0);
    assert_eq!(store.uncompacted_bytes(), 17);
    // The lengths have to be one for each live key.
    assert!(matches!(
        store.compaction(2, &[17]),
        Err(KvsError::CompactionError)
    ));
    assert!(matches!(
        store.compaction(2, &[u64::MAX, 18]),
        Err(KvsError::CompactionError)
    ));
    // The segment has to be the one that was taken for the compaction.
    for wrong in [0, 1, 3, 4, 100, u64::MAX] {
        assert!(matches!(
            store.compaction(wrong, &[17, 18]),
            Err(KvsError::CompactionError)
        ));
    }
    assert_eq!(store.get("a"), Some(pos(1, 17, 17)));
    assert_eq!(store.safe_point(), 0);
    assert_eq!(store.uncompacted_bytes(), 17);
    store.compaction(2, &[17, 18]).unwrap();
    assert_eq!(store.get("a"), Some(pos(2, 0, 17)));
    assert_eq!(store.get("b"), Some(pos(2, 17, 18)));
    assert_eq!(store.safe_point(), 2);
    assert_eq!(store.uncompacted_bytes(), 0);
    assert_eq!(store.current_file_no(), 3);
    store.write(set("c", "3"), 0, 17);
    assert_eq!(store.get("c"), Some(pos(3, 0, 17)));
}

#[test]
fn segment_numbers_run_out() {
    let mut writer = KvWriter {
        current_file_no: u64::MAX - 1,
        uncompacted_bytes: 5,
        threshold: 1,
        compacting: false,
    };
    assert!(matches!(
        writer.start_compaction(),
        Err(KvsError::CompactionError)
    ));
    assert_eq!(writer.current_file_no, u64::MAX - 1);
    let mut writer = KvWriter {
        current_file_no: u64::MAX - 2,
        uncompacted_bytes: 5,
        threshold: 1,
        compacting: false,
    };
    assert_eq!(writer.start_compaction().unwrap(), u64::MAX - 1);
    assert_eq!(writer.current_file_no, u64::MAX);
    assert_eq!(writer.uncompacted_bytes, 5);
    assert!(writer.compacting);
}

#[test]
fn a_compaction_that_was_not_started_is_refused() {
    let mut store = KvStore::open(&[]).unwrap();
    for number in [0, 1, 2, 100, u64::MAX] {
        assert!(matches!(
            store.compaction(number, &[]),
            Err(KvsError::CompactionError)
        ));
    }
    assert_eq!(store.safe_point(), 0);
    assert_eq!(store.current_file_no(), 1);
    let compaction_no = store.start_compaction().unwrap();
    assert_eq!(compaction_no, 2);
    store.compaction(compaction_no, &[]).unwrap();
    assert_eq!(store.safe_point(), 2);
    assert_eq!(store.current_file_no(), 3);
    // The compaction has ended: it cannot be ended again.
    assert!(matches!(
        store.compaction(compaction_no, &[]),
        Err(KvsError::CompactionError)
    ));
}

#[test]
fn the_order_of_segments_is_told() {
    let segment = |file_no| Segment {
        file_no,
        data: Vec::new(),
    };
    assert!(segments_ascend(&[]));
    assert!(segments_ascend(&[segment(7)]));
    assert!(segments_ascend(&[segment(1), segment(2), segment(9)]));
    assert!(segments_ascend(&[segment(1), segment(1), segment(2)]));
    assert!(!segments_ascend(&[segment(2), segment(1)]));
    assert!(!segments_ascend(&[segment(1), segment(3), segment(2)]));
    assert!(!segments_ascend(&[segment(0), segment(5), segment(5), segment(4)]));
}
