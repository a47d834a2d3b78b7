use kvs::text::{bytes_equal, key_order, str_equal, Order};
use kvs::{CommandPos, Index};

fn pos(file_no: u64, start: u64, len: u64) -> CommandPos {
    CommandPos {
        file_no,
        start,
        len,
    }
}

#[test]
fn positions_are_made_from_spans() {
    assert_eq!(CommandPos::from((3, 10, 25)), pos(3, 10, 15));
    assert_eq!(CommandPos::from((0, 7, 7)), pos(0, 7, 0));
    assert_eq!(
        CommandPos::from((u64::MAX, 0, u64::MAX)),
        pos(u64::MAX, 0, u64::MAX)
    );
}

#[test]
fn texts_are_ordered_by_their_bytes() {
    assert_eq!(key_order("a", "b"), Order::Before);
    assert_eq!(key_order("b", "a"), Order::After);
    assert_eq!(key_order("a", "a"), Order::Same);
    assert_eq!(key_order("", ""), Order::Same);
    assert_eq!(key_order("", "a"), Order::Before);
    assert_eq!(key_order("a", ""), Order::After);
    assert_eq!(key_order("key1", "key10"), Order::Before);
    assert_eq!(key_order("key10", "key2"), Order::Before);
    assert_eq!(key_order("Z", "a"), Order::Before);
    assert_eq!(key_order("z", "é"), Order::Before);
    assert_eq!(key_order("é", "日"), Order::Before);
    for (a, b) in [("abc", "abd"), ("x", "xy"), ("", "\u{0}"), ("🦀", "🦁")] {
        assert_eq!(key_order(a, b) == Order::Before, a < b);
        assert_eq!(key_order(b, a) == Order::After, b > a);
    }
    assert!(str_equal("sled", "sled"));
    assert!(!str_equal("sled", "sle"));
    assert!(!str_equal("sled", "sleD"));
    assert!(bytes_equal(b"", b""));
    assert!(!bytes_equal(b"a", b""));
}

#[test]
fn index_maps_keys_to_positions() {
    let mut index = Index::new();
    assert_eq!(index.len(), 0);
    assert_eq!(index.get("a"), None);
    assert!(!index.contains_key("a"));
    assert_eq!(index.insert("b".to_string(), pos(1, 0, 5)), None);
    assert_eq!(index.insert("a".to_string(), pos(1, 5, 6)), None);
    assert_eq!(index.insert("c".to_string(), pos(1, 11, 7)), None);
    assert_eq!(index.insert("".to_string(), pos(1, 18, 8)), None);
    assert_eq!(index.len(), 4);
    assert_eq!(index.get("a"), Some(pos(1, 5, 6)));
    assert_eq!(index.get("b"), Some(pos(1, 0, 5)));
    assert_eq!(index.get("c"), Some(pos(1, 11, 7)));
    assert_eq!(index.get(""), Some(pos(1, 18, 8)));
    assert_eq!(index.get("d"), None);
    assert_eq!(index.get("ab"), None);
    assert_eq!(index.insert("b".to_string(), pos(2, 0, 9)), Some(pos(1, 0, 5)));
    assert_eq!(index.len(), 4);
    assert_eq!(index.get("b"), Some(pos(2, 0, 9)));
    assert_eq!(index.remove("a"), Some(pos(1, 5, 6)));
    assert_eq!(index.remove("a"), None);
    assert_eq!(index.remove("zzz"), None);
    assert_eq!(index.len(), 3);
    assert!(!index.contains_key("a"));
    assert!(index.contains_key("b"));
}

#[test]
fn positions_come_in_the_order_of_the_keys() {
    let mut index = Index::new();
    for (i, key) in ["m", "b", "z", "a", "k", "", "mm"].iter().enumerate() {
        index.insert(key.to_string(), pos(1, i as u64, 1));
    }
    let starts: Vec<u64> = index.positions().iter().map(|p| p.start).collect();
    // "", "a", "b", "k", "m", "mm", "z"
    assert_eq!(starts, vec![5, 3, 1, 4, 0, 6, 2]);
}

#[test]
fn relocation_lays_the_records_end_to_end() {
    let mut index = Index::new();
    index.insert("b".to_string(), pos(1, 100, 20));
    index.insert("a".to_string(), pos(2, 7, 10));
    index.insert("c".to_string(), pos(1, 0, 30));
    assert!(index.relocate(9, &[10, 20, 30]));
    assert_eq!(index.get("a"), Some(pos(9, 0, 10)));
    assert_eq!(index.get("b"), Some(pos(9, 10, 20)));
    assert_eq!(index.get("c"), Some(pos(9, 30, 30)));
    assert_eq!(index.len(), 3);
    // Not one length for each entry: nothing is changed.
    assert!(!index.relocate(10, &[1, 2]));
    assert!(!index.relocate(10, &[1, 2, 3, 4]));
    assert_eq!(index.get("b"), Some(pos(9, 10, 20)));
    // The lengths do not fit: nothing is changed.
    assert!(!index.relocate(10, &[u64::MAX, 1, 0]));
    assert_eq!(index.get("a"), Some(pos(9, 0, 10)));
    assert!(index.relocate(10, &[u64::MAX, 0, 0]));
    assert_eq!(index.get("c"), Some(pos(10, u64::MAX, 0)));
    let mut empty = Index::new();
    assert!(empty.relocate(1, &[]));
    assert!(!empty.relocate(1, &[0]));
}

#[test]
fn many_keys_are_found_again() {
    let mut index = Index::new();
    for i in 0..2_000u64 {
        let key = format!("key{}", (i * 7919) % 2_000);
        assert_eq!(index.insert(key, pos(1, i, 1)), None);
    }
    assert_eq!(index.len(), 2_000);
    for i in 0..2_000u64 {
        let key = format!("key{}", (i * 7919) % 2_000);
        assert_eq!(index.get(&key), Some(pos(1, i, 1)));
    }
    for i in (0..2_000u64).step_by(2) {
        let key = format!("key{}", (i * 7919) % 2_000);
        assert_eq!(index.remove(&key), Some(pos(1, i, 1)));
    }
    assert_eq!(index.len(), 1_000);
    for i in 0..2_000u64 {
        let key = format!("key{}", (i * 7919) % 2_000);
        assert_eq!(index.contains_key(&key), i % 2 == 1);
    }
}
