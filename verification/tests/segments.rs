use kvs::segment::{get_sorted_file_list, log_path, parse_segment_file_name};

#[test]
fn log_path_writes_the_number_and_the_suffix() {
    assert_eq!(log_path(0), "0.db");
    assert_eq!(log_path(7), "7.db");
    assert_eq!(log_path(10), "10.db");
    assert_eq!(log_path(1234567890), "1234567890.db");
    assert_eq!(log_path(u64::MAX), "18446744073709551615.db");
}

#[test]
fn segment_names_are_read_back() {
    assert_eq!(parse_segment_file_name("0.db"), Some(0));
    assert_eq!(parse_segment_file_name("42.db"), Some(42));
    assert_eq!(parse_segment_file_name("007.db"), Some(7));
    assert_eq!(parse_segment_file_name("+5.db"), Some(5));
    assert_eq!(
        parse_segment_file_name("18446744073709551615.db"),
        Some(u64::MAX)
    );
    for n in [0u64, 1, 9, 10, 99, 100, 65535, u64::MAX - 1, u64::MAX] {
        assert_eq!(parse_segment_file_name(&log_path(n)), Some(n));
    }
}

#[test]
fn other_names_are_no_segments() {
    assert_eq!(parse_segment_file_name(""), None);
    assert_eq!(parse_segment_file_name(".db"), None);
    assert_eq!(parse_segment_file_name("+.db"), None);
    assert_eq!(parse_segment_file_name("-1.db"), None);
    assert_eq!(parse_segment_file_name("1.log"), None);
    assert_eq!(parse_segment_file_name("1db"), None);
    assert_eq!(parse_segment_file_name("a.db"), None);
    assert_eq!(parse_segment_file_name("1a.db"), None);
    assert_eq!(parse_segment_file_name("1.db.db"), None);
    assert_eq!(parse_segment_file_name("1.db "), None);
    assert_eq!(parse_segment_file_name("engine.conf"), None);
    assert_eq!(parse_segment_file_name("18446744073709551616.db"), None);
    assert_eq!(parse_segment_file_name("99999999999999999999999.db"), None);
    assert_eq!(parse_segment_file_name("١.db"), None);
}

#[test]
fn file_list_is_sorted_and_keeps_only_segments() {
    let names: Vec<String> = ["10.db", "engine.conf", "2.db", "x.db", "1.db", "33.db", "3"]
        .iter()
        .map(|s| s.to_string())
        .collect();
    assert_eq!(get_sorted_file_list(&names), vec![1, 2, 10, 33]);
    assert_eq!(get_sorted_file_list(&[]), Vec::<u64>::new());
    let twice: Vec<String> = ["5.db", "05.db", "4.db"].iter().map(|s| s.to_string()).collect();
    assert_eq!(get_sorted_file_list(&twice), vec![4, 5, 5]);
}
