use kvs::codec::{
    assemble_one, assemble_set, decode_command, decode_next, decode_record_at, encode_command,
    read_back, same_command, Decoded,
};
use kvs::{Command, KvsError};

fn set(key: &str, value: &str) -> Command {
    Command::Put(key.to_string(), value.to_string())
}

fn same(a: &Command, b: &Command) -> bool {
    same_command(a, b)
}

#[test]
fn commands_are_compared() {
    assert!(same_command(&set("a", "1"), &set("a", "1")));
    assert!(!same_command(&set("a", "1"), &set("a", "2")));
    assert!(!same_command(&set("a", "1"), &set("b", "1")));
    assert!(!same_command(&set("a", ""), &Command::Rm("a".to_string())));
    assert!(same_command(
        &Command::Rm("a".to_string()),
        &Command::Rm("a".to_string())
    ));
    assert!(!same_command(
        &Command::Rm("a".to_string()),
        &Command::Get("a".to_string())
    ));
    assert!(same_command(
        &Command::Get(String::new()),
        &Command::Get(String::new())
    ));
    assert!(!same_command(
        &Command::Get("a".to_string()),
        &Command::Get("A".to_string())
    ));
}

#[test]
fn every_record_tried_is_read_back() {
    let texts = [
        "",
        "k",
        "key with spaces",
        "\"quoted\"",
        "back\\slash",
        "\n\r\t\u{0}\u{8}\u{c}\u{1f}\u{7f}",
        "{\"Set\":[\"a\",\"b\"]}",
        "é √ 日本語 🦀",
        "\u{10ffff}\u{fffd}\u{2028}",
        "\\",
        "\\\\",
        "\"",
        "\\\"",
        "ends with a backslash\\",
        "\"}{\"Rm\":\"",
    ];
    for key in texts {
        assert!(read_back(&Command::Rm(key.to_string())));
        assert!(read_back(&Command::Get(key.to_string())));
        for value in texts {
            assert!(read_back(&set(key, value)));
        }
    }
    assert!(read_back(&set(&"k".repeat(10_000), &"v\n".repeat(10_000))));
}

#[test]
fn records_are_written_as_tagged_objects() {
    assert_eq!(
        encode_command(&set("k1", "v1")).unwrap(),
        b"{\"Set\":[\"k1\",\"v1\"]}".to_vec()
    );
    assert_eq!(
        encode_command(&Command::Rm("k1".to_string())).unwrap(),
        b"{\"Rm\":\"k1\"}".to_vec()
    );
    assert_eq!(
        encode_command(&Command::Get("k1".to_string())).unwrap(),
        b"{\"Get\":\"k1\"}".to_vec()
    );
    assert_eq!(
        encode_command(&set("", "")).unwrap(),
        b"{\"Set\":[\"\",\"\"]}".to_vec()
    );
}

#[test]
fn texts_are_written_with_json_escapes() {
    assert_eq!(
        encode_command(&set("a\"b", "line\nbreak\\")).unwrap(),
        b"{\"Set\":[\"a\\\"b\",\"line\\nbreak\\\\\"]}".to_vec()
    );
    assert_eq!(
        encode_command(&Command::Rm("\u{1}".to_string())).unwrap(),
        b"{\"Rm\":\"\\u0001\"}".to_vec()
    );
    assert_eq!(
        encode_command(&Command::Rm("é√".to_string())).unwrap(),
        "{\"Rm\":\"é√\"}".as_bytes().to_vec()
    );
}

#[test]
fn frames_are_put_around_any_bytes() {
    assert_eq!(assemble_set(b"K", b"V"), b"{\"Set\":[K,V]}".to_vec());
    assert_eq!(assemble_set(b"", b""), b"{\"Set\":[,]}".to_vec());
    assert_eq!(assemble_one(true, b"K"), b"{\"Rm\":K}".to_vec());
    assert_eq!(assemble_one(false, b"K"), b"{\"Get\":K}".to_vec());
}

#[test]
fn records_are_read_back() {
    let commands = vec![
        set("k1", "v1"),
        set("", ""),
        set("key with spaces", "  "),
        set("quote\"inside", "back\\slash"),
        set("tab\there", "new\nline\r\n"),
        set("{\"Set\":[\"a\",\"b\"]}", "]}"),
        set("unicode é √ 日本語 🦀", "\u{0}\u{1f}\u{7f}"),
        Command::Rm("k1".to_string()),
        Command::Rm(String::new()),
        Command::Get("k1".to_string()),
    ];
    for cmd in &commands {
        let bytes = encode_command(cmd).unwrap();
        let back = decode_command(&bytes).unwrap();
        assert!(same(cmd, &back));
        match decode_record_at(&bytes, 0) {
            Some((back, end)) => {
                assert!(same(cmd, &back));
                assert_eq!(end, bytes.len());
            }
            None => panic!("record not read"),
        }
    }
}

#[test]
fn a_stream_of_records_is_read_one_by_one() {
    let first = encode_command(&set("a", "1")).unwrap();
    let second = encode_command(&Command::Rm("a".to_string())).unwrap();
    let third = encode_command(&set("b", "22")).unwrap();
    let mut bytes = Vec::new();
    bytes.extend_from_slice(&first);
    bytes.extend_from_slice(&second);
    bytes.extend_from_slice(&third);
    let mut pos = 0;
    let mut ends = Vec::new();
    loop {
        match decode_next(&bytes, pos) {
            Decoded::Item(_, end) => {
                ends.push(end);
                pos = end;
            }
            Decoded::End => break,
            Decoded::Malformed => panic!("damaged"),
        }
    }
    assert_eq!(ends, vec![17, 27, 45]);
    assert!(matches!(
        decode_next(&bytes, 17),
        Decoded::Item(Command::Rm(k), 27) if k == "a"
    ));
    assert!(matches!(decode_next(&bytes, 45), Decoded::End));
    assert!(matches!(decode_next(&[], 0), Decoded::End));
}

#[test]
fn white_space_between_the_parts_is_passed_over() {
    let bytes = b" \n\t{ \"Set\" :\r[ \"k\" , \"v\\u0041\" ] }  {\"Rm\":\"k\"} \n";
    match decode_next(bytes, 0) {
        Decoded::Item(Command::Put(k, v), end) => {
            assert_eq!(k, "k");
            assert_eq!(v, "vA");
            assert_eq!(end, 34);
        }
        _ => panic!("record not read"),
    }
    match decode_next(bytes, 34) {
        Decoded::Item(Command::Rm(k), end) => {
            assert_eq!(k, "k");
            assert_eq!(end, 46);
        }
        _ => panic!("record not read"),
    }
    assert!(matches!(decode_next(bytes, 46), Decoded::End));
    assert!(matches!(
        decode_command(b"  {\"Get\":\"k\"}\n"),
        Ok(Command::Get(k)) if k == "k"
    ));
}

#[test]
fn damaged_bytes_are_refused() {
    let damaged: Vec<&[u8]> = vec![
        b"",
        b"   ",
        b"{",
        b"{}",
        b"\"Set\"",
        b"{\"Set\":[\"k\",\"v\"]",
        b"{\"Set\":[\"k\",\"v\"}",
        b"{\"Set\":[\"k\"]}",
        b"{\"Set\":[\"k\",\"v\",\"w\"]}",
        b"{\"Set\":[\"k\",\"v\",]}",
        b"{\"Set\":\"k\"}",
        b"{\"Set\":[\"k\",1]}",
        b"{\"Rm\":[\"k\"]}",
        b"{\"Rm\":\"k\",\"Rm\":\"k\"}",
        b"{\"Rm\":7}",
        b"{\"Rm\":null}",
        b"{\"rm\":\"k\"}",
        b"{\"Del\":\"k\"}",
        b"{\"Rm\" \"k\"}",
        b"{Rm:\"k\"}",
        b"{\"Rm\":\"k}",
        b"{\"Rm\":\"bad \\x escape\"}",
        b"{\"Rm\":\"k\"} x",
        b"{\"Rm\":\"k\"}{\"Rm\":\"k\"}",
        b"[\"Rm\",\"k\"]",
        b"{\"Rm\":\"\xff\"}",
        b"{\"Rm\":\"k\\\"}",
        b"{\"Rm\":\"k\\",
        b"{\"Rm\":\"\\u12\"34\"}",
        b"{\"Rm\":\"a\"b\"}",
        b"{\"Rm\":\"tab\there\"}",
    ];
    for bytes in damaged {
        assert!(
            matches!(decode_command(bytes), Err(KvsError::SerDeError)),
            "accepted {:?}",
            String::from_utf8_lossy(bytes)
        );
    }
    assert!(decode_record_at(b"{\"Rm\":\"k\"", 0).is_none());
    assert!(matches!(
        decode_next(b"{\"Rm\":\"k\"}{\"Rm\":", 10),
        Decoded::Malformed
    ));
    assert!(matches!(decode_next(b"  x", 0), Decoded::Malformed));
}

#[test]
fn a_record_is_read_at_any_offset() {
    let bytes = b"garbage{\"Get\":\"k\"}more";
    match decode_record_at(bytes, 7) {
        Some((Command::Get(k), end)) => {
            assert_eq!(k, "k");
            assert_eq!(end, 18);
        }
        _ => panic!("record not read"),
    }
    assert!(decode_record_at(bytes, 0).is_none());
    assert!(decode_record_at(bytes, bytes.len()).is_none());
}

#[test]
fn a_string_ends_at_its_closing_quote() {
    // The value is `a\`, and the quote behind the two backslashes closes it.
    match decode_record_at(b"{\"Set\":[\"k\",\"a\\\\\"]}{\"Rm\":\"k\"}", 0) {
        Some((Command::Put(k, v), end)) => {
            assert_eq!(k, "k");
            assert_eq!(v, "a\\");
            assert_eq!(end, 19);
        }
        _ => panic!("record not read"),
    }
    // The value is `a"b`: the quote behind one backslash does not close it.
    match decode_record_at(b"{\"Set\":[\"k\",\"a\\\"b\"]} ", 0) {
        Some((Command::Put(_, v), end)) => {
            assert_eq!(v, "a\"b");
            assert_eq!(end, 20);
        }
        _ => panic!("record not read"),
    }
    match decode_record_at(b"{\"Get\":\"\\u0041\\n\\/\"}", 0) {
        Some((Command::Get(k), end)) => {
            assert_eq!(k, "A\n/");
            assert_eq!(end, 20);
        }
        _ => panic!("record not read"),
    }
}
