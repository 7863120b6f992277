use tyozo::command::Command;
use tyozo::Memdb;

fn keys(input: Vec<&str>) -> Vec<String> {
    input.iter().map(ToString::to_string).collect()
}

#[test]
fn set_writes_and_overwrites() {
    let mut memdb = Memdb::new();

    memdb.set("key", b"value");
    assert_eq!(memdb.get("key"), Some(b"value".to_vec()));

    memdb.set("key", b"next value");
    assert_eq!(memdb.get("key"), Some(b"next value".to_vec()));
    assert_eq!(memdb.inner().len(), 1);
}

#[test]
fn setnx_writes_only_where_the_key_is_free() {
    let mut memdb = Memdb::new();

    let result = memdb.setnx("key", b"value");
    assert!(result.is_ok());
    assert_eq!(memdb.get("key"), Some(b"value".to_vec()));

    let result = memdb.setnx("key", b"next value");
    assert_eq!(result, Err(String::from("ERR key is already exists")));
    assert_eq!(memdb.get("key"), Some(b"value".to_vec()));
}

#[test]
fn get_gives_the_value_or_nothing() {
    let mut memdb = Memdb::new();
    memdb.set("key", b"value");

    assert_eq!(memdb.get("key"), Some(b"value".to_vec()));
    assert_eq!(memdb.get("not setted key"), None);
}

#[test]
fn del_counts_the_keys_that_were_there() {
    let mut memdb = Memdb::new();
    memdb.set("key", b"value");

    let delete_count = memdb.del(keys(vec!["key", "key2"]));

    assert_eq!(delete_count, 1);
    assert_eq!(memdb.get("key"), None);

    let delete_count = memdb.del(keys(vec!["key"]));
    assert_eq!(delete_count, 0);
}

#[test]
fn del_counts_a_key_once_however_often_it_is_named() {
    let mut memdb = Memdb::new();
    memdb.set("a", b"1");
    memdb.set("b", b"2");

    assert_eq!(memdb.del(keys(vec!["a", "a", "b", "a"])), 2);
    assert_eq!(memdb.del(Vec::new()), 0);
}

#[test]
fn del_after_two_sets_returns_two() {
    let mut memdb = Memdb::new();
    memdb.set("a", b"1");
    memdb.set("b", b"2");

    assert_eq!(memdb.del(keys(vec!["a", "b", "c"])), 2);
    assert_eq!(memdb.get("a"), None);
    assert_eq!(memdb.get("b"), None);
}

#[test]
fn del_through_exec_returns_two() {
    let mut memdb = Memdb::new();
    assert_eq!(memdb.exec("set a 1"), Ok(String::from("OK")));
    assert_eq!(memdb.exec("set b 2"), Ok(String::from("OK")));
    assert_eq!(memdb.exec("del a b c"), Ok(String::from("2")));
}

#[test]
fn setnx_twice_keeps_the_first_value() {
    let mut memdb = Memdb::new();
    assert_eq!(memdb.exec("setnx k v"), Ok(String::from("OK")));
    assert_eq!(
        memdb.exec("setnx k other"),
        Err(String::from("ERR key is already exists"))
    );
    assert_eq!(memdb.exec("get k"), Ok(String::from("v")));
}

#[test]
fn exec_answers_none_for_a_key_without_value() {
    let mut memdb = Memdb::new();
    assert_eq!(memdb.exec("get nothing"), Ok(String::from("None")));
}

#[test]
fn exec_passes_a_parse_error_on_and_changes_nothing() {
    let mut memdb = Memdb::new();
    memdb.set("k", b"v");

    assert_eq!(memdb.exec("set k"), Err(String::from("not input value")));
    assert_eq!(memdb.exec("put k v"), Err(String::from("unknown command")));
    assert_eq!(memdb.get("k"), Some(b"v".to_vec()));
}

#[test]
fn exec_command_answers_each_command() {
    let mut memdb = Memdb::new();

    let put = Command::Put {
        key: "k".into(),
        value: "caf\u{e9}".into(),
    };
    assert_eq!(memdb.exec_command(put), Ok(String::from("OK")));
    assert_eq!(memdb.get("k"), Some("caf\u{e9}".as_bytes().to_vec()));

    let get = Command::Get { key: "k".into() };
    assert_eq!(memdb.exec_command(get), Ok(String::from("caf\u{e9}")));

    let del = Command::Del {
        keys: keys(vec!["k", "l", "m", "n", "o", "p", "q", "r", "s", "t", "u"]),
    };
    assert_eq!(memdb.exec_command(del), Ok(String::from("1")));
}

#[test]
fn exec_command_counts_in_decimal() {
    let mut memdb = Memdb::new();
    let mut names = Vec::new();
    for i in 0..120 {
        let name = format!("k{}", i);
        memdb.set(&name, b"v");
        names.push(name);
    }
    assert_eq!(
        memdb.exec_command(Command::Del { keys: names }),
        Ok(String::from("120"))
    );
}

#[test]
fn exec_command_cannot_answer_with_a_value_that_is_no_text() {
    let mut memdb = Memdb::new();
    memdb.set("k", &[0xff, 0xfe]);

    let get = Command::Get { key: "k".into() };
    assert_eq!(
        memdb.exec_command(get),
        Err(String::from("ERR value is not valid utf-8"))
    );
}

#[test]
fn exec_command_takes_none_of_the_other_commands() {
    let mut memdb = Memdb::new();
    memdb.set("k", b"v");

    for command in [
        Command::Multi,
        Command::Exec,
        Command::Abort,
        Command::Shutdown,
    ] {
        assert_eq!(
            memdb.exec_command(command),
            Err(String::from("ERR unsupport command"))
        );
    }
    assert_eq!(memdb.get("k"), Some(b"v".to_vec()));
}

#[test]
fn serialize_writes_lengths_then_key_then_value() {
    let mut memdb = Memdb::new();
    memdb.set("k", b"v");

    let serialized = memdb.serialize();

    assert_eq!(
        serialized,
        vec![0, 0, 0, 0, 0, 0, 0, 1, 0, 0, 0, 0, 0, 0, 0, 1, 107, 118]
    );
}

#[test]
fn serialize_sizes_each_part_by_its_own_length() {
    let mut memdb = Memdb::new();
    memdb.set("key", b"v");

    assert_eq!(
        memdb.serialize(),
        vec![0, 0, 0, 0, 0, 0, 0, 3, 0, 0, 0, 0, 0, 0, 0, 1, 107, 101, 121, 118]
    );
}

#[test]
fn serialize_of_an_empty_store_is_empty() {
    assert_eq!(Memdb::new().serialize(), Vec::<u8>::new());
}

#[test]
fn serialize_writes_a_long_value_with_a_two_byte_length() {
    let mut memdb = Memdb::new();
    let value = vec![7u8; 258];
    memdb.set("k", &value);

    let serialized = memdb.serialize();

    assert_eq!(&serialized[..8], &[0, 0, 0, 0, 0, 0, 0, 1]);
    assert_eq!(&serialized[8..16], &[0, 0, 0, 0, 0, 0, 1, 2]);
    assert_eq!(serialized.len(), 16 + 1 + 258);
}

#[test]
fn deserialize_reads_record_after_record() {
    let input = &vec![
        0, 0, 0, 0, 0, 0, 0, 1, 0, 0, 0, 0, 0, 0, 0, 1, 107, 118, 0, 0, 0, 0, 0, 0, 0, 1, 0, 0, 0,
        0, 0, 0, 0, 1, 118, 107,
    ];

    let mut deserialized = Memdb::deserialize(input).unwrap();

    let result = deserialized.exec("get k");
    assert_eq!(result, Ok(String::from("v")));

    let result = deserialized.exec("get v");
    assert_eq!(result, Ok(String::from("k")));
}

#[test]
fn deserialize_reads_the_key_by_the_first_length() {
    let input = vec![
        0, 0, 0, 0, 0, 0, 0, 3, 0, 0, 0, 0, 0, 0, 0, 1, 107, 101, 121, 118,
    ];

    let deserialized = Memdb::deserialize(&input).unwrap();

    assert_eq!(deserialized.get("key"), Some(b"v".to_vec()));
    assert_eq!(deserialized.inner().len(), 1);
}

#[test]
fn deserialize_of_nothing_is_the_empty_store() {
    let deserialized = Memdb::deserialize(&[]).unwrap();
    assert_eq!(deserialized.inner().len(), 0);
}

#[test]
fn deserialize_lets_the_later_record_of_a_key_count() {
    let input = vec![
        0, 0, 0, 0, 0, 0, 0, 1, 0, 0, 0, 0, 0, 0, 0, 1, 107, 49, 0, 0, 0, 0, 0, 0, 0, 1, 0, 0, 0,
        0, 0, 0, 0, 1, 107, 50,
    ];

    let deserialized = Memdb::deserialize(&input).unwrap();

    assert_eq!(deserialized.get("k"), Some(b"2".to_vec()));
    assert_eq!(deserialized.inner().len(), 1);
}

#[test]
fn deserialize_refuses_bytes_that_end_within_a_record() {
    let whole = vec![0, 0, 0, 0, 0, 0, 0, 1, 0, 0, 0, 0, 0, 0, 0, 1, 107, 118];
    for cut in 1..whole.len() {
        assert_eq!(
            Memdb::deserialize(&whole[..cut]).err(),
            Some(String::from("ERR invalid database format"))
        );
    }
    let mut longer = whole.clone();
    longer.push(0);
    assert_eq!(
        Memdb::deserialize(&longer).err(),
        Some(String::from("ERR invalid database format"))
    );
}

#[test]
fn deserialize_refuses_lengths_that_reach_past_the_end() {
    let huge_key = vec![
        255, 255, 255, 255, 255, 255, 255, 255, 0, 0, 0, 0, 0, 0, 0, 1, 107, 118,
    ];
    assert!(Memdb::deserialize(&huge_key).is_err());

    let huge_value = vec![
        0, 0, 0, 0, 0, 0, 0, 1, 255, 255, 255, 255, 255, 255, 255, 255, 107, 118,
    ];
    assert!(Memdb::deserialize(&huge_value).is_err());
}

#[test]
fn deserialize_refuses_a_key_that_is_no_text() {
    let input = vec![0, 0, 0, 0, 0, 0, 0, 1, 0, 0, 0, 0, 0, 0, 0, 1, 0xff, 118];
    assert_eq!(
        Memdb::deserialize(&input).err(),
        Some(String::from("ERR invalid database format"))
    );
}

#[test]
fn deserialize_takes_any_bytes_as_a_value() {
    let input = vec![0, 0, 0, 0, 0, 0, 0, 1, 0, 0, 0, 0, 0, 0, 0, 2, 107, 0xff, 0x00];
    let deserialized = Memdb::deserialize(&input).unwrap();
    assert_eq!(deserialized.get("k"), Some(vec![0xff, 0x00]));
}

#[test]
fn a_snapshot_reads_back_as_the_store() {
    let mut memdb = Memdb::new();
    memdb.set("", b"");
    memdb.set("k", b"v");
    memdb.set("a key", b"a value");
    memdb.set("caf\u{e9}", &[0, 1, 2, 255]);
    memdb.set("long", &vec![42u8; 70000]);
    memdb.del(keys(vec!["k"]));
    memdb.set("k", b"again");

    let restored = Memdb::deserialize(&memdb.serialize()).unwrap();

    assert_eq!(restored, memdb);
    assert_eq!(restored.inner().len(), 5);
    for name in ["", "k", "a key", "caf\u{e9}", "long"] {
        assert_eq!(restored.get(name), memdb.get(name));
    }
    assert_eq!(restored.get("k"), Some(b"again".to_vec()));
    assert_eq!(restored.get("other"), None);
}

#[test]
fn replay_carries_the_lines_out_and_passes_over_those_that_fail() {
    let mut memdb = Memdb::new();
    memdb.set("a", b"1");

    let log = keys(vec![
        "set b 2",
        "this is no command",
        "set c \"unclosed",
        "setnx a 9",
        "set c 3",
        "del b",
    ]);
    memdb.replay(&log);

    assert_eq!(memdb.get("a"), Some(b"1".to_vec()));
    assert_eq!(memdb.get("b"), None);
    assert_eq!(memdb.get("c"), Some(b"3".to_vec()));
    assert_eq!(memdb.inner().len(), 2);
}

#[test]
fn restore_gives_the_snapshot_and_then_the_log() {
    let mut before = Memdb::new();
    before.set("a", b"1");
    let snapshot = before.serialize();
    let log = keys(vec!["set b 2"]);

    let restored = Memdb::restore(&snapshot, &log).unwrap();

    let mut expected = Memdb::new();
    expected.set("b", b"2");
    expected.set("a", b"1");
    assert_eq!(restored, expected);
    assert_eq!(restored.inner().len(), 2);
    assert_eq!(restored.get("a"), Some(b"1".to_vec()));
    assert_eq!(restored.get("b"), Some(b"2".to_vec()));
}

#[test]
fn restore_without_files_is_the_empty_store() {
    let restored = Memdb::restore(&[], &Vec::new()).unwrap();
    assert_eq!(restored.inner().len(), 0);
}

#[test]
fn restore_fails_where_the_snapshot_does() {
    let log = keys(vec!["set b 2"]);
    assert_eq!(
        Memdb::restore(&[0, 0, 0], &log).err(),
        Some(String::from("ERR invalid database format"))
    );
}

#[test]
fn inner_lists_the_entries() {
    let mut memdb = Memdb::new();
    memdb.set("a", b"1");
    memdb.set("b", b"2");
    memdb.set("a", b"3");

    let inner = memdb.inner();
    assert_eq!(inner.len(), 2);
    assert!(inner.contains_key("a"));
    assert!(!inner.contains_key("c"));
    assert_eq!(inner.get("a"), Some(&b"3".to_vec()));
    assert_eq!(inner.key_at(1), "b");
    assert_eq!(inner.value_at(1), &b"2".to_vec());
}

#[test]
fn stores_are_equal_where_they_hold_the_same_whatever_the_order() {
    let mut one = Memdb::new();
    one.set("a", b"1");
    one.set("b", b"2");
    one.set("c", b"3");
    one.del(keys(vec!["c"]));

    let mut other = Memdb::new();
    other.set("b", b"0");
    other.set("a", b"1");
    assert_ne!(one, other);

    other.set("b", b"2");
    assert_eq!(one, other);
    assert_eq!(other, one);

    other.set("d", b"");
    assert_ne!(one, other);
    assert_ne!(other, one);
    assert_eq!(Memdb::new(), Memdb::default());
}
