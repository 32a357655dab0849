use kv_store::common::{Command, Dispatch, Modify, RawKeyValueApi, Response};
use kv_store::server::{KvServer, Received, Step, RECEIVE_BUFFER_SIZE};
use kv_store::snapshot::Failure;
use kv_store::storage::{snapshot_file, StandaloneStorage, StorageReader};

fn filled(path: &str) -> StandaloneStorage {
    let mut storage = StandaloneStorage::open(path, None).unwrap();
    storage
        .write(vec![
            Modify::new_put("b".to_string(), vec![1u8, 2u8], vec![3u8]),
            Modify::new_put("a".to_string(), vec![0u8, 255u8], vec![]),
            Modify::new_put("a".to_string(), b"k".to_vec(), b"v".to_vec()),
        ])
        .unwrap();
    storage
}

#[test]
fn snapshot_file_is_data_json_under_the_path() {
    assert_eq!(snapshot_file(""), None);
    assert_eq!(snapshot_file("./kv_data"), Some("./kv_data/data.json".to_string()));
}

#[test]
fn a_store_without_a_path_has_nothing_to_flush() {
    let mut storage = StandaloneStorage::new();
    storage.write(vec![Modify::new_put("a".to_string(), b"k".to_vec(), b"v".to_vec())]).unwrap();
    assert_eq!(storage.flush(), Ok(None));
    let opened = StandaloneStorage::open("", Some("this is no snapshot")).unwrap();
    assert_eq!(opened.get_stats().unwrap(), (0, Vec::<String>::new()));
}

#[test]
fn flush_gives_the_entries_as_pretty_json() {
    let mut storage = StandaloneStorage::open("dir", None).unwrap();
    assert_eq!(storage.flush(), Ok(Some("[]".to_string())));
    storage.write(vec![Modify::new_put("a".to_string(), vec![1u8], vec![2u8])]).unwrap();
    let expected = "[\n  [\n    [\n      97,\n      255,\n      1\n    ],\n    [\n      2\n    ]\n  ]\n]";
    assert_eq!(storage.flush(), Ok(Some(expected.to_string())));
}

#[test]
fn flush_then_open_restores_the_same_contents() {
    let storage = filled("dir");
    let text = storage.flush().unwrap().unwrap();
    let restored = StandaloneStorage::open("dir", Some(&text)).unwrap();
    let before = storage.reader().unwrap().scan_cf("a", b"", None, 100).unwrap();
    let after = restored.reader().unwrap().scan_cf("a", b"", None, 100).unwrap();
    assert_eq!(before, vec![(vec![0u8, 255u8], vec![]), (b"k".to_vec(), b"v".to_vec())]);
    assert_eq!(after, before);
    assert_eq!(
        restored.reader().unwrap().scan_cf("b", b"", None, 100).unwrap(),
        vec![(vec![1u8, 2u8], vec![3u8])]
    );
    assert_eq!(restored.get_stats().unwrap(), storage.get_stats().unwrap());
    assert_eq!(restored.get_stats().unwrap(), (3, vec!["a".to_string(), "b".to_string()]));
    assert_eq!(restored.flush().unwrap().unwrap(), text);
}

#[test]
fn open_without_a_snapshot_file_starts_empty() {
    let storage = StandaloneStorage::open("dir", None).unwrap();
    assert_eq!(storage.get_stats().unwrap(), (0, Vec::<String>::new()));
}

#[test]
fn open_reads_entries_in_any_order_and_the_last_of_a_key_wins() {
    let text = "[[[98,255,50],[1]],[[97,255,49],[2]],[[98,255,50],[3]]]";
    let storage = StandaloneStorage::open("dir", Some(text)).unwrap();
    let reader = storage.reader().unwrap();
    assert_eq!(reader.get_cf("b", b"2").unwrap(), Some(vec![3u8]));
    assert_eq!(reader.get_cf("a", b"1").unwrap(), Some(vec![2u8]));
    assert_eq!(storage.get_stats().unwrap(), (2, vec!["a".to_string(), "b".to_string()]));
}

#[test]
fn open_rejects_a_malformed_snapshot() {
    for text in ["", "{", "[[[1],[2]]", "[[[256],[2]]]", "{\"a\":1}", "[[[1]]]"] {
        match StandaloneStorage::open("dir", Some(text)) {
            Ok(_) => panic!("accepted {:?}", text),
            Err(msg) => assert!(msg.starts_with("Failed to deserialize: "), "{}", msg),
        }
    }
}

#[test]
fn stats_leave_out_a_family_part_that_is_no_utf8_and_a_key_without_separator() {
    let text = "[[[254,255,1],[1]],[[107,95,1],[2]],[[99,255],[3]]]";
    let storage = StandaloneStorage::open("dir", Some(text)).unwrap();
    assert_eq!(storage.get_stats().unwrap(), (3, vec!["c".to_string()]));
}

#[test]
fn failure_messages_begin_with_the_words_of_their_step() {
    assert_eq!(Failure::CreateDirectory.message("denied"), "Failed to create directory: denied");
    assert_eq!(Failure::Serialize.message("bad"), "Failed to serialize: bad");
    assert_eq!(Failure::WriteFile.message("full"), "Failed to write file: full");
    assert_eq!(Failure::ReadFile.message("gone"), "Failed to read file: gone");
    assert_eq!(Failure::Deserialize.message(""), "Failed to deserialize: ");
}

#[test]
fn a_flush_request_on_a_persisted_store_hands_out_the_snapshot() {
    let mut api = RawKeyValueApi::new(filled("dir"));
    let expected = filled("dir").flush().unwrap().unwrap();
    assert_eq!(api.handle_command(Command::Flush), Dispatch::Persist(expected));
    assert_eq!(
        api.handle_command(Command::Get { cf: "a".to_string(), key: b"k".to_vec() }),
        Dispatch::Reply(Response::Value(Some(b"v".to_vec())))
    );
}

#[test]
fn the_receive_buffer_holds_eight_kibibytes() {
    assert_eq!(RECEIVE_BUFFER_SIZE, 8192);
}

#[test]
fn a_server_opens_its_store_from_the_snapshot() {
    let text = filled("dir").flush().unwrap().unwrap();
    let mut server = KvServer::new("dir", Some(&text)).unwrap();
    assert_eq!(
        server.handle_client(Received::Request(Command::Get { cf: "b".to_string(), key: vec![1u8, 2u8] })),
        Step::Answer(Dispatch::Reply(Response::Value(Some(vec![3u8]))))
    );
    assert!(KvServer::new("dir", Some("not json")).is_err());
}

#[test]
fn a_connection_answers_requests_until_it_is_closed_or_gets_no_request() {
    let mut server = KvServer::new("", None).unwrap();
    assert_eq!(
        server.handle_client(Received::Request(Command::Put {
            cf: "cf".to_string(),
            key: b"k".to_vec(),
            value: b"v".to_vec(),
        })),
        Step::Answer(Dispatch::Reply(Response::Success))
    );
    assert_eq!(server.handle_client(Received::Malformed), Step::Abort);
    assert_eq!(server.handle_client(Received::Closed), Step::Close);
    assert_eq!(
        server.handle_client(Received::Request(Command::Get { cf: "cf".to_string(), key: b"k".to_vec() })),
        Step::Answer(Dispatch::Reply(Response::Value(Some(b"v".to_vec()))))
    );
}

#[test]
fn save_to_disk_prepares_what_flush_prepares() {
    let storage = filled("dir");
    assert_eq!(storage.save_to_disk(), storage.flush());
    assert_eq!(StandaloneStorage::new().save_to_disk(), Ok(None));
}

#[test]
fn load_from_disk_replaces_the_contents() {
    let mut storage = StandaloneStorage::open("dir", None).unwrap();
    storage.write(vec![Modify::new_put("old".to_string(), b"k".to_vec(), b"v".to_vec())]).unwrap();
    assert_eq!(storage.load_from_disk(Some("[[[110,101,119,255,107],[1,2]]]")), Ok(()));
    let reader = storage.reader().unwrap();
    assert_eq!(reader.get_cf("old", b"k").unwrap(), None);
    assert_eq!(reader.get_cf("new", b"k").unwrap(), Some(vec![1u8, 2u8]));
    assert_eq!(storage.get_stats().unwrap(), (1, vec!["new".to_string()]));
}

#[test]
fn load_from_disk_leaves_the_contents_where_it_has_nothing_to_load_or_fails() {
    let mut storage = StandaloneStorage::open("dir", None).unwrap();
    storage.write(vec![Modify::new_put("cf".to_string(), b"k".to_vec(), b"v".to_vec())]).unwrap();
    assert_eq!(storage.load_from_disk(None), Ok(()));
    assert_eq!(storage.reader().unwrap().get_cf("cf", b"k").unwrap(), Some(b"v".to_vec()));
    let failed = storage.load_from_disk(Some("[[[1],[2]],"));
    assert!(failed.unwrap_err().starts_with("Failed to deserialize: "));
    assert_eq!(storage.reader().unwrap().get_cf("cf", b"k").unwrap(), Some(b"v".to_vec()));

    let mut unpersisted = StandaloneStorage::new();
    unpersisted.write(vec![Modify::new_put("cf".to_string(), b"k".to_vec(), b"v".to_vec())]).unwrap();
    assert_eq!(unpersisted.load_from_disk(Some("[]")), Ok(()));
    assert_eq!(unpersisted.get_stats().unwrap(), (1, vec!["cf".to_string()]));
}

#[test]
fn a_query_is_answered_with_shared_access() {
    let server = KvServer::new("dir", Some("[[[99,102,255,107],[118]]]")).unwrap();
    let get = Command::Get { cf: "cf".to_string(), key: b"k".to_vec() };
    assert!(!get.mutates());
    assert_eq!(server.handle_query(get), Dispatch::Reply(Response::Value(Some(b"v".to_vec()))));
    assert_eq!(
        server.handle_query(Command::Info),
        Dispatch::Reply(Response::Info { total_keys: 1, column_families: vec!["cf".to_string()] })
    );
    assert_eq!(
        server.handle_query(Command::Flush),
        Dispatch::Persist("[\n  [\n    [\n      99,\n      102,\n      255,\n      107\n    ],\n    [\n      118\n    ]\n  ]\n]".to_string())
    );
    assert_eq!(server.handle_query(Command::Compact), Dispatch::Reply(Response::Success));
}

#[test]
fn only_puts_and_deletes_change_the_contents() {
    assert!(Command::Put { cf: "c".to_string(), key: vec![], value: vec![] }.mutates());
    assert!(Command::Delete { cf: "c".to_string(), key: vec![] }.mutates());
    assert!(!Command::Get { cf: "c".to_string(), key: vec![] }.mutates());
    assert!(!Command::Scan { cf: "c".to_string(), start_key: vec![], end_key: None, limit: 1 }.mutates());
    assert!(!Command::Info.mutates());
    assert!(!Command::Flush.mutates());
    assert!(!Command::Compact.mutates());
}

#[test]
fn restore_replaces_the_contents_by_the_listed_entries() {
    let mut storage = StandaloneStorage::new();
    storage.write(vec![Modify::new_put("old".to_string(), b"k".to_vec(), b"v".to_vec())]).unwrap();
    storage.restore(&vec![
        (b"b\xff2".to_vec(), vec![1u8]),
        (b"a\xff1".to_vec(), vec![2u8]),
        (b"b\xff2".to_vec(), vec![3u8]),
    ]);
    let reader = storage.reader().unwrap();
    assert_eq!(reader.get_cf("old", b"k").unwrap(), None);
    assert_eq!(reader.get_cf("a", b"1").unwrap(), Some(vec![2u8]));
    assert_eq!(reader.get_cf("b", b"2").unwrap(), Some(vec![3u8]));
    assert_eq!(storage.get_stats().unwrap(), (2, vec!["a".to_string(), "b".to_string()]));
    storage.restore(&Vec::new());
    assert_eq!(storage.get_stats().unwrap(), (0, Vec::<String>::new()));
}

#[test]
fn a_receive_without_a_request_ends_the_connection_without_the_store() {
    assert_eq!(Received::Closed.ending(), Some(Step::Close));
    assert_eq!(Received::Malformed.ending(), Some(Step::Abort));
    assert_eq!(Received::Request(Command::Info).ending(), None);
}
