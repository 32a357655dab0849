use kv_store::common::{Command, Dispatch, Modify, ModifyOp, RawKeyValueApi, Response};
use kv_store::storage::{StandaloneStorage, StorageReader};

fn fresh_api() -> RawKeyValueApi {
    RawKeyValueApi::new(StandaloneStorage::new())
}

fn put(api: &mut RawKeyValueApi, cf: &str, key: &str, value: &str) {
    api.raw_put(cf.to_string(), key.as_bytes().to_vec(), value.as_bytes().to_vec()).unwrap();
}

fn pair(key: &str, value: &str) -> (Vec<u8>, Vec<u8>) {
    (key.as_bytes().to_vec(), value.as_bytes().to_vec())
}

#[test]
fn test_test_basic_operations() {
    let storage = StandaloneStorage::new();
    let mut api = RawKeyValueApi::new(storage);

    api.raw_put("default".to_string(), b"key1".to_vec(), b"value1".to_vec()).unwrap();

    let value = api.raw_get("default", b"key1").unwrap();
    assert_eq!(value, Some(b"value1".to_vec()));

    api.raw_delete("default".to_string(), b"key1".to_vec()).unwrap();
    let value = api.raw_get("default", b"key1").unwrap();
    assert_eq!(value, None);
}

#[test]
fn test_column_families() {
    let storage = StandaloneStorage::new();
    let mut api = RawKeyValueApi::new(storage);

    api.raw_put("cf1".to_string(), b"key".to_vec(), b"value1".to_vec()).unwrap();
    api.raw_put("cf2".to_string(), b"key".to_vec(), b"value2".to_vec()).unwrap();

    let v1 = api.raw_get("cf1", b"key").unwrap();
    let v2 = api.raw_get("cf2", b"key").unwrap();

    assert_eq!(v1, Some(b"value1".to_vec()));
    assert_eq!(v2, Some(b"value2".to_vec()));
}

#[test]
fn test_scan() {
    let storage = StandaloneStorage::new();
    let mut api = RawKeyValueApi::new(storage);

    for i in 0..5 {
        let key = format!("key{}", i);
        let value = format!("value{}", i);
        api.raw_put("default".to_string(), key.into_bytes(), value.into_bytes()).unwrap();
    }

    let results = api.raw_scan("default", b"key1", Some(b"key4"), 10).unwrap();
    assert_eq!(results.len(), 3);
}

#[test]
fn put_put_delete_leaves_the_other_key() {
    let mut api = fresh_api();
    put(&mut api, "default", "name", "Alice");
    put(&mut api, "default", "age", "30");
    api.raw_delete("default".to_string(), b"age".to_vec()).unwrap();
    assert_eq!(api.raw_get("default", b"age").unwrap(), None);
    assert_eq!(api.raw_get("default", b"name").unwrap(), Some(b"Alice".to_vec()));
}

#[test]
fn scan_returns_exactly_the_keys_in_range() {
    let mut api = fresh_api();
    for i in 1..=5 {
        put(&mut api, "default", &format!("key{}", i), &format!("value{}", i));
    }
    let results = api.raw_scan("default", b"key1", Some(b"key4"), 10).unwrap();
    assert_eq!(
        results,
        vec![pair("key1", "value1"), pair("key2", "value2"), pair("key3", "value3")]
    );
}

#[test]
fn scan_is_ascending_whatever_the_order_of_the_puts() {
    let mut api = fresh_api();
    for key in ["m", "c", "x", "a", "q"] {
        put(&mut api, "cf", key, key);
    }
    let results = api.raw_scan("cf", b"", None, 10).unwrap();
    assert_eq!(
        results,
        vec![pair("a", "a"), pair("c", "c"), pair("m", "m"), pair("q", "q"), pair("x", "x")]
    );
}

#[test]
fn scan_stops_at_the_limit() {
    let mut api = fresh_api();
    for i in 1..=5 {
        put(&mut api, "default", &format!("key{}", i), &format!("value{}", i));
    }
    let results = api.raw_scan("default", b"key2", None, 2).unwrap();
    assert_eq!(results, vec![pair("key2", "value2"), pair("key3", "value3")]);
    let one = api.raw_scan("default", b"key0", Some(b"key9"), 1).unwrap();
    assert_eq!(one, vec![pair("key1", "value1")]);
}

#[test]
fn scan_with_limit_zero_is_empty() {
    let mut api = fresh_api();
    put(&mut api, "default", "key1", "value1");
    let results = api.raw_scan("default", b"", None, 0).unwrap();
    assert_eq!(results, Vec::<(Vec<u8>, Vec<u8>)>::new());
}

#[test]
fn scan_without_end_runs_to_the_last_key_of_the_family() {
    let mut api = fresh_api();
    put(&mut api, "a", "k1", "1");
    put(&mut api, "a", "k2", "2");
    put(&mut api, "b", "k3", "3");
    let results = api.raw_scan("a", b"k2", None, 10).unwrap();
    assert_eq!(results, vec![pair("k2", "2")]);
}

#[test]
fn scan_start_is_inclusive_and_end_exclusive() {
    let mut api = fresh_api();
    put(&mut api, "a", "k1", "1");
    put(&mut api, "a", "k2", "2");
    put(&mut api, "a", "k3", "3");
    assert_eq!(api.raw_scan("a", b"k1", Some(b"k3"), 10).unwrap(), vec![pair("k1", "1"), pair("k2", "2")]);
    assert_eq!(api.raw_scan("a", b"k3", Some(b"k3"), 10).unwrap(), Vec::<(Vec<u8>, Vec<u8>)>::new());
    assert_eq!(api.raw_scan("a", b"k4", None, 10).unwrap(), Vec::<(Vec<u8>, Vec<u8>)>::new());
}

#[test]
fn scan_keeps_to_its_column_family() {
    let mut api = fresh_api();
    put(&mut api, "cf1", "a", "1");
    put(&mut api, "cf2", "a", "2");
    put(&mut api, "cf1", "b", "3");
    put(&mut api, "cf10", "a", "4");
    assert_eq!(api.raw_scan("cf1", b"", None, 10).unwrap(), vec![pair("a", "1"), pair("b", "3")]);
    assert_eq!(api.raw_scan("cf2", b"", None, 10).unwrap(), vec![pair("a", "2")]);
    assert_eq!(api.raw_scan("cf3", b"", None, 10).unwrap(), Vec::<(Vec<u8>, Vec<u8>)>::new());
}

#[test]
fn families_whose_names_run_into_each_other_share_nothing() {
    let mut api = fresh_api();
    put(&mut api, "a", "b_x", "1");
    put(&mut api, "a_b", "x", "2");
    assert_eq!(api.raw_get("a", b"b_x").unwrap(), Some(b"1".to_vec()));
    assert_eq!(api.raw_get("a_b", b"x").unwrap(), Some(b"2".to_vec()));
    assert_eq!(api.raw_scan("a", b"", None, 10).unwrap(), vec![pair("b_x", "1")]);
    assert_eq!(api.raw_scan("a_b", b"", None, 10).unwrap(), vec![pair("x", "2")]);
    api.raw_delete("a_b".to_string(), b"x".to_vec()).unwrap();
    assert_eq!(api.raw_get("a", b"b_x").unwrap(), Some(b"1".to_vec()));
}

#[test]
fn a_scan_sees_nothing_of_a_family_with_a_longer_name() {
    let mut api = fresh_api();
    put(&mut api, "a_b", "x", "2");
    assert_eq!(api.raw_scan("a", b"", None, 10).unwrap(), Vec::<(Vec<u8>, Vec<u8>)>::new());
    assert_eq!(api.raw_get("a", b"b_x").unwrap(), None);
}

#[test]
fn a_batch_leaves_alone_what_it_does_not_name() {
    let mut storage = StandaloneStorage::new();
    storage.write(vec![Modify::new_put("a".to_string(), b"b_x".to_vec(), b"1".to_vec())]).unwrap();
    storage.write(vec![Modify::new_put("a_b".to_string(), b"x".to_vec(), b"2".to_vec())]).unwrap();
    storage.write(vec![Modify::new_delete("a_".to_string(), b"b_x".to_vec())]).unwrap();
    let reader = storage.reader().unwrap();
    assert_eq!(reader.get_cf("a", b"b_x").unwrap(), Some(b"1".to_vec()));
    assert_eq!(reader.get_cf("a_b", b"x").unwrap(), Some(b"2".to_vec()));
}

#[test]
fn a_raw_key_may_hold_any_byte() {
    let mut api = fresh_api();
    api.raw_put("cf".to_string(), vec![0xffu8, 0u8], b"1".to_vec()).unwrap();
    api.raw_put("cf".to_string(), vec![b'_'], b"2".to_vec()).unwrap();
    assert_eq!(api.raw_get("cf", &[0xffu8, 0u8]).unwrap(), Some(b"1".to_vec()));
    assert_eq!(
        api.raw_scan("cf", b"", None, 10).unwrap(),
        vec![(vec![b'_'], b"2".to_vec()), (vec![0xffu8, 0u8], b"1".to_vec())]
    );
    assert_eq!(api.handle_command(Command::Info), Dispatch::Reply(Response::Info {
        total_keys: 2,
        column_families: vec!["cf".to_string()],
    }));
}

#[test]
fn delete_of_an_absent_key_succeeds_and_changes_nothing() {
    let mut api = fresh_api();
    put(&mut api, "default", "k", "v");
    assert_eq!(api.raw_delete("default".to_string(), b"other".to_vec()), Ok(()));
    assert_eq!(api.raw_delete("none".to_string(), b"k".to_vec()), Ok(()));
    assert_eq!(api.raw_get("default", b"k").unwrap(), Some(b"v".to_vec()));
    assert_eq!(api.raw_scan("default", b"", None, 10).unwrap(), vec![pair("k", "v")]);
}

#[test]
fn put_overwrites_and_is_idempotent() {
    let mut once = fresh_api();
    put(&mut once, "default", "k", "old");
    put(&mut once, "default", "k", "new");
    let mut twice = fresh_api();
    put(&mut twice, "default", "k", "old");
    put(&mut twice, "default", "k", "new");
    put(&mut twice, "default", "k", "new");
    assert_eq!(once.raw_get("default", b"k").unwrap(), Some(b"new".to_vec()));
    assert_eq!(
        once.raw_scan("default", b"", None, 10).unwrap(),
        twice.raw_scan("default", b"", None, 10).unwrap()
    );
    assert_eq!(once.handle_command(Command::Info), twice.handle_command(Command::Info));
}

#[test]
fn modify_constructors_fill_the_record() {
    let p = Modify::new_put("cf".to_string(), b"k".to_vec(), b"v".to_vec());
    assert_eq!(p.op, ModifyOp::Put);
    assert_eq!(p.cf, "cf");
    assert_eq!(p.key, b"k".to_vec());
    assert_eq!(p.value, b"v".to_vec());
    let d = Modify::new_delete("cf".to_string(), b"k".to_vec());
    assert_eq!(d.op, ModifyOp::Delete);
    assert_eq!(d.cf, "cf");
    assert_eq!(d.key, b"k".to_vec());
    assert_eq!(d.value, Vec::<u8>::new());
}

#[test]
fn write_applies_a_batch_in_order_and_the_last_mutation_of_a_key_wins() {
    let mut storage = StandaloneStorage::new();
    let batch = vec![
        Modify::new_put("cf".to_string(), b"a".to_vec(), b"1".to_vec()),
        Modify::new_put("cf".to_string(), b"b".to_vec(), b"2".to_vec()),
        Modify::new_delete("cf".to_string(), b"a".to_vec()),
        Modify::new_put("cf".to_string(), b"b".to_vec(), b"3".to_vec()),
        Modify::new_delete("cf".to_string(), b"c".to_vec()),
        Modify::new_put("cf".to_string(), b"c".to_vec(), b"4".to_vec()),
    ];
    assert_eq!(storage.write(batch), Ok(()));
    let reader = storage.reader().unwrap();
    assert_eq!(reader.get_cf("cf", b"a").unwrap(), None);
    assert_eq!(reader.get_cf("cf", b"b").unwrap(), Some(b"3".to_vec()));
    assert_eq!(reader.get_cf("cf", b"c").unwrap(), Some(b"4".to_vec()));
    assert_eq!(reader.scan_cf("cf", b"", None, 10).unwrap(), vec![pair("b", "3"), pair("c", "4")]);
}

#[test]
fn an_empty_batch_changes_nothing() {
    let mut storage = StandaloneStorage::default();
    assert_eq!(storage.write(Vec::new()), Ok(()));
    assert_eq!(storage.get_stats().unwrap(), (0, Vec::<String>::new()));
}

#[test]
fn stats_count_the_live_entries_and_list_the_families_in_order() {
    let mut api = fresh_api();
    put(&mut api, "zeta", "k1", "v");
    put(&mut api, "alpha", "k1", "v");
    put(&mut api, "alpha", "k2", "v");
    put(&mut api, "mid", "k1", "v");
    put(&mut api, "mid", "k1", "w");
    put(&mut api, "gone", "k1", "v");
    api.raw_delete("gone".to_string(), b"k1".to_vec()).unwrap();
    assert_eq!(
        api.handle_command(Command::Info),
        Dispatch::Reply(Response::Info {
            total_keys: 4,
            column_families: vec!["alpha".to_string(), "mid".to_string(), "zeta".to_string()],
        })
    );
}

#[test]
fn stats_order_names_by_their_bytes() {
    let mut storage = StandaloneStorage::new();
    storage
        .write(vec![
            Modify::new_put("a".to_string(), b"z".to_vec(), b"1".to_vec()),
            Modify::new_put("a!".to_string(), b"b".to_vec(), b"2".to_vec()),
            Modify::new_put("B".to_string(), b"b".to_vec(), b"3".to_vec()),
            Modify::new_put("\u{e9}".to_string(), b"b".to_vec(), b"4".to_vec()),
        ])
        .unwrap();
    assert_eq!(
        storage.get_stats().unwrap(),
        (4, vec!["B".to_string(), "a".to_string(), "a!".to_string(), "\u{e9}".to_string()])
    );
}

#[test]
fn stats_list_a_family_under_its_whole_name() {
    let mut storage = StandaloneStorage::new();
    storage
        .write(vec![
            Modify::new_put("a_b".to_string(), b"x".to_vec(), b"1".to_vec()),
            Modify::new_put("c".to_string(), b"k_1".to_vec(), b"2".to_vec()),
        ])
        .unwrap();
    assert_eq!(storage.get_stats().unwrap(), (2, vec!["a_b".to_string(), "c".to_string()]));
}

#[test]
fn stats_after_one_put_list_that_family() {
    let mut api = fresh_api();
    put(&mut api, "user_info", "email", "x");
    assert_eq!(
        api.handle_command(Command::Info),
        Dispatch::Reply(Response::Info { total_keys: 1, column_families: vec!["user_info".to_string()] })
    );
}

#[test]
fn handle_command_answers_each_request() {
    let mut api = fresh_api();
    assert_eq!(
        api.handle_command(Command::Put { cf: "cf".to_string(), key: b"k1".to_vec(), value: b"v1".to_vec() }),
        Dispatch::Reply(Response::Success)
    );
    assert_eq!(
        api.handle_command(Command::Put { cf: "cf".to_string(), key: b"k2".to_vec(), value: b"v2".to_vec() }),
        Dispatch::Reply(Response::Success)
    );
    assert_eq!(
        api.handle_command(Command::Get { cf: "cf".to_string(), key: b"k1".to_vec() }),
        Dispatch::Reply(Response::Value(Some(b"v1".to_vec())))
    );
    assert_eq!(
        api.handle_command(Command::Get { cf: "cf".to_string(), key: b"k3".to_vec() }),
        Dispatch::Reply(Response::Value(None))
    );
    assert_eq!(
        api.handle_command(Command::Scan {
            cf: "cf".to_string(),
            start_key: b"k".to_vec(),
            end_key: Some(b"k2".to_vec()),
            limit: 5,
        }),
        Dispatch::Reply(Response::Values(vec![pair("k1", "v1")]))
    );
    assert_eq!(
        api.handle_command(Command::Scan { cf: "cf".to_string(), start_key: b"k".to_vec(), end_key: None, limit: 5 }),
        Dispatch::Reply(Response::Values(vec![pair("k1", "v1"), pair("k2", "v2")]))
    );
    assert_eq!(
        api.handle_command(Command::Delete { cf: "cf".to_string(), key: b"k1".to_vec() }),
        Dispatch::Reply(Response::Success)
    );
    assert_eq!(
        api.handle_command(Command::Get { cf: "cf".to_string(), key: b"k1".to_vec() }),
        Dispatch::Reply(Response::Value(None))
    );
    assert_eq!(
        api.handle_command(Command::Info),
        Dispatch::Reply(Response::Info { total_keys: 1, column_families: vec!["cf".to_string()] })
    );
    assert_eq!(api.handle_command(Command::Compact), Dispatch::Reply(Response::Success));
    assert_eq!(api.handle_command(Command::Flush), Dispatch::Reply(Response::Success));
    assert_eq!(
        api.handle_command(Command::Get { cf: "cf".to_string(), key: b"k2".to_vec() }),
        Dispatch::Reply(Response::Value(Some(b"v2".to_vec())))
    );
}

#[test]
fn flush_response_follows_the_outcome_of_the_write() {
    assert_eq!(RawKeyValueApi::flush_response(Ok(())), Response::Success);
    assert_eq!(
        RawKeyValueApi::flush_response(Err("Failed to write file: disk full".to_string())),
        Response::Error("Failed to write file: disk full".to_string())
    );
}
