use blaze_turbo::chars::{chars_to_string, str_to_chars};
use blaze_turbo::codec::{decode_command, encode_command};
use blaze_turbo::command::Command;
use blaze_turbo::error::KVStoreError;
use blaze_turbo::kv_store::{KvStore, LogFile};

fn fresh() -> KvStore {
    KvStore::open(Vec::new()).unwrap()
}

fn reopen(store: &KvStore) -> KvStore {
    KvStore::open(store.log_files().clone()).unwrap()
}

fn total_log_size(store: &KvStore) -> usize {
    store.log_files().iter().map(|f| f.data.len()).sum()
}

#[test]
fn set_get_reopen_round_trip() {
    let mut store = fresh();
    store.set("key1".to_string(), "value1".to_string()).unwrap();
    assert_eq!(store.get("key1".to_string()).unwrap(), Some("value1".to_string()));
    let store2 = reopen(&store);
    assert_eq!(store2.get("key1".to_string()).unwrap(), Some("value1".to_string()));
}

#[test]
fn overwrite_returns_latest() {
    let mut store = fresh();
    store.set("key1".to_string(), "value1".to_string()).unwrap();
    store.set("key1".to_string(), "value2".to_string()).unwrap();
    assert_eq!(store.get("key1".to_string()).unwrap(), Some("value2".to_string()));
    let store2 = reopen(&store);
    assert_eq!(store2.get("key1".to_string()).unwrap(), Some("value2".to_string()));
}

#[test]
fn get_missing_is_none() {
    let store = fresh();
    assert_eq!(store.get("missing".to_string()).unwrap(), None);
}

#[test]
fn remove_missing_is_key_not_found() {
    let mut store = fresh();
    let err = store.remove("missing".to_string()).unwrap_err();
    assert!(matches!(err, KVStoreError::KeyNotFound));
    assert_eq!(err.message(), "Key not found");
    assert_eq!(store.get("missing".to_string()).unwrap(), None);
}

#[test]
fn set_remove_get_is_none() {
    let mut store = fresh();
    store.set("key1".to_string(), "value1".to_string()).unwrap();
    store.remove("key1".to_string()).unwrap();
    assert_eq!(store.get("key1".to_string()).unwrap(), None);
    let store2 = reopen(&store);
    assert_eq!(store2.get("key1".to_string()).unwrap(), None);
}

#[test]
fn empty_key_and_empty_value() {
    let mut store = fresh();
    store.set(String::new(), "v".to_string()).unwrap();
    store.set("k".to_string(), String::new()).unwrap();
    assert_eq!(store.get(String::new()).unwrap(), Some("v".to_string()));
    assert_eq!(store.get("k".to_string()).unwrap(), Some(String::new()));
    let store2 = reopen(&store);
    assert_eq!(store2.get(String::new()).unwrap(), Some("v".to_string()));
    assert_eq!(store2.get("k".to_string()).unwrap(), Some(String::new()));
}

#[test]
fn value_with_quotes_newlines_and_backslashes() {
    let mut store = fresh();
    let tricky = "line1\nline2 \"quoted\" back\\slash {\"SET\":[\"a\",\"b\"]}".to_string();
    store.set("tricky".to_string(), tricky.clone()).unwrap();
    assert_eq!(store.get("tricky".to_string()).unwrap(), Some(tricky.clone()));
    let store2 = reopen(&store);
    assert_eq!(store2.get("tricky".to_string()).unwrap(), Some(tricky));
}

#[test]
fn unicode_keys_and_values() {
    let mut store = fresh();
    store.set("schlüssel".to_string(), "wert ü".to_string()).unwrap();
    store.set("ключ".to_string(), "значение".to_string()).unwrap();
    let store2 = reopen(&store);
    assert_eq!(store2.get("schlüssel".to_string()).unwrap(), Some("wert ü".to_string()));
    assert_eq!(store2.get("ключ".to_string()).unwrap(), Some("значение".to_string()));
}

#[test]
fn one_mebibyte_value_survives_reopen() {
    let mut store = fresh();
    let big = "x".repeat(1024 * 1024);
    store.set("big".to_string(), big.clone()).unwrap();
    assert_eq!(store.get("big".to_string()).unwrap(), Some(big.clone()));
    let store2 = reopen(&store);
    assert_eq!(store2.get("big".to_string()).unwrap(), Some(big));
}

#[test]
fn many_keys_survive_reopen() {
    let mut store = fresh();
    let n = 10000;
    for i in 0..n {
        store.set(format!("key{}", i), format!("value{}", i)).unwrap();
    }
    let store2 = reopen(&store);
    for i in 0..n {
        assert_eq!(store2.get(format!("key{}", i)).unwrap(), Some(format!("value{}", i)));
    }
}

#[test]
fn interleaved_writers_with_distinct_ranges() {
    // Eight writers' operations, interleaved round-robin as a pool of
    // workers would produce them; each writer owns a distinct key range.
    let mut store = fresh();
    let per_writer = 1000;
    for i in 0..per_writer {
        for w in 0..8 {
            store.set(format!("k{}_{}", w, i), format!("v{}_{}", w, i)).unwrap();
        }
    }
    for w in 0..8 {
        for i in 0..per_writer {
            assert_eq!(
                store.get(format!("k{}_{}", w, i)).unwrap(),
                Some(format!("v{}_{}", w, i))
            );
        }
    }
    let store2 = reopen(&store);
    for w in 0..8 {
        for i in 0..per_writer {
            assert_eq!(
                store2.get(format!("k{}_{}", w, i)).unwrap(),
                Some(format!("v{}_{}", w, i))
            );
        }
    }
}

#[test]
fn compaction_preserves_reads() {
    let mut store = fresh();
    for i in 0..50 {
        store.set(format!("key{}", i), format!("value{}", i)).unwrap();
    }
    store.remove("key7".to_string()).unwrap();
    store.compact().unwrap();
    assert_eq!(store.stale_byte_count(), 0);
    assert_eq!(store.log_files().len(), 2);
    // Old generations are gone: only the compacted file (one past the old
    // active generation) and a fresh empty writer remain, together exactly
    // as large as the live records.
    assert_eq!(store.log_files()[0].gen, 2);
    assert_eq!(store.log_files()[1].gen, 3);
    assert_eq!(store.log_files()[1].data.len(), 0);
    let live: usize = (0..50)
        .filter(|&i| i != 7)
        .map(|i| encode_command(&Command::SET(format!("key{}", i), format!("value{}", i))).len())
        .sum();
    assert_eq!(total_log_size(&store), live);
    for i in 0..50 {
        let expected = if i == 7 { None } else { Some(format!("value{}", i)) };
        assert_eq!(store.get(format!("key{}", i)).unwrap(), expected);
    }
    let store2 = reopen(&store);
    for i in 0..50 {
        let expected = if i == 7 { None } else { Some(format!("value{}", i)) };
        assert_eq!(store2.get(format!("key{}", i)).unwrap(), expected);
    }
}

#[test]
fn repeated_overwrite_triggers_compaction_and_shrinks_log() {
    let mut store = fresh();
    let big = "y".repeat(64 * 1024);
    store.set("key".to_string(), big.clone()).unwrap();
    let mut peak = total_log_size(&store);
    for i in 0..24 {
        store.set("key".to_string(), format!("{}{}", big, i)).unwrap();
        peak = peak.max(total_log_size(&store));
    }
    // The overwrites wrote well over the stale threshold, so at least one
    // compaction ran: the files now hold little more than one live record.
    let after = total_log_size(&store);
    assert!(after < peak);
    // At least one compaction ran: generation numbers moved past the
    // initial active generation, and what is left is the live record plus
    // an active file that stayed under the stale threshold.
    assert!(store.log_files()[0].gen > 1);
    assert!(after < 1024 * 1024 + 3 * 65700);
    assert_eq!(store.get("key".to_string()).unwrap(), Some(format!("{}{}", big, 23)));
}

#[test]
fn stale_bytes_never_exceed_log_size() {
    let mut store = fresh();
    assert!(store.stale_byte_count() <= total_log_size(&store));
    for i in 0..40 {
        store.set("a".to_string(), format!("v{}", i)).unwrap();
        store.set(format!("b{}", i), "w".to_string()).unwrap();
        if i % 3 == 0 {
            store.remove(format!("b{}", i)).unwrap();
        }
        assert!(store.stale_byte_count() <= total_log_size(&store));
    }
}

#[test]
fn open_rejects_corrupt_log() {
    let file = LogFile { gen: 1, data: str_to_chars("{\"SET\":[\"a\",\"b\"]}garbage") };
    let err = KvStore::open(vec![file]).unwrap_err();
    assert!(matches!(err, KVStoreError::Serde(_)));
}

#[test]
fn open_replays_generations_in_order() {
    // A key overwritten in a later generation reads as the later value; a
    // key removed in a later generation is gone.
    let older = LogFile {
        gen: 3,
        data: str_to_chars("{\"SET\":[\"a\",\"old\"]}{\"SET\":[\"b\",\"keep\"]}"),
    };
    let newer = LogFile {
        gen: 5,
        data: str_to_chars("{\"SET\":[\"a\",\"new\"]}{\"RM\":[\"b\"]}"),
    };
    let store = KvStore::open(vec![older, newer]).unwrap();
    assert_eq!(store.get("a".to_string()).unwrap(), Some("new".to_string()));
    assert_eq!(store.get("b".to_string()).unwrap(), None);
}

#[test]
fn record_codec_round_trip() {
    let cases = vec![
        Command::SET("key".to_string(), "value".to_string()),
        Command::SET(String::new(), String::new()),
        Command::SET("with \"quotes\"".to_string(), "back\\slash\nnewline".to_string()),
        Command::RM("key".to_string()),
        Command::RM("\\\"".to_string()),
    ];
    for cmd in cases {
        let mut encoded = encode_command(&cmd);
        let tail = str_to_chars("{\"RM\":[\"next\"]}");
        let record_len = encoded.len();
        encoded.extend(tail);
        let (decoded, consumed) = decode_command(&encoded, 0).unwrap();
        assert_eq!(consumed, record_len);
        match (&cmd, &decoded) {
            (Command::SET(k1, v1), Command::SET(k2, v2)) => {
                assert_eq!(k1, k2);
                assert_eq!(v1, v2);
            }
            (Command::RM(k1), Command::RM(k2)) => assert_eq!(k1, k2),
            _ => panic!("decoded record has the wrong variant"),
        }
    }
}

#[test]
fn record_codec_exact_text() {
    let cmd = Command::SET("a\"b".to_string(), "c\\d".to_string());
    let encoded = encode_command(&cmd);
    assert_eq!(chars_to_string(&encoded), "{\"SET\":[\"a\\\"b\",\"c\\\\d\"]}");
    let rm = Command::RM("k".to_string());
    assert_eq!(chars_to_string(&encode_command(&rm)), "{\"RM\":[\"k\"]}");
}

#[test]
fn record_codec_rejects_garbage() {
    let junk = str_to_chars("{\"PUT\":[\"a\",\"b\"]}");
    assert!(matches!(decode_command(&junk, 0), Err(KVStoreError::Serde(_))));
    let truncated = str_to_chars("{\"SET\":[\"a\",\"b");
    assert!(matches!(decode_command(&truncated, 0), Err(KVStoreError::Serde(_))));
    let empty: Vec<char> = Vec::new();
    assert!(matches!(decode_command(&empty, 0), Err(KVStoreError::Serde(_))));
}

#[test]
fn stale_counter_follows_prescribed_increments() {
    // A superseded record adds its own length; a remove adds the
    // superseded record's length plus the remove record's length.
    let mut store = fresh();
    store.set("k".to_string(), "v1".to_string()).unwrap();
    assert_eq!(store.stale_byte_count(), 0);
    let rec1 = encode_command(&Command::SET("k".to_string(), "v1".to_string())).len();
    store.set("k".to_string(), "v2".to_string()).unwrap();
    assert_eq!(store.stale_byte_count(), rec1);
    let rec2 = encode_command(&Command::SET("k".to_string(), "v2".to_string())).len();
    let rm = encode_command(&Command::RM("k".to_string())).len();
    store.remove("k".to_string()).unwrap();
    assert_eq!(store.stale_byte_count(), rec1 + rec2 + rm);
}
