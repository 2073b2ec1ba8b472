use kvstore::codec::{decode_kv, encode_kv};
use kvstore::command::{kv_apply, KvCommand, KvReply};
use kvstore::snapshot::{load_kv, LoadStatus};
use kvstore::store::KvStore;

fn put(store: &mut KvStore, k: &str, v: &str) {
    let cmd = KvCommand::Put { key: k.to_string(), value: v.to_string() };
    let (reply, saved) = kv_apply(store, cmd);
    assert!(matches!(reply, KvReply::Stored));
    assert!(saved);
}

fn get_value(store: &mut KvStore, k: &str) -> Option<Vec<u8>> {
    let (reply, saved) = kv_apply(store, KvCommand::Get { key: k.to_string() });
    assert!(!saved);
    match reply {
        KvReply::Found { value } => Some(value),
        KvReply::NotFound => None,
        _ => panic!("unexpected reply to get"),
    }
}

fn list_keys(store: &mut KvStore) -> Vec<String> {
    let (reply, saved) = kv_apply(store, KvCommand::List);
    assert!(!saved);
    match reply {
        KvReply::Keys { keys } => keys,
        _ => panic!("unexpected reply to list"),
    }
}

fn le64(x: u64) -> Vec<u8> {
    x.to_le_bytes().to_vec()
}

fn block(data: &[u8]) -> Vec<u8> {
    let mut out = le64(data.len() as u64);
    out.extend_from_slice(data);
    out
}

#[test]
fn round_trip_small_map() {
    let mut store = KvStore::new();
    put(&mut store, "alpha", "1");
    put(&mut store, "beta", "two");
    put(&mut store, "caf\u{e9}", "non-ascii \u{263a}");
    let bytes = encode_kv(&store);
    let decoded = decode_kv(&bytes).expect("own encoding must decode");
    assert_eq!(decoded.len(), 3);
    let mut decoded = decoded;
    assert_eq!(get_value(&mut decoded, "alpha"), Some(b"1".to_vec()));
    assert_eq!(get_value(&mut decoded, "beta"), Some(b"two".to_vec()));
    assert_eq!(
        get_value(&mut decoded, "caf\u{e9}"),
        Some("non-ascii \u{263a}".as_bytes().to_vec())
    );
}

#[test]
fn round_trip_empty_map() {
    let store = KvStore::new();
    let bytes = encode_kv(&store);
    let decoded = decode_kv(&bytes).expect("empty snapshot must decode");
    assert_eq!(decoded.len(), 0);
}

#[test]
fn encode_empty_exact_bytes() {
    let store = KvStore::new();
    assert_eq!(encode_kv(&store), vec![0u8; 8]);
}

#[test]
fn encode_one_entry_exact_bytes() {
    let mut store = KvStore::new();
    put(&mut store, "a", "b");
    let mut expected = le64(1);
    expected.extend_from_slice(&block(b"a"));
    expected.extend_from_slice(&block(b"b"));
    assert_eq!(encode_kv(&store), expected);
}

#[test]
fn reset_idempotent_snapshot() {
    let mut store = KvStore::new();
    put(&mut store, "k1", "v1");
    put(&mut store, "k2", "v2");
    let (reply, saved) = kv_apply(&mut store, KvCommand::Reset);
    assert!(matches!(reply, KvReply::Cleared));
    assert!(saved);
    let once = encode_kv(&store);
    let (reply, saved) = kv_apply(&mut store, KvCommand::Reset);
    assert!(matches!(reply, KvReply::Cleared));
    assert!(saved);
    let twice = encode_kv(&store);
    assert_eq!(once, twice);
    assert_eq!(once, encode_kv(&KvStore::new()));
}

#[test]
fn missing_file_bootstrap() {
    let (mut store, status) = load_kv(None);
    assert_eq!(status, LoadStatus::Missing);
    assert_eq!(store.len(), 0);
    assert!(list_keys(&mut store).is_empty());
}

#[test]
fn corruption_recovery() {
    let garbage = vec![0xde, 0xad, 0xbe, 0xef, 0x01, 0x02, 0x03];
    let (mut store, status) = load_kv(Some(&garbage));
    assert_eq!(status, LoadStatus::Corrupt);
    assert_eq!(store.len(), 0);
    assert!(list_keys(&mut store).is_empty());
}

#[test]
fn good_snapshot_loads() {
    let mut store = KvStore::new();
    put(&mut store, "k", "v");
    let bytes = encode_kv(&store);
    let (mut loaded, status) = load_kv(Some(&bytes));
    assert_eq!(status, LoadStatus::Loaded);
    assert_eq!(get_value(&mut loaded, "k"), Some(b"v".to_vec()));
}

#[test]
fn overwrite_semantics() {
    let mut store = KvStore::new();
    put(&mut store, "k", "a");
    put(&mut store, "k", "b");
    assert_eq!(get_value(&mut store, "k"), Some(b"b".to_vec()));
    assert_eq!(store.len(), 1);
    let keys = list_keys(&mut store);
    assert_eq!(keys, vec!["k".to_string()]);
}

#[test]
fn not_found_is_non_fatal() {
    let mut store = KvStore::new();
    put(&mut store, "present", "yes");
    let before = encode_kv(&store);
    assert_eq!(get_value(&mut store, "nonexistent"), None);
    let (reply, saved) = kv_apply(&mut store, KvCommand::Delete { key: "nope".to_string() });
    assert!(matches!(reply, KvReply::NotFound));
    assert!(!saved);
    assert_eq!(encode_kv(&store), before);
}

#[test]
fn delete_removes_only_its_key() {
    let mut store = KvStore::new();
    put(&mut store, "a", "1");
    put(&mut store, "b", "2");
    let (reply, saved) = kv_apply(&mut store, KvCommand::Delete { key: "a".to_string() });
    assert!(matches!(reply, KvReply::Deleted));
    assert!(saved);
    assert_eq!(get_value(&mut store, "a"), None);
    assert_eq!(get_value(&mut store, "b"), Some(b"2".to_vec()));
    assert_eq!(store.len(), 1);
}

#[test]
fn end_to_end_scenario() {
    let (mut store, status) = load_kv(None);
    assert_eq!(status, LoadStatus::Missing);
    put(&mut store, "username", "Hamza");
    put(&mut store, "age", "33");
    let mut keys = list_keys(&mut store);
    keys.sort();
    assert_eq!(keys, vec!["age".to_string(), "username".to_string()]);
    assert_eq!(get_value(&mut store, "username"), Some(b"Hamza".to_vec()));
    let (reply, saved) = kv_apply(&mut store, KvCommand::Reset);
    assert!(matches!(reply, KvReply::Cleared));
    assert!(saved);
    assert!(list_keys(&mut store).is_empty());
}

#[test]
fn decode_rejects_trailing_bytes() {
    let store = KvStore::new();
    let mut bytes = encode_kv(&store);
    bytes.push(0);
    assert!(decode_kv(&bytes).is_none());
}

#[test]
fn decode_rejects_truncated() {
    let mut store = KvStore::new();
    put(&mut store, "key", "value");
    let mut bytes = encode_kv(&store);
    bytes.pop();
    assert!(decode_kv(&bytes).is_none());
    assert!(decode_kv(&vec![1, 2, 3]).is_none());
}

#[test]
fn decode_rejects_duplicate_keys() {
    let mut bytes = le64(2);
    for value in [b"first", b"again"] {
        bytes.extend_from_slice(&block(b"dup"));
        bytes.extend_from_slice(&block(value));
    }
    assert!(decode_kv(&bytes).is_none());
}

#[test]
fn decode_rejects_invalid_utf8_key() {
    let mut bytes = le64(1);
    bytes.extend_from_slice(&block(&[0xff, 0xfe]));
    bytes.extend_from_slice(&block(b"v"));
    assert!(decode_kv(&bytes).is_none());
}

#[test]
fn decode_accepts_arbitrary_value_bytes() {
    let mut bytes = le64(1);
    bytes.extend_from_slice(&block(b"bin"));
    bytes.extend_from_slice(&block(&[0xff, 0x00, 0xfe]));
    let mut decoded = decode_kv(&bytes).expect("binary values are fine");
    assert_eq!(get_value(&mut decoded, "bin"), Some(vec![0xff, 0x00, 0xfe]));
}
