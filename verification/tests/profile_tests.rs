use kvstore::codec::{decode_profiles, encode_profiles};
use kvstore::command::{profile_apply, ProfileCommand, ProfileReply};
use kvstore::profile::ProfileStore;
use kvstore::snapshot::{load_profiles, LoadStatus};

fn add(store: &mut ProfileStore, name: &str, age: u64) {
    let cmd = ProfileCommand::Add { name: name.to_string(), age };
    let (reply, saved) = profile_apply(store, cmd);
    assert!(matches!(reply, ProfileReply::Added));
    assert!(saved);
}

fn names(store: &mut ProfileStore) -> Vec<(String, u64)> {
    let (reply, saved) = profile_apply(store, ProfileCommand::List);
    assert!(!saved);
    match reply {
        ProfileReply::Records { profiles } => {
            profiles.into_iter().map(|p| (p.name, p.age)).collect()
        }
        _ => panic!("unexpected reply to list"),
    }
}

#[test]
fn profile_round_trip() {
    let mut store = ProfileStore::new();
    add(&mut store, "Ada", 36);
    add(&mut store, "Grace", 85);
    add(&mut store, "caf\u{e9}", u64::MAX);
    let bytes = encode_profiles(&store);
    let mut decoded = decode_profiles(&bytes).expect("own encoding must decode");
    assert_eq!(
        names(&mut decoded),
        vec![
            ("Ada".to_string(), 36),
            ("Grace".to_string(), 85),
            ("caf\u{e9}".to_string(), u64::MAX),
        ]
    );
}

#[test]
fn profile_round_trip_empty() {
    let store = ProfileStore::new();
    let bytes = encode_profiles(&store);
    assert_eq!(bytes, vec![0u8; 8]);
    let decoded = decode_profiles(&bytes).expect("empty snapshot must decode");
    assert_eq!(decoded.len(), 0);
}

#[test]
fn positional_shift() {
    let mut store = ProfileStore::new();
    add(&mut store, "A", 1);
    add(&mut store, "B", 2);
    add(&mut store, "C", 3);
    let (reply, saved) = profile_apply(&mut store, ProfileCommand::Delete { index: 0 });
    assert!(matches!(reply, ProfileReply::Deleted));
    assert!(saved);
    assert_eq!(names(&mut store), vec![("B".to_string(), 2), ("C".to_string(), 3)]);
    let (reply, saved) = profile_apply(&mut store, ProfileCommand::Delete { index: 0 });
    assert!(matches!(reply, ProfileReply::Deleted));
    assert!(saved);
    assert_eq!(names(&mut store), vec![("C".to_string(), 3)]);
}

#[test]
fn out_of_range_delete_is_non_fatal() {
    let mut store = ProfileStore::new();
    add(&mut store, "only", 7);
    let before = encode_profiles(&store);
    let (reply, saved) = profile_apply(&mut store, ProfileCommand::Delete { index: 99 });
    assert!(matches!(reply, ProfileReply::InvalidIndex));
    assert!(!saved);
    assert_eq!(names(&mut store), vec![("only".to_string(), 7)]);
    assert_eq!(encode_profiles(&store), before);
}

#[test]
fn profile_reset_idempotent() {
    let mut store = ProfileStore::new();
    add(&mut store, "gone", 1);
    let (reply, saved) = profile_apply(&mut store, ProfileCommand::Reset);
    assert!(matches!(reply, ProfileReply::Cleared));
    assert!(saved);
    let once = encode_profiles(&store);
    let (_, _) = profile_apply(&mut store, ProfileCommand::Reset);
    let twice = encode_profiles(&store);
    assert_eq!(once, twice);
    assert_eq!(once, encode_profiles(&ProfileStore::new()));
}

#[test]
fn profile_missing_bootstrap() {
    let (store, status) = load_profiles(None);
    assert_eq!(status, LoadStatus::Missing);
    assert_eq!(store.len(), 0);
}

#[test]
fn profile_corruption_recovery() {
    let garbage = vec![9, 9, 9, 9, 9, 9, 9, 9, 9, 9];
    let (store, status) = load_profiles(Some(&garbage));
    assert_eq!(status, LoadStatus::Corrupt);
    assert_eq!(store.len(), 0);
}

#[test]
fn profile_good_snapshot_loads() {
    let mut store = ProfileStore::new();
    add(&mut store, "kept", 44);
    let bytes = encode_profiles(&store);
    let (mut loaded, status) = load_profiles(Some(&bytes));
    assert_eq!(status, LoadStatus::Loaded);
    assert_eq!(names(&mut loaded), vec![("kept".to_string(), 44)]);
}

#[test]
fn profile_decode_rejects_trailing_bytes() {
    let mut store = ProfileStore::new();
    add(&mut store, "x", 0);
    let mut bytes = encode_profiles(&store);
    bytes.push(0);
    assert!(decode_profiles(&bytes).is_none());
}

#[test]
fn profile_decode_rejects_truncated() {
    let mut store = ProfileStore::new();
    add(&mut store, "long-enough-name", 123);
    let mut bytes = encode_profiles(&store);
    bytes.truncate(bytes.len() - 4);
    assert!(decode_profiles(&bytes).is_none());
}
