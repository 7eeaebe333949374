use sightingdb::acl::{can_read, can_write, is_segment_prefix, Access};
use sightingdb::db::Database;
use sightingdb::journal::{decode_log, encode_op, get_u64, put_u64, LogOp};
use sightingdb::transport::{decode_value, encode_value};
use sightingdb::{Authorization, BulkOutcome, BulkSighting, InfoData, Refusal, SharedState, Stats};

fn item(ns: &str, value: &str, timestamp: Option<i64>) -> BulkSighting {
    BulkSighting {
        namespace: ns.to_string(),
        value: value.to_string(),
        timestamp,
        noshadow: false,
    }
}

#[test]
fn write_then_read_counts_the_write() {
    let mut st = SharedState::new();
    assert!(st.write("malware/hash", b"abc", 1234, 0));
    let s = st.read("malware/hash", b"abc", true, true).unwrap();
    assert_eq!(s.count, 1);
    assert_eq!(s.last_seen, Some(1234));
    assert!(st.write("malware/hash", b"abc", 1300, 0));
    assert_eq!(st.read("malware/hash", b"abc", true, true).unwrap().count, 2);
}

#[test]
fn zero_timestamp_means_now() {
    let mut st = SharedState::new();
    assert!(st.write("ns", b"v", 0, 777));
    let s = st.read("ns", b"v", true, false).unwrap();
    assert_eq!(s.first_seen, Some(777));
    assert_eq!(s.last_seen, Some(777));
}

#[test]
fn first_seen_is_kept_and_last_seen_follows_writes() {
    let mut st = SharedState::new();
    st.write("ns", b"v", 100, 0);
    st.write("ns", b"v", 250, 0);
    st.write("ns", b"v", 180, 0);
    let s = st.read("ns", b"v", true, true).unwrap();
    assert_eq!(s.first_seen, Some(100));
    assert_eq!(s.last_seen, Some(180));
    assert_eq!(s.count, 3);
}

#[test]
fn read_modes_select_fields() {
    let mut st = SharedState::new();
    st.write("ns", b"v", 5, 0);
    assert_eq!(
        st.read("ns", b"v", false, false),
        Some(Stats { count: 1, shadow_count: None, first_seen: None, last_seen: None })
    );
    assert_eq!(
        st.read("ns", b"v", true, true),
        Some(Stats { count: 1, shadow_count: Some(0), first_seen: Some(5), last_seen: Some(5) })
    );
    assert_eq!(st.read("ns", b"other", true, true), None);
    assert_eq!(st.read("other", b"v", true, true), None);
}

#[test]
fn decay_rotates_once_per_boundary() {
    let mut st = SharedState::with_decay_period(100);
    st.write("ns", b"v", 10, 0);
    st.write("ns", b"v", 20, 0);
    let s = st.read("ns", b"v", false, true).unwrap();
    assert_eq!((s.count, s.shadow_count), (2, Some(0)));
    st.write("ns", b"v", 150, 0);
    let s = st.read("ns", b"v", false, true).unwrap();
    assert_eq!((s.count, s.shadow_count), (1, Some(2)));
    st.write("ns", b"v", 160, 0);
    st.write("ns", b"v", 199, 0);
    let s = st.read("ns", b"v", false, true).unwrap();
    assert_eq!((s.count, s.shadow_count), (3, Some(2)));
    st.write("ns", b"v", 200, 0);
    let s = st.read("ns", b"v", false, true).unwrap();
    assert_eq!((s.count, s.shadow_count), (1, Some(3)));
    let s = st.read("ns", b"v", false, false).unwrap();
    assert_eq!((s.count, s.shadow_count), (1, None));
}

#[test]
fn no_decay_without_a_period() {
    let mut st = SharedState::new();
    st.write("ns", b"v", 10, 0);
    st.write("ns", b"v", 1_000_000, 0);
    let s = st.read("ns", b"v", false, true).unwrap();
    assert_eq!((s.count, s.shadow_count), (2, Some(0)));
}

#[test]
fn suppressed_shadow_does_not_rotate() {
    let mut db = Database::new(10);
    assert!(db.write(b"ns", b"v", 1, false));
    assert!(db.write(b"ns", b"v", 50, true));
    let r = db.read(b"ns", b"v").unwrap();
    assert_eq!((r.count, r.shadow_count, r.last_decay_at), (2, 0, 0));
}

#[test]
fn read_namespace_keeps_insertion_order() {
    let mut st = SharedState::new();
    st.write("ns", b"b", 1, 0);
    st.write("other", b"x", 2, 0);
    st.write("ns", b"a", 3, 0);
    st.write("ns", b"b", 4, 0);
    let list = st.read_namespace("ns");
    assert_eq!(list.len(), 2);
    assert_eq!(list[0].value, b"b".to_vec());
    assert_eq!(list[0].record.count, 2);
    assert_eq!(list[1].value, b"a".to_vec());
    assert_eq!(list[1].record.count, 1);
    assert!(st.read_namespace("ns/sub").is_empty());
}

#[test]
fn delete_removes_the_whole_namespace() {
    let mut st = SharedState::new();
    st.write("ns", b"a", 1, 0);
    st.write("ns", b"b", 2, 0);
    st.write("keep", b"a", 3, 0);
    assert!(st.delete("ns"));
    assert!(st.read_namespace("ns").is_empty());
    assert_eq!(st.read("ns", b"a", false, false), None);
    assert!(!st.delete("ns"));
    assert_eq!(st.read("keep", b"a", false, false).unwrap().count, 1);
}

#[test]
fn delete_of_absent_namespace_is_false() {
    let mut st = SharedState::new();
    assert!(!st.delete("nothing"));
}

#[test]
fn write_only_grant_scenario() {
    let mut st = SharedState::new();
    assert!(st.grant("k1", Access::Write, "team/x", 1));
    assert!(!can_read(&st.db, b"k1", b"team/x/value1"));
    assert!(can_write(&st.db, b"k1", b"team/x/value1"));
    assert!(!can_read(&st.db, b"k1", b"other/y"));
    assert!(!can_write(&st.db, b"k1", b"other/y"));
    assert_eq!(st.authorize(Some("k1"), "team/x/value1", Access::Read), Authorization::Denied);
    assert_eq!(st.authorize(Some("k1"), "team/x/value1", Access::Write), Authorization::Granted);
}

#[test]
fn prefix_match_is_by_segment() {
    assert!(is_segment_prefix(b"a/b", b"a/b"));
    assert!(is_segment_prefix(b"a/b", b"a/b/c"));
    assert!(!is_segment_prefix(b"a/b", b"a/bc"));
    assert!(!is_segment_prefix(b"a/b", b"a"));
    assert!(is_segment_prefix(b"", b"anything"));
    let mut st = SharedState::new();
    st.grant("k", Access::Read, "a/b", 1);
    assert!(!can_read(&st.db, b"k", b"a/bc"));
    assert!(can_read(&st.db, b"k", b"a/b"));
}

#[test]
fn unknown_or_missing_key_is_refused() {
    let mut st = SharedState::new();
    st.grant("k", Access::Read, "", 1);
    assert_eq!(st.authorize(Some("nope"), "ns", Access::Read), Authorization::Denied);
    assert_eq!(st.authorize(None, "ns", Access::Read), Authorization::MissingKey);
    assert_eq!(st.authorize(Some("k"), "ns", Access::Read), Authorization::Granted);
    st.authenticate = false;
    assert_eq!(st.authorize(None, "ns", Access::Write), Authorization::Granted);
}

#[test]
fn install_api_key_replaces_placeholder() {
    let mut st = SharedState::new();
    st.grant("changeme", Access::Write, "", 1);
    assert!(can_write(&st.db, b"changeme", b"ns"));
    assert!(st.install_api_key("secretkey", 2));
    assert!(!can_write(&st.db, b"changeme", b"ns"));
    assert!(can_write(&st.db, b"secretkey", b"ns"));
    assert!(can_read(&st.db, b"secretkey", b"deep/ns/path"));
    assert_eq!(st.read_namespace("_config/acl/apikeys/secretkey").len(), 2);
}

#[test]
fn restart_from_log_restores_state() {
    let mut st = SharedState::new();
    st.write("ns", b"v1", 100, 0);
    st.write("ns", b"v2", 200, 0);
    let before = st.read_namespace("ns");
    let db = Database::replay_log(st.db.log_bytes().as_slice(), 0).unwrap();
    let after = db.read_namespace(b"ns");
    assert_eq!(after.len(), 2);
    for k in 0..2 {
        assert_eq!(after[k].value, before[k].value);
        assert_eq!(after[k].record, before[k].record);
    }
    assert_eq!(after[0].record.last_seen, 100);
    assert_eq!(after[1].record.last_seen, 200);
}

#[test]
fn restart_replays_deletes_and_decay() {
    let mut st = SharedState::with_decay_period(50);
    st.write("a", b"x", 10, 0);
    st.write("b", b"y", 20, 0);
    st.write("a", b"x", 70, 0);
    st.delete("b");
    let db = Database::replay_log(st.db.log_bytes().as_slice(), 50).unwrap();
    assert_eq!(db.read(b"a", b"x"), st.db.read(b"a", b"x"));
    assert_eq!(db.read(b"a", b"x").unwrap().shadow_count, 1);
    assert_eq!(db.read(b"b", b"y"), None);
    assert_eq!(db.log_bytes(), st.db.log_bytes());
}

#[test]
fn torn_final_frame_is_discarded() {
    let mut st = SharedState::new();
    st.write("ns", b"v1", 100, 0);
    st.write("ns", b"v2", 200, 0);
    let mut bytes = st.db.log_bytes().clone();
    bytes.pop();
    let db = Database::replay_log(bytes.as_slice(), 0).unwrap();
    let list = db.read_namespace(b"ns");
    assert_eq!(list.len(), 1);
    assert_eq!(list[0].value, b"v1".to_vec());
}

#[test]
fn log_frames_round_trip() {
    let mut out = Vec::new();
    let w = LogOp::Write {
        namespace: b"n/s".to_vec(),
        value: b"val".to_vec(),
        timestamp: 0x0102030405060708,
        suppress_shadow: true,
    };
    encode_op(&mut out, &w);
    encode_op(&mut out, &LogOp::Delete { namespace: b"n/s".to_vec() });
    assert_eq!(out[0], 1);
    assert_eq!(&out[1..9], &[3, 0, 0, 0, 0, 0, 0, 0]);
    assert_eq!(out.len(), 1 + 8 + 3 + 8 + 3 + 8 + 1 + 1 + 8 + 3);
    let ops = decode_log(&out).unwrap();
    assert_eq!(ops.len(), 2);
    match &ops[0] {
        LogOp::Write { namespace, value, timestamp, suppress_shadow } => {
            assert_eq!(namespace, &b"n/s".to_vec());
            assert_eq!(value, &b"val".to_vec());
            assert_eq!(*timestamp, 0x0102030405060708);
            assert!(*suppress_shadow);
        }
        _ => panic!("expected a write"),
    }
    assert!(matches!(&ops[1], LogOp::Delete { namespace } if namespace == &b"n/s".to_vec()));
    assert_eq!(decode_log(&[9, 1, 2]).err(), Some(0));
}

#[test]
fn u64_fields_are_little_endian() {
    let mut out = Vec::new();
    put_u64(&mut out, 0x0102030405060708);
    assert_eq!(out, vec![8, 7, 6, 5, 4, 3, 2, 1]);
    assert_eq!(get_u64(&out, 0), Some(0x0102030405060708));
    assert_eq!(get_u64(&out, 1), None);
}

#[test]
fn bulk_write_is_not_atomic() {
    let mut st = SharedState::new();
    st.grant("k", Access::Write, "team", 1);
    let items = vec![
        item("team/a", "djE", Some(10)),
        item("secret/b", "djI", Some(20)),
        item("team/c", "djM", None),
    ];
    let out = st.write_bulk(Some("k"), &items, 99);
    assert_eq!(out, vec![BulkOutcome::Written, BulkOutcome::Denied, BulkOutcome::Written]);
    assert_eq!(st.read("team/a", b"v1", true, false).unwrap().last_seen, Some(10));
    assert_eq!(st.read("secret/b", b"v2", false, false), None);
    assert_eq!(st.read("team/c", b"v3", true, false).unwrap().last_seen, Some(99));
}

#[test]
fn bulk_write_skips_empty_values_and_needs_a_key() {
    let mut st = SharedState::new();
    let items = vec![item("ns", "", Some(1)), item("ns", "dg", Some(1)), item("ns", "d", Some(1))];
    let out = st.write_bulk(None, &items, 5);
    assert_eq!(out, vec![BulkOutcome::Skipped, BulkOutcome::MissingKey, BulkOutcome::Malformed]);
    st.authenticate = false;
    let out = st.write_bulk(None, &items, 5);
    assert_eq!(out, vec![BulkOutcome::Skipped, BulkOutcome::Written, BulkOutcome::Malformed]);
    assert_eq!(st.read("ns", b"v", false, false).unwrap().count, 1);
}

#[test]
fn bulk_read_stops_at_refused_item() {
    let mut st = SharedState::new();
    st.grant("k", Access::Read, "pub", 1);
    st.authenticate = false;
    st.write("pub/a", b"v", 3, 0);
    st.authenticate = true;
    let ok = vec![item("pub/a", "dg", None), item("pub/a", "dw", None)];
    let r = st.read_bulk(Some("k"), &ok, true).unwrap();
    assert_eq!(r[0].unwrap().count, 1);
    assert_eq!(r[0].unwrap().first_seen, Some(3));
    assert_eq!(r[1], None);
    let malformed = vec![item("pub/a", "dg", None), item("pub/a", "d!", None)];
    assert_eq!(st.read_bulk(Some("k"), &malformed, false), Err(Refusal::Malformed));
    let bad = vec![item("pub/a", "dg", None), item("priv", "dg", None)];
    assert_eq!(st.read_bulk(Some("k"), &bad, false), Err(Refusal::Denied));
    assert_eq!(st.read_bulk(None, &ok, false), Err(Refusal::MissingKey));
}

#[test]
fn info_reports_the_server() {
    let info = InfoData::current();
    assert_eq!(info.implementation, "SightingDB");
    assert_eq!(info.version, "0.0.5");
    assert_eq!(info.vendor, "NCOC");
    assert_eq!(info.author, "Cooper");
}

#[test]
fn base64url_values_decode() {
    assert_eq!(decode_value(b"aGVsbG8"), Some(b"hello".to_vec()));
    assert_eq!(decode_value(b"aGVsbG8gd29ybGQ"), Some(b"hello world".to_vec()));
    assert_eq!(decode_value(b"AQID"), Some(vec![1, 2, 3]));
    assert_eq!(decode_value(b"-_8"), Some(vec![251, 255]));
    assert_eq!(decode_value(b""), Some(vec![]));
}

#[test]
fn malformed_base64url_is_rejected() {
    assert_eq!(decode_value(b"ab+c"), None);
    assert_eq!(decode_value(b"abcde"), None);
    assert_eq!(decode_value(b"aGVsbG9"), None);
    assert_eq!(decode_value(b"aGVsbG8="), None);
}

#[test]
fn values_encode_as_base64url() {
    assert_eq!(encode_value(b"hello"), b"aGVsbG8".to_vec());
    assert_eq!(encode_value(&[251, 255]), b"-_8".to_vec());
    assert_eq!(encode_value(&[1, 2, 3]), b"AQID".to_vec());
    assert_eq!(encode_value(b""), Vec::<u8>::new());
    let raw: Vec<u8> = (0..=255).collect();
    assert_eq!(decode_value(&encode_value(&raw)), Some(raw));
}

#[test]
fn compaction_keeps_state_and_shortens_log() {
    let mut st = SharedState::with_decay_period(100);
    for t in 1..20u64 {
        st.write("ns", b"a", t * 10, 0);
    }
    st.write("ns", b"b", 5, 0);
    st.write("gone", b"c", 5, 0);
    st.delete("gone");
    let compacted = st.db.compact();
    assert!(compacted.log_bytes().len() < st.db.log_bytes().len());
    assert_eq!(compacted.read(b"ns", b"a"), st.db.read(b"ns", b"a"));
    assert_eq!(compacted.read(b"ns", b"a").unwrap().shadow_count, 9);
    let restarted = Database::replay_log(compacted.log_bytes().as_slice(), 100).unwrap();
    let before = st.db.read_namespace(b"ns");
    let after = restarted.read_namespace(b"ns");
    assert_eq!(after.len(), before.len());
    for k in 0..before.len() {
        assert_eq!(after[k].value, before[k].value);
        assert_eq!(after[k].record, before[k].record);
    }
    assert_eq!(restarted.read(b"gone", b"c"), None);
}

#[test]
fn put_frames_round_trip() {
    let rec = sightingdb::record::Record {
        count: 7,
        shadow_count: 3,
        first_seen: 10,
        last_seen: 90,
        last_decay_at: 50,
    };
    let mut out = Vec::new();
    encode_op(&mut out, &LogOp::Put { namespace: b"n".to_vec(), value: b"v".to_vec(), record: rec });
    assert_eq!(out[0], 3);
    assert_eq!(out.len(), 1 + 8 + 1 + 8 + 1 + 40);
    let ops = decode_log(&out).unwrap();
    assert!(matches!(&ops[0], LogOp::Put { record, .. } if *record == rec));
    assert!(decode_log(&out[..out.len() - 1]).unwrap().is_empty());
}

#[test]
fn default_state_is_empty_and_authenticating() {
    let st = SharedState::default();
    assert!(st.authenticate);
    assert_eq!(st.db.len(), 0);
    assert_eq!(st.db.decay_period(), 0);
    assert!(st.db.log_bytes().is_empty());
}

#[test]
fn compacted_log_is_one_frame_per_record() {
    let mut st = SharedState::new();
    st.write("ns", b"a", 1, 0);
    st.write("ns", b"a", 2, 0);
    st.write("ns", b"b", 3, 0);
    let c = st.db.compact();
    let ops = decode_log(c.log_bytes()).unwrap();
    assert_eq!(ops.len(), 2);
    assert!(ops.iter().all(|op| matches!(op, LogOp::Put { .. })));
}

#[test]
fn facade_operations_only_append_to_the_log() {
    let mut st = SharedState::new();
    st.write("ns", b"a", 1, 0);
    let l1 = st.db.log_bytes().clone();
    st.grant("k", Access::Write, "", 2);
    let l2 = st.db.log_bytes().clone();
    assert!(l2.starts_with(&l1) && l2.len() > l1.len());
    st.write_bulk(Some("k"), &vec![item("ns", "Yg", Some(3))], 4);
    let l3 = st.db.log_bytes().clone();
    assert!(l3.starts_with(&l2) && l3.len() > l2.len());
    st.install_api_key("admin", 5);
    let l4 = st.db.log_bytes().clone();
    assert!(l4.starts_with(&l3) && l4.len() > l3.len());
    assert!(!st.delete("absent"));
    assert_eq!(st.db.log_bytes(), &l4);
}

#[test]
fn malformed_frame_inside_the_log_is_reported() {
    let mut st = SharedState::new();
    st.write("ns", b"v1", 100, 0);
    let first = st.db.log_bytes().len();
    st.write("ns", b"v2", 200, 0);
    st.write("ns", b"v3", 300, 0);
    let mut bytes = st.db.log_bytes().clone();
    bytes[first] = 9;
    assert_eq!(Database::replay_log(bytes.as_slice(), 0).err(), Some(first));
    // The last byte of a write frame is its flag, which must be 0 or 1.
    let mut flag = st.db.log_bytes().clone();
    flag[first - 1] = 7;
    assert_eq!(decode_log(&flag).err(), Some(0));
}
