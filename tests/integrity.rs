use file_integrity_checker::baseline::{baseline_from_read, decode_baseline, encode_baseline, BaselineError, ReadFailure};
use file_integrity_checker::compare::compare_hashes;
use file_integrity_checker::digest::{digest_hex, to_hex};
use file_integrity_checker::report::{build_notification_body, build_update_message};
use file_integrity_checker::run::{channel_of, has_changes, run_mode, Channel, RunMode};
use file_integrity_checker::snapshot::{record_file, snapshot_from};
use file_integrity_checker::table::{compare_paths, FingerprintTable, PathOrder};

const EMPTY_SHA256: &str = "e3b0c44298fc1c149afbf4c8996fb92427ae41e4649b934ca495991b7852b855";
const ABC_SHA256: &str = "ba7816bf8f01cfea414140de5dae2223b00361a396177a9cb410ff61f20015ad";

fn table_of(pairs: &[(&str, &str)]) -> FingerprintTable {
    let mut t = FingerprintTable::new();
    for (p, d) in pairs {
        t.insert(p.to_string(), d.to_string());
    }
    t
}

fn sorted(mut v: Vec<String>) -> Vec<String> {
    v.sort();
    v
}

fn sorted_entries(t: &FingerprintTable) -> Vec<(String, String)> {
    let mut e = t.entries_list();
    e.sort();
    e
}

fn strings(v: &[&str]) -> Vec<String> {
    v.iter().map(|s| s.to_string()).collect()
}

#[test]
fn scenario_modified_and_new() {
    let baseline = table_of(&[("a.txt", "H1"), ("b.txt", "H2")]);
    let current = table_of(&[("a.txt", "H1"), ("b.txt", "H3"), ("c.txt", "H4")]);
    let (modified, new_files, deleted) = compare_hashes(&current, &baseline);
    assert_eq!(sorted(modified), strings(&["b.txt"]));
    assert_eq!(sorted(new_files), strings(&["c.txt"]));
    assert!(deleted.is_empty());
}

#[test]
fn scenario_all_deleted() {
    let baseline = table_of(&[("a.txt", "H1")]);
    let current = FingerprintTable::new();
    let (modified, new_files, deleted) = compare_hashes(&current, &baseline);
    assert!(modified.is_empty());
    assert!(new_files.is_empty());
    assert_eq!(deleted, strings(&["a.txt"]));
}

#[test]
fn diff_partitions_paths() {
    let baseline = table_of(&[("same", "1"), ("changed", "2"), ("gone", "3"), ("gone2", "4")]);
    let current = table_of(&[("same", "1"), ("changed", "9"), ("fresh", "5")]);
    let (modified, new_files, deleted) = compare_hashes(&current, &baseline);
    assert_eq!(sorted(modified.clone()), strings(&["changed"]));
    assert_eq!(sorted(new_files.clone()), strings(&["fresh"]));
    assert_eq!(sorted(deleted.clone()), strings(&["gone", "gone2"]));
    let mut all: Vec<String> = modified.into_iter().chain(new_files).chain(deleted).collect();
    all.sort();
    let before = all.len();
    all.dedup();
    assert_eq!(before, all.len());
    assert!(!all.contains(&"same".to_string()));
}

#[test]
fn diff_of_identical_tables_is_empty() {
    let t = table_of(&[("x", "1"), ("y", "2")]);
    let u = table_of(&[("y", "2"), ("x", "1")]);
    let (m, n, d) = compare_hashes(&t, &u);
    assert!(m.is_empty() && n.is_empty() && d.is_empty());
}

#[test]
fn table_insert_replaces_digest() {
    let mut t = table_of(&[("a", "1")]);
    t.insert("a".to_string(), "2".to_string());
    assert_eq!(t.len(), 1);
    assert_eq!(t.get(&"a".to_string()), Some(&"2".to_string()));
    assert!(t.contains_key(&"a".to_string()));
    assert!(!t.contains_key(&"b".to_string()));
    assert_eq!(t.get(&"b".to_string()), None);
}

#[test]
fn digest_of_known_inputs() {
    assert_eq!(digest_hex(b""), EMPTY_SHA256);
    assert_eq!(digest_hex(b"abc"), ABC_SHA256);
    assert_eq!(digest_hex(b"abc").len(), 64);
}

#[test]
fn hex_encoding() {
    assert_eq!(to_hex(&[0x00, 0x0f, 0xa5, 0xff]), "000fa5ff");
    assert_eq!(to_hex(&[]), "");
}

#[test]
fn record_file_adds_digest() {
    let mut t = FingerprintTable::new();
    record_file(&mut t, "root/abc".to_string(), b"abc");
    assert_eq!(t.get(&"root/abc".to_string()), Some(&ABC_SHA256.to_string()));
}

#[test]
fn snapshot_is_deterministic() {
    let a = vec![
        ("r/a".to_string(), b"one".to_vec()),
        ("r/b".to_string(), b"two".to_vec()),
        ("r/c".to_string(), b"".to_vec()),
    ];
    let b = vec![a[2].clone(), a[0].clone(), a[1].clone()];
    let first = snapshot_from(&a);
    let second = snapshot_from(&a);
    let reordered = snapshot_from(&b);
    assert_eq!(sorted_entries(&first), sorted_entries(&second));
    assert_eq!(sorted_entries(&first), sorted_entries(&reordered));
    assert_eq!(first.get(&"r/c".to_string()), Some(&EMPTY_SHA256.to_string()));
}

#[test]
fn snapshot_content_sensitivity() {
    let files = vec![
        ("r/a".to_string(), b"abc".to_vec()),
        ("r/b".to_string(), b"other".to_vec()),
    ];
    let mut changed = files.clone();
    changed[0].1[1] = b'x';
    let before = snapshot_from(&files);
    let after = snapshot_from(&changed);
    let a = "r/a".to_string();
    let b = "r/b".to_string();
    assert_ne!(before.get(&a), after.get(&a));
    assert_eq!(before.get(&b), after.get(&b));
    assert_eq!(after.get(&a), Some(&digest_hex(b"axc")));
}

#[test]
fn round_trip_empty_table() {
    let t = FingerprintTable::new();
    let text = encode_baseline(&t).unwrap();
    assert_eq!(text, "{\n  \"hashes\": {}\n}");
    let back = decode_baseline(&text).unwrap();
    assert_eq!(back.len(), 0);
}

#[test]
fn round_trip_single_entry() {
    let t = table_of(&[("a.txt", "H1")]);
    let text = encode_baseline(&t).unwrap();
    assert_eq!(text, "{\n  \"hashes\": {\n    \"a.txt\": \"H1\"\n  }\n}");
    let back = decode_baseline(&text).unwrap();
    assert_eq!(sorted_entries(&back), sorted_entries(&t));
}

#[test]
fn round_trip_thousand_entries() {
    let mut t = FingerprintTable::new();
    for i in 0..1000u32 {
        let path = match i % 4 {
            0 => format!("/var/www/site/file{}.php", i),
            1 => format!("rel/dir with space/{}\u{e9}.txt", i),
            2 => format!("C:\\data\\\"quoted\"\\{}", i),
            _ => format!("deep/{}/{}/{}.bin", i % 7, i % 13, i),
        };
        t.insert(path, digest_hex(&i.to_le_bytes()));
    }
    assert_eq!(t.len(), 1000);
    let text = encode_baseline(&t).unwrap();
    let back = decode_baseline(&text).unwrap();
    assert_eq!(back.len(), 1000);
    assert_eq!(sorted_entries(&back), sorted_entries(&t));
}

#[test]
fn repeated_update_writes_identical_text() {
    let files = vec![
        ("r/a".to_string(), b"one".to_vec()),
        ("r/b".to_string(), b"two".to_vec()),
    ];
    let reversed = vec![files[1].clone(), files[0].clone()];
    let first = encode_baseline(&snapshot_from(&files)).unwrap();
    let second = encode_baseline(&snapshot_from(&files)).unwrap();
    let third = encode_baseline(&snapshot_from(&reversed)).unwrap();
    assert_eq!(first, second);
    assert_eq!(first, third);
}

#[test]
fn missing_baseline_is_not_found() {
    match baseline_from_read(Err(ReadFailure::NotFound)) {
        Err(e) => assert_eq!(e, BaselineError::NotFound),
        Ok(_) => panic!("a missing baseline must not load"),
    }
}

#[test]
fn unreadable_baseline_is_io_error() {
    assert!(matches!(baseline_from_read(Err(ReadFailure::Other)), Err(BaselineError::Unreadable)));
}

#[test]
fn corrupt_baseline_is_format_error() {
    assert!(matches!(decode_baseline("not json"), Err(BaselineError::Format)));
    assert!(matches!(decode_baseline("{\"other\": {}}"), Err(BaselineError::Format)));
    assert!(matches!(decode_baseline("{\"hashes\": {\"a\": 1}}"), Err(BaselineError::Format)));
    assert!(matches!(baseline_from_read(Ok("[1, 2]".to_string())), Err(BaselineError::Format)));
}

#[test]
fn baseline_text_loads() {
    let t = baseline_from_read(Ok("{\"hashes\": {\"a\": \"H1\", \"b\": \"H2\"}}".to_string())).unwrap();
    assert_eq!(t.get(&"a".to_string()), Some(&"H1".to_string()));
    assert_eq!(t.get(&"b".to_string()), Some(&"H2".to_string()));
    assert_eq!(t.len(), 2);
}

#[test]
fn notification_body_lists_sections() {
    let body = build_notification_body(
        "Acme",
        "web1",
        &strings(&["b.txt"]),
        &strings(&["c.txt", "d.txt"]),
        &[],
    );
    assert_eq!(
        body,
        "Warning for Acme on web1: File integrity issues detected.\n\n\
         Modified Files:\n  - b.txt\n\
         \nNew Files:\n  - c.txt\n  - d.txt\n"
    );
}

#[test]
fn notification_body_with_deletions_only() {
    let body = build_notification_body("C", "S", &[], &[], &strings(&["x"]));
    assert_eq!(body, "Warning for C on S: File integrity issues detected.\n\n\nDeleted Files:\n  - x\n");
}

#[test]
fn update_message_text() {
    assert_eq!(
        build_update_message("Acme", "web1"),
        "Info for Acme on web1: Baseline has been updated successfully."
    );
}

#[test]
fn run_modes() {
    assert_eq!(run_mode(true, true), RunMode::UpdateOnly);
    assert_eq!(run_mode(false, true), RunMode::UpdateOnly);
    assert_eq!(run_mode(false, false), RunMode::UpdateThenCheck);
    assert_eq!(run_mode(true, false), RunMode::CheckOnly);
}

#[test]
fn channels() {
    assert_eq!(channel_of("slack"), Channel::Slack);
    assert_eq!(channel_of("smtp"), Channel::Smtp);
    assert_eq!(channel_of("pager"), Channel::Unknown);
}

#[test]
fn changes_detected() {
    assert!(!has_changes(&[], &[], &[]));
    assert!(has_changes(&[], &strings(&["n"]), &[]));
}

#[test]
fn baseline_with_extra_members_loads() {
    let t = decode_baseline("{\"version\": 2, \"hashes\": {\"a\": \"H1\"}, \"note\": [1, {\"x\": null}]}").unwrap();
    assert_eq!(t.len(), 1);
    assert_eq!(t.get(&"a".to_string()), Some(&"H1".to_string()));
    assert!(matches!(decode_baseline("{\"version\": 2, \"hashes\": [\"a\"]}"), Err(BaselineError::Format)));
}

#[test]
fn path_order() {
    assert_eq!(compare_paths("a/b", "a/c"), PathOrder::Less);
    assert_eq!(compare_paths("a/b", "a/b"), PathOrder::Equal);
    assert_eq!(compare_paths("a/bc", "a/b"), PathOrder::Greater);
    assert_eq!(compare_paths("", "x"), PathOrder::Less);
    assert_eq!(compare_paths("\u{e9}", "z"), PathOrder::Greater);
}

#[test]
fn entries_come_out_sorted() {
    let t = table_of(&[("m", "1"), ("b", "2"), ("z", "3"), ("a", "4"), ("m", "5")]);
    let paths: Vec<String> = t.entries_list().into_iter().map(|e| e.0).collect();
    assert_eq!(paths, strings(&["a", "b", "m", "z"]));
    assert_eq!(t.get(&"m".to_string()), Some(&"5".to_string()));
}
