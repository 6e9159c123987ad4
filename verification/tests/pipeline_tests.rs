use ouroboros::diff::make_diff;
use ouroboros::pipeline::{
    alias_collision, diff_file_name, load_history, should_skip_content, should_skip_metadata,
    store_version, ProcessError,
};
use ouroboros::alias::calculate_path_alias;
use ouroboros::sha::canon_hash_of;

#[test]
fn fresh_file_is_never_skipped() {
    let h = load_history(None, b"a.txt".to_vec(), b"/w/a.txt".to_vec());
    assert!(!should_skip_metadata(&h, 6, 1));
    assert!(!should_skip_content(&h, &canon_hash_of(b"hello\n")));
}

#[test]
fn ingest_modify_ingest_scenario() {
    // first run: one record, no diff (no prior snapshot)
    let mut history = load_history(None, b"a.txt".to_vec(), b"/w/a.txt".to_vec());
    let content1 = b"hello\n".to_vec();
    assert!(!should_skip_metadata(&history, 6, 100));
    let hash1 = canon_hash_of(&content1);
    assert!(!should_skip_content(&history, &hash1));
    let diff1 = make_diff(false, 6, None, Some(&content1), b"a.txt");
    assert!(diff1.is_none());
    let stored1 = store_version(&mut history, hash1.clone(), 6, 100, None);
    assert_eq!(history.versions.len(), 1);
    assert_eq!(history.versions[0].version, 1);
    let latest = content1.clone();

    // second run: the file changed
    let mut history = load_history(Some(&stored1), b"a.txt".to_vec(), b"/w/a.txt".to_vec());
    let content2 = b"hello world\n".to_vec();
    assert!(!should_skip_metadata(&history, 12, 200));
    let hash2 = canon_hash_of(&content2);
    assert!(!should_skip_content(&history, &hash2));
    let diff2 = make_diff(true, 12, Some(&latest), Some(&content2), b"a.txt").unwrap();
    let name = diff_file_name(history.versions.len() as u64 + 1);
    assert_eq!(name, b"v2.diff".to_vec());
    let diff_text = String::from_utf8(diff2).unwrap();
    assert!(diff_text.contains("-hello\n"));
    assert!(diff_text.contains("+hello world\n"));
    assert!(diff_text.contains("a.txt"));
    let _stored2 = store_version(&mut history, hash2.clone(), 12, 200, Some(name));
    assert_eq!(history.versions.len(), 2);
    assert_eq!(history.versions[1].version, 2);
    assert_eq!(history.versions[1].hash, hash2);
    assert_eq!(history.versions[1].diff_file, Some(b"v2.diff".to_vec()));
}

#[test]
fn unchanged_file_is_skipped_and_history_bytes_stay_identical() {
    // first run stores one version
    let mut history = load_history(None, b"a.txt".to_vec(), b"/w/a.txt".to_vec());
    let content = b"hello\n".to_vec();
    let hash = canon_hash_of(&content);
    let stored = store_version(&mut history, hash.clone(), 6, 100, None);

    // second run: metadata unchanged, so the cheap check skips before hashing
    let reloaded = load_history(Some(&stored), b"a.txt".to_vec(), b"/w/a.txt".to_vec());
    assert!(should_skip_metadata(&reloaded, 6, 100));
    // nothing is written, so the history file is byte-identical
    let on_disk_after_second_run = stored.clone();
    assert_eq!(on_disk_after_second_run, stored);

    // a touch without an edit: metadata drifts but content does not
    assert!(!should_skip_metadata(&reloaded, 6, 999));
    assert!(should_skip_content(&reloaded, &hash));
}

#[test]
fn cr_only_change_is_skipped_by_the_content_check() {
    let mut history = load_history(None, b"a.txt".to_vec(), b"/w/a.txt".to_vec());
    let unix = b"one\ntwo\n".to_vec();
    let hash = canon_hash_of(&unix);
    let stored = store_version(&mut history, hash, 8, 100, None);

    let reloaded = load_history(Some(&stored), b"a.txt".to_vec(), b"/w/a.txt".to_vec());
    let dos = b"one\r\ntwo\r\n".to_vec();
    // size and mtime drifted, so the cheap check does not skip
    assert!(!should_skip_metadata(&reloaded, dos.len() as u64, 200));
    // but the canonical hash is unchanged, so no new version is recorded
    assert!(should_skip_content(&reloaded, &canon_hash_of(&dos)));
}

#[test]
fn unparsable_history_resets_version_numbering() {
    let h = load_history(
        Some(&b"{ corrupted".to_vec()),
        b"a.txt".to_vec(),
        b"/w/a.txt".to_vec(),
    );
    assert_eq!(h.versions.len(), 0);
    assert_eq!(h.alias, b"a.txt".to_vec());
    assert_eq!(h.original_path, b"/w/a.txt".to_vec());
    let mut h = h;
    let stored = store_version(&mut h, canon_hash_of(b"x"), 1, 1, None);
    assert_eq!(h.versions[0].version, 1);
    assert!(!stored.is_empty());
}

#[test]
fn colliding_aliases_are_flagged() {
    let first = b"/data/My File.txt".to_vec();
    let second = b"/data/my_file.txt".to_vec();
    let a1 = calculate_path_alias(&first, b"/none");
    let a2 = calculate_path_alias(&second, b"/none");
    assert_eq!(a1, a2); // the two paths share one alias directory

    // the first path stores a version under the shared alias
    let mut history = load_history(None, a1.clone(), first.clone());
    let stored = store_version(&mut history, canon_hash_of(b"mine"), 4, 1, None);

    // the second path loads the same directory: the collision is detected
    let loaded = load_history(Some(&stored), a2.clone(), second.clone());
    assert!(alias_collision(&loaded, &second));
    assert!(!alias_collision(&loaded, &first));
}

#[test]
fn process_error_carries_the_offending_path() {
    let e = ProcessError::CreateDir(b"/m/a".to_vec());
    assert_eq!(e.path(), &b"/m/a".to_vec());
    let e = ProcessError::File(b"/w/a.txt".to_vec());
    assert_eq!(e.path(), &b"/w/a.txt".to_vec());
    let e = ProcessError::Metadata(b"/m/a/history.json".to_vec());
    assert_eq!(e.path(), &b"/m/a/history.json".to_vec());
    assert!(matches!(e, ProcessError::Metadata(_)));
}

#[test]
fn diff_names_follow_the_version_number() {
    assert_eq!(diff_file_name(1), b"v1.diff".to_vec());
    assert_eq!(diff_file_name(2), b"v2.diff".to_vec());
    assert_eq!(diff_file_name(120), b"v120.diff".to_vec());
}
