use ouroboros::history::{FileHistory, FileVersion};
use ouroboros::json::{history_from_json, history_to_json};

fn sample_history() -> FileHistory {
    FileHistory {
        versions: vec![
            FileVersion {
                version: 1,
                hash: b"abc123".to_vec(),
                size: 6,
                mtime_ns: 1700000000000000000,
                processed_at: b"2024-01-01T00:00:00+00:00".to_vec(),
                diff_file: None,
            },
            FileVersion {
                version: 2,
                hash: b"def456".to_vec(),
                size: 12,
                mtime_ns: 1700000001000000000,
                processed_at: b"2024-01-02T00:00:00+00:00".to_vec(),
                diff_file: Some(b"v2.diff".to_vec()),
            },
        ],
        alias: b"src_a.rs".to_vec(),
        original_path: b"/home/user/project/src/a.rs".to_vec(),
    }
}

#[test]
fn emitted_json_has_the_documented_shape() {
    let h = sample_history();
    let bytes = history_to_json(&h);
    let text = String::from_utf8(bytes).unwrap();
    let expected = "{\n  \"versions\": [\n    {\n      \"version\": 1,\n      \"hash\": \"abc123\",\n      \"size\": 6,\n      \"mtime_ns\": 1700000000000000000,\n      \"processed_at\": \"2024-01-01T00:00:00+00:00\",\n      \"diff_file\": null\n    },\n    {\n      \"version\": 2,\n      \"hash\": \"def456\",\n      \"size\": 12,\n      \"mtime_ns\": 1700000001000000000,\n      \"processed_at\": \"2024-01-02T00:00:00+00:00\",\n      \"diff_file\": \"v2.diff\"\n    }\n  ],\n  \"alias\": \"src_a.rs\",\n  \"original_path\": \"/home/user/project/src/a.rs\"\n}";
    assert_eq!(text, expected);
}

#[test]
fn emitted_json_is_parsed_by_serde_json() {
    // the persisted form is real JSON
    let h = sample_history();
    let bytes = history_to_json(&h);
    let value: serde_json::Value = serde_json::from_slice(&bytes).unwrap();
    assert_eq!(value["versions"][0]["version"], 1);
    assert_eq!(value["versions"][1]["diff_file"], "v2.diff");
    assert_eq!(value["alias"], "src_a.rs");
}

#[test]
fn round_trip_recovers_the_history() {
    let h = sample_history();
    let bytes = history_to_json(&h);
    let back = history_from_json(&bytes).unwrap();
    assert_eq!(back.versions.len(), 2);
    assert_eq!(back.versions[0].version, 1);
    assert_eq!(back.versions[0].hash, b"abc123".to_vec());
    assert_eq!(back.versions[0].diff_file, None);
    assert_eq!(back.versions[1].version, 2);
    assert_eq!(back.versions[1].size, 12);
    assert_eq!(back.versions[1].mtime_ns, 1700000001000000000);
    assert_eq!(back.versions[1].diff_file, Some(b"v2.diff".to_vec()));
    assert_eq!(back.alias, b"src_a.rs".to_vec());
    assert_eq!(back.original_path, b"/home/user/project/src/a.rs".to_vec());
}

#[test]
fn empty_history_round_trips() {
    let h = FileHistory {
        versions: Vec::new(),
        alias: b"a".to_vec(),
        original_path: b"/a".to_vec(),
    };
    let bytes = history_to_json(&h);
    assert_eq!(
        String::from_utf8(bytes.clone()).unwrap(),
        "{\n  \"versions\": [],\n  \"alias\": \"a\",\n  \"original_path\": \"/a\"\n}"
    );
    let back = history_from_json(&bytes).unwrap();
    assert_eq!(back.versions.len(), 0);
    assert_eq!(back.alias, b"a".to_vec());
}

#[test]
fn strings_with_quotes_backslashes_and_controls_round_trip() {
    let h = FileHistory {
        versions: Vec::new(),
        alias: b"odd \"name\"".to_vec(),
        original_path: b"C:\\dir\\file\twith\ntabs".to_vec(),
    };
    let bytes = history_to_json(&h);
    let back = history_from_json(&bytes).unwrap();
    assert_eq!(back.alias, h.alias);
    assert_eq!(back.original_path, h.original_path);
    // the control bytes were escaped on disk
    assert!(!bytes.windows(1).any(|w| w[0] == b'\t'));
}

#[test]
fn garbage_and_truncations_are_rejected() {
    assert!(history_from_json(b"").is_none());
    assert!(history_from_json(b"not json at all").is_none());
    let h = sample_history();
    let bytes = history_to_json(&h);
    // any strict prefix fails: the parser demands the whole document
    let truncated = &bytes[..bytes.len() - 1];
    assert!(history_from_json(truncated).is_none());
    // trailing bytes fail too
    let mut extended = bytes.clone();
    extended.push(b'\n');
    assert!(history_from_json(&extended).is_none());
}

#[test]
fn oversized_numbers_are_rejected() {
    let h = sample_history();
    let bytes = history_to_json(&h);
    let text = String::from_utf8(bytes).unwrap();
    // a size beyond u64 cannot be represented
    let broken = text.replace("\"size\": 6,", "\"size\": 99999999999999999999999999,");
    assert!(history_from_json(broken.as_bytes()).is_none());
}
