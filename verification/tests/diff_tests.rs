use ouroboros::diff::{make_diff, CHUNK_SIZE};

#[test]
fn diff_is_produced_for_a_text_change() {
    let old = b"hello\n".to_vec();
    let new = b"hello world\n".to_vec();
    let d = make_diff(true, new.len() as u64, Some(&old), Some(&new), b"a.txt").unwrap();
    let text = String::from_utf8(d).unwrap();
    assert!(text.contains("--- a.txt"));
    assert!(text.contains("+++ a.txt"));
    assert!(text.contains("-hello\n"));
    assert!(text.contains("+hello world\n"));
}

#[test]
fn no_diff_without_a_prior_snapshot() {
    let new = b"hello\n".to_vec();
    assert!(make_diff(false, 6, None, Some(&new), b"a.txt").is_none());
}

#[test]
fn no_diff_at_or_above_the_chunk_threshold() {
    let old = b"a\n".to_vec();
    let new = b"b\n".to_vec();
    assert!(make_diff(true, CHUNK_SIZE, Some(&old), Some(&new), b"a.txt").is_none());
    assert!(make_diff(true, CHUNK_SIZE + 1, Some(&old), Some(&new), b"a.txt").is_none());
    assert!(make_diff(true, CHUNK_SIZE - 1, Some(&old), Some(&new), b"a.txt").is_some());
}

#[test]
fn no_diff_when_either_side_is_not_text() {
    let text = b"fine\n".to_vec();
    let binary = vec![0xff, 0xfe, 0x00, 0x80];
    assert!(make_diff(true, 4, Some(&binary), Some(&text), b"a.txt").is_none());
    assert!(make_diff(true, 4, Some(&text), Some(&binary), b"a.txt").is_none());
}

#[test]
fn no_diff_when_a_side_could_not_be_read() {
    let text = b"fine\n".to_vec();
    assert!(make_diff(true, 5, None, Some(&text), b"a.txt").is_none());
    assert!(make_diff(true, 5, Some(&text), None, b"a.txt").is_none());
}

#[test]
fn identical_contents_yield_no_artifact() {
    let same = b"same\n".to_vec();
    assert!(make_diff(true, 5, Some(&same), Some(&same), b"a.txt").is_none());
}
