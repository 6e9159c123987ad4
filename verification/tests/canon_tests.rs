use ouroboros::canon::strip_cr;
use ouroboros::sha::{canon_hash_of, CanonHasher};

#[test]
fn strip_cr_removes_every_carriage_return() {
    assert_eq!(strip_cr(b"a\r\nb\r"), b"a\nb".to_vec());
    assert_eq!(strip_cr(b"\r\r\r"), Vec::<u8>::new());
    assert_eq!(strip_cr(b"plain"), b"plain".to_vec());
    assert_eq!(strip_cr(b""), Vec::<u8>::new());
}

#[test]
fn canon_hash_matches_sha256_of_normalized_content() {
    // sha256("hello\n")
    let expected = b"5891b5b522d5df086d0ff0b110fbd9d21bb4fc7163af34d08286a2e846f6be03".to_vec();
    assert_eq!(canon_hash_of(b"hello\n"), expected);
}

#[test]
fn canon_hash_is_line_ending_insensitive() {
    let unix = canon_hash_of(b"line one\nline two\n");
    let dos = canon_hash_of(b"line one\r\nline two\r\n");
    assert_eq!(unix, dos);
    // and a change in content does change the hash
    let other = canon_hash_of(b"line one\nline 2\n");
    assert_ne!(unix, other);
}

#[test]
fn chunked_hashing_equals_whole_hashing() {
    // a carriage return falling exactly on a chunk boundary must not matter
    let mut h = CanonHasher::new();
    h.update(b"alpha\r");
    h.update(b"\nbeta");
    let split = h.finish();
    let whole = canon_hash_of(b"alpha\r\nbeta");
    assert_eq!(split, whole);
    assert_eq!(split, canon_hash_of(b"alpha\nbeta"));
}

#[test]
fn hash_is_lowercase_hex_of_fixed_width() {
    let h = canon_hash_of(b"");
    assert_eq!(h.len(), 64);
    assert!(h.iter().all(|b| b.is_ascii_hexdigit() && !b.is_ascii_uppercase()));
    // sha256 of the empty string
    assert_eq!(
        h,
        b"e3b0c44298fc1c149afbf4c8996fb92427ae41e4649b934ca495991b7852b855".to_vec()
    );
}
