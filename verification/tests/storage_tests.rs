use ouroboros::storage::FileStorage;

#[test]
fn new_storage_is_empty() {
    let s = FileStorage::new();
    assert_eq!(s.len(), 0);
    assert!(s.paths().is_empty());
}

#[test]
fn insert_deduplicates() {
    let mut s = FileStorage::new();
    s.insert(b"/a/b.txt".to_vec());
    s.insert(b"/a/c.txt".to_vec());
    s.insert(b"/a/b.txt".to_vec());
    assert_eq!(s.len(), 2);
}

#[test]
fn paths_come_out_sorted_regardless_of_insertion_order() {
    let mut s = FileStorage::new();
    s.insert(b"/c".to_vec());
    s.insert(b"/a".to_vec());
    s.insert(b"/b".to_vec());
    let got: Vec<Vec<u8>> = s.paths().clone();
    assert_eq!(got, vec![b"/a".to_vec(), b"/b".to_vec(), b"/c".to_vec()]);
}

#[test]
fn prefix_ordering_is_lexicographic() {
    let mut s = FileStorage::new();
    s.insert(b"/a/bc".to_vec());
    s.insert(b"/a/b".to_vec());
    let got: Vec<Vec<u8>> = s.paths().clone();
    assert_eq!(got, vec![b"/a/b".to_vec(), b"/a/bc".to_vec()]);
}
