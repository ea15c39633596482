use tiles7800::store::{Blob, BlobName, Found, Store, StoreError};
use tiles7800::window::{find_window, matches_at};

fn blob(name: BlobName, content: Vec<u64>, immediate: bool) -> Blob {
    Blob { name, content, immediate, tiles: Vec::new() }
}

#[test]
fn window_is_found_at_its_first_offset() {
    assert_eq!(find_window(&vec![1, 2, 3, 2, 3, 4], &vec![2, 3]), Some(1));
    assert_eq!(find_window(&vec![1, 2, 3, 2, 3, 4], &vec![2, 3, 4]), Some(3));
    assert_eq!(find_window(&vec![1, 2, 3], &vec![1, 2, 3]), Some(0));
}

#[test]
fn window_that_does_not_occur_is_not_found() {
    assert_eq!(find_window(&vec![1, 2, 3], &vec![3, 2]), None);
    assert_eq!(find_window(&vec![1, 2], &vec![1, 2, 3]), None);
    assert_eq!(find_window(&vec![], &vec![1]), None);
}

#[test]
fn empty_window_occurs_at_offset_zero() {
    assert_eq!(find_window(&vec![5, 6], &vec![]), Some(0));
    assert_eq!(find_window(&vec![], &vec![]), Some(0));
}

#[test]
fn window_at_the_very_end_is_found() {
    assert_eq!(find_window(&vec![7, 8, 9], &vec![9]), Some(2));
    assert!(matches_at(&vec![7, 8, 9], &vec![8, 9], 1));
    assert!(!matches_at(&vec![7, 8, 9], &vec![8, 9], 0));
}

#[test]
fn new_store_is_empty() {
    let s = Store::new();
    assert_eq!(s.len(), 0);
    assert_eq!(s.find(&vec![1]), None);
    assert!(!s.holds_immediate(&vec![1]));
}

#[test]
fn registered_blob_is_appended_and_found() {
    let mut s = Store::new();
    assert_eq!(s.register(blob(BlobName::Row(0, 0), vec![10, 11, 20], false)), Ok(()));
    assert_eq!(s.register(blob(BlobName::Row(0, 1), vec![30, 31], false)), Ok(()));
    assert_eq!(s.len(), 2);
    assert_eq!(s.entry(1).name, BlobName::Row(0, 1));
    assert_eq!(s.entry(1).content, vec![30, 31]);
    assert_eq!(s.position(BlobName::Row(0, 1)), Some(1));
    assert_eq!(s.position(BlobName::Sequence(0)), None);
    assert_eq!(s.find(&vec![11, 20]), Some(Found { entry: 0, offset: 1 }));
    assert_eq!(s.find(&vec![30, 31]), Some(Found { entry: 1, offset: 0 }));
    assert_eq!(s.find(&vec![31, 30]), None);
}

#[test]
fn find_prefers_the_earliest_entry() {
    let mut s = Store::new();
    s.register(blob(BlobName::Sequence(0), vec![1, 2, 3, 4], true)).unwrap();
    s.register(blob(BlobName::Row(0, 0), vec![3, 4], false)).unwrap();
    assert_eq!(s.find(&vec![3, 4]), Some(Found { entry: 0, offset: 2 }));
}

#[test]
fn first_registration_of_a_name_wins() {
    let mut s = Store::new();
    s.register(blob(BlobName::Row(2, 0), vec![1, 2], false)).unwrap();
    assert_eq!(s.register(blob(BlobName::Row(2, 0), vec![1, 2], false)), Ok(()));
    assert_eq!(s.len(), 1);
}

#[test]
fn other_content_under_a_taken_name_is_refused() {
    let mut s = Store::new();
    s.register(blob(BlobName::Row(2, 0), vec![1, 2], false)).unwrap();
    assert_eq!(
        s.register(blob(BlobName::Row(2, 0), vec![1, 3], false)),
        Err(StoreError::Conflict(BlobName::Row(2, 0)))
    );
    assert_eq!(
        s.register(blob(BlobName::Row(2, 0), vec![1, 2], true)),
        Err(StoreError::Conflict(BlobName::Row(2, 0)))
    );
    assert_eq!(s.len(), 1);
    assert_eq!(s.entry(0).content, vec![1, 2]);
}

#[test]
fn only_immediate_entries_count_for_the_refiner() {
    let mut s = Store::new();
    s.register(blob(BlobName::Row(0, 0), vec![1, 2, 3], false)).unwrap();
    assert!(!s.holds_immediate(&vec![2, 3]));
    s.register(blob(BlobName::Sequence(0), vec![9, 2, 3], true)).unwrap();
    assert!(s.holds_immediate(&vec![2, 3]));
    assert!(!s.holds_immediate(&vec![1, 2]));
}

#[test]
fn blob_held_under_another_name_is_not_registered_again() {
    let mut s = Store::new();
    s.register(blob(BlobName::Sequence(0), vec![1, 2, 3], true)).unwrap();
    assert_eq!(s.register(blob(BlobName::Sequence(1), vec![1, 2, 3], true)), Ok(()));
    assert_eq!(s.len(), 1);
    assert_eq!(s.position(BlobName::Sequence(1)), None);
    assert_eq!(s.register(blob(BlobName::Row(0, 0), vec![1, 2, 3], false)), Ok(()));
    assert_eq!(s.len(), 2);
    s.distinct_entries();
}
