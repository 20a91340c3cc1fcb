use ash::store::{find_new, SubvolumeStore};
use ash::Error;

fn store_with(ids: &[u64]) -> SubvolumeStore {
    SubvolumeStore::from_parts(
        ids.to_vec(),
        ids.to_vec(),
        ids.to_vec(),
        Vec::new(),
        Vec::new(),
    )
    .unwrap()
}

#[test]
fn allocation_takes_the_smallest_free_positive_id() {
    // the namespaces can disagree after a crash: the union counts
    let s = SubvolumeStore::from_parts(
        vec![1, 3],
        vec![1, 2],
        vec![1, 5],
        Vec::new(),
        Vec::new(),
    )
    .unwrap();
    assert_eq!(s.find_new(), 4);
    assert_eq!(find_new(&s), 4);

    let empty = SubvolumeStore::new();
    assert_eq!(empty.find_new(), 1);

    let gapless = store_with(&[1, 2, 3]);
    assert_eq!(gapless.find_new(), 4);

    // id 0 never blocks allocation: ids are positive
    let with_base = store_with(&[0, 1, 2]);
    assert_eq!(with_base.find_new(), 3);
}

#[test]
fn from_parts_refuses_duplicates() {
    let r = SubvolumeStore::from_parts(
        vec![1, 1],
        vec![],
        vec![],
        Vec::new(),
        Vec::new(),
    );
    assert_eq!(r.map(|_| ()), Err(Error::Io { id: 0 }));
}

#[test]
fn duplicate_copies_content_and_sets_mutability() {
    let mut s = store_with(&[1]);
    assert!(s.triad_exists(1));
    assert!(!s.check_mutability(1));
    s.duplicate(1, 2, true).unwrap();
    assert!(s.triad_exists(2));
    assert!(!s.check_mutability(2));
    s.duplicate(1, 3, false).unwrap();
    assert!(s.check_mutability(3));
    assert_eq!(s.content_token(3), s.content_token(1));
    assert_eq!(s.duplicate(9, 4, true), Err(Error::NotFound { id: 9 }));
    assert_eq!(s.duplicate(1, 2, true), Err(Error::Conflict { id: 2 }));
}

#[test]
fn delete_is_idempotent() {
    let mut s = store_with(&[1, 2]);
    s.delete(2);
    assert!(!s.triad_exists(2));
    s.delete(2);
    assert!(!s.triad_exists(2));
    assert!(s.triad_exists(1));
    assert_eq!(s.find_new(), 2);
}

#[test]
fn working_copy_is_the_lock() {
    let mut s = store_with(&[1]);
    assert!(!s.chr_exists(1));
    s.chr_create(1).unwrap();
    assert!(s.chr_exists(1));
    assert_eq!(s.chr_create(1), Err(Error::Conflict { id: 1 }));
    assert_eq!(s.chr_create(9), Err(Error::NotFound { id: 9 }));
    s.chr_delete(1);
    assert!(!s.chr_exists(1));
    s.chr_delete(1);
    assert!(!s.chr_exists(1));
}

#[test]
fn working_copy_tracks_its_own_content() {
    let mut s = store_with(&[1]);
    s.chr_create(1).unwrap();
    assert_eq!(s.chr_token(1), s.content_token(1));
    s.set_chr_token(1, 42).unwrap();
    assert_eq!(s.chr_token(1), Some(42));
    // the snapshot itself is untouched until a commit
    assert_eq!(s.content_token(1), Some(0));
    assert_eq!(s.set_chr_token(9, 1), Err(Error::NotFound { id: 9 }));
}

#[test]
fn set_read_only_toggles_the_marker() {
    let mut s = store_with(&[1]);
    s.set_read_only(1, false).unwrap();
    assert!(s.check_mutability(1));
    s.set_read_only(1, true).unwrap();
    assert!(!s.check_mutability(1));
    assert_eq!(s.set_read_only(9, true), Err(Error::NotFound { id: 9 }));
}
