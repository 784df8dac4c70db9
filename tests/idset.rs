use git_hours::idset::{same_bytes, IdSet};

#[test]
fn inserted_ids_are_found() {
    let mut s = IdSet::new();
    assert!(!s.contains(&vec![1, 2, 3, 4]));
    s.insert(vec![1, 2, 3, 4]);
    assert!(s.contains(&vec![1, 2, 3, 4]));
    assert!(!s.contains(&vec![1, 2, 3]));
}

#[test]
fn ids_sharing_a_bucket_stay_apart() {
    let mut s = IdSet::new();
    s.insert(vec![9, 9, 9, 1]);
    s.insert(vec![9, 9, 9, 2]);
    assert!(s.contains(&vec![9, 9, 9, 1]));
    assert!(s.contains(&vec![9, 9, 9, 2]));
    assert!(!s.contains(&vec![9, 9, 9, 3]));
}

#[test]
fn short_and_empty_ids() {
    let mut s = IdSet::new();
    s.insert(vec![]);
    s.insert(vec![0]);
    assert!(s.contains(&vec![]));
    assert!(s.contains(&vec![0]));
    assert!(!s.contains(&vec![0, 0]));
}

#[test]
fn byte_equality() {
    assert!(same_bytes(&vec![1, 2], &vec![1, 2]));
    assert!(!same_bytes(&vec![1, 2], &vec![1, 3]));
    assert!(!same_bytes(&vec![1], &vec![1, 2]));
}
