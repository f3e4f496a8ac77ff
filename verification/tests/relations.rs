use one_to_many::OneToManyMap;

#[test]
fn starts_empty() {
    let m = OneToManyMap::default();
    assert_eq!(m.get_one(&1), None);
    assert!(!m.contains(&1, &2));
    assert!(m.get_many(&1).is_empty());
}

#[test]
fn insert_creates_new_relation() {
    let mut m = OneToManyMap::default();
    assert_eq!(m.insert(1, 10), Ok(true));
    assert!(m.contains(&1, &10));
    assert_eq!(m.get_one(&10), Some(&1));
    assert_eq!(m.get_many(&1), &vec![10]);
}

#[test]
fn insert_is_idempotent() {
    let mut m = OneToManyMap::default();
    assert_eq!(m.insert(1, 10), Ok(true));
    assert_eq!(m.insert(1, 10), Ok(false));
    assert_eq!(m.get_one(&10), Some(&1));
    assert_eq!(m.get_many(&1).len(), 1);
}

#[test]
fn conflicting_insert_is_rejected() {
    let mut m = OneToManyMap::default();
    assert_eq!(m.insert(1, 10), Ok(true));
    assert_eq!(m.insert(2, 10), Err((2, 10)));
    assert_eq!(m.get_one(&10), Some(&1));
    assert!(!m.contains(&2, &10));
    assert!(m.get_many(&2).is_empty());
}

#[test]
fn claim_release_reclaim() {
    let mut m = OneToManyMap::default();
    assert_eq!(m.insert(1, 100), Ok(true));
    assert_eq!(m.insert(1, 100), Ok(false));
    assert_eq!(m.insert(2, 100), Err((2, 100)));
    assert_eq!(m.get_one(&100), Some(&1));
    assert_eq!(m.remove_one(&100), Some(1));
    assert!(m.get_many(&1).is_empty());
    assert_eq!(m.insert(2, 100), Ok(true));
    assert_eq!(m.get_one(&100), Some(&2));
}

#[test]
fn bulk_removal_clears_owner() {
    let mut m = OneToManyMap::default();
    assert_eq!(m.insert(1, 10), Ok(true));
    assert_eq!(m.insert(1, 11), Ok(true));
    let mut removed = m.remove_many(&1);
    removed.sort();
    assert_eq!(removed, vec![10, 11]);
    assert_eq!(m.get_one(&10), None);
    assert_eq!(m.get_one(&11), None);
    assert!(m.get_many(&1).is_empty());
}

#[test]
fn bulk_removal_leaves_other_owners_alone() {
    let mut m = OneToManyMap::default();
    assert_eq!(m.insert(1, 10), Ok(true));
    assert_eq!(m.insert(2, 20), Ok(true));
    assert_eq!(m.remove_many(&1), vec![10]);
    assert_eq!(m.get_one(&20), Some(&2));
    assert!(m.contains(&2, &20));
}

#[test]
fn round_trip() {
    let mut m = OneToManyMap::default();
    assert_eq!(m.insert(3, 30), Ok(true));
    assert!(m.contains(&3, &30));
    assert_eq!(m.remove_one(&30), Some(3));
    assert!(!m.contains(&3, &30));
    assert_eq!(m.remove_one(&30), None);
}

#[test]
fn one_owner_only() {
    let mut m = OneToManyMap::default();
    m.insert(1, 10).unwrap();
    m.insert(1, 11).unwrap();
    m.insert(2, 20).unwrap();
    assert_eq!(m.get_one(&10), Some(&1));
    assert!(m.get_many(&1).contains(&10));
    assert!(!m.get_many(&2).contains(&10));
    assert_eq!(m.get_many(&2), &vec![20]);
}

#[test]
fn many_b_keys_per_a_key() {
    let mut m = OneToManyMap::default();
    for b in 0..5u64 {
        assert_eq!(m.insert(7, b), Ok(true));
    }
    let bs = m.get_many(&7);
    assert_eq!(bs.len(), 5);
    for b in 0..5u64 {
        assert!(bs.contains(&b));
        assert_eq!(m.get_one(&b), Some(&7));
    }
}

#[test]
fn removal_of_absent_keys_is_a_no_op() {
    let mut m = OneToManyMap::default();
    m.insert(1, 10).unwrap();
    assert_eq!(m.remove_one(&99), None);
    assert!(m.remove_many(&99).is_empty());
    assert!(m.contains(&1, &10));
}

#[test]
fn owner_can_reclaim_after_single_removal() {
    let mut m = OneToManyMap::default();
    m.insert(1, 10).unwrap();
    assert_eq!(m.remove_one(&10), Some(1));
    assert_eq!(m.get_many(&1).len(), 0);
    assert_eq!(m.insert(1, 10), Ok(true));
}

#[test]
fn extreme_keys_are_ordinary_values() {
    let mut m = OneToManyMap::default();
    assert_eq!(m.insert(u64::MAX, u64::MAX), Ok(true));
    assert_eq!(m.insert(0, u64::MAX), Err((0, u64::MAX)));
    assert_eq!(m.get_one(&u64::MAX), Some(&u64::MAX));
    assert_eq!(m.insert(u64::MAX, 0), Ok(true));
    let mut removed = m.remove_many(&u64::MAX);
    removed.sort();
    assert_eq!(removed, vec![0, u64::MAX]);
}
