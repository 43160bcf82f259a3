use disjoint_set::DisjointSet;

#[test]
fn it_works() {
    let mut ds = DisjointSet::<i32>::new();
    ds.make_set(1);
    ds.make_set(2);
    ds.make_set(3);

    assert!(ds.find(1) != ds.find(2));
    assert!(ds.find(2) != ds.find(3));
    let _ = ds.union(1, 2);
    let _ = ds.union(2, 3);
    assert!(ds.find(1) == ds.find(3));

    assert!(ds.find(4) == None);
    ds.make_set(4);
    assert!(ds.find(4) != None);

    ds.make_set(-1);
    assert!(ds.find(-1) != ds.find(3));

    let _ = ds.union(-1, 4);
    let _ = ds.union(2, 4);

    assert!(ds.find(-1) == ds.find(3));
}

#[test]
fn indices_follow_registration_order() {
    let mut ds = DisjointSet::<i32>::new();
    ds.make_set(10);
    ds.make_set(-5);
    ds.make_set(7);
    assert_eq!(ds.find(10), Some(0));
    assert_eq!(ds.find(-5), Some(1));
    assert_eq!(ds.find(7), Some(2));
}

#[test]
fn fresh_elements_are_apart() {
    let mut ds = DisjointSet::<u64>::new();
    for i in 0..20u64 {
        ds.make_set(i);
    }
    for a in 0..20u64 {
        for b in 0..20u64 {
            if a != b {
                assert_ne!(ds.find(a), ds.find(b));
            }
        }
    }
}

#[test]
fn repeated_find_is_stable() {
    let mut ds = DisjointSet::<i32>::new();
    for i in 0..6 {
        ds.make_set(i);
    }
    let _ = ds.union(0, 1);
    let _ = ds.union(1, 2);
    let _ = ds.union(2, 3);
    let first = ds.find(0);
    assert_eq!(first, Some(3));
    assert_eq!(ds.find(0), first);
    assert_eq!(ds.find(0), first);
    ds.make_set(9);
    assert_eq!(ds.find(0), first);
}

#[test]
fn union_returns_root_of_second() {
    let mut ds = DisjointSet::<i32>::new();
    ds.make_set(1);
    ds.make_set(2);
    assert_eq!(ds.union(1, 2), Ok(1));
    assert_eq!(ds.find(1), Some(1));
    assert_eq!(ds.find(2), Some(1));
}

#[test]
fn union_joins_both_elements() {
    let mut ds = DisjointSet::<i32>::new();
    ds.make_set(1);
    ds.make_set(2);
    ds.make_set(3);
    assert_eq!(ds.union(3, 1), Ok(0));
    assert_eq!(ds.find(3), ds.find(1));
    assert_ne!(ds.find(2), ds.find(1));
}

#[test]
fn union_of_same_subset_is_harmless() {
    let mut ds = DisjointSet::<i32>::new();
    ds.make_set(1);
    ds.make_set(2);
    assert_eq!(ds.union(1, 2), Ok(1));
    assert_eq!(ds.union(1, 2), Ok(1));
    assert_eq!(ds.union(2, 2), Ok(1));
    assert_eq!(ds.find(1), Some(1));
    assert_eq!(ds.find(2), Some(1));
}

#[test]
fn union_is_transitive() {
    let mut ds = DisjointSet::<i32>::new();
    ds.make_set(1);
    ds.make_set(2);
    ds.make_set(3);
    assert_eq!(ds.union(1, 2), Ok(1));
    assert_eq!(ds.union(2, 3), Ok(2));
    assert_eq!(ds.find(1), ds.find(3));
    assert_eq!(ds.find(1), Some(2));
}

#[test]
fn find_unregistered_is_absent() {
    let mut ds = DisjointSet::<i32>::new();
    assert_eq!(ds.find(0), None);
    ds.make_set(0);
    assert_eq!(ds.find(1), None);
    assert_eq!(ds.find(0), Some(0));
    assert_eq!(ds.find(1), None);
}

#[test]
fn register_is_idempotent() {
    let mut ds = DisjointSet::<i32>::new();
    ds.make_set(5);
    ds.make_set(6);
    assert_eq!(ds.union(5, 6), Ok(1));
    ds.make_set(5);
    ds.make_set(6);
    assert_eq!(ds.find(5), Some(1));
    assert_eq!(ds.find(6), Some(1));
    ds.make_set(7);
    assert_eq!(ds.find(7), Some(2));
}

#[test]
fn union_with_unregistered_fails_unchanged() {
    let mut ds = DisjointSet::<i32>::new();
    ds.make_set(1);
    ds.make_set(2);
    assert_eq!(ds.union(1, 3), Err(()));
    assert_eq!(ds.union(3, 1), Err(()));
    assert_eq!(ds.union(3, 4), Err(()));
    assert_eq!(ds.find(1), Some(0));
    assert_eq!(ds.find(2), Some(1));
    assert_eq!(ds.find(3), None);
    ds.make_set(3);
    assert_eq!(ds.find(3), Some(2));
}

#[test]
fn long_chain_is_compressed_to_one_root() {
    let mut ds = DisjointSet::<u32>::new();
    for i in 0..1000u32 {
        ds.make_set(i);
    }
    for i in 0..999u32 {
        assert_eq!(ds.union(i, i + 1), Ok(i as usize + 1));
    }
    for i in 0..1000u32 {
        assert_eq!(ds.find(i), Some(999));
    }
}

#[test]
fn string_elements() {
    let mut ds = DisjointSet::<String>::new();
    ds.make_set("a".to_string());
    ds.make_set("b".to_string());
    assert_eq!(ds.find("a".to_string()), Some(0));
    assert_eq!(ds.union("a".to_string(), "b".to_string()), Ok(1));
    assert_eq!(ds.find("a".to_string()), Some(1));
    assert_eq!(ds.find("c".to_string()), None);
}
