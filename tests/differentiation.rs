use comic_library::differentiation::{_differentiate, differentiate_on};

#[test]
fn diff_test() {
    let a = vec![1, 2, 3, 4, 5, 6, 7, 8, 9, 0];
    let b = vec![2, 3, 5, 14, 7, 8, 0, 11];
    let result = _differentiate(a, b);

    assert_eq!(result.added, [14, 11]);
    assert_eq!(result.deleted, [1, 4, 6, 9]);
}

#[test]
fn diff_partitions_old_and_new() {
    let old = vec![1, 2, 3, 4];
    let new = vec![3, 4, 5];
    let r = _differentiate(old.clone(), new.clone());
    assert_eq!(r.kept.len() + r.added.len(), new.len());
    assert_eq!(r.kept.len() + r.deleted.len(), old.len());
    assert_eq!(r.added, vec![5]);
    assert_eq!(r.deleted, vec![1, 2]);
    assert_eq!(r.kept, vec![(3, 3), (4, 4)]);
}

#[test]
fn diff_of_collection_with_itself_keeps_everything() {
    let xs = vec![7, 3, 3, 9];
    let r = _differentiate(xs.clone(), xs.clone());
    assert!(r.added.is_empty());
    assert!(r.deleted.is_empty());
    assert_eq!(r.kept.len(), xs.len());
    for (a, b) in r.kept {
        assert_eq!(a, b);
    }
}

#[test]
fn diff_of_empty_collections() {
    let r = _differentiate(Vec::<i32>::new(), Vec::new());
    assert!(r.added.is_empty() && r.deleted.is_empty() && r.kept.is_empty());
    let r = _differentiate(Vec::new(), vec![1, 2]);
    assert_eq!(r.added, vec![1, 2]);
    let r = _differentiate(vec![1, 2], Vec::new());
    assert_eq!(r.deleted, vec![1, 2]);
}

#[test]
fn diff_on_extracted_key_pairs_first_match() {
    let old = vec![(1u32, "a".to_string()), (2, "b".to_string())];
    let new = vec![(9u32, "b".to_string()), (8, "c".to_string()), (7, "b".to_string())];
    let r = differentiate_on(old, new, |p: &(u32, String)| p.1.clone());
    assert_eq!(r.deleted, vec![(1, "a".to_string())]);
    assert_eq!(r.kept, vec![((2, "b".to_string()), (9, "b".to_string()))]);
    assert_eq!(r.added, vec![(8, "c".to_string()), (7, "b".to_string())]);
}
