use log_ingest::utils::ExtendTo;
use std::collections::HashMap;

#[test]
fn iterutils_extend_to_vec() {
    let input = vec![4, 5];
    let mut receiver = vec![1, 2, 3];
    input.extend_to(&mut receiver);
    assert_eq!(vec![1, 2, 3, 4, 5], receiver);
}

#[test]
fn iterutils_extend_to_hashmap() {
    let input = vec![("a", 1), ("b", 2)];
    let mut receiver: HashMap<_, _> = vec![("c", 3), ("d", 4)].into_iter().collect();

    input.extend_to(&mut receiver);
    let mut gotem = receiver.into_iter().collect::<Vec<_>>();
    gotem.sort();
    assert_eq!(vec![("a", 1), ("b", 2), ("c", 3), ("d", 4)], gotem);
}

#[test]
fn extend_to_extend_to_vec() {
    let input = vec![4, 5];
    let mut receiver = vec![1, 2, 3];
    input.extend_to(&mut receiver);
    assert_eq!(vec![1, 2, 3, 4, 5], receiver);
}

#[test]
fn extend_to_extend_to_hashmap() {
    let input = vec![("a", 1), ("b", 2)];
    let mut receiver: HashMap<_, _> = vec![("c", 3), ("d", 4)].into_iter().collect();

    input.extend_to(&mut receiver);
    let mut gotem = receiver.into_iter().collect::<Vec<_>>();
    gotem.sort();
    assert_eq!(vec![("a", 1), ("b", 2), ("c", 3), ("d", 4)], gotem);
}

#[test]
fn extend_to_hashmap_later_pair_wins() {
    let input = vec![("a", 1), ("a", 2)];
    let mut receiver: HashMap<&str, i32> = HashMap::new();
    input.extend_to(&mut receiver);
    assert_eq!(receiver.get("a"), Some(&2));
    assert_eq!(receiver.len(), 1);
}
