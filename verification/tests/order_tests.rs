use ferrite::{apply_order, arg_sort, order_map, order_with, OrderMap};

#[test]
fn test_arg_sort_basic() {
    let keys: Vec<u64> = vec![30, 10, 20];
    assert_eq!(arg_sort(&keys), vec![1, 2, 0]);
}

#[test]
fn test_arg_sort_stable() {
    let keys: Vec<u64> = vec![2, 1, 2, 1];
    assert_eq!(arg_sort(&keys), vec![1, 3, 0, 2]);
}

#[test]
fn test_arg_sort_edge_sizes() {
    let empty: Vec<u64> = vec![];
    assert_eq!(arg_sort(&empty), Vec::<usize>::new());
    let single: Vec<u64> = vec![7];
    assert_eq!(arg_sort(&single), vec![0]);
    let equal: Vec<u64> = vec![5, 5, 5];
    assert_eq!(arg_sort(&equal), vec![0, 1, 2]);
}

#[test]
fn test_apply_order_gathers() {
    let mut values = vec!["a", "b", "c"];
    apply_order(&mut values, &vec![1, 2, 0]);
    assert_eq!(values, vec!["b", "c", "a"]);
}

#[test]
fn test_order_with_sorts_by_keys() {
    let keys: Vec<u64> = vec![30, 10, 20];
    let values = vec!["high", "low", "mid"];
    assert_eq!(order_with(&keys, values), vec!["low", "mid", "high"]);
    // applying the argsort to the keys themselves sorts them
    let sorted = order_with(&keys, keys.clone());
    assert_eq!(sorted, vec![10, 20, 30]);
}

#[test]
fn test_order_map_ranks() {
    let keys: Vec<u64> = vec![50, 10, 40];
    let map = order_map(&keys);
    assert_eq!(map.get(10), Some(0));
    assert_eq!(map.get(40), Some(1));
    assert_eq!(map.get(50), Some(2));
    assert_eq!(map.get(11), None);
}

#[test]
fn test_order_map_reorder() {
    let keys: Vec<u64> = vec![50, 10, 40];
    let map = OrderMap::new(&keys);
    let reordered = map.reorder(vec![(50, "e"), (10, "a"), (40, "c")]);
    assert_eq!(reordered, vec!["a", "c", "e"]);
}
