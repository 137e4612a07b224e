use hash_ring::order::lower_bound;
use hash_ring::order::sorted_distinct;

#[test]
fn search() {
    let numbers: Vec<u64> = vec![1, 3, 5, 7, 9, 11];

    let search_value = 7;
    let first_index = lower_bound(&numbers, search_value);

    if first_index < numbers.len() {
        println!("First index greater than 7: {}", first_index)
    } else {
        println!("No element greater than 7:{}", first_index)
    }
    assert_eq!(first_index, 3);
}

#[test]
fn lower_bound_finds_the_first_element_not_below() {
    let numbers: Vec<u64> = vec![1, 3, 5, 7, 9, 11];
    assert_eq!(lower_bound(&numbers, 0), 0);
    assert_eq!(lower_bound(&numbers, 1), 0);
    assert_eq!(lower_bound(&numbers, 2), 1);
    assert_eq!(lower_bound(&numbers, 8), 4);
    assert_eq!(lower_bound(&numbers, 11), 5);
    assert_eq!(lower_bound(&numbers, 12), 6);
    assert_eq!(lower_bound(&numbers, u64::MAX), 6);
    assert_eq!(lower_bound(&Vec::new(), 5), 0);
    assert_eq!(lower_bound(&vec![4, 4, 4], 4), 0);
    assert_eq!(lower_bound(&vec![4, 4, 4], 5), 3);
    assert!(lower_bound(&vec![9, 1, 5], 4) <= 3);
}

#[test]
fn lower_bound_agrees_with_a_scan() {
    let numbers: Vec<u64> = (0..200).map(|k| k * k + 3).collect();
    for target in 0..500u64 {
        let expected = numbers.iter().filter(|p| **p < target).count();
        assert_eq!(lower_bound(&numbers, target), expected);
    }
}

#[test]
fn sorted_distinct_sorts_and_drops_repeats() {
    assert_eq!(sorted_distinct(&vec![5, 1, 5, 3, 1, 0]), vec![0, 1, 3, 5]);
    assert_eq!(sorted_distinct(&Vec::new()), Vec::<u64>::new());
    assert_eq!(sorted_distinct(&vec![7]), vec![7]);
    assert_eq!(sorted_distinct(&vec![7, 7, 7]), vec![7]);
    assert_eq!(sorted_distinct(&vec![u64::MAX, 0]), vec![0, u64::MAX]);
    assert_eq!(sorted_distinct(&vec![9, 4, 1, 11, 10, 4, 2]), vec![1, 2, 4, 9, 10, 11]);
    let mixed: Vec<u64> = (0..1000u64).map(|k| (k * 7919) % 257).collect();
    let mut expected = mixed.clone();
    expected.sort();
    expected.dedup();
    assert_eq!(sorted_distinct(&mixed), expected);
}
