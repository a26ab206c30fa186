use std::collections::HashSet;
use tsp_cover_tree::random_perm::{factorial, unrank_permutation, Feistel};

#[test]
fn test_permutation_generator_n3() {
    let items = vec![1, 2, 3];
    let n = items.len();
    let total = factorial(n);
    let rounds = 4;

    let mut seen = HashSet::new();
    let feistel = Feistel::new(total as u32, 42, rounds);

    for i in 0..total {
        let idx = feistel.permute(i as u32).unwrap();
        println!("permuted index: {}", idx);
        let perm = unrank_permutation(idx as usize, &items);
        println!("Generated permutation: {:?}", perm);
        assert!(
            seen.insert(perm.clone()),
            "Duplicate permutation: {:?}",
            perm
        );
    }

    assert_eq!(seen.len(), total, "Not all permutations were generated");
}

#[test]
fn test_permutation_generator_n4() {
    let items = vec![1, 2, 3, 4];
    let n = items.len();
    let total = factorial(n);
    let rounds = 4;

    let mut seen = HashSet::new();
    let feistel = Feistel::new(total as u32, 42, rounds);

    for i in 0..total {
        let idx = feistel.permute(i as u32).unwrap();
        let perm = unrank_permutation(idx as usize, &items);
        assert!(
            seen.insert(perm.clone()),
            "Duplicate permutation: {:?}",
            perm
        );
    }
    assert_eq!(seen.len(), total, "Not all permutations were generated");
}

#[test]
fn factorial_values() {
    assert_eq!(factorial(0), 1);
    assert_eq!(factorial(1), 1);
    assert_eq!(factorial(5), 120);
    assert_eq!(factorial(10), 3628800);
}

#[test]
fn unrank_in_order() {
    let items = vec![10, 20, 30];
    assert_eq!(unrank_permutation(0, &items), vec![10, 20, 30]);
    assert_eq!(unrank_permutation(1, &items), vec![10, 30, 20]);
    assert_eq!(unrank_permutation(2, &items), vec![20, 10, 30]);
    assert_eq!(unrank_permutation(3, &items), vec![20, 30, 10]);
    assert_eq!(unrank_permutation(4, &items), vec![30, 10, 20]);
    assert_eq!(unrank_permutation(5, &items), vec![30, 20, 10]);
    let none: Vec<i32> = Vec::new();
    assert_eq!(unrank_permutation(0, &none), none);
}
