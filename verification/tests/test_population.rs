use rand::rngs::StdRng;
use rand::SeedableRng;
use tsp_cover_tree::population::Population;
use tsp_cover_tree::problem::{RcKey, Solution};
use std::rc::Rc;

fn tours(lengths: &[u64]) -> Vec<Solution> {
    lengths.iter().map(|length| Solution::new(vec![0, 1, 2], Some(*length))).collect()
}

#[test]
fn min_and_max_length() {
    assert_eq!(Population::new(tours(&[7, 3, 9, 3, 5])).get_min_max(), (3, 9));
    assert_eq!(Population::new(tours(&[4])).get_min_max(), (4, 4));
    assert_eq!(Population::new(tours(&[])).get_min_max(), (u64::MAX, 0));
}

#[test]
fn shrink_keeps_the_shorter_half() {
    let lengths = [50, 10, 90, 30, 70, 20, 80, 40, 60, 100];
    let mut rng = StdRng::seed_from_u64(42);
    let kept = Population::new(tours(&lengths)).shrink_population(6, &mut rng);
    assert_eq!(kept.len(), 6);
    let mut best: Vec<u64> = kept[..3].iter().map(|s| s.total_distance.unwrap()).collect();
    best.sort();
    assert_eq!(best, vec![10, 20, 30]);
    let mut rest: Vec<u64> = kept[3..].iter().map(|s| s.total_distance.unwrap()).collect();
    rest.sort();
    rest.dedup();
    assert_eq!(rest.len(), 3);
    for length in rest {
        assert!(length >= 40);
        assert!(lengths.contains(&length));
    }
}

#[test]
fn shrink_leaves_a_small_population_alone() {
    let mut rng = StdRng::seed_from_u64(42);
    let kept = Population::new(tours(&[5, 1, 3])).shrink_population(3, &mut rng);
    let lengths: Vec<u64> = kept.iter().map(|s| s.total_distance.unwrap()).collect();
    assert_eq!(lengths, vec![5, 1, 3]);
    let kept = Population::new(tours(&[5, 1, 3])).shrink_population(0, &mut rng);
    assert!(kept.is_empty());
    let kept = Population::new(tours(&[5, 1, 3])).shrink_population(1, &mut rng);
    assert_eq!(kept.len(), 1);
}

#[test]
fn keys_are_the_same_by_allocation() {
    let shared = Rc::new(5);
    let a = RcKey::new(shared.clone());
    let b = RcKey::new(shared);
    let c = RcKey::new(Rc::new(5));
    assert!(a.is_same(&b));
    assert!(!a.is_same(&c));
    assert_eq!(**a.rc(), 5);
}
