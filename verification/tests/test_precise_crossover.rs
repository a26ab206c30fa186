use tsp_cover_tree::genetic::GeneticAlgorithm;
use tsp_cover_tree::problem::{City, Problem, Solution};

#[test]
fn test_precise_crossover() {
    let problem = Problem {
        cities: vec![
            City::new(0, 0, 0),
            City::new(1, 0, 1),
            City::new(1, 1, 1),
            City::new(0, 1, 0),
            City::new(0, 0, 0),
            City::new(0, 1, 0),
        ],
    };
    assert_eq!(problem.cities.len(), 6);
    let solution1 = Solution::new(vec![0, 1, 2, 3, 4, 5], None);
    let solution2 = Solution::new(vec![0, 1, 3, 2, 4, 5], None);
    let mut callback = |child: &Solution| -> bool {
        println!("found crossover");
        assert!(child.is_valid(6));
        true
    };
    let mut found = 0;
    if let Some((child1, child2)) = GeneticAlgorithm::precise_crossover(&solution1, &solution2) {
        found += 1;
        if callback(&child1) {
            found += 1;
            callback(&child2);
        }
        assert_eq!(child1.order_without_loop, vec![0, 1, 3, 2, 4, 5]);
        assert_eq!(child2.order_without_loop, vec![0, 1, 2, 3, 4, 5]);
    }
    assert_eq!(found, 2);
}

#[test]
fn precise_crossover_of_turned_and_reversed_tours() {
    // Nothing to cross: the tours agree nowhere, in no arrangement, with
    // the same cities in between.
    let a = Solution::new(vec![0, 1, 2], None);
    let b = Solution::new(vec![0, 2, 1], None);
    assert!(GeneticAlgorithm::precise_crossover(&a, &b).is_none());
    // The second tour must be turned by two stops before it can be crossed.
    let a = Solution::new(vec![0, 1, 2, 3, 4, 5, 6], None);
    let b = Solution::new(vec![3, 2, 4, 5, 6, 0, 1], None);
    let (child1, child2) = GeneticAlgorithm::precise_crossover(&a, &b).unwrap();
    assert!(child1.is_valid(7));
    assert!(child2.is_valid(7));
    assert_eq!(child1.order_without_loop, vec![0, 1, 3, 2, 4, 5, 6]);
    assert_eq!(child2.order_without_loop, vec![0, 1, 2, 3, 4, 5, 6]);
    // Backwards: the reversed tour is 6 5 4 2 3 1 0, turned by one stop it
    // is 0 6 5 4 2 3 1.
    let a = Solution::new(vec![0, 6, 5, 4, 3, 2, 1], None);
    let b = Solution::new(vec![0, 1, 3, 2, 4, 5, 6], None);
    let (child1, child2) = GeneticAlgorithm::precise_crossover(&a, &b).unwrap();
    assert_eq!(child1.order_without_loop, vec![0, 6, 5, 4, 2, 3, 1]);
    assert_eq!(child2.order_without_loop, vec![0, 6, 5, 4, 3, 2, 1]);
    let none = Solution::new(vec![], None);
    assert!(GeneticAlgorithm::precise_crossover(&none, &none).is_none());
}

#[test]
fn random_crossover_repairs_the_child() {
    let parent1 = Solution::new(vec![0, 1, 2, 3, 4, 5], None);
    let parent2 = Solution::new(vec![5, 4, 3, 2, 1, 0], None);
    // Stops 1 and 2 from the first parent: 5 1 2 2 1 0; the repeats at
    // positions 3 and 4 go to the cities left out, 3 and 4.
    let child = GeneticAlgorithm::random_crossover(&parent1, &parent2, 1, 3);
    assert_eq!(child.order_without_loop, vec![5, 1, 2, 3, 4, 0]);
    assert!(child.is_valid(6));
    assert_eq!(child.total_distance, None);
    // A repeat may fall into the part taken from the first parent.
    let parent2 = Solution::new(vec![3, 4, 5, 0, 1, 2], None);
    let child = GeneticAlgorithm::random_crossover(&parent1, &parent2, 3, 5);
    assert_eq!(child.order_without_loop, vec![3, 4, 5, 0, 1, 2]);
    let child = GeneticAlgorithm::random_crossover(&parent1, &parent2, 2, 5);
    assert_eq!(child.order_without_loop, vec![3, 4, 2, 0, 1, 5]);
    let child = GeneticAlgorithm::random_crossover(&parent1, &parent2, 0, 0);
    assert_eq!(child.order_without_loop, parent2.order_without_loop);
    let child = GeneticAlgorithm::random_crossover(&parent1, &parent2, 0, 6);
    assert_eq!(child.order_without_loop, parent1.order_without_loop);
    let child = GeneticAlgorithm::random_crossover(&parent1, &parent2, 0, 2);
    assert_eq!(child.order_without_loop, vec![0, 1, 5, 3, 4, 2]);
    for start in 0..6 {
        for end in start..=6 {
            assert!(GeneticAlgorithm::random_crossover(&parent1, &parent2, start, end).is_valid(6));
            assert!(GeneticAlgorithm::random_crossover(&parent2, &parent1, start, end).is_valid(6));
        }
    }
}
