use tsp_cover_tree::adaptive_solver::{choose_strategy, population_size, Strategy};
use tsp_cover_tree::cover_tree::Distance;
use tsp_cover_tree::problem::{City, Problem, Solution};

fn square() -> Problem {
    Problem::new(vec![
        City::new(0, 0, 0),
        City::new(10, 10, 0),
        City::new(0, 10, 0),
        City::new(10, 0, 0),
    ])
}

#[test]
fn city_distance_is_rounded_up() {
    assert_eq!(City::new(0, 0, 0).distance(&City::new(3, 4, 0)), 5);
    assert_eq!(City::new(0, 0, 0).distance(&City::new(1, 1, 1)), 2);
    assert_eq!(City::new(1, 1, 1).distance(&City::new(0, 0, 0)), 2);
    assert_eq!(City::new(7, 7, 7).distance(&City::new(7, 7, 7)), 0);
    assert_eq!(City::new(0, 0, 0).distance(&City::new(4294967295, 4294967295, 4294967295)), 7439101572);
    assert_eq!(City::new(0, 0, 0).distance(&City::new(1, 0, 0)), 1);
}

#[test]
fn tour_validity() {
    assert!(Solution::new(vec![0, 1, 2, 3], None).is_valid(4));
    assert!(Solution::new(vec![3, 1, 0, 2], None).is_valid(4));
    assert!(!Solution::new(vec![0, 1, 2], None).is_valid(4));
    assert!(!Solution::new(vec![0, 1, 2, 2], None).is_valid(4));
    assert!(!Solution::new(vec![0, 1, 2, 4], None).is_valid(4));
    assert!(Solution::new(vec![], None).is_valid(0));
}

#[test]
fn tour_length_of_square() {
    let problem = square();
    assert_eq!(Solution::new(vec![0, 2, 1, 3], None).total_distance(&problem), 40);
    assert_eq!(Solution::new(vec![0, 1, 2, 3], None).total_distance(&problem), 15 + 10 + 15 + 10);
    assert_eq!(Solution::new(vec![0, 1, 2, 3], Some(7)).total_distance(&problem), 7);
    assert_eq!(Solution::new(vec![2], None).total_distance(&problem), 0);
}

#[test]
fn nearest_neighbor_tour_of_square() {
    let problem = square();
    for start in 0..4 {
        let solution = Solution::from_nearest_neighbor(&problem, start);
        assert!(solution.is_valid(4));
        assert_eq!(solution.order_without_loop[0], start as u32);
        assert_eq!(solution.total_distance, Some(40));
        assert_eq!(Solution::new(solution.order_without_loop.clone(), None).total_distance(&problem), 40);
    }
}

#[test]
fn nearest_neighbor_tour_of_line() {
    let problem = Problem::new(vec![
        City::new(50, 0, 0),
        City::new(0, 0, 0),
        City::new(20, 0, 0),
        City::new(90, 0, 0),
        City::new(45, 0, 0),
    ]);
    let solution = Solution::from_nearest_neighbor(&problem, 2);
    assert_eq!(solution.order_without_loop, vec![2, 1, 4, 0, 3]);
    assert_eq!(solution.total_distance, Some(20 + 45 + 5 + 40 + 70));
}

#[test]
fn brute_force_tour() {
    let problem = square();
    let solution = Solution::from_brute_force(&problem);
    assert!(solution.is_valid(4));
    assert_eq!(solution.order_without_loop, vec![0, 2, 1, 3]);
    assert_eq!(solution.total_distance, Some(40));
    let single = Problem::new(vec![City::new(1, 2, 3)]);
    let solution = Solution::from_brute_force(&single);
    assert_eq!(solution.order_without_loop, vec![0]);
    assert_eq!(solution.total_distance, Some(0));
    let none = Problem::new(vec![]);
    let solution = Solution::from_brute_force(&none);
    assert_eq!(solution.order_without_loop, Vec::<u32>::new());
    assert_eq!(solution.total_distance, Some(0));
}

#[test]
fn brute_force_is_no_longer_than_nearest_neighbor() {
    let problem = Problem::new(vec![
        City::new(0, 0, 0),
        City::new(100, 3, 8),
        City::new(7, 90, 1),
        City::new(55, 55, 55),
        City::new(12, 4, 99),
        City::new(80, 80, 0),
        City::new(3, 3, 3),
    ]);
    let best = Solution::from_brute_force(&problem);
    assert!(best.is_valid(7));
    for start in 0..7 {
        let greedy = Solution::from_nearest_neighbor(&problem, start);
        assert!(greedy.is_valid(7));
        assert!(best.total_distance.unwrap() <= greedy.total_distance.unwrap());
    }
}

#[test]
fn shortest_of_passes_over_what_is_no_tour() {
    let problem = square();
    let tails = vec![vec![1, 1, 2], vec![1, 2, 3], vec![2, 1, 3], vec![3, 1, 2], vec![9, 9, 9]];
    let solution = Solution::shortest_of(&problem, &tails).unwrap();
    assert_eq!(solution.order_without_loop, vec![0, 2, 1, 3]);
    assert!(Solution::shortest_of(&problem, &vec![vec![1, 2]]).is_none());
}

#[test]
fn strategy_by_size() {
    assert_eq!(choose_strategy(0), Strategy::BruteForce);
    assert_eq!(choose_strategy(9), Strategy::BruteForce);
    assert_eq!(choose_strategy(10), Strategy::Genetic { time_limit_secs: 58 });
    assert_eq!(choose_strategy(99), Strategy::Genetic { time_limit_secs: 58 });
    assert_eq!(choose_strategy(100), Strategy::Genetic { time_limit_secs: 73 });
    assert_eq!(choose_strategy(199), Strategy::Genetic { time_limit_secs: 73 });
    assert_eq!(choose_strategy(200), Strategy::Genetic { time_limit_secs: 118 });
    assert_eq!(choose_strategy(499), Strategy::Genetic { time_limit_secs: 118 });
    assert_eq!(choose_strategy(500), Strategy::Genetic { time_limit_secs: 298 });
    assert_eq!(population_size(10), 200);
    assert_eq!(population_size(3000), 3000);
}
