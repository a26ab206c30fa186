use rand::rngs::StdRng;
use rand::seq::SliceRandom;
use rand::SeedableRng;
use tsp_cover_tree::cover_tree::{CoverTree, Distance};

#[test]
fn pressure_test_cover_tree_nearest_neighbor() {
    let num_points = 10;
    let num_queries = 1;

    let mut problem: Vec<u32> = (0..num_points).collect();
    let mut rng = StdRng::seed_from_u64(42);
    problem.shuffle(&mut rng);

    let mut tree = CoverTree::new();

    for num in &problem {
        tree.insert(num.clone()).unwrap();
        if let Err(e) = tree.assert_valid_cover_tree() {
            panic!(
                "Cover tree failed validation after inserting: {:?} {} {} {}",
                e.kind, e.first, e.second, e.distance
            );
        }
    }
    println!("Successfully inserted all points into the cover tree.");
    println!("Finished building the cover tree.");

    if let Err(e) = tree.assert_valid_cover_tree() {
        panic!("Cover tree failed validation: {:?} {} {}", e.kind, e.first, e.second);
    }

    let mut num_mismatches = 0;

    for (i, query) in problem.iter().take(num_queries).enumerate() {
        let brute_result = problem
            .iter()
            .filter(|p| *p != query)
            .map(|p| (p, p.distance(query)))
            .min_by(|a, b| a.1.partial_cmp(&b.1).unwrap())
            .unwrap();
        tree.remove(query).unwrap();
        if let Err(e) = tree.assert_valid_cover_tree() {
            panic!(
                "Cover tree failed validation after removing: {:?} {} {}",
                e.kind, e.first, e.second
            );
        }
        let tree_result = tree.nearest_neighbor(query).unwrap();

        let dist_diff = (tree_result.1 as f64 - brute_result.1 as f64).abs();
        let same_point = tree_result.0 == brute_result.0;

        if dist_diff > 1e-4 || !same_point {
            println!(
                "Mismatch at query {}: query num: {:?}, brute {:?} vs tree {:?}, dist diff {}",
                i, query, brute_result, tree_result, dist_diff
            );
            num_mismatches += 1;
        }
    }

    assert_eq!(num_mismatches, 0, "Found {} mismatches!", num_mismatches);
}
