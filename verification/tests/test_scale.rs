use tsp_cover_tree::cover_tree::{CoverTree, Distance};
use tsp_cover_tree::euclid::ceil_sqrt_of;
use tsp_cover_tree::genetic::{ordered_pair, GeneticAlgorithm, Search};
use tsp_cover_tree::lengths::LengthSet;
use tsp_cover_tree::plane::Point2D;
use tsp_cover_tree::problem::{City, Problem, Solution};
use tsp_cover_tree::random_perm::Feistel;
use tsp_cover_tree::scale::{
    cover_level_of, is_below_scale, is_below_scale_plus, is_within_scale, MAX_LEVEL, MIN_LEVEL,
};

#[test]
fn scale_comparisons() {
    assert!(is_within_scale(8, 3));
    assert!(!is_within_scale(9, 3));
    assert!(is_within_scale(1, 0));
    assert!(!is_within_scale(2, 0));
    assert!(is_within_scale(0, -1));
    assert!(!is_within_scale(1, -1));
    assert!(is_within_scale(u64::MAX, 64));
    assert!(!is_within_scale(u64::MAX, 63));
    assert!(is_within_scale(1 << 63, 63));
    assert!(is_below_scale(7, 3));
    assert!(!is_below_scale(8, 3));
    assert!(is_below_scale(0, 0));
    assert!(!is_below_scale(1, 0));
    assert!(is_below_scale(0, -5));
    assert!(!is_below_scale(1, -5));
    assert!(is_below_scale(u64::MAX, 64));
    assert!(is_below_scale_plus(12, 3, 5));
    assert!(!is_below_scale_plus(13, 3, 5));
    assert!(is_below_scale_plus(5, -1, 5));
    assert!(!is_below_scale_plus(6, -1, 5));
    assert!(is_below_scale_plus(u64::MAX, 64, 0));
    assert!(is_below_scale_plus(u64::MAX, 0, u64::MAX));
    assert_eq!(MIN_LEVEL, -1);
    assert_eq!(MAX_LEVEL, 64);
}

#[test]
fn cover_levels() {
    assert_eq!(cover_level_of(0), 0);
    assert_eq!(cover_level_of(1), 0);
    assert_eq!(cover_level_of(2), 1);
    assert_eq!(cover_level_of(3), 2);
    assert_eq!(cover_level_of(4), 2);
    assert_eq!(cover_level_of(5), 3);
    assert_eq!(cover_level_of(1 << 40), 40);
    assert_eq!(cover_level_of((1 << 40) + 1), 41);
    assert_eq!(cover_level_of(u64::MAX), 64);
}

#[test]
fn roots_rounded_up() {
    assert_eq!(ceil_sqrt_of(0), 0);
    assert_eq!(ceil_sqrt_of(1), 1);
    assert_eq!(ceil_sqrt_of(2), 2);
    assert_eq!(ceil_sqrt_of(4), 2);
    assert_eq!(ceil_sqrt_of(5), 3);
    assert_eq!(ceil_sqrt_of(200), 15);
    assert_eq!(ceil_sqrt_of(225), 15);
    assert_eq!(ceil_sqrt_of(226), 16);
    assert_eq!(ceil_sqrt_of(0x4_0000_0000_0000_0000), 0x2_0000_0000);
    assert_eq!(ceil_sqrt_of(0x3_ffff_ffff_ffff_ffff), 0x2_0000_0000);
}

#[test]
fn distances() {
    assert_eq!(7u32.distance(&3), 4);
    assert_eq!(3u32.distance(&7), 4);
    assert_eq!(0u32.distance(&u32::MAX), 4294967295);
    assert_eq!((-7i32).distance(&3), 10);
    assert_eq!(i32::MIN.distance(&i32::MAX), 4294967295);
    assert_eq!(5i32.distance(&5), 0);
    assert_eq!(Point2D::new(0, 0).distance(&Point2D::new(3, 4)), 5);
    assert_eq!(Point2D::new(0, 0).distance(&Point2D::new(10, 10)), 15);
    assert_eq!(Point2D::new(-10, -10).distance(&Point2D::new(10, 10)), 29);
    assert_eq!(Point2D::new(1, 1).distance(&Point2D::new(1, 1)), 0);
    assert_eq!(
        Point2D::new(i32::MIN, i32::MIN).distance(&Point2D::new(i32::MAX, i32::MAX)),
        6074000999
    );
}

#[test]
fn family_walk() {
    let mut tree = CoverTree::<u32>::new();
    assert!(tree.family(0).is_none());
    for p in [100, 0, 200, 50, 104] {
        tree.insert(p).unwrap();
    }
    let levels = tree.level_sets();
    let root = levels[0][0][0];
    assert_eq!(tree.get(root), Some(&100));
    let mut walk = tree.family(root).unwrap();
    let mut family = Vec::new();
    while let Some(id) = walk.next() {
        family.push(*tree.get(id).unwrap());
    }
    assert_eq!(walk.next(), None);
    assert_eq!(family[0], 100);
    family.sort();
    assert_eq!(family, vec![0, 50, 100, 104, 200]);
    // Each level holds the nodes of the level above and their children.
    let mut last = 0;
    for groups in &levels {
        let count: usize = groups.iter().map(|group| group.len()).sum();
        assert!(count >= last);
        last = count;
    }
    assert_eq!(last, 5);
}

#[test]
fn feistel_with_keys() {
    // Six numbers take three bits, which the network rounds up to four.
    let network = Feistel::with_keys(6, vec![1, 2, 3]);
    let mut seen = Vec::new();
    for x in 0..16 {
        let y = network.feistel(x);
        assert!(y < 16);
        assert!(!seen.contains(&y));
        seen.push(y);
    }
    let mut images = Vec::new();
    for i in 0..6 {
        let y = network.permute(i).unwrap();
        assert!(y < 6);
        assert!(!images.contains(&y));
        images.push(y);
    }
    assert_eq!(network.permute(6), None);
    assert_eq!(network.permute(100), None);
    // Without rounds the two halves are swapped back, and nothing moves.
    let plain = Feistel::with_keys(200, vec![]);
    for x in [0, 1, 77, 199, 255] {
        assert_eq!(plain.feistel(x), x);
    }
    assert_eq!(plain.permute(7), Some(7));
    // One round: the halves of 0x12 are 2 and 1; the right half is mixed
    // with the key and the left half.
    let one = Feistel::with_keys(200, vec![0]);
    let mix = 1u32.wrapping_mul(0x5bd1e995).rotate_left(13);
    assert_eq!(one.feistel(0x12), (((2 ^ mix) & 0xf) << 4) | 1);
    let single = Feistel::new(1, 7, 4);
    assert_eq!(single.permute(0), Some(0));
    assert_eq!(single.permute(1), None);
}

#[test]
fn search_keeps_the_best() {
    let problem = Problem::new(vec![
        City::new(0, 0, 0),
        City::new(10, 0, 0),
        City::new(10, 10, 0),
        City::new(0, 10, 0),
        City::new(5, 20, 0),
    ]);
    let mut search = Search::new();
    assert!(search.best_solution().is_none());
    assert_eq!(search.len(), 0);
    for start in 0..5 {
        search.seed(&problem, start);
    }
    assert_eq!(search.tours().len(), 5);
    let best = search.best_solution().unwrap().total_distance.unwrap();
    for tour in search.tours() {
        assert!(tour.is_valid(5));
        assert!(best <= tour.total_distance.unwrap());
        assert_eq!(
            Solution::new(tour.order_without_loop.clone(), None).total_distance(&problem),
            tour.total_distance.unwrap()
        );
    }
    // A long tour does not become the best, but is kept if its length is new.
    let long = Solution::new(vec![0, 2, 4, 1, 3], None);
    let length = long.total_distance(&problem);
    assert!(length > best);
    assert!(search.offer(&problem, long, 7));
    assert_eq!(search.len(), 6);
    assert!(!search.offer(&problem, Solution::new(vec![0, 2, 4, 1, 3], None), 6));
    assert_eq!(search.len(), 6);
    assert_eq!(search.best_solution().unwrap().total_distance, Some(best));
    let mut ga = GeneticAlgorithm::new(problem, 3, 4);
    assert_eq!(ga.capacity(), 7);
    search.next_generation(&ga.problem, 3, &mut ga.rng);
    assert_eq!(search.tours().len(), 3);
    assert_eq!(search.len(), 3);
    assert_eq!(search.best_solution().unwrap().total_distance, Some(best));
    ga.population_size = usize::MAX;
    assert_eq!(ga.capacity(), usize::MAX);
}

#[test]
fn pairs_in_order() {
    assert_eq!(ordered_pair(2, 5), Some((2, 5)));
    assert_eq!(ordered_pair(5, 2), Some((2, 5)));
    assert_eq!(ordered_pair(3, 3), None);
}

#[test]
fn set_of_lengths() {
    let mut set = LengthSet::new();
    assert!(!set.contains(4));
    assert!(set.insert(4));
    assert!(!set.insert(4));
    assert!(set.insert(9));
    assert!(set.contains(4));
    assert!(set.contains(9));
    assert!(!set.contains(5));
}
