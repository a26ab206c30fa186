use tsp_cover_tree::cover_tree::{CoverTree, InsertError, RemoveError, ViolationReport};
use tsp_cover_tree::plane::Point2D;

fn describe(report: &ViolationReport<'_, Point2D>) -> String {
    format!(
        "{:?} between ({}, {}) and ({}, {}): distance {}, held against 2^{}",
        report.kind,
        report.first.x,
        report.first.y,
        report.second.x,
        report.second.y,
        report.distance,
        report.level
    )
}

fn check(tree: &CoverTree<Point2D>, when: &str) {
    if let Err(e) = tree.assert_valid_cover_tree() {
        panic!("Cover tree validation failed {}: {}", when, describe(&e));
    }
}

fn show(tree: &CoverTree<Point2D>) -> Vec<String> {
    let mut lines = Vec::new();
    for groups in tree.level_sets() {
        let mut line = String::new();
        for group in groups {
            line.push('[');
            for id in group {
                let p = tree.get(id).unwrap();
                line.push_str(&format!("({}, {})@{}, ", p.x, p.y, tree.level_of(id).unwrap()));
            }
            line.push(']');
        }
        println!("{}", line);
        lines.push(line);
    }
    lines
}

#[test]
fn test_insert_and_nearest_neighbor() {
    let mut tree = CoverTree::<Point2D>::new();
    let points = vec![
        Point2D { x: 0, y: 0 },
        Point2D { x: 10, y: 10 },
        Point2D { x: -10, y: -10 },
        Point2D { x: 5, y: 5 },
        Point2D { x: 1, y: 1 },
    ];
    for p in &points {
        show(&tree);
        println!("Inserting point: ({}, {})", p.x, p.y);
        tree.insert(p.clone()).unwrap();
        check(&tree, "after inserting point");
    }

    let query = Point2D { x: 0, y: 1 };
    let (nn, dist) = tree.nearest_neighbor(&query).unwrap();
    assert_eq!(*nn, Point2D { x: 0, y: 0 });
    assert!((dist as f64 - 1.0).abs() < 1e-5);
}

#[test]
#[should_panic(expected = "duplicate")]
fn test_insert_duplicate_should_panic() {
    let mut tree = CoverTree::<Point2D>::new();
    let p = Point2D { x: 1, y: 2 };
    tree.insert(p.clone()).expect("Attempting to insert a duplicate point into the cover tree.");
    tree.insert(p).expect("Attempting to insert a duplicate point into the cover tree.");
}

#[test]
fn test_insert_duplicate_is_refused() {
    let mut tree = CoverTree::<Point2D>::new();
    let p = Point2D { x: 1, y: 2 };
    assert_eq!(tree.insert(p), Ok(()));
    assert_eq!(tree.insert(Point2D { x: 4, y: 6 }), Ok(()));
    assert_eq!(tree.insert(p), Err(InsertError::DuplicatePoint));
    assert_eq!(tree.insert(Point2D { x: 4, y: 6 }), Err(InsertError::DuplicatePoint));
    check(&tree, "after a refused insertion");
    let (nn, dist) = tree.nearest_neighbor(&Point2D { x: 1, y: 3 }).unwrap();
    assert_eq!(*nn, p);
    assert_eq!(dist, 1);
}

#[test]
fn test_remove_node() {
    let mut tree = CoverTree::<Point2D>::new();
    let points = vec![
        Point2D { x: 0, y: 0 },
        Point2D { x: 10, y: 10 },
        Point2D { x: -10, y: -10 },
        Point2D { x: 5, y: 5 },
    ];
    for p in &points {
        tree.insert(p.clone()).unwrap();
    }

    let to_remove = Point2D { x: 5, y: 5 };
    tree.remove(&to_remove).unwrap();
    check(&tree, "after removal");

    let query = Point2D { x: 5, y: 5 };
    let result = tree.nearest_neighbor(&query);
    assert!(result.is_some());
    let (nn, _) = result.unwrap();
    assert_ne!(*nn, to_remove);
}

#[test]
fn test_empty_tree_nearest_neighbor_is_none() {
    let tree = CoverTree::<Point2D>::new();
    let query = Point2D { x: 1, y: 2 };
    assert!(tree.nearest_neighbor(&query).is_none());
}

#[test]
fn test_empty_tree_remove_fails() {
    let mut tree = CoverTree::<Point2D>::new();
    assert_eq!(tree.remove(&Point2D { x: 1, y: 2 }), Err(RemoveError::EmptyTree));
    tree.insert(Point2D { x: 1, y: 2 }).unwrap();
    assert_eq!(tree.remove(&Point2D { x: 2, y: 1 }), Err(RemoveError::NotFound));
    assert_eq!(tree.remove(&Point2D { x: 1, y: 2 }), Ok(()));
    assert_eq!(tree.remove(&Point2D { x: 1, y: 2 }), Err(RemoveError::EmptyTree));
    assert!(tree.is_empty());
}

#[test]
fn test_remove_root_child_and_validate() {
    let mut tree = CoverTree::<Point2D>::new();
    let p1 = Point2D { x: 0, y: 0 };
    let p2 = Point2D { x: 1, y: 1 };

    tree.insert(p1.clone()).unwrap();
    tree.insert(p2.clone()).unwrap();

    tree.remove(&p2).unwrap();
    check(&tree, "after removing root child");
}

#[test]
fn test_insert_many_points_and_validate_tree() {
    let mut tree = CoverTree::<Point2D>::new();
    show(&tree);
    for x in -20..=20 {
        for y in -20..=20 {
            if x % 10 == 0 && y % 10 == 0 {
                tree.insert(Point2D { x, y }).unwrap();
                show(&tree);
                check(&tree, "after inserting point");
            }
        }
    }
}

#[test]
fn test_remove_root() {
    let mut tree = CoverTree::<Point2D>::new();
    let points = vec![Point2D { x: 0, y: 0 }, Point2D { x: 10, y: 10 }];
    for p in &points {
        tree.insert(p.clone()).unwrap();
    }
    show(&tree);
    tree.remove(&points[0]).unwrap();
    check(&tree, "after removing root");
    tree.remove(&points[1]).unwrap();
    check(&tree, "after removing last node");
}

#[test]
fn test_remove_root3() {
    let mut tree = CoverTree::<Point2D>::new();
    let points = vec![
        Point2D { x: 0, y: 0 },
        Point2D { x: 20, y: 20 },
        Point2D { x: 10, y: 10 },
    ];
    for p in &points {
        tree.insert(p.clone()).unwrap();
    }
    show(&tree);
    println!("Removing root node");
    tree.remove(&points[0]).unwrap();
    check(&tree, "after removing root");
    show(&tree);
    println!("Removing second node");
    tree.remove(&points[1]).unwrap();
    check(&tree, "after removing second node");
    show(&tree);
    println!("Removing last node");
    tree.remove(&points[2]).unwrap();
    check(&tree, "after removing last node");
}

#[test]
fn test_remove_only_root() {
    let mut tree = CoverTree::<Point2D>::new();
    let p = Point2D { x: 0, y: 0 };
    tree.insert(p.clone()).unwrap();
    show(&tree);
    tree.remove(&p).unwrap();
    check(&tree, "after removing root");
    show(&tree);
    assert!(tree.is_empty());
}

#[test]
fn grid_remove_all_matches_brute_force() {
    let mut tree = CoverTree::<Point2D>::new();
    let mut points: Vec<Point2D> = Vec::new();
    for x in -6..=6 {
        for y in -6..=6 {
            let p = Point2D { x: x * 7 + y, y: y * 5 - x };
            points.push(p);
            tree.insert(p).unwrap();
        }
    }
    check(&tree, "after building the grid");
    let mut turn: usize = 0;
    while !points.is_empty() {
        turn += 1;
        let victim = points.remove((turn * 31) % points.len());
        tree.remove(&victim).unwrap();
        check(&tree, "after removing a grid point");
        if let Some((nn, d)) = tree.nearest_neighbor(&victim) {
            let brute = points
                .iter()
                .map(|p| {
                    let dx = (p.x - victim.x) as f64;
                    let dy = (p.y - victim.y) as f64;
                    (dx * dx + dy * dy).sqrt().ceil() as u64
                })
                .min()
                .unwrap();
            assert_eq!(d, brute);
            assert!(points.contains(nn));
        } else {
            assert!(points.is_empty());
        }
    }
}

#[test]
fn test_print_tree() {
    let mut tree = CoverTree::<Point2D>::new();
    assert!(show(&tree).is_empty());
    tree.insert(Point2D { x: 0, y: 0 }).unwrap();
    tree.insert(Point2D { x: 5, y: 0 }).unwrap();
    tree.insert(Point2D { x: 10, y: 10 }).unwrap();
    let lines = show(&tree);
    assert_eq!(
        lines,
        vec![
            "[(0, 0)@4, ]".to_string(),
            "[(0, 0)@4, (10, 10)@3, ]".to_string(),
            "[(0, 0)@4, (5, 0)@2, ][(10, 10)@3, ]".to_string(),
        ]
    );
    assert!(tree.get(17).is_none());
    assert!(tree.level_of(17).is_none());
}

/// The nodes of the tree with their levels and parents, found by walking
/// from the root.
fn nodes_of(tree: &CoverTree<Point2D>) -> Vec<(Point2D, i32, Option<Point2D>)> {
    let mut nodes = Vec::new();
    let levels = tree.level_sets();
    if levels.is_empty() {
        return nodes;
    }
    let mut pending = vec![(levels[0][0][0], None)];
    while let Some((id, parent)) = pending.pop() {
        let point = *tree.get(id).unwrap();
        nodes.push((point, tree.level_of(id).unwrap(), parent));
        let mut walk = tree.family(id).unwrap();
        assert_eq!(walk.next(), Some(id));
        while let Some(child) = walk.next() {
            pending.push((child, Some(point)));
        }
    }
    nodes
}

fn euclid(a: &Point2D, b: &Point2D) -> f64 {
    let dx = (a.x - b.x) as f64;
    let dy = (a.y - b.y) as f64;
    (dx * dx + dy * dy).sqrt().ceil()
}

fn check_laws(tree: &CoverTree<Point2D>, expected: usize) {
    let nodes = nodes_of(tree);
    assert_eq!(nodes.len(), expected);
    let top = nodes.iter().map(|node| node.1).max().unwrap_or(0);
    for (point, level, parent) in &nodes {
        match parent {
            Some(parent) => {
                let parent_level = nodes.iter().find(|node| node.0 == *parent).unwrap().1;
                // Covering.
                assert!(*level < parent_level);
                assert!(euclid(parent, point) <= 2f64.powi(parent_level));
                assert!(euclid(parent, point) <= 2f64.powi(level + 1));
                // Nesting: at every level above its own the point is
                // reached through its parent, which stands there.
                assert!(parent_level >= level + 1);
            }
            None => assert_eq!(*level, top),
        }
    }
    // Separation, and no point twice.
    for (i, a) in nodes.iter().enumerate() {
        for b in nodes.iter().skip(i + 1) {
            assert_ne!(a.0, b.0);
            let level = a.1.min(b.1);
            assert!(euclid(&a.0, &b.0) > 2f64.powi(level));
        }
    }
}

#[test]
fn laws_hold_on_a_concrete_tree() {
    let mut tree = CoverTree::<Point2D>::new();
    check_laws(&tree, 0);
    let mut points = Vec::new();
    for k in 0..60 {
        let p = Point2D { x: (k * 37) % 101 - 50, y: (k * 53) % 89 - 44 };
        points.push(p);
        tree.insert(p).unwrap();
        check_laws(&tree, points.len());
    }
    for k in 0..60 {
        let victim = points.remove((k * 17) % points.len());
        tree.remove(&victim).unwrap();
        check_laws(&tree, points.len());
        assert!(nodes_of(&tree).iter().all(|node| node.0 != victim));
    }
}
