use tsp_cover_tree::cover_tree::{CoverTree, InsertError, RemoveError};

#[test]
fn line_insert_and_query() {
    let mut tree = CoverTree::<i32>::new();
    for p in [0, 10, -10, 5, 1, 100, -37, 64, 63, 65] {
        assert_eq!(tree.insert(p), Ok(()));
    }
    assert_eq!(tree.insert(5), Err(InsertError::DuplicatePoint));
    assert_eq!(tree.insert(65), Err(InsertError::DuplicatePoint));
    let points = [0, 10, -10, 5, 1, 100, -37, 64, 63, 65];
    for q in -120..120 {
        let (nn, d) = tree.nearest_neighbor(&q).unwrap();
        let brute = points.iter().map(|p| (p - q).unsigned_abs() as u64).min().unwrap();
        assert_eq!(d, brute);
        assert_eq!((nn - q).unsigned_abs() as u64, d);
    }
}

#[test]
fn empty_tree_has_no_neighbor() {
    let tree = CoverTree::<u32>::new();
    assert!(tree.nearest_neighbor(&3).is_none());
    assert!(tree.is_empty());
}

#[test]
fn line_remove_and_query() {
    let mut tree = CoverTree::<i32>::new();
    assert_eq!(tree.remove(&1), Err(RemoveError::EmptyTree));
    let mut points: Vec<i32> = Vec::new();
    let mut x: i64 = 12345;
    for _ in 0..300 {
        x = (x * 1103515245 + 12345) % 2147483648;
        let p = ((x >> 8) % 2001 - 1000) as i32;
        if !points.contains(&p) {
            points.push(p);
            assert_eq!(tree.insert(p), Ok(()));
        } else {
            assert_eq!(tree.insert(p), Err(InsertError::DuplicatePoint));
        }
    }
    assert_eq!(tree.remove(&5000), Err(RemoveError::NotFound));
    let mut turn: usize = 0;
    while !points.is_empty() {
        turn += 1;
        let victim = points.remove((turn * 7919) % points.len());
        assert_eq!(tree.remove(&victim), Ok(()));
        assert_eq!(tree.remove(&victim), if points.is_empty() {
            Err(RemoveError::EmptyTree)
        } else {
            Err(RemoveError::NotFound)
        });
        for q in [victim, -1000, 0, 1000, victim + 3, victim - 17] {
            match tree.nearest_neighbor(&q) {
                None => assert!(points.is_empty()),
                Some((nn, d)) => {
                    let brute = points.iter().map(|p| (p - q).unsigned_abs() as u64).min().unwrap();
                    assert_eq!(d, brute);
                    assert!(points.contains(nn));
                    assert_eq!((nn - q).unsigned_abs() as u64, d);
                },
            }
        }
    }
    assert!(tree.is_empty());
}
