use snake_engine::Cell;
use snake_engine::ObstacleSet;
use snake_engine::search::bfs;
use snake_engine::search::region_size;

#[test]
fn bfs_exact_distances() {
    let open = ObstacleSet::empty();
    assert_eq!(bfs(Cell::new(1, 1), Cell::new(1, 1), &open, 8), Some(0));
    assert_eq!(bfs(Cell::new(1, 1), Cell::new(3, 1), &open, 8), Some(2));
    assert_eq!(bfs(Cell::new(1, 1), Cell::new(8, 8), &open, 8), Some(14));
}

// Adding an obstacle never shortens the path: the detour around a
// blocked cell costs exactly two extra moves here, and sealing the
// corner makes the target unreachable.
#[test]
fn bfs_monotone_under_obstacles() {
    let open = ObstacleSet::empty();
    let base = bfs(Cell::new(1, 1), Cell::new(3, 1), &open, 8).unwrap();
    let mut one = ObstacleSet::empty();
    one.insert(Cell::new(2, 1));
    let detour = bfs(Cell::new(1, 1), Cell::new(3, 1), &one, 8).unwrap();
    assert_eq!(base, 2);
    assert_eq!(detour, 4);
    assert!(base <= detour);
    let mut sealed = ObstacleSet::empty();
    sealed.insert(Cell::new(2, 1));
    sealed.insert(Cell::new(1, 2));
    assert_eq!(bfs(Cell::new(1, 1), Cell::new(3, 1), &sealed, 8), None);
}

#[test]
fn region_sizes() {
    let open = ObstacleSet::empty();
    assert_eq!(region_size(Cell::new(4, 4), &open, 8), 64);
    let mut sealed = ObstacleSet::empty();
    sealed.insert(Cell::new(1, 2));
    sealed.insert(Cell::new(2, 1));
    assert_eq!(region_size(Cell::new(1, 1), &sealed, 8), 1);
}

// The region size is a function of the obstacle set alone, not of the
// order in which the set was put together.
#[test]
fn region_size_ignores_insertion_order() {
    let cells = [(3, 1), (3, 2), (3, 3), (2, 3), (1, 3)];
    let mut forward = ObstacleSet::empty();
    for &(x, y) in cells.iter() {
        forward.insert(Cell::new(x, y));
    }
    let mut backward = ObstacleSet::empty();
    for &(x, y) in cells.iter().rev() {
        backward.insert(Cell::new(x, y));
    }
    let a = region_size(Cell::new(1, 1), &forward, 8);
    let b = region_size(Cell::new(1, 1), &backward, 8);
    assert_eq!(a, b);
    assert_eq!(a, 4);
}
