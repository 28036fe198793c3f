use snake_engine::Cell;
use snake_engine::ObstacleSet;
use snake_engine::barriers::lookahead_reaches_food;
use snake_engine::barriers::select_best_reachable;
use snake_engine::barriers::select_best_unreachable;
use snake_engine::greedy_snake_move_barriers;

#[test]
fn test_simple_path() {
    let snake = [7, 5, 8, 5, 8, 6, 8, 7];
    let fruit = [1, 1];
    let barriers = [6, 1, 6, 2, 6, 3, 6, 4, 7, 4, 4, 5, 5, 5, 5, 6, 3, 6, 3, 7, 2, 7, 5, 8];
    assert_ne!(greedy_snake_move_barriers(&snake, &fruit, &barriers), 2);
    assert_ne!(greedy_snake_move_barriers(&snake, &fruit, &barriers), 3);
}

#[test]
fn test_hard_path() {
    let snake_body = [8, 4, 8, 5, 8, 6, 8, 7];
    let food = [1, 1];
    let barriers = [6, 1, 6, 2, 6, 3, 6, 4, 7, 4, 4, 5, 5, 5, 5, 6, 3, 6, 3, 7, 2, 7, 5, 8];
    assert_eq!(greedy_snake_move_barriers(&snake_body, &food, &barriers), 2);
}

#[test]
fn test2() {
    let snake_body = [8, 3, 8, 4, 8, 5, 8, 6];
    let food = [1, 1];
    let barriers = [6, 1, 6, 2, 6, 3, 6, 4, 7, 3, 4, 5, 5, 5, 5, 6, 3, 6, 3, 7, 2, 7, 5, 8];
    assert_eq!(greedy_snake_move_barriers(&snake_body, &food, &barriers), 2);
}

// Only the downward candidate exists and the food is sealed off, so
// the engine commits to the survival direction rather than giving up.
#[test]
fn test3() {
    let snake_body = [8, 2, 8, 3, 8, 4, 8, 5];
    let food = [1, 1];
    let barriers = [6, 1, 6, 2, 6, 3, 6, 4, 7, 2, 4, 5, 5, 5, 5, 6, 3, 6, 3, 7, 2, 7, 5, 8];
    assert_eq!(greedy_snake_move_barriers(&snake_body, &food, &barriers), 2);
}

// The food is unreachable from the only candidate; the engine still
// commits to that survival candidate instead of declaring defeat.
#[test]
fn test_unreachable_path() {
    let snake = [8, 4, 8, 5, 8, 6, 8, 7];
    let fruit = [1, 1];
    let barriers = [6, 1, 6, 2, 6, 3, 6, 4, 7, 4, 4, 5, 5, 5, 5, 6, 5, 7, 3, 6, 3, 7, 5, 8];
    assert_eq!(greedy_snake_move_barriers(&snake, &fruit, &barriers), 2);
}

// A returned direction always names a legal move: in bounds, off the
// barriers, outside the post-move body.
#[test]
fn returned_direction_is_legal() {
    let snake = [7, 5, 8, 5, 8, 6, 8, 7];
    let fruit = [1, 1];
    let barriers = [6, 1, 6, 2, 6, 3, 6, 4, 7, 4, 4, 5, 5, 5, 5, 6, 3, 6, 3, 7, 2, 7, 5, 8];
    let r = greedy_snake_move_barriers(&snake, &fruit, &barriers);
    assert!((0..4).contains(&r));
    let (dx, dy) = [(0, 1), (-1, 0), (0, -1), (1, 0)][r as usize];
    let nh = (snake[0] + dx, snake[1] + dy);
    assert!(nh.0 >= 1 && nh.0 <= 8 && nh.1 >= 1 && nh.1 <= 8);
    for pair in barriers.chunks(2) {
        assert_ne!(nh, (pair[0], pair[1]));
    }
    assert_ne!(nh, (snake[2], snake[3]));
    assert_ne!(nh, (snake[4], snake[5]));
}

// Boxed in on all four sides: every direction fails the legality
// check, and only then is the sentinel returned.
#[test]
fn boxed_in_returns_no_move() {
    let snake = [4, 4, 4, 5, 4, 6, 4, 7];
    let food = [1, 1];
    let barriers = [3, 4, 5, 4, 4, 3];
    assert_eq!(greedy_snake_move_barriers(&snake, &food, &barriers), -1);
    // the sentinel is justified: every direction fails the legality check
    let blocked = [(4, 5), (3, 4), (4, 3), (5, 4)];
    for d in 0..4 {
        let (dx, dy) = [(0, 1), (-1, 0), (0, -1), (1, 0)][d];
        let nh = (snake[0] + dx, snake[1] + dy);
        assert!(blocked.contains(&nh));
    }
}

// No barriers at all: the plain shortest path wins.
#[test]
fn empty_barrier_list() {
    let snake = [4, 4, 4, 5, 4, 6, 4, 7];
    let food = [4, 1];
    let barriers: [i32; 0] = [];
    assert_eq!(greedy_snake_move_barriers(&snake, &food, &barriers), 2);
}

// Two calls with identical input give identical output.
#[test]
fn barrier_engine_is_pure() {
    let snake = [8, 4, 8, 5, 8, 6, 8, 7];
    let fruit = [1, 1];
    let barriers = [6, 1, 6, 2, 6, 3, 6, 4, 7, 4, 4, 5, 5, 5, 5, 6, 5, 7, 3, 6, 3, 7, 5, 8];
    let a = greedy_snake_move_barriers(&snake, &fruit, &barriers);
    let b = greedy_snake_move_barriers(&snake, &fruit, &barriers);
    assert_eq!(a, b);
}

// The snake sits in a walled room whose only mouth is still filled by
// its own body; no candidate can reach the food this tick, but after a
// few survival moves the tail vacates the mouth and the food becomes
// reachable.  The engine must commit to the survival-ranked direction
// itself, not to any direction found inside the simulated future.
#[test]
fn lookahead_commits_to_survival_direction() {
    let snake = [2, 2, 3, 2, 4, 2, 5, 2];
    let food = [8, 8];
    let barriers = [3, 1, 3, 3, 1, 4, 2, 4];
    assert_eq!(greedy_snake_move_barriers(&snake, &food, &barriers), 0);
    // the rollout itself confirms that the food opens up within the
    // horizon when the walk starts from the committed move
    let mut room = ObstacleSet::empty();
    room.insert(Cell::new(3, 1));
    room.insert(Cell::new(3, 3));
    room.insert(Cell::new(1, 4));
    room.insert(Cell::new(2, 4));
    assert!(lookahead_reaches_food(
        Cell::new(2, 3),
        Cell::new(2, 2),
        Cell::new(3, 2),
        Cell::new(8, 8),
        &room,
    ));
}

// The rollout reports success as soon as some candidate reaches the
// target, and failure once the simulated snake has no candidates left.
#[test]
fn lookahead_probe() {
    let open = ObstacleSet::empty();
    assert!(lookahead_reaches_food(
        Cell::new(4, 4),
        Cell::new(4, 5),
        Cell::new(4, 6),
        Cell::new(1, 1),
        &open,
    ));
    let mut sealed = ObstacleSet::empty();
    sealed.insert(Cell::new(1, 2));
    assert!(!lookahead_reaches_food(
        Cell::new(1, 1),
        Cell::new(2, 1),
        Cell::new(3, 1),
        Cell::new(8, 8),
        &sealed,
    ));
}

#[test]
fn selection_rules() {
    let reachable = vec![(3, 5), (1, 2), (2, 2)];
    assert_eq!(select_best_reachable(&reachable), 1);
    let unreachable = vec![(0, 3), (2, 5), (3, 5)];
    assert_eq!(select_best_unreachable(&unreachable), 2);
    let empty: Vec<(i32, i32)> = Vec::new();
    assert_eq!(select_best_unreachable(&empty), -1);
}

#[test]
fn candidate_codes_are_ascending_and_legal() {
    let mut bset = ObstacleSet::empty();
    bset.insert(Cell::new(4, 5));
    let cands = snake_engine::barriers::candidates_generation(
        Cell::new(4, 4),
        Cell::new(5, 4),
        Cell::new(6, 4),
        &bset,
    );
    let codes: Vec<i32> = cands.iter().map(|c| c.0).collect();
    assert_eq!(codes, vec![1, 2]);
    assert_eq!(cands[0].1, Cell::new(3, 4));
    assert_eq!(cands[1].1, Cell::new(4, 3));
    let (w0, w1, w2, w3) = cands[1].2;
    assert_eq!(
        (w0, w1, w2, w3),
        (Cell::new(4, 3), Cell::new(4, 4), Cell::new(5, 4), Cell::new(6, 4))
    );
}
