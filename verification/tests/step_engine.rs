use snake_engine::Cell;
use snake_engine::ObstacleSet;
use snake_engine::greedy_snake_step;
use snake_engine::step::advanced_pathfinding;
use snake_engine::step::defensive_move;
use snake_engine::step::enhanced_heuristic;
use snake_engine::step::get_obstacles;
use snake_engine::step::has_escape_routes;
use snake_engine::step::has_path;
use snake_engine::step::select_target;

#[test]
fn it_works() {
}

// A rival's predicted one-step cells count as blocked: the cell above
// the own head is physically empty, yet the engine must not move there
// because the rival's head can reach it next tick.
#[test]
fn rival_predictions_block_cells() {
    let rival = [2, 4, 2, 5, 2, 6, 2, 7];
    let obstacles = get_obstacles(&rival, 8);
    // the rival's first three segments
    assert!(obstacles.contains(Cell::new(2, 4)));
    assert!(obstacles.contains(Cell::new(2, 5)));
    assert!(obstacles.contains(Cell::new(2, 6)));
    // the fourth segment does not block
    assert!(!obstacles.contains(Cell::new(2, 7)));
    // the predicted one-step-ahead head cells
    assert!(obstacles.contains(Cell::new(2, 3)));
    assert!(obstacles.contains(Cell::new(1, 4)));
    assert!(obstacles.contains(Cell::new(3, 4)));

    let snake = [2, 2, 1, 2, 1, 3, 1, 4];
    let foods = [2, 8];
    let r = greedy_snake_step(8, &snake, 2, &rival, 1, &foods, 0);
    assert_ne!(r, 0);
    assert_ne!(r, -1);
}

// An inactive rival block contributes nothing.
#[test]
fn inactive_rival_is_ignored() {
    let rival = [-1, 4, 2, 5, 2, 6, 2, 7];
    let obstacles = get_obstacles(&rival, 8);
    assert!(!obstacles.contains(Cell::new(2, 5)));
}

// An eliminated snake gets the neutral code without any search.
#[test]
fn inactive_snake_returns_zero() {
    let snake = [-1, 1, 1, 2, 1, 3, 1, 4];
    let rivals: [i32; 0] = [];
    let foods = [5, 5];
    assert_eq!(greedy_snake_step(8, &snake, 1, &rivals, 1, &foods, 0), 0);
}

// The engine picks a legal direction when one exists.
#[test]
fn step_returns_legal_direction() {
    let snake = [4, 4, 4, 5, 4, 6, 4, 7];
    let rivals: [i32; 0] = [];
    let foods = [4, 1];
    let r = greedy_snake_step(8, &snake, 1, &rivals, 1, &foods, 0);
    assert_eq!(r, 2);
}

// Two calls with identical input give identical output.
#[test]
fn step_engine_is_pure() {
    let snake = [2, 2, 1, 2, 1, 3, 1, 4];
    let rival = [2, 4, 2, 5, 2, 6, 2, 7];
    let foods = [2, 8];
    let a = greedy_snake_step(8, &snake, 2, &rival, 1, &foods, 0);
    let b = greedy_snake_step(8, &snake, 2, &rival, 1, &foods, 0);
    assert_eq!(a, b);
}

#[test]
fn defensive_move_ranks_by_space_and_code() {
    let open = ObstacleSet::empty();
    // left and right flood the same region: the lower code wins
    assert_eq!(
        defensive_move(Cell::new(4, 4), Cell::new(4, 5), Cell::new(4, 3), &open, 8),
        1
    );
    // no legal direction at all
    assert_eq!(
        defensive_move(Cell::new(1, 1), Cell::new(1, 2), Cell::new(2, 1), &open, 8),
        -1
    );
}

#[test]
fn pathfinding_heads_toward_food() {
    let open = ObstacleSet::empty();
    let foods = [4, 1];
    let r = advanced_pathfinding(Cell::new(4, 4), Cell::new(4, 5), Cell::new(4, 6), &foods, &open, 8);
    assert_eq!(r, Some(2));
}

// The anti-trap guard applies to the goal cell too: a food at the end
// of a one-wide pocket has a single escape neighbour, so the guarded
// search must refuse it even though a plain path exists, and the
// engine falls back to the defensive ranking.
#[test]
fn guard_refuses_pocketed_food() {
    let mut obstacles = ObstacleSet::empty();
    for x in 1..=5 {
        obstacles.insert(Cell::new(x, 2));
    }
    let foods = [1, 1];
    assert!(has_path(Cell::new(5, 1), Cell::new(1, 1), &obstacles, 8));
    let r = advanced_pathfinding(
        Cell::new(5, 1),
        Cell::new(6, 1),
        Cell::new(7, 1),
        &foods,
        &obstacles,
        8,
    );
    assert_eq!(r, None);
}

#[test]
fn target_selection_prefers_near_reachable_food() {
    let open = ObstacleSet::empty();
    let foods = [8, 8, 2, 1];
    let t = select_target(Cell::new(1, 1), &foods, &open, 8);
    assert_eq!(t, Cell::new(2, 1));
    // equal distances: the earlier food in the list wins
    let tied = [2, 1, 1, 2];
    assert_eq!(select_target(Cell::new(1, 1), &tied, &open, 8), Cell::new(2, 1));
}

// The engine also runs on a larger board.
#[test]
fn step_on_larger_board() {
    let snake = [10, 10, 10, 11, 10, 12, 10, 13];
    let rivals: [i32; 0] = [];
    let foods = [10, 1];
    assert_eq!(greedy_snake_step(20, &snake, 1, &rivals, 1, &foods, 0), 2);
}

#[test]
fn heuristic_adds_danger_penalty() {
    let mut dangers = ObstacleSet::empty();
    assert_eq!(enhanced_heuristic(1, 1, 3, 4, &dangers), 5);
    dangers.insert(Cell::new(1, 1));
    assert_eq!(enhanced_heuristic(1, 1, 3, 4, &dangers), 55);
}

#[test]
fn escape_routes_need_two_free_neighbours() {
    let mut obstacles = ObstacleSet::empty();
    assert!(has_escape_routes(1, 1, &obstacles, 8));
    obstacles.insert(Cell::new(1, 2));
    assert!(!has_escape_routes(1, 1, &obstacles, 8));
}

#[test]
fn path_check_matches_reachability() {
    let mut obstacles = ObstacleSet::empty();
    assert!(has_path(Cell::new(1, 1), Cell::new(3, 1), &obstacles, 8));
    obstacles.insert(Cell::new(1, 2));
    obstacles.insert(Cell::new(2, 1));
    assert!(!has_path(Cell::new(1, 1), Cell::new(3, 1), &obstacles, 8));
}
