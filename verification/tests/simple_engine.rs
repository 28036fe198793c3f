use snake_engine::greedy_snake_move;

#[test]
fn test_greedy_snack_move1() {
    let snake = vec![1, 1, 2, 1, 3, 1, 4, 1];
    let food: Vec<i32> = vec![1, 2];
    let result: i32 = greedy_snake_move(snake, food);
    assert_ne!(result, 1);
    assert_ne!(result, 2);
    assert_ne!(result, 3);
}

#[test]
fn test_greedy_snack_move2() {
    let snake: Vec<i32> = vec![3, 4, 3, 3, 3, 2, 2, 2];
    let food: Vec<i32> = vec![5, 6];
    let result: i32 = greedy_snake_move(snake, food);
    assert_ne!(result, 3);
}

#[test]
fn test_greedy_snack_move3() {
    let snake: Vec<i32> = vec![5, 6, 5, 5, 5, 4, 5, 3];
    let food: Vec<i32> = vec![5, 2];
    let result: i32 = greedy_snake_move(snake, food);
    assert_ne!(result, 3);
}

// The snake of the first scenario must not move into its own body or
// away from the food; moving up is the acceptable answer.
#[test]
fn scenario_head_corner_food_above() {
    let result = greedy_snake_move(vec![1, 1, 2, 1, 3, 1, 4, 1], vec![1, 2]);
    assert_ne!(result, 1);
    assert_ne!(result, 2);
    assert_ne!(result, 3);
    assert_eq!(result, 0);
}

// The returned move never enters a cell the body still occupies.
#[test]
fn returned_move_is_legal() {
    let snake = vec![4, 4, 4, 5, 5, 5, 5, 4];
    let food = vec![8, 8];
    let result = greedy_snake_move(snake.clone(), food);
    assert!((0..4).contains(&result));
    let (dx, dy) = [(0, 1), (-1, 0), (0, -1), (1, 0)][result as usize];
    let nh = (snake[0] + dx, snake[1] + dy);
    assert!(nh.0 >= 1 && nh.0 <= 8 && nh.1 >= 1 && nh.1 <= 8);
    assert_ne!(nh, (snake[2], snake[3]));
    assert_ne!(nh, (snake[4], snake[5]));
}

// Two calls with identical input give identical output.
#[test]
fn simple_engine_is_pure() {
    let a = greedy_snake_move(vec![3, 4, 3, 3, 3, 2, 2, 2], vec![5, 6]);
    let b = greedy_snake_move(vec![3, 4, 3, 3, 3, 2, 2, 2], vec![5, 6]);
    assert_eq!(a, b);
}
