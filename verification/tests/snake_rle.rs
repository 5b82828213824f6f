use snake_game::snake::{Direction, Point2D, Snake, TurnDirection};

#[test]
fn snake_initial() {
    let snake = Snake::new();

    assert_eq!(snake.segments(), vec![Point2D { x: 5, y: 5 }, Point2D { x: 7, y: 5 }]);
}

#[test]
fn snake_move_() {
    let mut snake = Snake::new();
    snake.move_forward();

    assert_eq!(snake.segments(), vec![Point2D { x: 4, y: 5 }, Point2D { x: 6, y: 5 }]);
}

#[test]
fn snake_move_move() {
    let mut snake = Snake::new();
    snake.move_forward();
    snake.move_forward();

    assert_eq!(snake.segments(), vec![Point2D { x: 3, y: 5 }, Point2D { x: 5, y: 5 }]);
}

#[test]
fn snake_turn_left_move() {
    let mut snake = Snake::new();
    snake.turn(TurnDirection::Left);
    snake.move_forward();

    assert_eq!(snake.direction, Direction::YPositive);
    assert_eq!(
        snake.segments(),
        vec![Point2D { x: 5, y: 6 }, Point2D { x: 5, y: 5 }, Point2D { x: 6, y: 5 }]
    );
}

#[test]
fn snake_turn_left_move_move() {
    let mut snake = Snake::new();
    snake.turn(TurnDirection::Left);
    snake.move_forward();
    snake.move_forward();

    assert_eq!(snake.direction, Direction::YPositive);
    assert_eq!(snake.segments(), vec![Point2D { x: 5, y: 7 }, Point2D { x: 5, y: 5 }]);
}

#[test]
fn snake_turn_right_move_move() {
    let mut snake = Snake::new();
    snake.turn(TurnDirection::Right);
    snake.move_forward();
    snake.move_forward();

    assert_eq!(snake.direction, Direction::YNegative);
    assert_eq!(snake.segments(), vec![Point2D { x: 5, y: 3 }, Point2D { x: 5, y: 5 }]);
}

#[test]
fn snake_wraps_left_edge() {
    let mut snake = Snake::new();
    for _ in 0..6 {
        snake.move_forward();
    }

    assert_eq!(snake.segments(), vec![Point2D { x: 299, y: 5 }, Point2D { x: 1, y: 5 }]);
}
