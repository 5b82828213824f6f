use snake_game::world::coord::Coord;
use snake_game::world::{Color, World, START_LEN};

const START_Y: i32 = 15;

fn food_exists(world: &World) -> bool {
    let mut found = false;
    for y in 0..world.screen.height as i32 {
        for x in 0..world.screen.width as i32 {
            if world.screen.get_color_at(&(x, y).into()) == Color::Food {
                found = true;
            }
        }
    }
    found
}

fn count_of(world: &World, color: Color) -> usize {
    let mut count = 0;
    for y in 0..world.screen.height as i32 {
        for x in 0..world.screen.width as i32 {
            if world.screen.get_color_at(&(x, y).into()) == color {
                count += 1;
            }
        }
    }
    count
}

fn dead_world() -> World {
    let mut world = World::new(30, 30);
    world.click(0, 0);
    world.tick();
    world.click(0, 0);
    world.tick();
    world.click(0, world.screen.height as i32 - 1);
    world.tick();
    world
}

#[test]
fn new() {
    let world = World::new(30, 30);

    assert_eq!(world.screen.get_color_at(&(0, START_Y).into()), Color::Snake);
    assert_eq!(world.screen.get_color_at(&(START_LEN, START_Y).into()), Color::Background);
}

#[test]
fn crawl() {
    let mut world = World::new(30, 30);
    world.tick();

    assert_eq!(world.screen.get_color_at(&(0, START_Y).into()), Color::Background);
    assert_eq!(world.screen.get_color_at(&(START_LEN, START_Y).into()), Color::Snake);
}

#[test]
fn turn() {
    let mut world = World::new(30, 30);
    world.click(0, 0);
    world.tick();

    assert_eq!(world.screen.get_color_at(&(0, START_Y).into()), Color::Background);
    assert_eq!(world.screen.get_color_at(&(START_LEN, START_Y).into()), Color::Background);
    assert_eq!(
        world.screen.get_color_at(&(START_LEN - 1, START_Y - 1).into()),
        Color::Snake
    );
}

#[test]
fn eat() {
    let mut world = World::new(30, 30);
    world.tick();
    world.click(0, 0);
    world.tick();
    world.tick();

    assert_eq!(world.snake.len(), START_LEN as usize + 1);
    assert!(food_exists(&world));
}

#[test]
fn die() {
    let world = dead_world();

    assert_eq!(world.screen.get_color_at(&(0, 0).into()), Color::Fail);
}

#[test]
fn stop() {
    let mut world = dead_world();
    world.tick();

    assert_eq!(world.screen.get_color_at(&(2, START_Y).into()), Color::Snake);
}

#[test]
fn revive() {
    let mut world = dead_world();
    world.click(0, 0);

    assert_eq!(world.screen.get_color_at(&(0, 0).into()), Color::Background);
}

#[test]
fn wrap() {
    let mut world = World::new(30, 30);

    for _ in 0..world.screen.width {
        world.tick();
    }

    assert_eq!(world.screen.get_color_at(&(0, START_Y).into()), Color::Snake);
}

#[test]
fn wrap_left_edge() {
    let mut world = World::new(30, 30);
    world.click(0, 0);
    world.tick();
    world.click(0, 0);
    for _ in 0..6 {
        world.tick();
    }
    world.tick();

    assert_eq!(world.screen.get_color_at(&(29, 14).into()), Color::Snake);
}

#[test]
fn fresh_layout_exact() {
    let world = World::new(30, 30);

    for y in 0..30 {
        for x in 0..30 {
            let expected = if y == START_Y && x < START_LEN {
                Color::Snake
            } else if x == START_LEN && y == START_Y - 2 {
                Color::Food
            } else {
                Color::Background
            };
            assert_eq!(world.screen.get_color_at(&(x, y).into()), expected);
        }
    }
    assert!(world.alive);
    assert_eq!(world.direction, Coord::new(1, 0));
    assert_eq!(world.snake.len(), START_LEN as usize);
}

#[test]
fn plain_move_keeps_snake_count() {
    let mut world = World::new(30, 30);
    let before = count_of(&world, Color::Snake);
    world.tick();

    assert_eq!(count_of(&world, Color::Snake), before);
    assert_eq!(count_of(&world, Color::Food), 1);
}

#[test]
fn eating_grows_snake_count_by_one() {
    let mut world = World::new(30, 30);
    let before = count_of(&world, Color::Snake);
    world.tick();
    world.click(0, 0);
    world.tick();
    world.tick();

    assert_eq!(count_of(&world, Color::Snake), before + 1);
    assert_eq!(count_of(&world, Color::Food), 1);
}

#[test]
fn death_paints_whole_border_and_freezes() {
    let mut world = dead_world();

    assert!(!world.alive);
    for x in 0..30 {
        assert_eq!(world.screen.get_color_at(&(x, 0).into()), Color::Fail);
        assert_eq!(world.screen.get_color_at(&(x, 29).into()), Color::Fail);
    }
    for y in 0..30 {
        assert_eq!(world.screen.get_color_at(&(0, y).into()), Color::Fail);
        assert_eq!(world.screen.get_color_at(&(29, y).into()), Color::Fail);
    }
    let snapshot = world.screen.pixel_buffer.clone();
    world.tick();
    assert_eq!(world.screen.pixel_buffer, snapshot);
}

#[test]
fn click_flips_axis_and_never_reverses() {
    let mut world = World::new(30, 30);
    assert_eq!(world.direction, Coord::new(1, 0));

    world.click(0, 0);
    assert_eq!(world.direction, Coord::new(0, -1));

    world.click(29, 0);
    assert_eq!(world.direction, Coord::new(1, 0));

    world.click(0, 29);
    assert_eq!(world.direction, Coord::new(0, 1));

    world.click(0, 0);
    assert_eq!(world.direction, Coord::new(-1, 0));
}

#[test]
fn revive_matches_fresh_construction() {
    let fresh = World::new(30, 30);
    let mut revived = dead_world();
    revived.click(0, 0);

    assert_eq!(revived.screen.pixel_buffer, fresh.screen.pixel_buffer);
    assert_eq!(revived.direction, fresh.direction);
    assert_eq!(revived.snake, fresh.snake);
    assert_eq!(revived.alive, fresh.alive);
    assert_eq!(revived.filled, fresh.filled);
}

#[test]
fn smallest_board() {
    let mut world = World::new(8, 4);

    assert_eq!(world.screen.get_color_at(&(0, 2).into()), Color::Snake);
    assert_eq!(world.screen.get_color_at(&(7, 0).into()), Color::Food);
    world.tick();
    assert_eq!(world.screen.get_color_at(&(7, 2).into()), Color::Snake);
}

#[test]
fn buffer_index_formula() {
    let world = World::new(30, 30);

    assert_eq!(world.screen.get_buffer_index_for(&(0, 0).into()), 0);
    assert_eq!(world.screen.get_buffer_index_for(&(2, 3).into()), (3 * 30 + 2) * 4);
    assert_eq!(world.screen.pixel_buffer.len(), 30 * 30 * 4);
}

#[test]
fn alpha_bytes_stay_opaque() {
    let mut world = World::new(30, 30);
    world.tick();
    world.click(0, 0);
    world.tick();
    world.tick();

    for (i, byte) in world.screen.pixel_buffer.iter().enumerate() {
        if i % 4 == 3 {
            assert_eq!(*byte, 255);
        }
    }
}

#[test]
fn free_cell_scan_finds_background() {
    let world = World::new(30, 30);
    let free = world.screen.first_background_from(0);

    assert!(free.is_some());
    let coord = free.unwrap();
    assert_eq!(world.screen.get_color_at(&coord), Color::Background);
}
