use snake_game::world::coord::Coord;
use snake_game::world::vec2d::Vec2D;
use snake_game::world::Color;

#[test]
fn tuple_into_coord() {
    let a: Coord = (1, 10).into();
    assert_eq!(a, Coord { x: 1, y: 10 });
}

#[test]
fn coord_add() {
    let a = Coord { x: 1, y: 10 };
    let b = Coord { x: 2, y: 11 };
    assert_eq!(a.add(b), Coord { x: 3, y: 21 });
}

#[test]
fn tuple_into_vec2d() {
    let a: Vec2D = (1, 10).into();
    assert_eq!(a, Vec2D { x: 1, y: 10 });
}

#[test]
fn vec2d_add() {
    let a = Vec2D { x: 1, y: 10 };
    let b = Vec2D { x: 2, y: 11 };
    assert_eq!(a.add(b), Vec2D { x: 3, y: 21 });
}

#[test]
fn color_rgb_round_trip() {
    let colors = [Color::Background, Color::Snake, Color::Food, Color::Fail];
    for color in colors {
        let (r, g, b) = color.to_rgb();
        assert_eq!(Color::from_rgb(r, g, b), Some(color));
    }
}

#[test]
fn color_rgb_triples_exact() {
    assert_eq!(Color::Background.to_rgb(), (0, 0, 0));
    assert_eq!(Color::Snake.to_rgb(), (0, 255, 0));
    assert_eq!(Color::Food.to_rgb(), (0, 0, 255));
    assert_eq!(Color::Fail.to_rgb(), (255, 0, 0));
}

#[test]
fn unknown_rgb_triple_is_rejected() {
    assert_eq!(Color::from_rgb(1, 2, 3), None);
    assert_eq!(Color::from_rgb(255, 255, 255), None);
}
