use battlesnake::api::ApiCoord;
use battlesnake::types::{Coord, Direction};

#[test]
fn direction_names_and_offsets() {
    assert_eq!(Direction::Up.to_str(), "up");
    assert_eq!(Direction::Down.to_str(), "down");
    assert_eq!(Direction::Left.to_str(), "left");
    assert_eq!(Direction::Right.to_str(), "right");
    assert_eq!((Direction::Up.dx(), Direction::Up.dy()), (0, 1));
    assert_eq!((Direction::Down.dx(), Direction::Down.dy()), (0, -1));
    assert_eq!((Direction::Left.dx(), Direction::Left.dy()), (-1, 0));
    assert_eq!((Direction::Right.dx(), Direction::Right.dy()), (1, 0));
}

#[test]
fn direction_index_round_trip() {
    for (i, d) in Direction::ALL.iter().enumerate() {
        assert_eq!(d.to_index(), i);
        assert_eq!(Direction::from_index(i), *d);
    }
    assert_eq!(Direction::from_index(7), Direction::Right);
}

#[test]
fn opposite_is_an_involution() {
    for d in Direction::ALL {
        assert_ne!(d.opposite(), d);
        assert_eq!(d.opposite().opposite(), d);
        assert_eq!(d.dx() + d.opposite().dx(), 0);
        assert_eq!(d.dy() + d.opposite().dy(), 0);
    }
}

#[test]
fn coordinates() {
    let c = Coord::new(2, 3);
    assert_eq!(c.step(Direction::Up), Coord::new(2, 4));
    assert_eq!(c.step(Direction::Left), Coord::new(1, 3));
    assert_eq!(c.manhattan(Coord::new(-1, 7)), 7);
    assert_eq!(c.to_idx(11), 35);
    assert_eq!(Coord::from_idx(35, 11), c);
    assert!(c.is_in_bounds(3, 4));
    assert!(!c.is_in_bounds(2, 4));
    assert!(!Coord::new(-1, 0).is_in_bounds(5, 5));
}

#[test]
fn adding_a_direction_steps() {
    let c = Coord::new(3, 4);
    assert_eq!(c + Direction::Up, Coord::new(3, 5));
    assert_eq!(c + Direction::Right, c.step(Direction::Right));
    assert_eq!((c + Direction::Down) + Direction::Up, c);
    assert_eq!((c + Direction::Left).manhattan(c), 1);
}

#[test]
fn stepping_near_the_edge_of_the_range() {
    let c = Coord::new(i32::MAX, 5);
    assert_eq!(c.step(Direction::Left), Coord::new(i32::MAX - 1, 5));
    assert_eq!(c.step(Direction::Left).step(Direction::Right), c);
    assert_eq!(Coord::new(7, i32::MIN).step(Direction::Up), Coord::new(7, i32::MIN + 1));
}

#[test]
fn coord_from_protocol_point() {
    let p = ApiCoord { x: 2, y: 3 };
    assert_eq!(Coord::from(&p), Coord::new(2, 3));
    let q: Coord = (&p).into();
    assert_eq!(q, Coord::new(2, 3));
}
