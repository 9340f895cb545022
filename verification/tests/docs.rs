use smeagol::life::Life;
use smeagol::{Cell, Position};

#[test]
fn cell_examples() {
    let alive = Cell::new(true);
    let dead = Cell::new(false);
    assert_eq!(alive, Cell::Alive);
    assert_eq!(dead, Cell::Dead);
    assert!(Cell::Alive.is_alive());
    assert!(!Cell::Dead.is_alive());
}

#[test]
fn position_examples() {
    let position = Position::new(1, 2);
    assert_eq!((position.x, position.y), (1, 2));
    assert_eq!(position.offset(3, -4), Position::new(4, -2));
    assert_eq!(position.relative_to(Position::new(1, 1)), Position::new(0, 1));
}

#[test]
fn life_examples() {
    let life = Life::new();
    assert_eq!(life.population(), 0);
    // integral sign
    let life = Life::from_rle_pattern(b"3b2o$2bobo$2bo2b$obo2b$2o!").unwrap();
    assert_eq!(life.population(), 9);
}
