use smeagol::key::{
    decrease_delay, decrease_scale, decrease_step, increase_delay, increase_scale, increase_step,
    pan_down, pan_down_small, pan_left, pan_left_small, pan_right, pan_right_small, pan_up,
    pan_up_small, toggle_simulation, view_for, MAX_SCALE, MIN_SCALE, MOVEMENT_FACTOR,
};
use smeagol::{BoundingBox, Position};

#[test]
fn change_scale() {
    let mut scale: u64 = 8;

    scale = increase_scale(scale);
    assert_eq!(scale, 16);

    scale = decrease_scale(scale);
    assert_eq!(scale, 8);

    let min_scale = decrease_scale(MIN_SCALE);
    assert_eq!(min_scale, MIN_SCALE);

    let max_scale = increase_scale(MAX_SCALE);
    assert_eq!(max_scale, MAX_SCALE);
}

#[test]
fn pan() {
    let mut center: (i64, i64) = (0, 0);
    let scale: u64 = 4;

    center = pan_down(center, scale);
    assert_eq!(center, (0, 4 * MOVEMENT_FACTOR as i64));

    center = pan_up(center, scale);
    assert_eq!(center, (0, 0));

    center = pan_right(center, scale);
    assert_eq!(center, (4 * MOVEMENT_FACTOR as i64, 0));

    center = pan_left(center, scale);
    assert_eq!(center, (0, 0));
}

#[test]
fn pan_small_and_limits() {
    let center = (10, -10);
    assert_eq!(pan_down_small(center, 3), (10, -7));
    assert_eq!(pan_up_small(center, 3), (10, -13));
    assert_eq!(pan_left_small(center, 3), (7, -10));
    assert_eq!(pan_right_small(center, 3), (13, -10));
    assert!(toggle_simulation(false));
    assert!(!toggle_simulation(true));
    assert_eq!(increase_step(1), 2);
    assert_eq!(increase_step(1 << 48), 1 << 48);
    assert_eq!(decrease_step(1), 1);
    assert_eq!(decrease_step(6), 3);
    assert_eq!(increase_delay(32), 64);
    assert_eq!(increase_delay(1024), 1024);
    assert_eq!(decrease_delay(32), 16);
    assert_eq!(decrease_delay(1), 1);
}

#[test]
fn view_for_boxes() {
    // nothing to show: the origin at scale 1
    assert_eq!(view_for(None, 80, 24), ((0, 0), 1));
    // a glider fits at scale 1
    let glider = BoundingBox::new(Position::new(0, 0), Position::new(2, 2));
    assert_eq!(view_for(Some(glider), 80, 24), ((1, 1), 1));
    // 1000 cells wide in 10 characters of 2 dots: 50 cells a dot, so 64
    let wide = BoundingBox::new(Position::new(-500, -3), Position::new(499, 3));
    assert_eq!(view_for(Some(wide), 10, 10), ((0, 0), 64));
    // the center rounds toward zero
    let odd = BoundingBox::new(Position::new(-4, -4), Position::new(1, 1));
    assert_eq!(view_for(Some(odd), 10, 10), ((-1, -1), 1));
    // 100 rows in 5 characters of 4 dots: 5 cells a dot, so 8
    let tall = BoundingBox::new(Position::new(0, 0), Position::new(0, 99));
    assert_eq!(view_for(Some(tall), 100, 5), ((0, 49), 8));
}
