use smeagol::life::Life;
use smeagol::view::braille_at;
use smeagol::{BoundingBox, Position};

fn sorted_cells(life: &Life) -> Vec<(i64, i64)> {
    let mut cells: Vec<(i64, i64)> = life.get_alive_cells().iter().map(|p| (p.x, p.y)).collect();
    cells.sort();
    cells
}

// advances the grid by `generations`, one power of two at a time
fn advance(life: &mut Life, generations: u64) {
    for k in (0..64u8).rev() {
        if generations & (1u64 << k) != 0 {
            life.set_step_log_2(k);
            life.step();
        }
    }
}

fn helper(mut life: Life, period: u64) {
    let before = sorted_cells(&life);
    let before_population = life.population();
    let before_generation = life.generation();

    advance(&mut life, period);

    let after = sorted_cells(&life);
    let after_population = life.population();
    let after_generation = life.generation();

    assert_eq!(before, after);
    assert_eq!(before_population, after_population);
    assert_eq!(after_generation - before_generation, period as u128);

    life.set_step_log_2(0);
    for _ in 0..period {
        life.step();
    }

    let after_again = sorted_cells(&life);
    assert_eq!(before, after_again);
    assert_eq!(before_population, life.population());
    assert_eq!(life.generation() - after_generation, period as u128);
}

#[test]
fn figure_eight() {
    helper(Life::from_rle_pattern(b"\n2o4b$2obo2b$4bob$bo4b$2bob2o$4b2o!\n").unwrap(), 8);
}

#[test]
fn pentadecathlon() {
    helper(Life::from_rle_pattern(b"\n2bo4bo2b$2ob4ob2o$2bo4bo!\n").unwrap(), 15);
}

#[test]
fn pulsar() {
    helper(
        Life::from_rle_pattern(
            b"\n2b3o3b3o2b2$o4bobo4bo$o4bobo4bo$o4bobo4bo$2b3o3b3o2b2$2b3o3b3o2b$o4bob\no4bo$o4bobo4bo$o4bobo4bo2$2b3o3b3o!\n",
        )
        .unwrap(),
        3,
    );
}

#[test]
fn queen_bee_shuttle() {
    helper(
        Life::from_rle_pattern(b"\n9bo12b$7bobo12b$6bobo13b$2o3bo2bo11b2o$2o4bobo11b2o$7bobo12b$9bo!\n").unwrap(),
        30,
    );
}

#[test]
fn spaceships_glider() {
    let mut life = Life::from_rle_pattern(b"bo$2bo$3o!").unwrap();
    life.set_step_log_2(0);
    let before = sorted_cells(&life);
    for i in 1..=10i64 {
        for _ in 0..4 {
            life.step();
        }
        let after = sorted_cells(&life);
        assert_eq!(before.len(), after.len());
        for (p0, p1) in before.iter().zip(after.iter()) {
            assert_eq!(p0.0 + i, p1.0);
            assert_eq!(p0.1 + i, p1.1);
        }
    }
}

#[test]
fn position_extremes() {
    let mut life = Life::new();

    let min = i64::MIN;
    let max = i64::MAX;

    life.set_cell_alive(Position::new(min, min));
    life.set_cell_alive(Position::new(min, max));
    life.set_cell_alive(Position::new(max, min));
    life.set_cell_alive(Position::new(max, max));

    assert_eq!(
        life.bounding_box(),
        Some(BoundingBox::new(Position::new(min, min), Position::new(max, max)))
    );
}

#[test]
fn life_basics() {
    let mut life = Life::default();
    assert_eq!(life.population(), 0);
    assert_eq!(life.generation(), 0);
    assert_eq!(life.bounding_box(), None);
    life.set_cell_alive(Position::new(3, -2));
    life.set_cell_alive(Position::new(3, -2));
    assert_eq!(life.population(), 1);
    assert!(life.contains_alive_cells(BoundingBox::new(Position::new(0, -5), Position::new(3, -2))));
    assert!(!life.contains_alive_cells(BoundingBox::new(Position::new(4, -5), Position::new(9, 9))));
    life.set_step_log_2(5);
    assert_eq!(life.step_size(), 32);
    // a lone cell dies
    life.step();
    assert_eq!(life.population(), 0);
    assert_eq!(life.generation(), 32);
}

#[test]
fn braille_glyphs() {
    let mut life = Life::new();
    life.set_cell_alive(Position::new(0, 0));
    // the character at the middle of a 10 by 6 view centered on the origin
    // has the cell in its top left dot
    assert_eq!(braille_at(&life, 5, 3, 10, 6, (0, 0), 1), '\u{2801}');
    // centered one cell to the west, the cell is in the top right dot
    assert_eq!(braille_at(&life, 5, 3, 10, 6, (-1, 0), 1), '\u{2808}');
    // three rows up, it is in the bottom left dot
    assert_eq!(braille_at(&life, 5, 3, 10, 6, (0, -3), 1), '\u{2840}');
    // at scale 2, one dot covers two by two cells
    assert_eq!(braille_at(&life, 5, 3, 10, 6, (-1, -1), 2), '\u{2801}');
    // elsewhere the character is blank
    assert_eq!(braille_at(&life, 0, 0, 10, 6, (0, 0), 1), '\u{2800}');
}

#[test]
fn picture_of_glider() {
    let life = Life::from_rle_pattern(b"bo$2bo$3o!").unwrap();
    let bbox = life.bounding_box().unwrap();
    assert_eq!(bbox, BoundingBox::new(Position::new(0, 0), Position::new(2, 2)));
    // the width and height are the box's extent over the pixel side: two
    // pixels for a box three cells wide at one cell a pixel
    let rows = life.picture(bbox, 0);
    assert_eq!(rows, vec![vec![255, 0], vec![255, 255]]);
    let rows = life.picture(bbox.pad(1), 0);
    assert_eq!(
        rows,
        vec![
            vec![255, 255, 255, 255],
            vec![255, 255, 0, 255],
            vec![255, 255, 255, 0],
            vec![255, 0, 0, 0],
        ]
    );
    // at two cells a pixel, a pixel is black when its square has a cell
    let rows = life.picture(bbox.pad(1), 1);
    assert_eq!(rows, vec![vec![255, 0], vec![0, 0]]);
}

#[test]
fn rle_fits() {
    let rle = smeagol::rle::Rle::from_pattern(b"bo$2bo$3o!").unwrap();
    assert!(rle.fits());
    let wide = smeagol::rle::Rle::from_pattern(b"4294967295b2o!").unwrap();
    assert!(!wide.fits());
}

#[test]
fn block_near_root_edge_survives() {
    let mut life = Life::new();
    for (x, y) in [(60, 60), (61, 60), (60, 61), (61, 61)] {
        life.set_cell_alive(Position::new(x, y));
    }
    life.step();
    assert_eq!(sorted_cells(&life), vec![(60, 60), (60, 61), (61, 60), (61, 61)]);
    life.set_step_log_2(6);
    life.step();
    assert_eq!(sorted_cells(&life), vec![(60, 60), (60, 61), (61, 60), (61, 61)]);
    assert_eq!(life.generation(), 65);
}

#[test]
fn far_glider_keeps_moving() {
    let mut life = Life::new();
    for (x, y) in [(1001, 1000), (1002, 1001), (1000, 1002), (1001, 1002), (1002, 1002)] {
        life.set_cell_alive(Position::new(x, y));
    }
    life.set_step_log_2(2);
    life.step();
    assert_eq!(
        sorted_cells(&life),
        vec![(1001, 1003), (1002, 1001), (1002, 1003), (1003, 1002), (1003, 1003)]
    );
}
