use smeagol::rle::{PatternUnit, Rle, RleError};

#[test]
fn lib_from_pattern() {
    let _rle = Rle::from_pattern(b"3b2o$2bobo$2bo2b$obo2b$2o!").unwrap();
}

#[test]
fn lib_alive_cells() {
    let rle = Rle::from_pattern(b"bob$2bo$3o!").unwrap();
    let alive_cells = vec![(1, 0), (2, 1), (0, 2), (1, 2), (2, 2)];
    assert_eq!(rle.alive_cells(), alive_cells);
}

#[test]
fn rle_from_pattern() {
    // integral sign
    Rle::from_pattern(b"3b2o$2bobo$2bo2b$obo2b$2o!").unwrap();
}

#[test]
fn rle_alive_cells() {
    // glider
    let rle = Rle::from_pattern(b"bob$2bo$3o!").unwrap();
    let alive_cells = vec![(1, 0), (2, 1), (0, 2), (1, 2), (2, 2)];
    assert_eq!(rle.alive_cells(), alive_cells);
}

#[test]
fn rle_from_pattern_errors() {
    assert!(matches!(Rle::from_pattern(b"foo"), Err(RleError::Parse)));
    assert!(matches!(Rle::from_pattern(b"3b2o"), Err(RleError::Parse)));
    assert!(matches!(Rle::from_pattern(b""), Err(RleError::Parse)));
    // a run count that does not fit in a u32
    assert!(matches!(Rle::from_pattern(b"4294967296o!"), Err(RleError::Parse)));
}

#[test]
fn rle_run_counts_and_lines() {
    let rle = Rle::from_pattern(b"2o2$3bo!").unwrap();
    assert_eq!(rle.alive_cells(), vec![(0, 0), (1, 0), (3, 2)]);
    // what follows the `!` is ignored
    let rle = Rle::from_pattern(b"o! trailing text").unwrap();
    assert_eq!(rle.alive_cells(), vec![(0, 0)]);
    // the largest run count that fits in a u32 parses
    assert!(Rle::from_pattern(b"4294967295b!").is_ok());
    let _unit = PatternUnit { reps: 1, tag: 'o' };
}

#[test]
fn rle_file_contents_glider() {
    let rle = Rle::from_file_contents(b"#N Glider\n#C A spaceship.\nx = 3, y = 3, rule = B3/S23\nbob$2bo$3o!\n").unwrap();
    assert_eq!(rle.alive_cells(), vec![(1, 0), (2, 1), (0, 2), (1, 2), (2, 2)]);
}

#[test]
fn rle_file_contents_crlf_and_spaces() {
    let rle = Rle::from_file_contents(b"#C x\r\n  x=2 ,y =1\r\n 2o!").unwrap();
    assert!(Rle::from_file_contents(b"#C x\r\n  x=2 ,y =1\r\n 2o !").is_err());
    assert_eq!(rle.alive_cells(), vec![(0, 0), (1, 0)]);
}

#[test]
fn rle_file_contents_errors() {
    assert_eq!(Rle::from_file_contents(b"bob$2bo$3o!").err(), Some(RleError::Parse));
    assert_eq!(Rle::from_file_contents(b"x = 3, y = 3\nbob$2bo$3o").err(), Some(RleError::Parse));
    assert_eq!(Rle::from_file_contents(b"x = , y = 3\nbo!").err(), Some(RleError::Parse));
    assert_eq!(Rle::from_file_contents(b"x = 99999999999, y = 3\nbo!").err(), Some(RleError::Parse));
    assert_eq!(Rle::from_file_contents(b"x = 3, y = 3 no line break").err(), Some(RleError::Parse));
    assert_eq!(Rle::from_file_contents(b"#C lone \r return\nx = 1, y = 1\no!").err(), Some(RleError::Parse));
}

#[test]
fn rle_file_with_header_matches_pattern() {
    let pattern: &[u8] = b"bob$2bo$3o!";
    let header: &[u8] = b"#C a comment\nx = 3, y = 3\n";
    let file = [header, pattern].concat();
    let from_file = Rle::from_file_contents(&file).unwrap();
    let from_pattern = Rle::from_pattern(pattern).unwrap();
    assert_eq!(from_file.alive_cells(), from_pattern.alive_cells());
    assert_eq!(from_file.alive_cells(), vec![(1, 0), (2, 1), (0, 2), (1, 2), (2, 2)]);
    assert!(Rle::from_file_contents(pattern).is_err());
}
