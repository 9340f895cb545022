use smeagol::bare_rle::Rle;
use smeagol::rle::RleError;

#[test]
fn bare_rle_glider_with_and_without_bang() {
    let rle = Rle::from_pattern(b"bob$2bo$3o!").unwrap();
    assert_eq!(rle.alive_cells(), vec![(1, 0), (2, 1), (0, 2), (1, 2), (2, 2)]);
    let rle = Rle::from_pattern(b"bob$2bo$3o\n#C end").unwrap();
    assert_eq!(rle.alive_cells(), vec![(1, 0), (2, 1), (0, 2), (1, 2), (2, 2)]);
}

#[test]
fn bare_rle_stops_at_first_stranger() {
    let rle = Rle::from_pattern(b"foo").unwrap();
    assert!(rle.alive_cells().is_empty());
    let rle = Rle::from_pattern(b"2o x 3o").unwrap();
    assert_eq!(rle.alive_cells(), vec![(0, 0), (1, 0)]);
    // a count too large for a u32 stops the reading too
    let rle = Rle::from_pattern(b"o99999999999b!").unwrap();
    assert_eq!(rle.alive_cells(), vec![(0, 0)]);
}

#[test]
fn bare_rle_refuses_input_that_runs_out() {
    assert_eq!(Rle::from_pattern(b"").err(), Some(RleError::Parse));
    assert_eq!(Rle::from_pattern(b"bob$2bo$3o").err(), Some(RleError::Parse));
    assert_eq!(Rle::from_pattern(b"2o  ").err(), Some(RleError::Parse));
    assert_eq!(Rle::from_pattern(b"2o 12").err(), Some(RleError::Parse));
    assert_eq!(Rle::from_pattern(b"bob$2bo$3o\n").err(), Some(RleError::Parse));
}
