use smeagol::pattern::Pattern;
use smeagol::rle::RleError;
use smeagol::Position;

#[test]
fn parse() {
    let glider = " b  ob  $ 2b\n\no\n$3o$$ $ $$$$ 5$ bbb $b$bb$bbb !  foobar";
    let rle = Pattern::from_pattern(glider).unwrap();
    let mut coords: Vec<Position> = rle.alive_cells();
    coords.sort_by_key(|p| (p.x, p.y));
    assert_eq!(
        coords,
        &[
            Position::new(0, 2),
            Position::new(1, 0),
            Position::new(1, 2),
            Position::new(2, 1),
            Position::new(2, 2)
        ]
    );
}

#[test]
fn parse_rejects() {
    // no `!`
    assert!(matches!(Pattern::from_pattern("bo$"), Err(RleError::Parse)));
    // a count with a leading zero
    assert!(matches!(Pattern::from_pattern("03o!"), Err(RleError::Parse)));
    // a count that does not fit in a u32
    assert!(matches!(Pattern::from_pattern("4294967296o!"), Err(RleError::Parse)));
    // whitespace between a count and its tag
    assert!(matches!(Pattern::from_pattern("3 o!"), Err(RleError::Parse)));
    // a form feed is not whitespace here
    assert!(matches!(Pattern::from_pattern("\x0co!"), Err(RleError::Parse)));
}

#[test]
fn parse_accepts() {
    assert_eq!(Pattern::from_pattern("!").unwrap().alive_cells(), vec![]);
    assert_eq!(
        Pattern::from_pattern("\t2o\r\n$o !").unwrap().alive_cells(),
        vec![Position::new(0, 0), Position::new(1, 0), Position::new(0, 1)]
    );
    assert!(Pattern::from_pattern("4294967295b!").is_ok());
}
