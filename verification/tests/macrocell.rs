use smeagol::macrocell::{macrocell, Cell, MacrocellError};

fn level_three(cell: &Cell) -> Option<String> {
    match cell {
        Cell::LevelThree { cells } => Some(cells.iter().collect()),
        Cell::Interior { .. } => None,
    }
}

fn interior(cell: &Cell) -> Option<(u8, [usize; 4])> {
    match cell {
        Cell::LevelThree { .. } => None,
        Cell::Interior { level, children } => Some((*level, *children)),
    }
}

#[test]
fn macrocell_reads_nodes() {
    let input = b"[M2] (golly 3.0)\n#R B3/S23\n$.*$..*$***$\n4 1 0 0 0\r\n5 0 2 2 0\n";
    let (rest, cells) = macrocell(input).unwrap();
    assert_eq!(rest, input.len());
    assert_eq!(cells.len(), 3);
    assert_eq!(level_three(&cells[0]), Some("$.*$..*$***$".to_string()));
    assert_eq!(interior(&cells[1]), Some((4, [1, 0, 0, 0])));
    assert_eq!(interior(&cells[2]), Some((5, [0, 2, 2, 0])));
}

#[test]
fn macrocell_stops_at_unfinished_line() {
    let input = b"[M2]\n#c\n.*$\n4 1 0 0 0";
    let (rest, cells) = macrocell(input).unwrap();
    assert_eq!(cells.len(), 1);
    assert_eq!(level_three(&cells[0]), Some(".*$".to_string()));
    assert_eq!(rest, 12);
}

#[test]
fn macrocell_level_above_u8_is_not_a_node() {
    let input = b"[M2]\n#c\n300 1 2 3 4\n";
    let (rest, cells) = macrocell(input).unwrap();
    assert_eq!(cells.len(), 1);
    assert_eq!(level_three(&cells[0]), Some(String::new()));
    assert_eq!(rest, input.len());
}

#[test]
fn macrocell_errors() {
    assert_eq!(macrocell(b"[M1]\n#c\n.*$\n").err(), Some(MacrocellError::Parse));
    assert_eq!(macrocell(b"[M2]\nno comment\n").err(), Some(MacrocellError::Parse));
    assert_eq!(macrocell(b"[M2]").err(), Some(MacrocellError::Parse));
    assert_eq!(macrocell(b"[M2]\n#c\nab\rcd\n").err(), Some(MacrocellError::Stalled));
}
