use movingai::Map2D;
use movingai::MapError;
use movingai::parser::parse_map;

#[test]
fn parse_minimal_map() {
    let map = parse_map("type octile\nheight 1\nwidth 1\nmap\nT").unwrap();
    assert_eq!(map.width(), 1);
    assert_eq!(map.height(), 1);
    assert_eq!(*map.get((0, 0)), 'T');
}

#[test]
fn parse_multi_row() {
    let map = parse_map("type octile\nheight 2\nwidth 3\nmap\n.W.\nT.G\n").unwrap();
    assert_eq!(map.width(), 3);
    assert_eq!(map.height(), 2);
    assert_eq!(*map.get((1, 0)), 'W');
    assert_eq!(*map.get((0, 1)), 'T');
    assert_eq!(*map.get((2, 1)), 'G');
}

#[test]
fn parse_crlf_line_endings() {
    let map = parse_map("type octile\r\nheight 2\r\nwidth 2\r\nmap\r\n.W\r\nT.\r\n").unwrap();
    assert_eq!(map.width(), 2);
    assert_eq!(*map.get((1, 0)), 'W');
    assert_eq!(*map.get((0, 1)), 'T');
}

#[test]
fn parse_octile_topology_applies() {
    // An octile map admits the open diagonal...
    let map = parse_map("type octile\nheight 2\nwidth 2\nmap\n..\n..").unwrap();
    assert!(map.neighbors((0, 0)).contains(&(1, 1)));
    // ...a map of any other type does not.
    let tile = parse_map("type tile\nheight 2\nwidth 2\nmap\n..\n..").unwrap();
    assert!(!tile.neighbors((0, 0)).contains(&(1, 1)));
}

#[test]
fn parse_marker_is_trimmed() {
    let map = parse_map("height 1\nwidth 2\n  map \n.W").unwrap();
    assert_eq!(*map.get((1, 0)), 'W');
}

#[test]
fn parse_malformed_lines_are_ignored() {
    // Three fields, unknown keys and empty lines do not disturb parsing.
    let map = parse_map("bogus\n\ntype octile extra\nheight 1\nwidth 1\ncolor blue\nmap\n.")
        .unwrap();
    assert_eq!(map.width(), 1);
    assert_eq!(map.height(), 1);
}

#[test]
fn parse_later_header_wins() {
    let map = parse_map("height 5\nheight 2\nwidth 2\nmap\n..\n..").unwrap();
    assert_eq!(map.height(), 2);
}

#[test]
fn parse_plus_sign_number() {
    let map = parse_map("height +1\nwidth 1\nmap\n.").unwrap();
    assert_eq!(map.height(), 1);
}

#[test]
fn parse_bad_number() {
    let r = parse_map("type octile\nheight abc\nwidth 1\nmap\n.");
    assert_eq!(r.unwrap_err(), MapError::InvalidNumber);
    let r2 = parse_map("height 1x\nwidth 1\nmap\n.");
    assert_eq!(r2.unwrap_err(), MapError::InvalidNumber);
    let r3 = parse_map("height \nwidth 1\nmap\n.");
    assert_eq!(r3.unwrap_err(), MapError::InvalidNumber);
}

#[test]
fn parse_overflowing_number() {
    let r = parse_map("height 99999999999999999999999999\nwidth 1\nmap\n.");
    assert_eq!(r.unwrap_err(), MapError::InvalidNumber);
}

#[test]
fn parse_dimension_mismatch() {
    let r = parse_map("type octile\nheight 2\nwidth 2\nmap\n..\n.");
    assert_eq!(r.unwrap_err(), MapError::DimensionMismatch);
    let r2 = parse_map("type octile\nheight 1\nwidth 1\nmap\n");
    assert_eq!(r2.unwrap_err(), MapError::DimensionMismatch);
}

#[test]
fn parse_empty_input() {
    let map = parse_map("").unwrap();
    assert_eq!(map.width(), 0);
    assert_eq!(map.height(), 0);
    assert_eq!(map.free_states(), 0);
}
