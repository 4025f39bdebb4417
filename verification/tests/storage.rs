use voxel_logic::grid::Coord;
use voxel_logic::storage::{coord_key, parse_coord_key};

#[test]
fn coord_key_writes_three_decimals() {
    assert_eq!(coord_key(Coord::new(0, 0, 0)), "0,0,0");
    assert_eq!(coord_key(Coord::new(1, -2, 30)), "1,-2,30");
    assert_eq!(coord_key(Coord::new(-105, 7, -9)), "-105,7,-9");
    assert_eq!(
        coord_key(Coord::new(i32::MIN, i32::MAX, 0)),
        "-2147483648,2147483647,0"
    );
}

#[test]
fn parse_coord_key_reads_what_coord_key_writes() {
    for c in [
        Coord::new(0, 0, 0),
        Coord::new(1, -2, 30),
        Coord::new(-105, 7, -9),
        Coord::new(i32::MIN, i32::MAX, 0),
        Coord::new(10, 100, 1000),
        Coord::new(-1, -10, -100),
    ] {
        assert_eq!(parse_coord_key(&coord_key(c)), Some(c));
    }
    assert_eq!(parse_coord_key("4,5,6"), Some(Coord::new(4, 5, 6)));
    assert_eq!(parse_coord_key("-2147483648,0,0"), Some(Coord::new(i32::MIN, 0, 0)));
}

#[test]
fn parse_coord_key_reads_signs_and_zeros_before_a_number() {
    assert_eq!(parse_coord_key("+1,2,3"), Some(Coord::new(1, 2, 3)));
    assert_eq!(parse_coord_key("1,+2,-3"), Some(Coord::new(1, 2, -3)));
    assert_eq!(parse_coord_key("01,2,3"), Some(Coord::new(1, 2, 3)));
    assert_eq!(parse_coord_key("1,2,00"), Some(Coord::new(1, 2, 0)));
    assert_eq!(parse_coord_key("-0,1,2"), Some(Coord::new(0, 1, 2)));
    assert_eq!(parse_coord_key("+0,-007,+0010"), Some(Coord::new(0, -7, 10)));
    assert_eq!(parse_coord_key("0,0,00000000001"), Some(Coord::new(0, 0, 1)));
    assert_eq!(
        parse_coord_key("0000000000002147483647,-0000000000002147483648,0"),
        Some(Coord::new(i32::MAX, i32::MIN, 0))
    );
    assert_eq!(parse_coord_key("+2147483647,0,0"), Some(Coord::new(i32::MAX, 0, 0)));
}

#[test]
fn parse_coord_key_passes_over_further_numbers() {
    assert_eq!(parse_coord_key("1,2,3,4"), Some(Coord::new(1, 2, 3)));
    assert_eq!(parse_coord_key("1,2,3,-4,+5,06"), Some(Coord::new(1, 2, 3)));
    assert_eq!(parse_coord_key("1,2,3,x"), None);
    assert_eq!(parse_coord_key("1,2,3,4,"), None);
    assert_eq!(parse_coord_key("1,2,3,99999999999"), None);
}

#[test]
fn parse_coord_key_refuses_everything_else() {
    for key in [
        "",
        ",",
        ",,",
        "1",
        "1,2",
        "1,2,",
        ",1,2",
        "1,,2",
        "1,2,3,",
        "a,b,c",
        "1,2,x",
        "+,1,2",
        "-,1,2",
        "+-1,2,3",
        "--1,2,3",
        "++1,2,3",
        "1-,2,3",
        "1+,2,3",
        " 1,2,3",
        "1,2,3 ",
        "1, 2,3",
        "2147483648,0,0",
        "+2147483648,0,0",
        "0,-2147483649,0",
        "0,0,99999999999",
        "0,0,99999999999999999999999999999999999999",
        "0,0,-99999999999999999999999999999999999999",
        "1.0,2,3",
        "１,2,3",
    ] {
        assert_eq!(parse_coord_key(key), None, "{:?}", key);
    }
}
