use genetic_optimization::utils::{parse_cities, ParseError};

fn lines(input: &[&str]) -> Vec<Vec<u8>> {
    input.iter().map(|l| l.as_bytes().to_vec()).collect()
}

#[test]
fn parses_ids_and_fixed_point_coordinates() {
    let input = lines(&["1 0.5 -2.25", "2 3 4"]);
    let cities = parse_cities(&input).unwrap();
    assert_eq!(cities.len(), 2);
    assert_eq!(cities[0].id, 1);
    assert_eq!(cities[0].x, 500);
    assert_eq!(cities[0].y, -2250);
    assert_eq!(cities[1].id, 2);
    assert_eq!(cities[1].x, 3000);
    assert_eq!(cities[1].y, 4000);
}

#[test]
fn skips_short_and_empty_lines() {
    let input = lines(&["", "7 8", "intro line", "5 1.5 2.5 trailing words"]);
    let cities = parse_cities(&input).unwrap();
    // only the last line has three usable fields; extras are ignored
    assert_eq!(cities.len(), 1);
    assert_eq!(cities[0].id, 5);
    assert_eq!(cities[0].x, 1500);
    assert_eq!(cities[0].y, 2500);
}

#[test]
fn handles_tabs_and_carriage_returns() {
    let input = lines(&["1\t2\t3\r"]);
    let cities = parse_cities(&input).unwrap();
    assert_eq!(cities.len(), 1);
    assert_eq!(cities[0].x, 2000);
    assert_eq!(cities[0].y, 3000);
}

#[test]
fn truncates_fraction_past_thousandths() {
    let input = lines(&["1 0.12345 -0.9999"]);
    let cities = parse_cities(&input).unwrap();
    assert_eq!(cities[0].x, 123);
    assert_eq!(cities[0].y, -999);
}

#[test]
fn rejects_non_numeric_id() {
    let input = lines(&["0 1 2", "x 1 2"]);
    assert_eq!(parse_cities(&input), Err(ParseError::BadId { line: 1 }));
}

#[test]
fn rejects_non_numeric_coordinate() {
    let input = lines(&["1 abc 2"]);
    assert_eq!(
        parse_cities(&input),
        Err(ParseError::BadCoordinate { line: 0 })
    );
}

#[test]
fn rejects_out_of_range_coordinate() {
    // two million units is past the accepted coordinate range
    let input = lines(&["1 2000000 0"]);
    assert_eq!(
        parse_cities(&input),
        Err(ParseError::BadCoordinate { line: 0 })
    );
}

#[test]
fn accepts_the_extreme_coordinate() {
    let input = lines(&["1 1000000 -1000000"]);
    let cities = parse_cities(&input).unwrap();
    assert_eq!(cities[0].x, 1_000_000_000);
    assert_eq!(cities[0].y, -1_000_000_000);
}

#[test]
fn rejects_a_bare_sign_or_dot() {
    let bare_sign = lines(&["1 - 2"]);
    assert_eq!(
        parse_cities(&bare_sign),
        Err(ParseError::BadCoordinate { line: 0 })
    );
    let bare_dot = lines(&["1 .5 2"]);
    assert_eq!(
        parse_cities(&bare_dot),
        Err(ParseError::BadCoordinate { line: 0 })
    );
}

#[test]
fn empty_input_yields_no_cities() {
    let input: Vec<Vec<u8>> = Vec::new();
    let cities = parse_cities(&input).unwrap();
    assert!(cities.is_empty());
}
