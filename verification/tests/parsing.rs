use spelltower::board::Cell;
use spelltower::parse::{parse_puzzle, ParseError};
use spelltower::puzzmo::find_puzzle;
use spelltower::puzzmo::response::{Game, Puzzle, PuzzleWrapper};

fn parse(text: &str) -> Result<spelltower::board::Board, ParseError> {
    parse_puzzle(&text.as_bytes().to_vec())
}

#[test]
fn parses_a_well_formed_board() {
    let b = parse("ignored header\n2x2\nAb\n_C").unwrap();
    assert_eq!(b.width(), 2);
    assert_eq!(b.height(), 2);
    assert_eq!(b.get(0, 0), Cell::Letter('A', false));
    assert_eq!(b.get(0, 1), Cell::Letter('B', true));
    assert_eq!(b.get(1, 0), Cell::Blank);
    assert_eq!(b.get(1, 1), Cell::Letter('C', false));
}

#[test]
fn extra_characters_are_ignored() {
    let b = parse("h\n1x2\nA\nB\nCDE").unwrap();
    assert_eq!(b.get(0, 0), Cell::Letter('A', false));
    assert_eq!(b.get(1, 0), Cell::Letter('B', false));
}

#[test]
fn missing_dimension_line_is_rejected() {
    assert_eq!(
        parse("just one line without a newline").unwrap_err(),
        ParseError::MissingDimensions
    );
}

#[test]
fn dimensions_without_x_are_rejected() {
    assert_eq!(parse("h\n33\nAAAAAAAAA").unwrap_err(), ParseError::BadDimensions);
}

#[test]
fn non_numeric_dimension_is_rejected() {
    assert_eq!(parse("h\nax3\nAAA").unwrap_err(), ParseError::BadNumber);
    assert_eq!(parse("h\n3x\nAAA").unwrap_err(), ParseError::BadNumber);
    assert_eq!(parse("h\nx3\nAAA").unwrap_err(), ParseError::BadNumber);
}

#[test]
fn oversized_dimension_is_rejected() {
    assert_eq!(
        parse("h\n18446744073709551616x1\nA").unwrap_err(),
        ParseError::BadNumber
    );
    assert_eq!(
        parse("h\n4294967296x4294967296\nA").unwrap_err(),
        ParseError::TooLarge
    );
}

#[test]
fn short_grid_is_rejected() {
    assert_eq!(parse("h\n2x2\nABC").unwrap_err(), ParseError::TooFewCells);
}

#[test]
fn stray_character_is_rejected() {
    assert_eq!(parse("h\n2x2\nAB!C").unwrap_err(), ParseError::BadCharacter);
}

fn wrapper(slug: &str, status: &str, text: &str) -> PuzzleWrapper {
    PuzzleWrapper {
        status: status.to_string(),
        puzzle: Puzzle { puzzle: text.to_string(), game: Game { slug: slug.to_string() } },
    }
}

#[test]
fn picks_the_first_matching_puzzle() {
    let offers = vec![
        wrapper("spelltower", "Experimental", "first"),
        wrapper("spelltower", "Vanilla", "second"),
        wrapper("spelltower", "Vanilla", "third"),
        wrapper("cubeclear", "Vanilla", "fourth"),
    ];
    let got = find_puzzle(&offers, &"spelltower".to_string(), &"Vanilla".to_string());
    assert_eq!(got, Some("second".to_string()));
}

#[test]
fn no_matching_puzzle_yields_none() {
    let offers = vec![wrapper("cubeclear", "Vanilla", "board")];
    assert_eq!(
        find_puzzle(&offers, &"spelltower".to_string(), &"Vanilla".to_string()),
        None
    );
}
