use minesweeper::board::ExternalCell;
use minesweeper::wire::{parse_external_cell, render_external_cell};

#[test]
fn render_matches_wire_format() {
    assert_eq!(
        render_external_cell(&ExternalCell::Unrevealed),
        "{\"state\":\"unrevealed\"}"
    );
    assert_eq!(
        render_external_cell(&ExternalCell::Flagged),
        "{\"state\":\"flagged\"}"
    );
    assert_eq!(
        render_external_cell(&ExternalCell::Mine),
        "{\"state\":\"mine\"}"
    );
    assert_eq!(
        render_external_cell(&ExternalCell::Number { value: 5 }),
        "{\"state\":\"number\",\"value\":5}"
    );
    assert_eq!(
        render_external_cell(&ExternalCell::Number { value: 42 }),
        "{\"state\":\"number\",\"value\":42}"
    );
    assert_eq!(
        render_external_cell(&ExternalCell::Number { value: 255 }),
        "{\"state\":\"number\",\"value\":255}"
    );
}

#[test]
fn parse_accepts_exactly_the_wire_texts() {
    assert_eq!(
        parse_external_cell("{\"state\":\"unrevealed\"}"),
        Some(ExternalCell::Unrevealed)
    );
    assert_eq!(
        parse_external_cell("{\"state\":\"flagged\"}"),
        Some(ExternalCell::Flagged)
    );
    assert_eq!(
        parse_external_cell("{\"state\":\"mine\"}"),
        Some(ExternalCell::Mine)
    );
    assert_eq!(
        parse_external_cell("{\"state\":\"number\",\"value\":0}"),
        Some(ExternalCell::Number { value: 0 })
    );
    assert_eq!(
        parse_external_cell("{\"state\":\"number\",\"value\":8}"),
        Some(ExternalCell::Number { value: 8 })
    );
}

#[test]
fn parse_rejects_everything_else() {
    assert_eq!(parse_external_cell(""), None);
    assert_eq!(parse_external_cell("{\"state\":\"bogus\"}"), None);
    assert_eq!(parse_external_cell("{\"state\":\"number\",\"value\":}"), None);
    assert_eq!(
        parse_external_cell("{\"state\":\"number\",\"value\":05}"),
        None
    );
    assert_eq!(
        parse_external_cell("{\"state\":\"number\",\"value\":300}"),
        None
    );
    assert_eq!(
        parse_external_cell("{\"state\":\"number\",\"value\":1234}"),
        None
    );
    assert_eq!(
        parse_external_cell("{\"state\":\"number\",\"value\":x}"),
        None
    );
}

#[test]
fn round_trip_returns_the_same_cell() {
    let cells = [
        ExternalCell::Unrevealed,
        ExternalCell::Flagged,
        ExternalCell::Mine,
        ExternalCell::Number { value: 0 },
        ExternalCell::Number { value: 8 },
        ExternalCell::Number { value: 10 },
        ExternalCell::Number { value: 99 },
        ExternalCell::Number { value: 100 },
        ExternalCell::Number { value: 255 },
    ];
    for cell in cells {
        let text = render_external_cell(&cell);
        assert_eq!(parse_external_cell(text.as_str()), Some(cell));
    }
}
