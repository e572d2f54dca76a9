use calmuxd::ical::{parse_property, scrape_contents, unfold_lines, first_colon, Component, ParseError};

const LUNCH: &str = "BEGIN:VCALENDAR\nVERSION:2.0\nBEGIN:VEVENT\nSUMMARY:Lunch\nEND:VEVENT\nEND:VCALENDAR";

fn lines_of(c: &Component) -> Vec<&str> {
    c.lines.iter().map(|l| l.as_str()).collect()
}

#[test]
fn lunch_event_is_the_only_component() {
    let cs = scrape_contents(LUNCH).unwrap();
    assert_eq!(cs.len(), 1);
    assert_eq!(cs[0].name, "VEVENT");
    assert_eq!(lines_of(&cs[0]), vec!["BEGIN:VEVENT", "SUMMARY:Lunch", "END:VEVENT"]);
}

#[test]
fn nested_components_round_trip() {
    let text = "BEGIN:VCALENDAR\r\nPRODID:x\r\nBEGIN:VEVENT\r\nUID:1\r\nBEGIN:VALARM\r\nACTION:DISPLAY\r\nEND:VALARM\r\nEND:VEVENT\r\nBEGIN:VTODO\r\nSUMMARY:Do it\r\nEND:VTODO\r\nEND:VCALENDAR\r\n";
    let cs = scrape_contents(text).unwrap();
    assert_eq!(cs.len(), 2);
    assert_eq!(cs[0].name, "VEVENT");
    assert_eq!(cs[1].name, "VTODO");
    let all: Vec<&str> = cs.iter().flat_map(|c| lines_of(c)).collect();
    assert_eq!(
        all,
        vec![
            "BEGIN:VEVENT", "UID:1", "BEGIN:VALARM", "ACTION:DISPLAY", "END:VALARM", "END:VEVENT",
            "BEGIN:VTODO", "SUMMARY:Do it", "END:VTODO",
        ]
    );
}

#[test]
fn mismatched_close_is_malformed() {
    let text = "BEGIN:VCALENDAR\nBEGIN:VEVENT\nBEGIN:VALARM\nEND:VEVENT\nEND:VALARM\nEND:VCALENDAR";
    assert_eq!(scrape_contents(text).unwrap_err(), ParseError::MalformedDocument);
}

#[test]
fn close_without_open_is_malformed() {
    let text = "BEGIN:VCALENDAR\nEND:VEVENT\nEND:VCALENDAR";
    assert_eq!(scrape_contents(text).unwrap_err(), ParseError::MalformedDocument);
}

#[test]
fn unterminated_component_is_malformed() {
    let text = "BEGIN:VCALENDAR\nBEGIN:VEVENT\nSUMMARY:x\nEND:VCALENDAR";
    assert_eq!(scrape_contents(text).unwrap_err(), ParseError::MalformedDocument);
}

#[test]
fn line_without_colon_is_malformed() {
    let text = "BEGIN:VCALENDAR\nBEGIN:VEVENT\nSUMMARY\nEND:VEVENT\nEND:VCALENDAR";
    assert_eq!(scrape_contents(text).unwrap_err(), ParseError::MalformedDocument);
}

#[test]
fn missing_wrapper_is_invalid() {
    assert_eq!(scrape_contents("").unwrap_err(), ParseError::InvalidDocument);
    assert_eq!(
        scrape_contents("BEGIN:VEVENT\nEND:VEVENT").unwrap_err(),
        ParseError::InvalidDocument
    );
    assert_eq!(
        scrape_contents("BEGIN:VCALENDAR\nBEGIN:VEVENT\nEND:VEVENT").unwrap_err(),
        ParseError::InvalidDocument
    );
    assert_eq!(scrape_contents("BEGIN:VCALENDAR").unwrap_err(), ParseError::InvalidDocument);
}

#[test]
fn second_calendar_object_is_rejected() {
    let text = "BEGIN:VCALENDAR\nEND:VCALENDAR\nBEGIN:VCALENDAR\nEND:VCALENDAR";
    assert!(scrape_contents(text).is_err());
}

#[test]
fn blank_lines_around_wrapper_are_skipped() {
    let text = "\n\nBEGIN:VCALENDAR\n\nBEGIN:VEVENT\nEND:VEVENT\nEND:VCALENDAR\n\n";
    let cs = scrape_contents(text).unwrap();
    assert_eq!(cs.len(), 1);
    assert_eq!(lines_of(&cs[0]), vec!["BEGIN:VEVENT", "END:VEVENT"]);
}

#[test]
fn empty_calendar_has_no_components() {
    let cs = scrape_contents("BEGIN:VCALENDAR\nVERSION:2.0\nEND:VCALENDAR").unwrap();
    assert!(cs.is_empty());
}

#[test]
fn folded_lines_are_joined() {
    let text = "BEGIN:VCALENDAR\r\nBEGIN:VEVENT\r\nDESCRIPTION:a long\r\n  description\r\n\tcontinued\r\nEND:VEVENT\r\nEND:VCALENDAR\r\n";
    let cs = scrape_contents(text).unwrap();
    assert_eq!(
        lines_of(&cs[0]),
        vec!["BEGIN:VEVENT", "DESCRIPTION:a long descriptioncontinued", "END:VEVENT"]
    );
}

#[test]
fn unfold_joins_and_drops_empty() {
    let lines: Vec<String> = vec!["A:1".into(), " 2".into(), "".into(), "B:3".into()];
    assert_eq!(unfold_lines(&lines), vec!["A:12".to_string(), "B:3".to_string()]);
}

#[test]
fn property_value_after_first_colon() {
    assert_eq!(parse_property("BEGIN:VEVENT"), Ok("VEVENT"));
    assert_eq!(parse_property("DTSTART;TZID=x:2024:01"), Ok("2024:01"));
    assert_eq!(parse_property("NAME:"), Ok(""));
    assert_eq!(parse_property("NOCOLON"), Err(ParseError::MalformedDocument));
}

#[test]
fn colon_position() {
    assert_eq!(first_colon("ab:c"), Some(2));
    assert_eq!(first_colon("é:"), Some(1));
    assert_eq!(first_colon("abc"), None);
}

#[test]
fn parse_error_messages() {
    assert_eq!(ParseError::InvalidDocument.message(), "no valid calendar object was present");
    assert_eq!(ParseError::MalformedDocument.message(), "a calendar component is malformed");
}
