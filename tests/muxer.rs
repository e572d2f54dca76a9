use calmuxd::config::FeedConfig;
use calmuxd::ical::{scrape_contents, ParseError};
use calmuxd::muxer::{
    classify_response, collect_outcomes, count_failures, feed_response, formulate_calendar, source_outcome,
    FetchError, MuxError, SourceError, SourceOutcome,
};

const LUNCH: &str = "BEGIN:VCALENDAR\nVERSION:2.0\nBEGIN:VEVENT\nSUMMARY:Lunch\nEND:VEVENT\nEND:VCALENDAR";

fn feed(name: Option<&str>, color: &str) -> FeedConfig {
    FeedConfig {
        endpoint: "/team".to_string(),
        visual_name: name.map(|n| n.to_string()),
        color: color.to_string(),
        urls: vec!["http://a/1.ics".to_string(), "http://b/2.ics".to_string()],
    }
}

fn doc(summary: &str) -> String {
    format!("BEGIN:VCALENDAR\nPRODID:src\nBEGIN:VEVENT\nSUMMARY:{}\nEND:VEVENT\nEND:VCALENDAR", summary)
}

#[test]
fn one_success_of_two_gives_full_calendar() {
    let outcomes = collect_outcomes(&vec![
        Some(Ok(LUNCH.to_string())),
        Some(Err(FetchError::Unreachable)),
    ]);
    let r = feed_response(&feed(Some("Team"), "#ff69b4"), &outcomes);
    assert_eq!(r.status, 200);
    assert_eq!(r.content_type, "text/calendar");
    assert_eq!(
        r.body,
        "BEGIN:VCALENDAR\r\nVERSION:2.0\r\nPRODID:-//calmuxd//CALMUXD 0.1.0//EN\r\nX-WR-CALNAME:Team\r\nX-APPLE-CALENDAR-COLOR:#ff69b4\r\nBEGIN:VEVENT\r\nSUMMARY:Lunch\r\nEND:VEVENT\r\nEND:VCALENDAR\r\n"
    );
}

#[test]
fn header_without_name_or_color() {
    let outcomes = vec![source_outcome(&Some(Ok(LUNCH.to_string())))];
    let s = formulate_calendar(&feed(None, ""), &outcomes).unwrap();
    assert_eq!(
        s,
        "BEGIN:VCALENDAR\r\nVERSION:2.0\r\nPRODID:-//calmuxd//CALMUXD 0.1.0//EN\r\nBEGIN:VEVENT\r\nSUMMARY:Lunch\r\nEND:VEVENT\r\nEND:VCALENDAR\r\n"
    );
}

#[test]
fn successes_follow_source_order() {
    let outcomes = collect_outcomes(&vec![
        Some(Ok(doc("first"))),
        None,
        Some(Ok("garbage".to_string())),
        Some(Ok(doc("second"))),
    ]);
    let s = formulate_calendar(&feed(None, ""), &outcomes).unwrap();
    let first = s.find("SUMMARY:first").unwrap();
    let second = s.find("SUMMARY:second").unwrap();
    assert!(first < second);
    assert_eq!(s.matches("VERSION:").count(), 1);
    assert_eq!(s.matches("PRODID:").count(), 1);
    assert!(!s.contains("PRODID:src"));
}

#[test]
fn all_failed_is_aggregate_error() {
    let outcomes = collect_outcomes(&vec![
        Some(Err(FetchError::Unreachable)),
        None,
    ]);
    match formulate_calendar(&feed(None, ""), &outcomes) {
        Err(MuxError::AllSourcesFailed(f)) => assert_eq!(
            f,
            vec![SourceError::Fetch(FetchError::Unreachable), SourceError::Fetch(FetchError::Timeout)]
        ),
        Ok(_) => panic!("muxing without a success must fail"),
    }
    let r = feed_response(&feed(None, ""), &outcomes);
    assert_eq!(r.status, 502);
    assert_eq!(r.content_type, "text/plain");
    assert_eq!(
        r.body,
        "every source of this feed failed\r\nthe source could not be reached\r\nthe source did not answer in time\r\n"
    );
}

#[test]
fn all_failed_with_parse_error_is_bad_request() {
    let outcomes = collect_outcomes(&vec![Some(Ok("BEGIN:VEVENT".to_string()))]);
    let r = feed_response(&feed(None, ""), &outcomes);
    assert_eq!(r.status, 400);
    assert_eq!(r.body, "every source of this feed failed\r\nno valid calendar object was present\r\n");
}

#[test]
fn no_outcomes_is_aggregate_error() {
    assert!(formulate_calendar(&feed(None, ""), &vec![]).is_err());
}

#[test]
fn outcome_of_each_fetch_result() {
    assert!(matches!(
        source_outcome(&None),
        SourceOutcome::Failed(SourceError::Fetch(FetchError::Timeout))
    ));
    assert!(matches!(
        source_outcome(&Some(Err(FetchError::TooLarge))),
        SourceOutcome::Failed(SourceError::Fetch(FetchError::TooLarge))
    ));
    assert!(matches!(
        source_outcome(&Some(Ok("x".to_string()))),
        SourceOutcome::Failed(SourceError::Parse(ParseError::InvalidDocument))
    ));
    match source_outcome(&Some(Ok(LUNCH.to_string()))) {
        SourceOutcome::Parsed(cs) => assert_eq!(cs.len(), scrape_contents(LUNCH).unwrap().len()),
        SourceOutcome::Failed(_) => panic!("the document is valid"),
    }
}

#[test]
fn response_classification() {
    assert_eq!(classify_response(200, 10, 10), Ok(()));
    assert_eq!(classify_response(299, 0, 10), Ok(()));
    assert_eq!(classify_response(404, 0, 10), Err(FetchError::BadStatus));
    assert_eq!(classify_response(199, 0, 10), Err(FetchError::BadStatus));
    assert_eq!(classify_response(300, 0, 10), Err(FetchError::BadStatus));
    assert_eq!(classify_response(200, 11, 10), Err(FetchError::TooLarge));
}

#[test]
fn source_error_messages() {
    assert_eq!(SourceError::Fetch(FetchError::BadStatus).message(), "the source answered with an error status");
    assert_eq!(SourceError::Parse(ParseError::MalformedDocument).message(), "a calendar component is malformed");
}

#[test]
fn failures_are_counted() {
    let outcomes = collect_outcomes(&vec![
        Some(Ok(LUNCH.to_string())),
        Some(Err(FetchError::BadStatus)),
        Some(Ok("BEGIN:VCALENDAR".to_string())),
    ]);
    assert_eq!(count_failures(&outcomes), 2);
    assert!(formulate_calendar(&feed(None, ""), &outcomes).is_ok());
}
