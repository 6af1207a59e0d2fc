use event_raster::event::BadEvent;
use event_raster::event::Event;
use event_raster::event::parse_u8_str;
use event_raster::event::parse_u64_str;

fn ok(line: &str) -> Event {
    Event::from_line(line).expect("line should parse")
}

fn err(line: &str) -> BadEvent {
    Event::from_line(line).expect_err("line should be rejected")
}

#[test]
fn parses_simple_line() {
    let e = ok("(1, 2, 3)");
    assert_eq!(e.channel, 1);
    assert_eq!(e.timestamp, 2);
    assert_eq!(e.note, 3);
}

#[test]
fn parses_extreme_values() {
    let e = ok("(255, 18446744073709551615, 255)");
    assert_eq!(e.channel, 255);
    assert_eq!(e.timestamp, 18446744073709551615);
    assert_eq!(e.note, 255);

    let z = ok("(0, 0, 0)");
    assert_eq!(z.channel, 0);
    assert_eq!(z.timestamp, 0);
    assert_eq!(z.note, 0);
}

#[test]
fn parses_leading_zeros() {
    let e = ok("(007, 0042, 09)");
    assert_eq!(e.channel, 7);
    assert_eq!(e.timestamp, 42);
    assert_eq!(e.note, 9);
}

#[test]
fn rejects_missing_wrapper_whole_line() {
    assert_eq!(err("1, 2, 3"), BadEvent::Entire("1, 2, 3".to_string()));
    assert_eq!(err("(1, 2, 3"), BadEvent::Entire("(1, 2, 3".to_string()));
    assert_eq!(err("1, 2, 3)"), BadEvent::Entire("1, 2, 3)".to_string()));
    assert_eq!(err(""), BadEvent::Entire("".to_string()));
    assert_eq!(err("("), BadEvent::Entire("(".to_string()));
}

#[test]
fn rejects_bad_channel() {
    assert_eq!(err("(x, 2, 3)"), BadEvent::Channel(Some("x".to_string())));
    assert_eq!(err("(, 2, 3)"), BadEvent::Channel(Some("".to_string())));
    assert_eq!(err("(256, 2, 3)"), BadEvent::Channel(Some("256".to_string())));
    assert_eq!(err("()"), BadEvent::Channel(Some("".to_string())));
    assert_eq!(err("(-1, 2, 3)"), BadEvent::Channel(Some("-1".to_string())));
}

#[test]
fn rejects_bad_timestamp() {
    assert_eq!(err("(1)"), BadEvent::Timestamp(None));
    assert_eq!(err("(1, x, 3)"), BadEvent::Timestamp(Some("x".to_string())));
    assert_eq!(
        err("(1, 18446744073709551616, 3)"),
        BadEvent::Timestamp(Some("18446744073709551616".to_string())),
    );
}

#[test]
fn rejects_bad_note() {
    assert_eq!(err("(1, 2)"), BadEvent::Note(None));
    assert_eq!(err("(1, 2, x)"), BadEvent::Note(Some("x".to_string())));
    assert_eq!(err("(1, 2, 3.5)"), BadEvent::Note(Some("3.5".to_string())));
}

#[test]
fn note_takes_the_remainder() {
    // the third segment is the remainder of the line, so a fourth field makes
    // the note malformed rather than being dropped
    assert_eq!(err("(1, 2, 3, 4)"), BadEvent::Note(Some("3, 4".to_string())));
}

#[test]
fn rejects_other_spacing() {
    assert_eq!(err("(1,2,3)"), BadEvent::Channel(Some("1,2,3".to_string())));
    assert_eq!(err("(1 , 2, 3)"), BadEvent::Channel(Some("1 ".to_string())));
}

#[test]
fn decodes_decimal_strings() {
    assert_eq!(parse_u8_str("255"), Some(255));
    assert_eq!(parse_u8_str("256"), None);
    assert_eq!(parse_u8_str(""), None);
    assert_eq!(parse_u8_str("+1"), None);
    assert_eq!(parse_u64_str("18446744073709551615"), Some(u64::MAX));
    assert_eq!(parse_u64_str("18446744073709551616"), None);
    assert_eq!(parse_u64_str("00123"), Some(123));
    assert_eq!(parse_u64_str("12 3"), None);
}
