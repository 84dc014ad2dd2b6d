use caldav_sync::ical::ICalendarParser;
use caldav_sync::value::Value;

fn s(t: &str) -> Value {
    Value::Scalar(t.to_string())
}

fn m(entries: Vec<(&str, Value)>) -> Value {
    Value::Mapping(entries.into_iter().map(|(k, v)| (k.to_string(), v)).collect())
}

fn parse(t: &str) -> Value {
    ICalendarParser::new().parse(t)
}

#[test]
fn parse_empty_gives_empty_mapping() {
    assert_eq!(parse(""), m(vec![]));
}

#[test]
fn block_nesting_is_not_wrapped() {
    assert_eq!(parse("BEGIN:A\nX:1\nEND:A"), m(vec![("A", m(vec![("X", s("1"))]))]));
}

#[test]
fn repeated_block_is_promoted_to_sequence() {
    let expected = m(vec![(
        "A",
        Value::Sequence(vec![m(vec![("X", s("1"))]), m(vec![("X", s("2"))])]),
    )]);
    assert_eq!(parse("BEGIN:A\nX:1\nEND:A\nBEGIN:A\nX:2\nEND:A"), expected);
}

#[test]
fn third_block_is_appended() {
    let text = "BEGIN:A\nX:1\nEND:A\nBEGIN:A\nX:2\nEND:A\nBEGIN:A\nX:3\nEND:A";
    let expected = m(vec![(
        "A",
        Value::Sequence(vec![
            m(vec![("X", s("1"))]),
            m(vec![("X", s("2"))]),
            m(vec![("X", s("3"))]),
        ]),
    )]);
    assert_eq!(parse(text), expected);
}

#[test]
fn parameterized_property_inside_block() {
    let text = "BEGIN:VEVENT\nDTSTART;TZID=Europe/Warsaw:20240101T090000\nEND:VEVENT";
    let expected = m(vec![(
        "VEVENT",
        m(vec![(
            "DTSTART",
            m(vec![("TZID", s("Europe/Warsaw")), ("value", s("20240101T090000"))]),
        )]),
    )]);
    assert_eq!(parse(text), expected);
}

#[test]
fn plain_repeated_property_overwrites() {
    assert_eq!(parse("SUMMARY:first\nSUMMARY:second"), m(vec![("SUMMARY", s("second"))]));
}

#[test]
fn overwritten_property_keeps_its_place() {
    assert_eq!(
        parse("A:1\nB:2\nA:3"),
        m(vec![("A", s("3")), ("B", s("2"))])
    );
}

#[test]
fn line_without_colon_is_ignored() {
    assert_eq!(parse("X:1\nNO COLON HERE\nY:2"), m(vec![("X", s("1")), ("Y", s("2"))]));
    assert_eq!(parse("garbage"), m(vec![]));
}

#[test]
fn parse_is_deterministic() {
    let text = "BEGIN:VCALENDAR\nVERSION:2.0\nBEGIN:VEVENT\nSUMMARY:x\nEND:VEVENT\nEND:VCALENDAR";
    assert_eq!(parse(text), parse(text));
}

#[test]
fn crlf_line_endings_and_leading_space() {
    assert_eq!(
        parse("BEGIN:A\r\n   X:1\r\n\r\n  \nEND:A\r\n"),
        m(vec![("A", m(vec![("X", s("1"))]))])
    );
}

#[test]
fn value_keeps_later_colons() {
    assert_eq!(parse("URL:http://x/y"), m(vec![("URL", s("http://x/y"))]));
}

#[test]
fn end_without_begin_files_into_fresh_parent() {
    assert_eq!(parse("X:1\nEND:A"), m(vec![("A", m(vec![("X", s("1"))]))]));
}

#[test]
fn unterminated_block_is_what_remains() {
    assert_eq!(parse("X:1\nBEGIN:A\nY:2"), m(vec![("Y", s("2"))]));
}

#[test]
fn parameter_without_equals_is_dropped() {
    assert_eq!(parse("P;FLAG:v"), m(vec![("P", s("v"))]));
    assert_eq!(
        parse("P;FLAG;K=a=b:v"),
        m(vec![("P", m(vec![("K", s("a=b")), ("value", s("v"))]))])
    );
}

#[test]
fn parameter_named_value_is_overridden() {
    assert_eq!(parse("P;value=x:v"), m(vec![("P", s("v"))]));
}

#[test]
fn repeated_parameter_keeps_last() {
    assert_eq!(
        parse("P;K=1;K=2:v"),
        m(vec![("P", m(vec![("K", s("2")), ("value", s("v"))]))])
    );
}

#[test]
fn non_ascii_text_is_kept() {
    assert_eq!(parse("SUMMARY:Spotkanie zespołu"), m(vec![("SUMMARY", s("Spotkanie zespołu"))]));
}

#[test]
fn folded_continuation_line_is_not_unfolded() {
    // A continuation line (leading white space) is not joined to the line before:
    // it is read as a line of its own, and this one has no `:`, so it is dropped.
    assert_eq!(
        parse("DESCRIPTION:a\n more"),
        m(vec![("DESCRIPTION", s("a"))])
    );
}

#[test]
fn folded_continuation_with_colon_is_its_own_property() {
    assert_eq!(
        parse("DESCRIPTION:a\n b:c"),
        m(vec![("DESCRIPTION", s("a")), ("b", s("c"))])
    );
}
