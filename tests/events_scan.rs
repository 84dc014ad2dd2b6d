use caldav_sync::events::{extract_records, xml_token_list, DecodeError, Event, EventsManager, XmlToken};
use caldav_sync::ical::ICalendarParser;

fn ev(h: &str, e: &str, d: &str) -> Event {
    Event { href: h.to_string(), etag: e.to_string(), data: d.to_string() }
}

fn start(n: &str) -> XmlToken {
    XmlToken::Start(n.as_bytes().to_vec())
}

fn end(n: &str) -> XmlToken {
    XmlToken::End(n.as_bytes().to_vec())
}

fn text(t: &str) -> XmlToken {
    XmlToken::Text(t.as_bytes().to_vec())
}

#[test]
fn two_resources_in_document_order() {
    let xml = "<D:multistatus xmlns:D=\"DAV:\" xmlns:C=\"urn:ietf:params:xml:ns:caldav\">\
<D:response><D:href>/cal/1.ics</D:href><D:propstat><D:prop><D:getetag>\"e1\"</D:getetag>\
<C:calendar-data>BEGIN:VCALENDAR</C:calendar-data></D:prop></D:propstat></D:response>\
<D:response><D:href>/cal/2.ics</D:href><D:propstat><D:prop><D:getetag>\"e2\"</D:getetag>\
<C:calendar-data>X:2</C:calendar-data></D:prop></D:propstat></D:response>\
</D:multistatus>";
    let r = EventsManager::new().parse_caldav_response(xml).unwrap();
    assert_eq!(
        r,
        vec![ev("/cal/1.ics", "\"e1\"", "BEGIN:VCALENDAR"), ev("/cal/2.ics", "\"e2\"", "X:2")]
    );
}

#[test]
fn resource_without_identifier_gives_no_record() {
    let xml = "<D:multistatus><D:response><D:propstat><D:getetag>e</D:getetag>\
<C:calendar-data>X:1</C:calendar-data></D:propstat></D:response>\
<D:response><D:href></D:href></D:response>\
<D:response><D:href>/a</D:href></D:response></D:multistatus>";
    let r = EventsManager::new().parse_caldav_response(xml).unwrap();
    assert_eq!(r, vec![ev("/a", "", "")]);
}

#[test]
fn accumulators_are_reset_per_resource() {
    let xml = "<D:response><D:href>/a</D:href><D:getetag>t</D:getetag></D:response>\
<D:response><D:href>/b</D:href></D:response>";
    let r = EventsManager::new().parse_caldav_response(xml).unwrap();
    assert_eq!(r, vec![ev("/a", "t", ""), ev("/b", "", "")]);
}

#[test]
fn empty_input_gives_no_records() {
    assert_eq!(EventsManager::new().parse_caldav_response("").unwrap(), vec![]);
}

#[test]
fn malformed_xml_is_skipped() {
    let r = EventsManager::new().parse_caldav_response("<<<not xml").unwrap();
    assert_eq!(r, vec![]);
}

#[test]
fn token_list_reads_names_and_text() {
    let toks = xml_token_list("<D:href>/x</D:href>");
    assert_eq!(toks, vec![start("D:href"), text("/x"), end("D:href")]);
}

#[test]
fn scan_over_tokens() {
    let toks = vec![
        start("D:response"),
        start("D:href"),
        text("/x"),
        end("D:href"),
        start("cal:calendar-data"),
        text("BEGIN:A"),
        end("cal:calendar-data"),
        end("D:response"),
    ];
    assert_eq!(extract_records(&toks), Ok(vec![ev("/x", "", "BEGIN:A")]));
}

#[test]
fn token_after_leaf_is_consumed() {
    let toks = vec![
        start("D:response"),
        start("D:href"),
        text("/x"),
        end("D:href"),
        start("D:getetag"),
        end("D:response"),
    ];
    assert_eq!(extract_records(&toks), Ok(vec![]));
}

#[test]
fn invalid_utf8_text_is_a_decode_error() {
    let toks = vec![
        start("D:response"),
        start("D:href"),
        XmlToken::Text(vec![0xff, 0xfe]),
        end("D:href"),
        end("D:response"),
    ];
    assert_eq!(extract_records(&toks), Err(DecodeError));
}

#[test]
fn invalid_utf8_outside_leaf_is_ignored() {
    let toks = vec![XmlToken::Text(vec![0xff]), XmlToken::Other];
    assert_eq!(extract_records(&toks), Ok(vec![]));
}

#[test]
fn standardized_format_parses_first_record() {
    let mgr = EventsManager::new();
    let events = vec![ev("/a", "1", "X:1"), ev("/b", "2", "Y:2")];
    let out = mgr.convert_to_standardized_format(&events);
    assert_eq!(out.len(), 1);
    assert_eq!(out[0], ICalendarParser::new().parse("X:1"));
    assert!(mgr.convert_to_standardized_format(&[]).is_empty());
}

#[test]
fn blank_text_leaves_accumulator_empty() {
    let xml = "<D:response><D:href>  \n </D:href><D:getetag>t</D:getetag></D:response>\
<D:response><D:href>/b</D:href><D:getetag> </D:getetag></D:response>";
    let r = EventsManager::new().parse_caldav_response(xml).unwrap();
    assert_eq!(r, vec![ev("/b", "", "")]);
}

#[test]
fn lowercase_prefix_is_recognised() {
    let xml = "<d:multistatus xmlns:d='DAV:'><d:response><d:href>/x</d:href>\
<d:getetag>t</d:getetag></d:response></d:multistatus>";
    let r = EventsManager::new().parse_caldav_response(xml).unwrap();
    assert_eq!(r, vec![ev("/x", "t", "")]);
}

#[test]
fn unprefixed_names_are_recognised() {
    let xml = "<multistatus xmlns='DAV:'><response><href>/y</href><propstat><prop>\
<getetag>e</getetag><calendar-data xmlns='urn:ietf:params:xml:ns:caldav'>X:1</calendar-data>\
</prop><status>HTTP/1.1 200 OK</status></propstat></response></multistatus>";
    let r = EventsManager::new().parse_caldav_response(xml).unwrap();
    assert_eq!(r, vec![ev("/y", "e", "X:1")]);
}

#[test]
fn local_name_must_match_whole() {
    let toks = vec![
        start("D:response"),
        start("D:xhref"),
        text("/x"),
        end("D:xhref"),
        end("D:response"),
    ];
    assert_eq!(extract_records(&toks), Ok(vec![]));
}
