//! The scan of a CalDAV multi-status response into per-resource records of
//! identifier, entity tag and calendar payload.

use vstd::prelude::*;
use vstd::utf8::{valid_utf8, decode_utf8};
use crate::ical::{ICalendarParser, parse_tree};
use crate::value::Value;

verus! {

/// One token of an XML document, reduced to what the scan reads of it.
#[derive(Clone, Debug, PartialEq, Eq)]
pub enum XmlToken {
    /// An opening tag, with its qualified name.
    Start(Vec<u8>),
    /// A closing tag, with its qualified name.
    End(Vec<u8>),
    /// A text node, with its raw bytes.
    Text(Vec<u8>),
    /// Any other token.
    Other,
}

/// The mathematical form of an `XmlToken`.
pub enum Tok {
    Start(Seq<u8>),
    End(Seq<u8>),
    Text(Seq<u8>),
    Other,
}

impl XmlToken {
    pub open spec fn tok(&self) -> Tok {
        match self {
            XmlToken::Start(n) => Tok::Start(n@),
            XmlToken::End(n) => Tok::End(n@),
            XmlToken::Text(b) => Tok::Text(b@),
            XmlToken::Other => Tok::Other,
        }
    }
}

pub open spec fn toks_view(v: Seq<XmlToken>) -> Seq<Tok> {
    Seq::new(v.len(), |i: int| v[i].tok())
}

/// One resource of a multi-status response: its identifier, its entity tag
/// and its calendar payload.
#[derive(Clone, Debug, PartialEq, Eq)]
pub struct Event {
    pub href: String,
    pub etag: String,
    pub data: String,
}

pub type RecordView = (Seq<char>, Seq<char>, Seq<char>);

impl Event {
    pub open spec fn record(&self) -> RecordView {
        (self.href@, self.etag@, self.data@)
    }
}

pub open spec fn records_view(v: Seq<Event>) -> Seq<RecordView> {
    Seq::new(v.len(), |i: int| v[i].record())
}

/// A text node was not valid UTF-8.
#[derive(Debug, PartialEq, Eq)]
pub struct DecodeError;

/// `response`
pub open spec fn response_word() -> Seq<u8> {
    seq![114u8, 101, 115, 112, 111, 110, 115, 101]
}

/// `href`
pub open spec fn href_word() -> Seq<u8> {
    seq![104u8, 114, 101, 102]
}

/// `getetag`
pub open spec fn etag_word() -> Seq<u8> {
    seq![103u8, 101, 116, 101, 116, 97, 103]
}

/// The position of the last `:` in `n[0..i)`, or -1.
pub open spec fn last_colon(n: Seq<u8>, i: int) -> int
    decreases i,
{
    if i <= 0 {
        -1
    } else if n[i - 1] == 58 {
        i - 1
    } else {
        last_colon(n, i - 1)
    }
}

/// The local part of a qualified name: what follows its last `:`, or the whole
/// name when it has no prefix.
pub open spec fn local_name(n: Seq<u8>) -> Seq<u8> {
    n.subrange(last_colon(n, n.len() as int) + 1, n.len() as int)
}

/// The name of a per-resource container element.
pub open spec fn is_response(n: Seq<u8>) -> bool {
    local_name(n) == response_word()
}

/// `calendar-data`
pub open spec fn data_suffix() -> Seq<u8> {
    seq![99u8, 97, 108, 101, 110, 100, 97, 114, 45, 100, 97, 116, 97]
}

pub open spec fn ends_with(n: Seq<u8>, w: Seq<u8>) -> bool {
    w.len() <= n.len() && n.subrange(n.len() - w.len(), n.len() as int) == w
}

/// XML white space: space, tab, line feed, carriage return.
pub open spec fn is_blank_byte(c: u8) -> bool {
    c == 32 || c == 9 || c == 10 || c == 13
}

/// A text node that holds white space alone, or nothing.
pub open spec fn is_blank(b: Seq<u8>) -> bool {
    forall|i: int| 0 <= i < b.len() ==> is_blank_byte(#[trigger] b[i])
}

/// What a leaf's text node makes of its accumulator: a blank node leaves it
/// as it was, any other node replaces it with the decoded text.
pub open spec fn fill(acc: Seq<char>, b: Seq<u8>) -> Seq<char> {
    if is_blank(b) {
        acc
    } else {
        decode_utf8(b)
    }
}

/// Which accumulator the next text node fills.
pub enum Field {
    Href,
    Etag,
    Data,
}

/// The accumulator that an element of name `n` fills, if it is a leaf: by local
/// name for the identifier and the entity tag, by the end of the qualified name
/// for the calendar data.
pub open spec fn leaf_field(n: Seq<u8>) -> Option<Field> {
    if local_name(n) == href_word() {
        Some(Field::Href)
    } else if local_name(n) == etag_word() {
        Some(Field::Etag)
    } else if ends_with(n, data_suffix()) {
        Some(Field::Data)
    } else {
        None
    }
}

/// The scan's state: the three accumulators of the current resource, the field
/// that the next token may fill, the records emitted so far, and whether a text
/// node failed to decode.
pub struct ScanState {
    pub href: Seq<char>,
    pub etag: Seq<char>,
    pub data: Seq<char>,
    pub expect: Option<Field>,
    pub out: Seq<RecordView>,
    pub failed: bool,
}

pub open spec fn initial_scan() -> ScanState {
    ScanState {
        href: Seq::empty(),
        etag: Seq::empty(),
        data: Seq::empty(),
        expect: None,
        out: Seq::empty(),
        failed: false,
    }
}

/// The effect of one token. After a leaf element opens, the token right after
/// it is consumed: a text node that is not blank fills the leaf's accumulator,
/// anything else is dropped.
pub open spec fn scan_step(st: ScanState, t: Tok) -> ScanState {
    if st.failed {
        st
    } else if st.expect is Some {
        match t {
            Tok::Text(b) => if is_blank(b) {
                ScanState { expect: None, ..st }
            } else if !valid_utf8(b) {
                ScanState { failed: true, expect: None, ..st }
            } else {
                match st.expect->0 {
                    Field::Href => ScanState { href: decode_utf8(b), expect: None, ..st },
                    Field::Etag => ScanState { etag: decode_utf8(b), expect: None, ..st },
                    Field::Data => ScanState { data: decode_utf8(b), expect: None, ..st },
                }
            },
            _ => ScanState { expect: None, ..st },
        }
    } else {
        match t {
            Tok::Start(n) => if is_response(n) {
                ScanState { href: Seq::empty(), etag: Seq::empty(), data: Seq::empty(), ..st }
            } else if leaf_field(n) is Some {
                ScanState { expect: leaf_field(n), ..st }
            } else {
                st
            },
            Tok::End(n) => if is_response(n) && st.href.len() > 0 {
                ScanState { out: st.out.push((st.href, st.etag, st.data)), ..st }
            } else {
                st
            },
            _ => st,
        }
    }
}

/// The state after the tokens `toks`, from `st`.
pub open spec fn scan_from(st: ScanState, toks: Seq<Tok>) -> ScanState
    decreases toks.len(),
{
    if toks.len() == 0 {
        st
    } else {
        scan_step(scan_from(st, toks.drop_last()), toks.last())
    }
}

/// The records of a token stream, or `None` when a text node fails to decode.
pub open spec fn extract_spec(toks: Seq<Tok>) -> Option<Seq<RecordView>> {
    let st = scan_from(initial_scan(), toks);
    if st.failed {
        None
    } else {
        Some(st.out)
    }
}

pub proof fn lemma_failed_stays(toks: Seq<Tok>, i: int, j: int)
    requires
        0 <= i <= j <= toks.len(),
        scan_from(initial_scan(), toks.subrange(0, i)).failed,
    ensures
        scan_from(initial_scan(), toks.subrange(0, j)).failed,
    decreases j - i,
{
    if j > i {
        lemma_failed_stays(toks, i, j - 1);
        assert(toks.subrange(0, j).drop_last() =~= toks.subrange(0, j - 1));
    }
}

fn bytes_eq_from(a: &Vec<u8>, start: usize, w: &Vec<u8>) -> (r: bool)
    requires
        start <= a@.len(),
    ensures
        r == (a@.subrange(start as int, a@.len() as int) == w@),
{
    if a.len() - start != w.len() {
        assert(a@.subrange(start as int, a@.len() as int).len() != w@.len());
        return false;
    }
    let mut i: usize = 0;
    while i < w.len()
        invariant
            start + w@.len() == a@.len(),
            a@.len() == a.len(),
            i <= w@.len(),
            forall|j: int| 0 <= j < i ==> a@[start + j] == w@[j],
        decreases w@.len() - i,
    {
        if a[start + i] != w[i] {
            assert(a@.subrange(start as int, a@.len() as int)[i as int] != w@[i as int]);
            return false;
        }
        i = i + 1;
    }
    assert(a@.subrange(start as int, a@.len() as int) =~= w@);
    true
}

fn bytes_end_with(a: &Vec<u8>, w: &Vec<u8>) -> (r: bool)
    ensures
        r == ends_with(a@, w@),
{
    if w.len() > a.len() {
        false
    } else {
        bytes_eq_from(a, a.len() - w.len(), w)
    }
}

/// Where the local part of the name `n` starts.
fn local_start(n: &Vec<u8>) -> (r: usize)
    ensures
        r as int == last_colon(n@, n@.len() as int) + 1,
        r <= n@.len(),
{
    let mut i = n.len();
    while i > 0 && n[i - 1] != 58
        invariant
            i <= n@.len(),
            last_colon(n@, i as int) == last_colon(n@, n@.len() as int),
        decreases i,
    {
        i = i - 1;
    }
    i
}

fn blank_bytes(b: &Vec<u8>) -> (r: bool)
    ensures
        r == is_blank(b@),
{
    let mut i: usize = 0;
    while i < b.len()
        invariant
            i <= b@.len(),
            forall|j: int| 0 <= j < i ==> is_blank_byte(#[trigger] b@[j]),
        decreases b@.len() - i,
    {
        let c = b[i];
        if !(c == 32 || c == 9 || c == 10 || c == 13) {
            return false;
        }
        i = i + 1;
    }
    true
}

/// Relies on std::str::from_utf8: it succeeds exactly on valid UTF-8, and the
/// text it then gives holds the characters that the bytes encode.
#[verifier::external_body]
fn utf8_text(b: &Vec<u8>) -> (r: Option<String>)
    ensures
        r is Some <==> valid_utf8(b@),
        r matches Some(s) ==> s@ == decode_utf8(b@),
{
    match std::str::from_utf8(b.as_slice()) {
        Ok(s) => Some(s.to_string()),
        Err(_) => None,
    }
}

/// Scans a token stream of a multi-status response into its records, in
/// document order. A resource whose identifier is empty gives no record. A text
/// node that is not valid UTF-8 ends the scan with `DecodeError`.
pub fn extract_records(tokens: &Vec<XmlToken>) -> (r: Result<Vec<Event>, DecodeError>)
    ensures
        match r {
            Ok(v) => extract_spec(toks_view(tokens@)) == Some(records_view(v@)),
            Err(_) => extract_spec(toks_view(tokens@)) is None,
        },
{
    let ghost all = toks_view(tokens@);
    let response = vec![114u8, 101, 115, 112, 111, 110, 115, 101];
    let href_name = vec![104u8, 114, 101, 102];
    let etag_name = vec![103u8, 101, 116, 101, 116, 97, 103];
    let suffix = vec![99u8, 97, 108, 101, 110, 100, 97, 114, 45, 100, 97, 116, 97];
    let mut href = String::new();
    let mut etag = String::new();
    let mut data = String::new();
    let mut expect: Option<Field> = None;
    let mut out: Vec<Event> = Vec::new();
    assert(records_view(out@) =~= Seq::<RecordView>::empty());
    assert(all.subrange(0, 0) =~= Seq::<Tok>::empty());
    let mut i: usize = 0;
    while i < tokens.len()
        invariant
            all == toks_view(tokens@),
            i <= tokens@.len(),
            response@ == response_word(),
            href_name@ == href_word(),
            etag_name@ == etag_word(),
            suffix@ == data_suffix(),
            (ScanState {
                href: href@,
                etag: etag@,
                data: data@,
                expect,
                out: records_view(out@),
                failed: false,
            }) == scan_from(initial_scan(), all.subrange(0, i as int)),
        decreases tokens@.len() - i,
    {
        assert(all.subrange(0, i + 1).drop_last() =~= all.subrange(0, i as int));
        match expect {
            Some(f) => {
                expect = None;
                match &tokens[i] {
                    XmlToken::Text(b) => if !blank_bytes(b) {
                        match utf8_text(b) {
                            None => {
                                proof {
                                    lemma_failed_stays(all, i + 1, all.len() as int);
                                    assert(all.subrange(0, all.len() as int) =~= all);
                                }
                                return Err(DecodeError);
                            },
                            Some(s) => match f {
                                Field::Href => {
                                    href = s;
                                },
                                Field::Etag => {
                                    etag = s;
                                },
                                Field::Data => {
                                    data = s;
                                },
                            },
                        }
                    },
                    _ => {},
                }
            },
            None => match &tokens[i] {
                XmlToken::Start(n) => {
                    let l = local_start(n);
                    if bytes_eq_from(n, l, &response) {
                        href = String::new();
                        etag = String::new();
                        data = String::new();
                    } else if bytes_eq_from(n, l, &href_name) {
                        expect = Some(Field::Href);
                    } else if bytes_eq_from(n, l, &etag_name) {
                        expect = Some(Field::Etag);
                    } else if bytes_end_with(n, &suffix) {
                        expect = Some(Field::Data);
                    }
                },
                XmlToken::End(n) => {
                    let l = local_start(n);
                    if bytes_eq_from(n, l, &response) && !href.as_str().is_empty() {
                        let ghost before = records_view(out@);
                        out.push(Event { href: href.clone(), etag: etag.clone(), data: data.clone() });
                        assert(records_view(out@) =~= before.push((href@, etag@, data@)));
                    }
                },
                _ => {},
            },
        }
        i = i + 1;
    }
    assert(all.subrange(0, i as int) =~= all);
    Ok(out)
}

/// quick_xml's pull reader, carried through unopened.
#[verifier::external_type_specification]
#[verifier::external_body]
#[verifier::reject_recursive_types(R)]
pub struct ExReader<R>(quick_xml::Reader<R>);

/// The tokens that quick_xml reads from a text, up to its end of file: opening
/// and closing tags with their qualified names, text nodes with their raw
/// bytes, and `Other` for any other event and for each error that the reader
/// recovers from. An error that it does not recover from ends the stream.
pub uninterp spec fn xml_tokens(text: Seq<char>) -> Seq<Tok>;

/// The tokens that a reader has yet to hand out before its end of file.
pub uninterp spec fn pending_tokens(r: quick_xml::Reader<&[u8]>) -> Seq<Tok>;

/// Relies on quick_xml::Reader::from_str: a reader at the start of `xml`, whose
/// tokens are those of the text.
#[verifier::external_body]
fn xml_reader(xml: &str) -> (r: quick_xml::Reader<&[u8]>)
    ensures
        pending_tokens(r) == xml_tokens(xml@),
{
    quick_xml::Reader::from_str(xml)
}

/// Relies on quick_xml::Reader::read_event: it hands out the next token, and
/// once it has reached the end of file it reports `Eof` (here `None`) again.
#[verifier::external_body]
fn read_token(reader: &mut quick_xml::Reader<&[u8]>) -> (r: Option<XmlToken>)
    ensures
        pending_tokens(*old(reader)).len() == 0 ==> r is None && pending_tokens(*final(reader))
            == pending_tokens(*old(reader)),
        pending_tokens(*old(reader)).len() > 0 ==> (r matches Some(t) && t.tok()
            == pending_tokens(*old(reader))[0]),
        pending_tokens(*old(reader)).len() > 0 ==> pending_tokens(*final(reader))
            == pending_tokens(*old(reader)).drop_first(),
{
    match reader.read_event() {
        Ok(quick_xml::events::Event::Start(e)) => Some(XmlToken::Start(e.name().as_ref().to_vec())),
        Ok(quick_xml::events::Event::End(e)) => Some(XmlToken::End(e.name().as_ref().to_vec())),
        Ok(quick_xml::events::Event::Text(e)) => Some(XmlToken::Text(e.to_vec())),
        Ok(quick_xml::events::Event::Eof) => None,
        _ => Some(XmlToken::Other),
    }
}

/// Reads every token of `xml`, in order.
pub fn xml_token_list(xml: &str) -> (r: Vec<XmlToken>)
    ensures
        toks_view(r@) == xml_tokens(xml@),
{
    let mut reader = xml_reader(xml);
    let mut out: Vec<XmlToken> = Vec::new();
    assert(toks_view(out@) + pending_tokens(reader) =~= xml_tokens(xml@));
    loop
        invariant
            toks_view(out@) + pending_tokens(reader) == xml_tokens(xml@),
        decreases pending_tokens(reader).len(),
    {
        let ghost before = pending_tokens(reader);
        match read_token(&mut reader) {
            Some(t) => {
                let ghost seen = toks_view(out@);
                out.push(t);
                assert(toks_view(out@) =~= seen.push(before[0]));
                assert(toks_view(out@) + pending_tokens(reader) =~= seen + before);
            },
            None => {
                assert(toks_view(out@) =~= xml_tokens(xml@));
                return out;
            },
        }
    }
}

/// Turns multi-status responses into records.
pub struct EventsManager;

impl EventsManager {
    pub fn new() -> (r: Self)
        ensures
            r == EventsManager,
    {
        EventsManager
    }

    /// The records of the multi-status response `xml_response`, in document
    /// order; `DecodeError` when a text node that the scan reads is not UTF-8.
    pub fn parse_caldav_response(&self, xml_response: &str) -> (r: Result<Vec<Event>, DecodeError>)
        ensures
            match r {
                Ok(v) => extract_spec(xml_tokens(xml_response@)) == Some(records_view(v@)),
                Err(_) => extract_spec(xml_tokens(xml_response@)) is None,
            },
    {
        let tokens = xml_token_list(xml_response);
        extract_records(&tokens)
    }

    /// The standardized form of the first record, if there is one.
    pub fn convert_to_standardized_format(&self, events: &[Event]) -> (r: Vec<Value>)
        ensures
            events@.len() == 0 ==> r@.len() == 0,
            events@.len() > 0 ==> r@.len() == 1 && r@[0].tree() == parse_tree(events@[0].data@),
    {
        let mut out: Vec<Value> = Vec::new();
        if events.len() > 0 {
            let parser = ICalendarParser::new();
            out.push(parser.parse(events[0].data.as_str()));
        }
        out
    }
}

pub open spec fn ready(st: ScanState) -> bool {
    !st.failed && st.expect is None
}

/// A token that changes nothing in a ready scan: white space and other text
/// between elements, and the tags of elements that are neither a resource nor
/// a leaf (`multistatus`, `propstat`, `prop`, `status`).
pub open spec fn neutral(t: Tok) -> bool {
    match t {
        Tok::Start(n) => !is_response(n) && leaf_field(n) is None,
        Tok::End(n) => !is_response(n),
        _ => true,
    }
}

pub open spec fn all_neutral(s: Seq<Tok>) -> bool {
    forall|i: int| 0 <= i < s.len() ==> neutral(#[trigger] s[i])
}

/// A leaf element `tag` holding the text `b`, or no such element.
pub open spec fn leaf_opt(tag: Seq<u8>, b: Option<Seq<u8>>) -> Seq<Tok> {
    match b {
        Some(b) => seq![Tok::Start(tag), Tok::Text(b), Tok::End(tag)],
        None => Seq::empty(),
    }
}

/// The text of a leaf that may be absent, in a fresh resource element.
pub open spec fn text_opt(b: Option<Seq<u8>>) -> Seq<char> {
    match b {
        Some(b) => fill(Seq::empty(), b),
        None => Seq::empty(),
    }
}

/// One resource element of a response: its own name, its three leaves (each
/// with its element name, each but the identifier possibly absent), and the
/// neutral tokens around them.
pub struct Resource {
    pub name: Seq<u8>,
    pub href_name: Seq<u8>,
    pub href: Option<Seq<u8>>,
    pub etag_name: Seq<u8>,
    pub etag: Option<Seq<u8>>,
    pub data_name: Seq<u8>,
    pub data: Option<Seq<u8>>,
    pub gaps: (Seq<Tok>, Seq<Tok>, Seq<Tok>, Seq<Tok>),
}

pub open spec fn valid_text(b: Option<Seq<u8>>) -> bool {
    b matches Some(x) ==> valid_utf8(x)
}

/// The names are those of a resource and of its leaves, whatever their
/// prefixes; the texts are UTF-8; the gaps are neutral.
pub open spec fn well_formed(r: Resource) -> bool {
    &&& is_response(r.name)
    &&& !is_response(r.href_name) && leaf_field(r.href_name) == Some(Field::Href)
    &&& !is_response(r.etag_name) && leaf_field(r.etag_name) == Some(Field::Etag)
    &&& !is_response(r.data_name) && leaf_field(r.data_name) == Some(Field::Data)
    &&& valid_text(r.href) && valid_text(r.etag) && valid_text(r.data)
    &&& all_neutral(r.gaps.0) && all_neutral(r.gaps.1) && all_neutral(r.gaps.2)
        && all_neutral(r.gaps.3)
}

pub open spec fn resource_tokens(r: Resource) -> Seq<Tok> {
    seq![Tok::Start(r.name)] + r.gaps.0 + leaf_opt(r.href_name, r.href) + r.gaps.1 + leaf_opt(
        r.etag_name,
        r.etag,
    ) + r.gaps.2 + leaf_opt(r.data_name, r.data) + r.gaps.3 + seq![Tok::End(r.name)]
}

/// Whether a resource has a non-empty identifier.
pub open spec fn has_id(r: Resource) -> bool {
    text_opt(r.href).len() > 0
}

pub open spec fn record_of(r: Resource) -> RecordView {
    (text_opt(r.href), text_opt(r.etag), text_opt(r.data))
}

pub open spec fn resources_tokens(rs: Seq<Resource>) -> Seq<Tok>
    decreases rs.len(),
{
    if rs.len() == 0 {
        Seq::empty()
    } else {
        resources_tokens(rs.drop_last()) + resource_tokens(rs.last())
    }
}

/// A response: neutral tokens, the resource elements in order, neutral tokens.
pub open spec fn document(pre: Seq<Tok>, rs: Seq<Resource>, post: Seq<Tok>) -> Seq<Tok> {
    pre + resources_tokens(rs) + post
}

/// The records of the resources that have an identifier, in order.
pub open spec fn records_of(rs: Seq<Resource>) -> Seq<RecordView>
    decreases rs.len(),
{
    if rs.len() == 0 {
        Seq::empty()
    } else if has_id(rs.last()) {
        records_of(rs.drop_last()).push(record_of(rs.last()))
    } else {
        records_of(rs.drop_last())
    }
}

pub proof fn lemma_scan_concat(st: ScanState, a: Seq<Tok>, b: Seq<Tok>)
    ensures
        scan_from(st, a + b) == scan_from(scan_from(st, a), b),
    decreases b.len(),
{
    if b.len() == 0 {
        assert(a + b =~= a);
    } else {
        lemma_scan_concat(st, a, b.drop_last());
        assert((a + b).drop_last() =~= a + b.drop_last());
    }
}

proof fn lemma_scan_one(st: ScanState, t: Tok)
    ensures
        scan_from(st, seq![t]) == scan_step(st, t),
{
    assert(seq![t].drop_last() =~= Seq::<Tok>::empty());
    assert(scan_from(st, Seq::<Tok>::empty()) == st);
    assert(seq![t].last() == t);
}

proof fn lemma_scan_neutral(st: ScanState, s: Seq<Tok>)
    requires
        ready(st),
        all_neutral(s),
    ensures
        scan_from(st, s) == st,
    decreases s.len(),
{
    if s.len() > 0 {
        lemma_scan_neutral(st, s.drop_last());
        assert(neutral(s[s.len() - 1]));
    }
}

proof fn lemma_scan_leaf_opt(st: ScanState, tag: Seq<u8>, b: Option<Seq<u8>>, f: Field)
    requires
        ready(st),
        valid_text(b),
        !is_response(tag),
        leaf_field(tag) == Some(f),
    ensures
        ready(scan_from(st, leaf_opt(tag, b))),
        scan_from(st, leaf_opt(tag, b)).out == st.out,
        b is None ==> scan_from(st, leaf_opt(tag, b)) == st,
        b matches Some(x) ==> match f {
            Field::Href => scan_from(st, leaf_opt(tag, b)).href == fill(st.href, x)
                && scan_from(st, leaf_opt(tag, b)).etag == st.etag,
            Field::Etag => scan_from(st, leaf_opt(tag, b)).etag == fill(st.etag, x)
                && scan_from(st, leaf_opt(tag, b)).href == st.href
                && scan_from(st, leaf_opt(tag, b)).data == st.data,
            Field::Data => scan_from(st, leaf_opt(tag, b)).data == fill(st.data, x)
                && scan_from(st, leaf_opt(tag, b)).href == st.href
                && scan_from(st, leaf_opt(tag, b)).etag == st.etag,
        },
        b matches Some(x) && f is Href ==> scan_from(st, leaf_opt(tag, b)).data == st.data,
{
    match b {
        Some(x) => {
            let l = leaf_opt(tag, b);
            assert(l =~= seq![Tok::Start(tag)] + seq![Tok::Text(x)] + seq![Tok::End(tag)]);
            lemma_scan_concat(st, seq![Tok::Start(tag)] + seq![Tok::Text(x)], seq![Tok::End(tag)]);
            lemma_scan_concat(st, seq![Tok::Start(tag)], seq![Tok::Text(x)]);
            lemma_scan_one(st, Tok::Start(tag));
            let s1 = scan_step(st, Tok::Start(tag));
            lemma_scan_one(s1, Tok::Text(x));
            let s2 = scan_step(s1, Tok::Text(x));
            lemma_scan_one(s2, Tok::End(tag));
        },
        None => {},
    }
}

/// A resource element adds its record when it has an identifier, adds nothing
/// when it has none, and leaves the scan ready for what follows.
pub proof fn lemma_scan_resource(st: ScanState, r: Resource)
    requires
        ready(st),
        well_formed(r),
    ensures
        ready(scan_from(st, resource_tokens(r))),
        scan_from(st, resource_tokens(r)).out == (if has_id(r) {
            st.out.push(record_of(r))
        } else {
            st.out
        }),
{
    let p0 = seq![Tok::Start(r.name)];
    let p1 = p0 + r.gaps.0;
    let p2 = p1 + leaf_opt(r.href_name, r.href);
    let p3 = p2 + r.gaps.1;
    let p4 = p3 + leaf_opt(r.etag_name, r.etag);
    let p5 = p4 + r.gaps.2;
    let p6 = p5 + leaf_opt(r.data_name, r.data);
    let p7 = p6 + r.gaps.3;
    assert(resource_tokens(r) == p7 + seq![Tok::End(r.name)]);
    lemma_scan_concat(st, p7, seq![Tok::End(r.name)]);
    lemma_scan_concat(st, p6, r.gaps.3);
    lemma_scan_concat(st, p5, leaf_opt(r.data_name, r.data));
    lemma_scan_concat(st, p4, r.gaps.2);
    lemma_scan_concat(st, p3, leaf_opt(r.etag_name, r.etag));
    lemma_scan_concat(st, p2, r.gaps.1);
    lemma_scan_concat(st, p1, leaf_opt(r.href_name, r.href));
    lemma_scan_concat(st, p0, r.gaps.0);
    lemma_scan_one(st, Tok::Start(r.name));
    let s0 = scan_from(st, p0);
    lemma_scan_neutral(s0, r.gaps.0);
    lemma_scan_leaf_opt(s0, r.href_name, r.href, Field::Href);
    let s1 = scan_from(s0, leaf_opt(r.href_name, r.href));
    lemma_scan_neutral(s1, r.gaps.1);
    lemma_scan_leaf_opt(s1, r.etag_name, r.etag, Field::Etag);
    let s2 = scan_from(s1, leaf_opt(r.etag_name, r.etag));
    lemma_scan_neutral(s2, r.gaps.2);
    lemma_scan_leaf_opt(s2, r.data_name, r.data, Field::Data);
    let s3 = scan_from(s2, leaf_opt(r.data_name, r.data));
    lemma_scan_neutral(s3, r.gaps.3);
    lemma_scan_one(s3, Tok::End(r.name));
    assert(s3.href == text_opt(r.href));
    assert(s3.etag == text_opt(r.etag));
    assert(s3.data == text_opt(r.data));
}

proof fn lemma_scan_resources(rs: Seq<Resource>, st: ScanState)
    requires
        ready(st),
        forall|i: int| 0 <= i < rs.len() ==> well_formed(#[trigger] rs[i]),
    ensures
        ready(scan_from(st, resources_tokens(rs))),
        scan_from(st, resources_tokens(rs)).out == st.out + records_of(rs),
    decreases rs.len(),
{
    if rs.len() == 0 {
        assert(st.out + records_of(rs) =~= st.out);
    } else {
        let rest = rs.drop_last();
        assert forall|i: int| 0 <= i < rest.len() implies well_formed(#[trigger] rest[i]) by {
            assert(rest[i] == rs[i]);
        }
        lemma_scan_resources(rest, st);
        lemma_scan_concat(st, resources_tokens(rest), resource_tokens(rs.last()));
        assert(well_formed(rs[rs.len() - 1]));
        lemma_scan_resource(scan_from(st, resources_tokens(rest)), rs.last());
        if has_id(rs.last()) {
            assert(st.out + records_of(rs) =~= (st.out + records_of(rest)).push(record_of(rs.last())));
        }
    }
}

/// The records of a response are those of its resource elements that have an
/// identifier, in document order.
pub proof fn lemma_extract_response(pre: Seq<Tok>, rs: Seq<Resource>, post: Seq<Tok>)
    requires
        all_neutral(pre),
        all_neutral(post),
        forall|i: int| 0 <= i < rs.len() ==> well_formed(#[trigger] rs[i]),
    ensures
        extract_spec(document(pre, rs, post)) == Some(records_of(rs)),
{
    let st0 = initial_scan();
    lemma_scan_concat(st0, pre + resources_tokens(rs), post);
    lemma_scan_concat(st0, pre, resources_tokens(rs));
    lemma_scan_neutral(st0, pre);
    lemma_scan_resources(rs, st0);
    let s = scan_from(st0, pre + resources_tokens(rs));
    lemma_scan_neutral(s, post);
    assert(st0.out + records_of(rs) =~= records_of(rs));
}

proof fn lemma_records_all(rs: Seq<Resource>)
    requires
        forall|i: int| 0 <= i < rs.len() ==> has_id(#[trigger] rs[i]),
    ensures
        records_of(rs) == Seq::new(rs.len(), |i: int| record_of(rs[i])),
    decreases rs.len(),
{
    if rs.len() > 0 {
        let rest = rs.drop_last();
        assert forall|i: int| 0 <= i < rest.len() implies has_id(#[trigger] rest[i]) by {
            assert(rest[i] == rs[i]);
        }
        lemma_records_all(rest);
        assert(has_id(rs[rs.len() - 1]));
        assert(records_of(rs) =~= Seq::new(rs.len(), |i: int| record_of(rs[i])));
    }
}

/// A well-formed response with N resource elements, each with a non-empty
/// identifier, gives exactly N records in document order, each holding its
/// element's identifier, tag and payload (an absent or blank one read as empty).
pub proof fn lemma_extract_document(pre: Seq<Tok>, rs: Seq<Resource>, post: Seq<Tok>)
    requires
        all_neutral(pre),
        all_neutral(post),
        forall|i: int| 0 <= i < rs.len() ==> well_formed(#[trigger] rs[i]),
        forall|i: int| 0 <= i < rs.len() ==> has_id(#[trigger] rs[i]),
    ensures
        extract_spec(document(pre, rs, post)) == Some(
            Seq::new(rs.len(), |i: int| record_of(rs[i])),
        ),
{
    lemma_extract_response(pre, rs, post);
    lemma_records_all(rs);
}

proof fn lemma_records_skip(a: Seq<Resource>, x: Resource, b: Seq<Resource>)
    requires
        !has_id(x),
    ensures
        records_of(a + seq![x] + b) == records_of(a + b),
    decreases b.len(),
{
    if b.len() == 0 {
        assert(a + seq![x] + b =~= a.push(x));
        assert((a + seq![x] + b).drop_last() =~= a);
        assert(a + b =~= a);
    } else {
        lemma_records_skip(a, x, b.drop_last());
        assert((a + seq![x] + b).drop_last() =~= a + seq![x] + b.drop_last());
        assert((a + b).drop_last() =~= a + b.drop_last());
    }
}

/// A resource element without an identifier, inserted anywhere among the
/// resource elements of a response, changes nothing in what the scan gives,
/// whether or not it holds a tag or a payload.
pub proof fn lemma_anonymous_resource_no_record(
    pre: Seq<Tok>,
    a: Seq<Resource>,
    x: Resource,
    b: Seq<Resource>,
    post: Seq<Tok>,
)
    requires
        all_neutral(pre),
        all_neutral(post),
        forall|i: int| 0 <= i < a.len() ==> well_formed(#[trigger] a[i]),
        forall|i: int| 0 <= i < b.len() ==> well_formed(#[trigger] b[i]),
        well_formed(x),
        !has_id(x),
    ensures
        extract_spec(document(pre, a + seq![x] + b, post)) == extract_spec(
            document(pre, a + b, post),
        ),
{
    let with = a + seq![x] + b;
    let without = a + b;
    assert forall|i: int| 0 <= i < with.len() implies well_formed(#[trigger] with[i]) by {
        if i < a.len() {
            assert(with[i] == a[i]);
        } else if i == a.len() {
            assert(with[i] == x);
        } else {
            assert(with[i] == b[i - a.len() - 1]);
        }
    }
    assert forall|i: int| 0 <= i < without.len() implies well_formed(#[trigger] without[i]) by {
        if i < a.len() {
            assert(without[i] == a[i]);
        } else {
            assert(without[i] == b[i - a.len()]);
        }
    }
    lemma_extract_response(pre, with, post);
    lemma_extract_response(pre, without, post);
    lemma_records_skip(a, x, b);
}

} // verus!
