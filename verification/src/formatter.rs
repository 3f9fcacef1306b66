use vstd::prelude::*;
use vstd::string::StrSliceExecFns;
use vstd::string::StringExecFns;

use xml::reader::ParserConfig;
use xml::reader::XmlEvent as RawEvent;

verus! {

/// One structural event of a parsed document: what survives of the input
/// once whitespace-only text runs are suppressed.
pub enum XmlEvent {
    StartElement(String, Vec<(String, String)>),
    EndElement(String),
    Text(String),
    Comment(String),
}

/// The event stream that parsing a given document yields, or `None` when
/// the document is not well formed.  Parsing depends on the characters
/// alone.
pub uninterp spec fn xml_parse_of(src: Seq<char>) -> Option<Seq<XmlEvent>>;

/// Relies on `xml::reader::EventReader` (whitespace trimmed, comments
/// kept): pull-parses the document into its event stream, one conversion
/// arm per variant, and fails exactly on malformed input.
#[verifier::external_body]
fn parse_xml_events(src: &str) -> (r: Result<Vec<XmlEvent>, String>)
    ensures
        r matches Ok(ev) ==> xml_parse_of(src@) == Some(ev@),
        r matches Err(_) ==> xml_parse_of(src@) is None,
{
    let mut out = Vec::new();
    let reader = ParserConfig::new().trim_whitespace(true).ignore_comments(false).create_reader(src.as_bytes());
    for ev in reader {
        match ev.map_err(|e| e.to_string())? {
            RawEvent::StartElement { name, attributes, .. } => out.push(XmlEvent::StartElement(name.local_name, attributes.into_iter().map(|a| (a.name.local_name, a.value)).collect())),
            RawEvent::EndElement { name } => out.push(XmlEvent::EndElement(name.local_name)),
            RawEvent::Characters(s) | RawEvent::CData(s) => out.push(XmlEvent::Text(s)),
            RawEvent::Comment(s) => out.push(XmlEvent::Comment(s)),
            _ => {},
        }
    }
    Ok(out)
}

/// Two spaces per nesting level.
pub open spec fn indent_spec(depth: nat) -> Seq<char>
    decreases depth,
{
    if depth == 0 {
        Seq::empty()
    } else {
        indent_spec((depth - 1) as nat) + "  "@
    }
}

/// The entity escape of one character of text or attribute content.
pub open spec fn escape_char(c: char) -> Seq<char> {
    if c == '&' {
        "&amp;"@
    } else if c == '<' {
        "&lt;"@
    } else if c == '>' {
        "&gt;"@
    } else if c == '"' {
        "&quot;"@
    } else if c == '\'' {
        "&apos;"@
    } else {
        seq![c]
    }
}

/// Character content with every character escaped.
pub open spec fn escape_spec(s: Seq<char>) -> Seq<char>
    decreases s.len(),
{
    if s.len() == 0 {
        Seq::empty()
    } else {
        escape_char(s[0]) + escape_spec(s.drop_first())
    }
}

/// One rendered attribute, leading space included.
pub open spec fn attr_one(a: (String, String)) -> Seq<char> {
    " "@ + a.0@ + "=\""@ + escape_spec(a.1@) + "\""@
}

/// All attributes of an element, in order.
pub open spec fn attrs_spec(attrs: Seq<(String, String)>) -> Seq<char>
    decreases attrs.len(),
{
    if attrs.len() == 0 {
        Seq::empty()
    } else {
        attr_one(attrs[0]) + attrs_spec(attrs.drop_first())
    }
}

/// The indentation level a closing tag is printed at.
pub open spec fn end_depth(depth: nat) -> nat {
    if depth > 0 {
        (depth - 1) as nat
    } else {
        0
    }
}

/// One event as its own indented line.
pub open spec fn event_line(e: XmlEvent, depth: nat) -> Seq<char> {
    match e {
        XmlEvent::StartElement(name, attributes) => indent_spec(depth) + "<"@ + name@
            + attrs_spec(attributes@) + ">\n"@,
        XmlEvent::EndElement(name) => indent_spec(end_depth(depth)) + "</"@ + name@ + ">\n"@,
        XmlEvent::Text(content) => indent_spec(depth) + escape_spec(content@) + "\n"@,
        XmlEvent::Comment(content) => indent_spec(depth) + "<!--"@ + content@ + "-->\n"@,
    }
}

/// The nesting level after an event.
pub open spec fn next_depth(e: XmlEvent, depth: nat) -> nat {
    match e {
        XmlEvent::StartElement(_, _) => depth + 1,
        XmlEvent::EndElement(_) => end_depth(depth),
        _ => depth,
    }
}

/// The canonical rendering of the events from position `i` on, at nesting
/// level `depth`.
pub open spec fn format_from(events: Seq<XmlEvent>, i: int, depth: nat) -> Seq<char>
    decreases events.len() - i,
{
    if i < 0 || i >= events.len() {
        Seq::empty()
    } else {
        event_line(events[i], depth) + format_from(events, i + 1, next_depth(events[i], depth))
    }
}

/// The fixed declaration line every canonical document opens with.
pub open spec fn decl_line() -> Seq<char> {
    "<?xml version=\"1.0\" encoding=\"utf-8\"?>\n"@
}

/// The canonical form of an event stream: the declaration, then one line
/// per event, indented by nesting depth.
pub open spec fn format_spec(events: Seq<XmlEvent>) -> Seq<char> {
    decl_line() + format_from(events, 0, 0)
}

fn push_indent(out: &mut String, depth: usize)
    ensures
        final(out)@ == old(out)@ + indent_spec(depth as nat),
{
    let mut k: usize = 0;
    proof {
        assert(old(out)@ + indent_spec(0) =~= old(out)@);
    }
    while k < depth
        invariant
            k <= depth,
            out@ == old(out)@ + indent_spec(k as nat),
        decreases depth - k,
    {
        out.append("  ");
        proof {
            assert(out@ =~= old(out)@ + indent_spec((k + 1) as nat));
        }
        k += 1;
    }
}

proof fn lemma_escape_snoc(t: Seq<char>, c: char)
    ensures
        escape_spec(t.push(c)) == escape_spec(t) + escape_char(c),
    decreases t.len(),
{
    if t.len() == 0 {
        assert(t.push(c)[0] == c);
        assert(t.push(c).drop_first() =~= t);
        assert(escape_spec(t.push(c)) =~= escape_spec(t) + escape_char(c));
    } else {
        assert(t.push(c)[0] == t[0]);
        assert(t.push(c).drop_first() =~= t.drop_first().push(c));
        lemma_escape_snoc(t.drop_first(), c);
        assert(escape_spec(t.push(c)) =~= escape_spec(t) + escape_char(c));
    }
}

fn push_escaped(out: &mut String, s: &str)
    ensures
        final(out)@ == old(out)@ + escape_spec(s@),
{
    let n = s.unicode_len();
    let mut i: usize = 0;
    proof {
        assert(s@.take(0) =~= Seq::<char>::empty());
        assert(old(out)@ + escape_spec(s@.take(0)) =~= old(out)@);
    }
    while i < n
        invariant
            n == s@.len(),
            i <= n,
            out@ == old(out)@ + escape_spec(s@.take(i as int)),
        decreases n - i,
    {
        let c = s.get_char(i);
        if c == '&' {
            out.append("&amp;");
        } else if c == '<' {
            out.append("&lt;");
        } else if c == '>' {
            out.append("&gt;");
        } else if c == '"' {
            out.append("&quot;");
        } else if c == '\'' {
            out.append("&apos;");
        } else {
            out.push(c);
        }
        proof {
            lemma_escape_snoc(s@.take(i as int), s@[i as int]);
            assert(s@.take(i + 1) =~= s@.take(i as int).push(s@[i as int]));
            if !(c == '&' || c == '<' || c == '>' || c == '"' || c == '\'') {
                assert(escape_char(c) =~= seq![c]);
            }
            assert(out@ =~= old(out)@ + escape_spec(s@.take(i + 1)));
        }
        i += 1;
    }
    proof {
        assert(s@.take(n as int) =~= s@);
    }
}

proof fn lemma_attrs_snoc(t: Seq<(String, String)>, a: (String, String))
    ensures
        attrs_spec(t.push(a)) == attrs_spec(t) + attr_one(a),
    decreases t.len(),
{
    if t.len() == 0 {
        assert(t.push(a)[0] == a);
        assert(t.push(a).drop_first() =~= t);
        assert(attrs_spec(t.push(a)) =~= attrs_spec(t) + attr_one(a));
    } else {
        assert(t.push(a)[0] == t[0]);
        assert(t.push(a).drop_first() =~= t.drop_first().push(a));
        lemma_attrs_snoc(t.drop_first(), a);
        assert(attrs_spec(t.push(a)) =~= attrs_spec(t) + attr_one(a));
    }
}

fn push_attrs(out: &mut String, attrs: &Vec<(String, String)>)
    ensures
        final(out)@ == old(out)@ + attrs_spec(attrs@),
{
    let n = attrs.len();
    let mut i: usize = 0;
    proof {
        assert(attrs@.take(0) =~= Seq::<(String, String)>::empty());
        assert(old(out)@ + attrs_spec(attrs@.take(0)) =~= old(out)@);
    }
    while i < n
        invariant
            n == attrs@.len(),
            i <= n,
            out@ == old(out)@ + attrs_spec(attrs@.take(i as int)),
        decreases n - i,
    {
        out.append(" ");
        out.append(attrs[i].0.as_str());
        out.append("=\"");
        push_escaped(out, attrs[i].1.as_str());
        out.append("\"");
        proof {
            lemma_attrs_snoc(attrs@.take(i as int), attrs@[i as int]);
            assert(attrs@.take(i + 1) =~= attrs@.take(i as int).push(attrs@[i as int]));
            assert(out@ =~= old(out)@ + attrs_spec(attrs@.take(i + 1)));
        }
        i += 1;
    }
    proof {
        assert(attrs@.take(n as int) =~= attrs@);
    }
}

/// Renders an event stream in canonical form: exactly `format_spec`.
fn emit_events(events: &Vec<XmlEvent>) -> (r: String)
    ensures
        r@ == format_spec(events@),
{
    let mut out: String = "<?xml version=\"1.0\" encoding=\"utf-8\"?>\n".to_owned();
    let mut depth: usize = 0;
    let mut i: usize = 0;
    let n = events.len();
    proof {
        assert(out@ =~= decl_line());
    }
    while i < n
        invariant
            n == events@.len(),
            i <= n,
            depth <= i,
            format_spec(events@) == out@ + format_from(events@, i as int, depth as nat),
        decreases n - i,
    {
        let ghost out0 = out@;
        let ghost depth0 = depth as nat;
        let e = &events[i];
        match e {
            XmlEvent::StartElement(name, attributes) => {
                push_indent(&mut out, depth);
                out.append("<");
                out.append(name.as_str());
                push_attrs(&mut out, attributes);
                out.append(">\n");
                depth = depth + 1;
            },
            XmlEvent::EndElement(name) => {
                if depth > 0 {
                    depth = depth - 1;
                }
                push_indent(&mut out, depth);
                out.append("</");
                out.append(name.as_str());
                out.append(">\n");
            },
            XmlEvent::Text(content) => {
                push_indent(&mut out, depth);
                push_escaped(&mut out, content.as_str());
                out.append("\n");
            },
            XmlEvent::Comment(content) => {
                push_indent(&mut out, depth);
                out.append("<!--");
                out.append(content.as_str());
                out.append("-->\n");
            },
        }
        proof {
            assert(out@ =~= out0 + event_line(events@[i as int], depth0));
            assert(depth as nat == next_depth(events@[i as int], depth0));
            assert(out0 + format_from(events@, i as int, depth0) =~= out@ + format_from(
                events@,
                i + 1,
                depth as nat,
            ));
        }
        i += 1;
    }
    proof {
        assert(format_spec(events@) =~= out@);
    }
    out
}

/// Reformats a serialized document into its canonical indented form: parse
/// to structural events with whitespace-only text suppressed, then print
/// one line per event, indented by nesting depth, comments kept as they
/// are.  Fails exactly when the input is not well formed.
pub fn format_xml(src: &str) -> (r: Result<String, String>)
    ensures
        r matches Ok(t) ==> xml_parse_of(src@) matches Some(ev) && t@ == format_spec(ev),
        r matches Err(_) <==> xml_parse_of(src@) is None,
{
    match parse_xml_events(src) {
        Ok(events) => Ok(emit_events(&events)),
        Err(e) => Err(e),
    }
}

/// What formatting makes of a document, as a value: the canonical print of
/// its parse, or nothing when it does not parse.
pub open spec fn format_of(src: Seq<char>) -> Option<Seq<char>> {
    match xml_parse_of(src) {
        Some(ev) => Some(format_spec(ev)),
        None => None,
    }
}

/// A document is canonically formatted when it is exactly the canonical
/// print of its own parse.
pub open spec fn is_canonical(s: Seq<char>) -> bool {
    match xml_parse_of(s) {
        Some(ev) => s == format_spec(ev),
        None => false,
    }
}

/// Formatting is a fixed point on canonically formatted documents: running
/// the formatter over such a document gives it back unchanged.  That the
/// formatter's own output is canonical again — that re-parsing the print
/// yields the events it was printed from — is the parser's round-trip
/// behaviour, exercised by the test suite.
pub proof fn lemma_format_fixed_point(s: Seq<char>)
    requires
        is_canonical(s),
    ensures
        format_of(s) == Some(s),
{
}

/// Formatting twice is formatting once, whenever re-parsing the first
/// output yields the same events as parsing the input did: the formatter
/// never moves a document that its own print already settled.
pub proof fn lemma_format_idempotent(src: Seq<char>, out: Seq<char>)
    requires
        format_of(src) == Some(out),
        xml_parse_of(out) == xml_parse_of(src),
    ensures
        is_canonical(out),
        format_of(out) == Some(out),
{
}

} // verus!
