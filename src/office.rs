//! Names in office-document XML.
use vstd::prelude::*;
use vstd::string::StringExecFns;

verus! {

/// The part of a qualified XML name after its last `:` (the whole name if it has none).
pub open spec fn local_part(name: Seq<u8>) -> Seq<u8>
    decreases name.len(),
{
    if name.len() == 0 {
        name
    } else if name.last() == 58u8 {
        Seq::empty()
    } else {
        local_part(name.drop_last()).push(name.last())
    }
}

/// The local part of a qualified XML name: what follows its last `:`.
pub fn local_name(name: &[u8]) -> (r: Vec<u8>)
    ensures
        r@ == local_part(name@),
{
    let mut cur: Vec<u8> = Vec::new();
    let mut i: usize = 0;
    while i < name.len()
        invariant
            i <= name@.len(),
            cur@ == local_part(name@.take(i as int)),
        decreases name@.len() - i,
    {
        proof {
            assert(name@.take(i as int + 1).drop_last() =~= name@.take(i as int));
        }
        if name[i] == 58u8 {
            cur = Vec::new();
        } else {
            cur.push(name[i]);
        }
        i = i + 1;
    }
    assert(name@.take(i as int) =~= name@);
    cur
}

/// One event of an XML document, as the text extraction reads it: element
/// names as raw bytes, text already unescaped.
pub enum XmlEvent {
    Start(Vec<u8>),
    Empty(Vec<u8>),
    End(Vec<u8>),
    Text(String),
    Other,
}

/// The text that one event contributes: a newline for a line-break element
/// (start or empty tag) and at the end of a paragraph element, the text of a
/// text event, nothing otherwise.
pub open spec fn event_text(e: XmlEvent, breaks: Seq<Seq<u8>>, paragraphs: Seq<Seq<u8>>) -> Seq<char> {
    match e {
        XmlEvent::Start(n) => if breaks.contains(local_part(n@)) { seq!['\n'] } else { Seq::empty() },
        XmlEvent::Empty(n) => if breaks.contains(local_part(n@)) { seq!['\n'] } else { Seq::empty() },
        XmlEvent::End(n) => if paragraphs.contains(local_part(n@)) { seq!['\n'] } else { Seq::empty() },
        XmlEvent::Text(t) => t@,
        XmlEvent::Other => Seq::empty(),
    }
}

/// The text of a run of events, before trailing whitespace is removed.
pub open spec fn events_text(events: Seq<XmlEvent>, breaks: Seq<Seq<u8>>, paragraphs: Seq<Seq<u8>>) -> Seq<char>
    decreases events.len(),
{
    if events.len() == 0 {
        Seq::empty()
    } else {
        events_text(events.drop_last(), breaks, paragraphs) + event_text(events.last(), breaks, paragraphs)
    }
}

/// The Unicode `White_Space` chars, which `char::is_whitespace` answers for:
/// tab to carriage return, space, next line, no-break space, ogham space mark,
/// the spaces U+2000 to U+200A, line and paragraph separators, narrow no-break
/// space, medium mathematical space and ideographic space.
pub open spec fn whitespace(c: char) -> bool {
    ||| '\u{9}' <= c <= '\u{d}'
    ||| c == ' '
    ||| c == '\u{85}'
    ||| c == '\u{a0}'
    ||| c == '\u{1680}'
    ||| '\u{2000}' <= c <= '\u{200a}'
    ||| c == '\u{2028}'
    ||| c == '\u{2029}'
    ||| c == '\u{202f}'
    ||| c == '\u{205f}'
    ||| c == '\u{3000}'
}

/// Whether `c` is Unicode white space.
pub fn is_whitespace(c: char) -> (r: bool)
    ensures
        r == whitespace(c),
{
    ('\u{9}' <= c && c <= '\u{d}') || c == ' ' || c == '\u{85}' || c == '\u{a0}' || c == '\u{1680}'
        || ('\u{2000}' <= c && c <= '\u{200a}') || c == '\u{2028}' || c == '\u{2029}' || c == '\u{202f}'
        || c == '\u{205f}' || c == '\u{3000}'
}

/// `s` without its trailing whitespace.
pub open spec fn trim_end(s: Seq<char>) -> Seq<char>
    decreases s.len(),
{
    if s.len() > 0 && whitespace(s.last()) {
        trim_end(s.drop_last())
    } else {
        s
    }
}

/// `s` without its trailing whitespace (what `str::trim_end` returns).
pub fn trimmed_end(s: &str) -> (r: String)
    ensures
        r@ == trim_end(s@),
{
    let cs = crate::text::chars_of(s);
    let mut k: usize = cs.len();
    assert(s@.take(k as int) =~= s@);
    while k > 0 && is_whitespace(cs[k - 1])
        invariant
            k <= cs@.len(),
            cs@ == s@,
            trim_end(s@) == trim_end(s@.take(k as int)),
        decreases k,
    {
        assert(s@.take(k as int).drop_last() =~= s@.take(k as int - 1));
        k = k - 1;
    }
    let mut out = String::new();
    let mut i: usize = 0;
    while i < k
        invariant
            i <= k <= cs@.len(),
            cs@ == s@,
            out@ =~= s@.take(i as int),
        decreases k - i,
    {
        crate::text::push_char(&mut out, cs[i]);
        i = i + 1;
    }
    assert(s@.take(cs@.len() as int) =~= s@);
    out
}

fn bytes_eq(a: &Vec<u8>, b: &Vec<u8>) -> (r: bool)
    ensures
        r == (a@ == b@),
{
    if a.len() != b.len() {
        return false;
    }
    let mut i: usize = 0;
    while i < a.len()
        invariant
            i <= a@.len(),
            a@.len() == b@.len(),
            forall|j: int| 0 <= j < i ==> a@[j] == b@[j],
        decreases a@.len() - i,
    {
        if a[i] != b[i] {
            return false;
        }
        i = i + 1;
    }
    assert(a@ =~= b@);
    true
}

fn contains_name(names: &Vec<Vec<u8>>, n: &Vec<u8>) -> (r: bool)
    ensures
        r == names@.map_values(|v: Vec<u8>| v@).contains(n@),
{
    let ghost view = names@.map_values(|v: Vec<u8>| v@);
    let mut i: usize = 0;
    while i < names.len()
        invariant
            i <= names@.len(),
            view == names@.map_values(|v: Vec<u8>| v@),
            forall|j: int| 0 <= j < i ==> view[j] != n@,
        decreases names@.len() - i,
    {
        if bytes_eq(&names[i], n) {
            assert(view[i as int] == n@);
            return true;
        }
        i = i + 1;
    }
    false
}

/// The text of XML events: line-break elements and paragraph ends become
/// newlines, text is kept, and trailing whitespace is removed.
pub fn text_of_events(events: &Vec<XmlEvent>, breaks: &Vec<Vec<u8>>, paragraphs: &Vec<Vec<u8>>) -> (r: String)
    ensures
        r@ == trim_end(events_text(events@, breaks@.map_values(|v: Vec<u8>| v@), paragraphs@.map_values(|v: Vec<u8>| v@))),
{
    let ghost b = breaks@.map_values(|v: Vec<u8>| v@);
    let ghost p = paragraphs@.map_values(|v: Vec<u8>| v@);
    let mut out = String::new();
    let mut i: usize = 0;
    while i < events.len()
        invariant
            i <= events@.len(),
            b == breaks@.map_values(|v: Vec<u8>| v@),
            p == paragraphs@.map_values(|v: Vec<u8>| v@),
            out@ == events_text(events@.take(i as int), b, p),
        decreases events@.len() - i,
    {
        proof {
            assert(events@.take(i as int + 1).drop_last() =~= events@.take(i as int));
        }
        let ghost before = out@;
        match &events[i] {
            XmlEvent::Start(n) | XmlEvent::Empty(n) => {
                if contains_name(breaks, &local_name(n.as_slice())) {
                    push_newline(&mut out);
                }
            },
            XmlEvent::End(n) => {
                if contains_name(paragraphs, &local_name(n.as_slice())) {
                    push_newline(&mut out);
                }
            },
            XmlEvent::Text(t) => {
                out.append(t.as_str());
            },
            XmlEvent::Other => {},
        }
        assert(out@ =~= before + event_text(events@[i as int], b, p));
        i = i + 1;
    }
    assert(events@.take(i as int) =~= events@);
    trimmed_end(out.as_str())
}

fn push_newline(s: &mut String)
    ensures
        final(s)@ == old(s)@ + seq!['\n'],
{
    let ghost before = s@;
    crate::text::push_char(s, '\n');
    assert(s@ =~= before + seq!['\n']);
}

} // verus!
