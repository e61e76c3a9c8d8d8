use text_analysis::local_name;
use text_analysis::office::{text_of_events, trimmed_end, XmlEvent};

fn names(list: &[&str]) -> Vec<Vec<u8>> {
    list.iter().map(|n| n.as_bytes().to_vec()).collect()
}

fn start(n: &str) -> XmlEvent {
    XmlEvent::Start(n.as_bytes().to_vec())
}

fn end(n: &str) -> XmlEvent {
    XmlEvent::End(n.as_bytes().to_vec())
}

fn text(t: &str) -> XmlEvent {
    XmlEvent::Text(t.to_string())
}

#[test]
fn local_names() {
    assert_eq!(local_name(b"w:p"), b"p".to_vec());
    assert_eq!(local_name(b"text:line-break"), b"line-break".to_vec());
    assert_eq!(local_name(b"a:b:c"), b"c".to_vec());
    assert_eq!(local_name(b"plain"), b"plain".to_vec());
    assert_eq!(local_name(b"x:"), Vec::<u8>::new());
}

#[test]
fn docx_events_give_lines_and_paragraphs() {
    let events = vec![
        start("w:document"),
        start("w:p"),
        start("w:r"),
        start("w:t"),
        text("Line 1"),
        end("w:t"),
        XmlEvent::Empty(b"w:br".to_vec()),
        start("w:t"),
        text("Line 2"),
        end("w:t"),
        end("w:r"),
        end("w:p"),
        start("w:p"),
        text("Para 2"),
        end("w:p"),
        XmlEvent::Other,
        end("w:document"),
    ];
    let out = text_of_events(&events, &names(&["br"]), &names(&["p"]));
    assert_eq!(out, "Line 1\nLine 2\nPara 2");
}

#[test]
fn odt_events_give_paragraphs_and_headings() {
    let events = vec![
        start("text:h"),
        text("Title"),
        end("text:h"),
        start("text:p"),
        text("First paragraph"),
        end("text:p"),
        start("text:p"),
        text("Second"),
        XmlEvent::Empty(b"text:line-break".to_vec()),
        text("paragraph"),
        end("text:p"),
    ];
    let out = text_of_events(&events, &names(&["line-break", "br"]), &names(&["p", "h"]));
    assert_eq!(out, "Title\nFirst paragraph\nSecond\nparagraph");
}

#[test]
fn trailing_whitespace_is_trimmed() {
    assert_eq!(trimmed_end("a b \n\t "), "a b");
    assert_eq!(trimmed_end("  "), "");
    assert_eq!(trimmed_end("x\u{3000}"), "x");
    assert_eq!(trimmed_end(" lead"), " lead");
}

#[test]
fn whitespace_matches_std_on_every_char() {
    for u in 0u32..=0x10FFFF {
        if let Some(c) = char::from_u32(u) {
            assert_eq!(text_analysis::office::is_whitespace(c), c.is_whitespace(), "U+{u:04X}");
        }
    }
}
