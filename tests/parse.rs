use rnb::catalog::{Gaiji, ImageFiles};
use rnb::model::{Paragraph, Ruby};
use rnb::parser::parse_text_file;

fn units(s: &str) -> Vec<u16> {
    s.encode_utf16().collect()
}

#[test]
fn parse_paragraph() {
    let content = String::from("<p>test</p>");

    let paragraphs = parse_text_file(&content, &ImageFiles::default(), &Gaiji::default()).unwrap();

    assert_eq!(paragraphs.len(), 1);

    let expected = Paragraph::Text { text: units("test"), ruby: Vec::new(), flags: 0 };
    assert_eq!(paragraphs[0], expected);
}

#[test]
fn parse_paragraph_ruby() {
    let content = String::from("<p><ruby>開発<rt>かいはつ</rt></ruby></p>");

    let paragraphs = parse_text_file(&content, &ImageFiles::default(), &Gaiji::default()).unwrap();

    assert_eq!(paragraphs.len(), 1);

    let expected = Paragraph::Text {
        text: units("開発"),
        ruby: Vec::from([Ruby { start_offset: 0, length: 2, reading: units("かいはつ") }]),
        flags: 0,
    };
    assert_eq!(paragraphs[0], expected);
}

#[test]
fn parse_paragraph_ruby_rb() {
    let content = String::from("<p><ruby><rb>開発</rb><rt>かいはつ</rt></ruby></p>");

    let paragraphs = parse_text_file(&content, &ImageFiles::default(), &Gaiji::default()).unwrap();

    assert_eq!(paragraphs.len(), 1);

    let expected = Paragraph::Text {
        text: units("開発"),
        ruby: Vec::from([Ruby { start_offset: 0, length: 2, reading: units("かいはつ") }]),
        flags: 0,
    };
    assert_eq!(paragraphs[0], expected);
}

#[test]
fn parse_paragraph_ruby_multiple_rt() {
    let content = String::from("<p><ruby>開<rt>かい</rt>発<rt>はつ</rt></ruby></p>");

    let paragraphs = parse_text_file(&content, &ImageFiles::default(), &Gaiji::default()).unwrap();

    assert_eq!(paragraphs.len(), 1);

    let expected = Paragraph::Text {
        text: units("開発"),
        ruby: Vec::from([
            Ruby { start_offset: 0, length: 1, reading: units("かい") },
            Ruby { start_offset: 1, length: 1, reading: units("はつ") },
        ]),
        flags: 0,
    };
    assert_eq!(paragraphs[0], expected);
}
