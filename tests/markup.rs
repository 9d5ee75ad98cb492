use rnb::catalog::{Gaiji, ImageFiles};
use rnb::markup::{get_attr, get_flags, parse_img_src, AttrKey, ImgSrc, XmlAttribute};
use rnb::model::{Paragraph, Ruby};
use rnb::parser::{parse_text_file, reassemble, ParseError};

fn units(s: &str) -> Vec<u16> {
    s.encode_utf16().collect()
}

fn attr(key: &str, value: &str) -> XmlAttribute {
    XmlAttribute { key: key.as_bytes().to_vec(), value: value.as_bytes().to_vec() }
}

fn images(names: &[&str]) -> ImageFiles {
    ImageFiles {
        names: names.iter().map(|n| n.as_bytes().to_vec()).collect(),
        uncompressed_lengths: vec![1; names.len()],
        file_numbers: (0..names.len()).collect(),
    }
}

fn glyphs() -> Gaiji {
    Gaiji { names: vec![b"g1.png".to_vec(), b"empty.png".to_vec()], replacements: vec![units("𠮷"), vec![]] }
}

fn parse(content: &str) -> Result<Vec<Paragraph>, ParseError> {
    parse_text_file(content, &images(&["cover.jpg", "fig.png"]), &glyphs())
}

#[test]
fn flags_of_classes() {
    assert_eq!(get_flags(b"bold"), 1);
    assert_eq!(get_flags(b"font-110per"), 2);
    assert_eq!(get_flags(b"font-1em30 bold"), 3);
    assert_eq!(get_flags(b"font-1em"), 0);
    assert_eq!(get_flags(b"font-1"), 0);
    assert_eq!(get_flags(b"font-200per"), 0);
    assert_eq!(get_flags(b"boldly indent"), 0);
    assert_eq!(get_flags(b""), 0);
    assert_eq!(get_flags(b"x  bold"), 1);
}

#[test]
fn paragraph_flags_from_class() {
    let ps = parse("<p class=\"bold font-120per\">x</p><p class=\"indent\">y</p>").unwrap();
    assert_eq!(ps, vec![
        Paragraph::Text { text: units("x"), ruby: vec![], flags: 3 },
        Paragraph::Text { text: units("y"), ruby: vec![], flags: 0 },
    ]);
}

#[test]
fn plain_text_round_trips() {
    let text = "𠮷野家で、ごはん & more";
    let ps = parse(&format!("<html><body><p>{}</p></body></html>", text.replace('&', "&amp;"))).unwrap();
    assert_eq!(ps.len(), 1);
    let Paragraph::Text { text: got, ruby, flags } = &ps[0] else { panic!("image") };
    assert!(ruby.is_empty());
    assert_eq!(*flags, 0);
    let decoded: String = char::decode_utf16(got.iter().copied()).map(|c| c.unwrap()).collect();
    assert_eq!(decoded, text.replace('&', "&amp;"));
}

#[test]
fn ruby_group_spans() {
    let ps = parse("<p>前<ruby>漢<rt>かん</rt>字<rt>じ</rt>語<rt>ご</rt></ruby>後</p>").unwrap();
    assert_eq!(ps, vec![Paragraph::Text {
        text: units("前漢字語後"),
        ruby: vec![
            Ruby { start_offset: 1, length: 1, reading: units("かん") },
            Ruby { start_offset: 2, length: 1, reading: units("じ") },
            Ruby { start_offset: 3, length: 1, reading: units("ご") },
        ],
        flags: 0,
    }]);
}

#[test]
fn reading_outside_ruby_is_text() {
    let ps = parse("<p>a<rt>b</rt></p>").unwrap();
    assert_eq!(ps, vec![Paragraph::Text { text: units("ab"), ruby: vec![], flags: 0 }]);
}

#[test]
fn ruby_span_too_long() {
    let base = "a".repeat(256);
    assert_eq!(parse(&format!("<p><ruby>{base}<rt>x</rt></ruby></p>")), Err(ParseError::RubyOutOfRange));
}

#[test]
fn glyph_is_replaced_in_place() {
    let ps = parse("<p>a<img class=\"gaiji\" src=\"../gaiji/g1.png\"/>b</p>").unwrap();
    assert_eq!(ps, vec![Paragraph::Text { text: units("a𠮷b"), ruby: vec![], flags: 0 }]);
}

#[test]
fn unknown_glyph_aborts() {
    assert_eq!(parse("<p>a<img class=\"gaiji\" src=\"g/missing.png\"/></p>"), Err(ParseError::UnknownGlyph));
    assert_eq!(parse("<p>a<img class=\"gaiji\" src=\"empty.png\"/></p>"), Err(ParseError::UnknownGlyph));
}

#[test]
fn illustration_replaces_paragraph() {
    let ps = parse("<p>x<img src=\"images/fig.png\" alt=\"\"/></p><div><svg><image xlink:href=\"../cover.jpg\"/></svg></div>").unwrap();
    assert_eq!(ps, vec![Paragraph::Image { index: 1 }, Paragraph::Image { index: 0 }]);
}

#[test]
fn unknown_image_aborts() {
    assert_eq!(parse("<p><img src=\"nope.png\"/></p>"), Err(ParseError::UnknownImage));
    assert_eq!(parse("<svg><image width=\"1\"/></svg>"), Err(ParseError::UnknownImage));
}

#[test]
fn image_without_source_aborts() {
    assert_eq!(parse("<p><img alt=\"x\"/></p>"), Err(ParseError::MissingImageSource));
}

#[test]
fn cdata_aborts() {
    assert_eq!(parse("<p><![CDATA[x]]></p>"), Err(ParseError::CData));
}

#[test]
fn malformed_markup_aborts() {
    assert_eq!(parse("<p a=\"1></p>"), Err(ParseError::Xml));
}

#[test]
fn unclosed_last_paragraph_is_kept() {
    let ps = parse("<p>a</p><p>b").unwrap();
    assert_eq!(ps, vec![
        Paragraph::Text { text: units("a"), ruby: vec![], flags: 0 },
        Paragraph::Text { text: units("b"), ruby: vec![], flags: 0 },
    ]);
}

#[test]
fn img_source_and_class() {
    assert_eq!(parse_img_src(&vec![attr("src", "a/b.png"), attr("class", "gaiji")]), ImgSrc::Gaiji(b"a/b.png".to_vec()));
    assert_eq!(parse_img_src(&vec![attr("class", "pic"), attr("src", "b.png")]), ImgSrc::Illustration(b"b.png".to_vec()));
    assert_eq!(parse_img_src(&vec![attr("src", "")]), ImgSrc::Missing);
    assert_eq!(parse_img_src(&vec![attr("src", "a.png"), attr("src", "c.png")]), ImgSrc::Illustration(b"c.png".to_vec()));
}

#[test]
fn first_attribute_by_local_key() {
    let attrs = vec![attr("id", "x"), attr("xlink:href", "one"), attr("href", "two")];
    assert_eq!(get_attr(&attrs, AttrKey::Href, true), Some(b"one".to_vec()));
    assert_eq!(get_attr(&attrs, AttrKey::Href, false), Some(b"two".to_vec()));
    assert_eq!(get_attr(&attrs, AttrKey::Class, false), None);
}

#[test]
fn documents_back_in_order() {
    let p = |s: &str| Paragraph::Text { text: units(s), ruby: vec![], flags: 0 };
    let results = vec![(2, vec![p("c")]), (0, vec![p("a1"), p("a2")]), (1, vec![])];
    assert_eq!(reassemble(results, 3), vec![p("a1"), p("a2"), p("c")]);
}

#[test]
fn unclosed_reading_aborts() {
    assert_eq!(parse("<p><ruby>a<rt>b"), Err(ParseError::UnclosedReading));
}

#[test]
fn nested_reading_elements() {
    let ps = parse("<p><ruby>a<rt>x<rt>y</rt>z</rt></ruby></p>").unwrap();
    assert_eq!(ps, vec![Paragraph::Text {
        text: units("a"),
        ruby: vec![Ruby { start_offset: 0, length: 1, reading: units("xyz") }],
        flags: 0,
    }]);
}

#[test]
fn attributes_of_other_elements_are_not_read() {
    let ps = parse("<div a=b><p>x</p></div>").unwrap();
    assert_eq!(ps, vec![Paragraph::Text { text: units("x"), ruby: vec![], flags: 0 }]);
    assert_eq!(parse("<p a=b>x</p>"), Err(ParseError::Xml));
}
