use rnb::merge::merge_paragraphs;
use rnb::model::{ContentBlock, Paragraph};

fn units(s: &str) -> Vec<u16> {
    s.encode_utf16().collect()
}

fn plain(s: &str) -> Paragraph {
    Paragraph::Text { text: units(s), ruby: Vec::new(), flags: 0 }
}

#[test]
fn merge_single() {
    let paragraph = plain("a");

    let mut result = merge_paragraphs(vec![paragraph]);

    assert_eq!(result.len(), 1);

    let ContentBlock::Text { text, .. } = result.pop().unwrap() else {
        panic!("image");
    };

    assert_eq!(text, units("a"));
}

#[test]
fn merge_two() {
    let paragraph_a = plain("a");
    let paragraph_b = plain("b");

    let mut result = merge_paragraphs(vec![paragraph_a, paragraph_b]);

    assert_eq!(result.len(), 1);

    let ContentBlock::Text { text, .. } = result.pop().unwrap() else {
        panic!("image");
    };

    assert_eq!(text, units("a\nb"));
}

fn spans(list: &[(u16, u8, &str)]) -> Vec<rnb::model::Ruby> {
    list.iter().map(|&(s, l, r)| rnb::model::Ruby { start_offset: s, length: l, reading: units(r) }).collect()
}

#[test]
fn formatted_paragraphs_stay_apart() {
    let ps = vec![
        Paragraph::Text { text: units("ab"), ruby: spans(&[(1, 1, "x")]), flags: 1 },
        Paragraph::Text { text: units("cd"), ruby: spans(&[(0, 2, "y")]), flags: 2 },
        Paragraph::Text { text: units("e"), ruby: vec![], flags: 3 },
    ];
    let blocks = merge_paragraphs(ps);
    assert_eq!(blocks, vec![
        ContentBlock::Text { text: units("ab"), ruby: spans(&[(1, 1, "x")]), flags: 1 },
        ContentBlock::Text { text: units("cd"), ruby: spans(&[(0, 2, "y")]), flags: 2 },
        ContentBlock::Text { text: units("e"), ruby: vec![], flags: 3 },
    ]);
}

#[test]
fn merged_spans_are_shifted() {
    let a = Paragraph::Text { text: units("漢字"), ruby: spans(&[(0, 2, "かんじ")]), flags: 0 };
    let b = Paragraph::Text { text: units("本日"), ruby: spans(&[(0, 1, "ほん"), (1, 1, "じつ")]), flags: 0 };
    let blocks = merge_paragraphs(vec![a, b]);
    assert_eq!(blocks, vec![ContentBlock::Text {
        text: units("漢字\n本日"),
        ruby: spans(&[(0, 2, "かんじ"), (3, 1, "ほん"), (4, 1, "じつ")]),
        flags: 0,
    }]);
}

#[test]
fn long_pair_stays_apart() {
    let a = Paragraph::Text { text: vec![0x61; 100], ruby: vec![], flags: 0 };
    let b = Paragraph::Text { text: vec![0x62; 28], ruby: vec![], flags: 0 };
    let blocks = merge_paragraphs(vec![a, b]);
    assert_eq!(blocks, vec![
        ContentBlock::Text { text: vec![0x61; 100], ruby: vec![], flags: 0 },
        ContentBlock::Text { text: vec![0x62; 28], ruby: vec![], flags: 0 },
    ]);
    let c = Paragraph::Text { text: vec![0x61; 100], ruby: vec![], flags: 0 };
    let d = Paragraph::Text { text: vec![0x62; 27], ruby: vec![], flags: 0 };
    assert_eq!(merge_paragraphs(vec![c, d]).len(), 1);
}

#[test]
fn span_count_cap() {
    let many = spans(&[(0, 1, "a"); 100]);
    let a = Paragraph::Text { text: units("x"), ruby: many.clone(), flags: 0 };
    let b = Paragraph::Text { text: units("y"), ruby: spans(&[(0, 1, "b"); 28]), flags: 0 };
    assert_eq!(merge_paragraphs(vec![a, b]).len(), 2);
}

#[test]
fn images_and_formatting_flush() {
    let ps = vec![
        plain("a"),
        Paragraph::Image { index: 3 },
        plain("b"),
        plain("c"),
        Paragraph::Text { text: units("d"), ruby: vec![], flags: 1 },
        plain("e"),
    ];
    assert_eq!(merge_paragraphs(ps), vec![
        ContentBlock::Text { text: units("a"), ruby: vec![], flags: 0 },
        ContentBlock::Image { index: 3 },
        ContentBlock::Text { text: units("b\nc"), ruby: vec![], flags: 0 },
        ContentBlock::Text { text: units("d"), ruby: vec![], flags: 1 },
        ContentBlock::Text { text: units("e"), ruby: vec![], flags: 0 },
    ]);
}

#[test]
fn merge_nothing() {
    assert!(merge_paragraphs(vec![]).is_empty());
}
