use rnb::catalog::ImageFiles;
use rnb::encode::{encode_container, extend_with_image_meta, extend_with_ruby, image_offsets, EncodeError};
use rnb::model::{ContentBlock, Ruby};

fn units(s: &str) -> Vec<u16> {
    s.encode_utf16().collect()
}

fn catalog(lengths: &[u32]) -> ImageFiles {
    ImageFiles {
        names: lengths.iter().enumerate().map(|(i, _)| format!("{i}.png").into_bytes()).collect(),
        uncompressed_lengths: lengths.to_vec(),
        file_numbers: (0..lengths.len()).collect(),
    }
}

fn u16_at(b: &[u8], at: usize) -> u16 {
    u16::from_le_bytes([b[at], b[at + 1]])
}

fn units_at(b: &[u8], at: usize, n_bytes: usize) -> Vec<u16> {
    (0..n_bytes / 2).map(|k| u16_at(b, at + 2 * k)).collect()
}

/// Reads the block section back, as a renderer would.
fn decode_blocks(b: &[u8], mut at: usize, count: usize) -> Vec<ContentBlock> {
    let mut blocks = Vec::new();
    for _ in 0..count {
        let prefix = u16_at(b, at);
        at += 2;
        if prefix & 0x8000 != 0 {
            blocks.push(ContentBlock::Image { index: (prefix & 0xff) as u8 });
            continue;
        }
        let flags = (prefix >> 13) as u8;
        let len = usize::from(prefix & 0x1fff);
        let text = units_at(b, at, len);
        at += len;
        let mut ruby = Vec::new();
        if len > 0 {
            let n = b[at];
            at += 1;
            for _ in 0..n {
                let start_offset = u16_at(b, at);
                let length = b[at + 2];
                let reading_len = usize::from(b[at + 3]);
                let reading = units_at(b, at + 4, reading_len);
                at += 4 + reading_len;
                ruby.push(Ruby { start_offset, length, reading });
            }
        }
        blocks.push(ContentBlock::Text { text, ruby, flags });
    }
    assert_eq!(at, b.len());
    blocks
}

#[test]
fn round_trip_one_text_block() {
    let block = ContentBlock::Text {
        text: units("開発する"),
        ruby: vec![Ruby { start_offset: 0, length: 2, reading: units("かい") }],
        flags: 0,
    };
    let bytes = encode_container(&vec![block.clone()], &ImageFiles::default()).unwrap();
    assert_eq!(u16_at(&bytes, 0), 1);
    assert_eq!(bytes[2], 0);
    assert_eq!(decode_blocks(&bytes, 3, 1), vec![block]);
}

#[test]
fn exact_bytes_of_text_and_image_blocks() {
    let blocks = vec![
        ContentBlock::Text { text: vec![0x41, 0x3042], ruby: vec![Ruby { start_offset: 1, length: 1, reading: vec![0x3044] }], flags: 3 },
        ContentBlock::Image { index: 2 },
        ContentBlock::Text { text: vec![], ruby: vec![], flags: 1 },
    ];
    let bytes = encode_container(&blocks, &catalog(&[5, 7, 9])).unwrap();
    let expected: Vec<u8> = vec![
        3, 0, // blocks
        3, 0, 0, 0, 0, 5, 0, 0, 0, 5, 0, 0, 0, 7, 0, 0, 0, 12, 0, 0, 0, 9, 0, 0, 0, // images
        4, 0x60, 0x41, 0, 0x42, 0x30, 1, 1, 0, 1, 2, 0x44, 0x30, // text block
        2, 0x80, // image block
        0, 0x20, // empty bold block: no span section
    ];
    assert_eq!(bytes, expected);
}

#[test]
fn image_offsets_are_prefix_sums() {
    let offsets = image_offsets(&catalog(&[100, 50, 200])).unwrap();
    assert_eq!(offsets, vec![0, 100, 150]);
}

#[test]
fn image_offsets_overflow() {
    assert_eq!(image_offsets(&catalog(&[u32::MAX, 1])), None);
    assert_eq!(image_offsets(&catalog(&[u32::MAX])), Some(vec![0]));
}

#[test]
fn image_meta_layout() {
    let mut buf = vec![9];
    extend_with_image_meta(&mut buf, &vec![0, 0x01020304], &vec![0x01020304, 1]);
    assert_eq!(buf, vec![9, 2, 0, 0, 0, 0, 4, 3, 2, 1, 4, 3, 2, 1, 1, 0, 0, 0]);
}

#[test]
fn ruby_layout() {
    let mut buf = Vec::new();
    extend_with_ruby(&mut buf, &vec![Ruby { start_offset: 0x0102, length: 3, reading: vec![0x3042, 0x3044] }]);
    assert_eq!(buf, vec![1, 2, 1, 3, 4, 0x42, 0x30, 0x44, 0x30]);
}

#[test]
fn text_too_long() {
    let blocks = vec![
        ContentBlock::Image { index: 0 },
        ContentBlock::Text { text: vec![0x41; 4096], ruby: vec![], flags: 0 },
    ];
    assert_eq!(encode_container(&blocks, &catalog(&[1])), Err(EncodeError::TextTooLong { block: 1 }));
    let fits = vec![ContentBlock::Text { text: vec![0x41; 4095], ruby: vec![], flags: 0 }];
    assert!(encode_container(&fits, &ImageFiles::default()).is_ok());
}

#[test]
fn invalid_flags() {
    let blocks = vec![ContentBlock::Text { text: vec![0x41], ruby: vec![], flags: 4 }];
    assert_eq!(encode_container(&blocks, &ImageFiles::default()), Err(EncodeError::InvalidFlags { block: 0 }));
}

#[test]
fn too_many_spans() {
    let span = Ruby { start_offset: 0, length: 1, reading: vec![0x41] };
    let blocks = vec![ContentBlock::Text { text: vec![0x41], ruby: vec![span; 256], flags: 0 }];
    assert_eq!(encode_container(&blocks, &ImageFiles::default()), Err(EncodeError::TooManySpans { block: 0 }));
}

#[test]
fn reading_too_long() {
    let span = Ruby { start_offset: 0, length: 1, reading: vec![0x41; 128] };
    let blocks = vec![ContentBlock::Text { text: vec![0x41], ruby: vec![span], flags: 0 }];
    assert_eq!(encode_container(&blocks, &ImageFiles::default()), Err(EncodeError::ReadingTooLong { block: 0 }));
}

#[test]
fn too_many_blocks() {
    let blocks = vec![ContentBlock::Image { index: 0 }; 65536];
    assert_eq!(encode_container(&blocks, &catalog(&[1])), Err(EncodeError::TooManyBlocks));
}

#[test]
fn too_many_images() {
    let blocks = vec![ContentBlock::Image { index: 0 }];
    assert_eq!(encode_container(&blocks, &catalog(&[1; 256])), Err(EncodeError::TooManyImages));
}

#[test]
fn images_too_large() {
    let blocks = vec![ContentBlock::Image { index: 0 }];
    assert_eq!(encode_container(&blocks, &catalog(&[u32::MAX, 1])), Err(EncodeError::ImagesTooLarge));
}
