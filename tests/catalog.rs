use rnb::catalog::{get_gaiji, get_image_files, CatalogError, Gaiji, ImageFiles};

fn units(s: &str) -> Vec<u16> {
    s.encode_utf16().collect()
}

#[test]
fn index_by_last_segment() {
    let files = ImageFiles {
        names: vec![b"a.png".to_vec(), b"b.jpg".to_vec(), b"a.png".to_vec()],
        uncompressed_lengths: vec![1, 2, 3],
        file_numbers: vec![4, 5, 6],
    };
    assert_eq!(files.index_of(b"../images/b.jpg"), Some(1));
    assert_eq!(files.index_of(b"a.png"), Some(0));
    assert_eq!(files.index_of(b"images/"), None);
    assert_eq!(files.index_of(b"A.png"), None);
}

#[test]
fn glyph_lookup() {
    let g = Gaiji { names: vec![b"g1.png".to_vec()], replacements: vec![units("髙")] };
    assert_eq!(g.mapped(b"../gaiji/g1.png"), Some(&units("髙")));
    assert_eq!(g.mapped(b"g2.png"), None);
}

#[test]
fn glyph_listing() {
    let g = get_gaiji("{\"g1.png\": \"髙\", \"g2.png\": \"𠮷\", \"odd\"".as_bytes()).unwrap();
    assert_eq!(g.names, vec![b"g1.png".to_vec(), b"g2.png".to_vec()]);
    assert_eq!(g.replacements, vec![units("髙"), units("𠮷")]);
    let empty = get_gaiji(b"{}").unwrap();
    assert!(empty.names.is_empty());
}

#[test]
fn glyph_listing_not_utf8() {
    assert!(get_gaiji(b"\"a\":\"\xff\"").is_none());
}

#[test]
fn image_catalog_from_entries() {
    let names = vec![
        b"OEBPS/images/cover.jpg".to_vec(),
        b"OEBPS/text/chapter.xhtml".to_vec(),
        b"pic.jpeg".to_vec(),
        b"OEBPS/images/fig.png".to_vec(),
    ];
    let sizes = vec![100, 5, 50, 200];
    let files = get_image_files(&names, &sizes).unwrap();
    assert_eq!(files.names, vec![b"cover.jpg".to_vec(), b"pic.jpeg".to_vec(), b"fig.png".to_vec()]);
    assert_eq!(files.uncompressed_lengths, vec![100, 50, 200]);
    assert_eq!(files.file_numbers, vec![0, 2, 3]);
}

#[test]
fn image_catalog_limits() {
    let names: Vec<Vec<u8>> = (0..257).map(|i| format!("{i}.png").into_bytes()).collect();
    let sizes = vec![1; 257];
    assert_eq!(get_image_files(&names, &sizes).unwrap_err(), CatalogError::TooManyImages);
    assert_eq!(get_image_files(&names[..256].to_vec(), &sizes[..256].to_vec()).unwrap().names.len(), 256);
    let big = get_image_files(&vec![b"x.png".to_vec()], &vec![u64::from(u32::MAX) + 1]);
    assert_eq!(big.unwrap_err(), CatalogError::ImageTooLarge);
}
