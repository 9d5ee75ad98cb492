use rnb::package::{get_root_file_path, get_text_paths, PackageError};

#[test]
fn root_file_from_container() {
    let container = r#"<?xml version="1.0"?><container><rootfiles><rootfile media-type="application/oebps-package+xml" full-path="OEBPS/content.opf"/></rootfiles></container>"#;
    assert_eq!(get_root_file_path(container), Ok(b"OEBPS/content.opf".to_vec()));
    assert_eq!(get_root_file_path("<container></container>"), Err(PackageError::MissingRootFile));
}

#[test]
fn text_items_in_declaration_order() {
    let opf = r#"<package><manifest>
        <item id="b" href="text/b.xhtml" media-type="application/xhtml+xml"/>
        <item id="css" href="style.css" media-type="text/css"/>
        <item id="a" media-type="application/xhtml+xml" href="text/a.xhtml"/>
    </manifest><spine><itemref idref="a"/><itemref idref="b"/></spine></package>"#;
    assert_eq!(
        get_text_paths(opf, b"OEBPS/content.opf"),
        Ok(vec![b"OEBPS/text/b.xhtml".to_vec(), b"OEBPS/text/a.xhtml".to_vec()])
    );
    assert_eq!(get_text_paths(opf, b"content.opf").unwrap()[0], b"text/b.xhtml".to_vec());
}

#[test]
fn no_text_items() {
    let opf = r#"<package><manifest><item href="style.css" media-type="text/css"/></manifest></package>"#;
    assert_eq!(get_text_paths(opf, b"content.opf"), Err(PackageError::NoTextItems));
}

#[test]
fn malformed_package() {
    assert_eq!(get_text_paths("<package><item href=\"a></package>", b"x.opf"), Err(PackageError::Xml));
}
