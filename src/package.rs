//! Which text documents the book holds, and in what order.
use vstd::prelude::*;
use vstd::slice::slice_to_vec;
use crate::catalog::{SLASH, last_segment, segment_start};
use crate::markup::{
    AttrKey, Tag, XmlAttribute, XmlEvent, classify_tag, first_value, get_attr, is_xhtml_type, last_value,
    start_attributes, tag_attributes, tag_of, xhtml_type,
};
use crate::xml::{xml_events, xml_events_of};

verus! {

/// Why the package structure cannot be read.
#[derive(Debug, Clone, Copy, PartialEq, Eq, Structural)]
pub enum PackageError {
    /// The tokenizer refused a document.
    Xml,
    /// The container names no package document.
    MissingRootFile,
    /// The package document lists no text document.
    NoTextItems,
}

/// The location that a container's `rootfile` element gives for the package document.
pub fn rootfile_path(name: &[u8], attributes: &Vec<XmlAttribute>) -> (r: Option<Vec<u8>>)
    ensures
        match r {
            Some(p) => tag_of(name@) == Tag::Rootfile && first_value(attributes@, AttrKey::FullPath, false) == Some(p@),
            None => tag_of(name@) != Tag::Rootfile || first_value(attributes@, AttrKey::FullPath, false) is None,
        },
{
    if classify_tag(name) == Tag::Rootfile {
        get_attr(attributes, AttrKey::FullPath, false)
    } else {
        None
    }
}

/// The directory part of a path: everything before its last `/`.
pub open spec fn dir_of(p: Seq<u8>) -> Seq<u8> {
    let rest = p.len() - last_segment(p).len();
    if rest == 0 {
        Seq::<u8>::empty()
    } else {
        p.take(rest - 1)
    }
}

/// A path relative to the directory `dir`.
pub open spec fn joined_path(dir: Seq<u8>, href: Seq<u8>) -> Seq<u8> {
    if dir.len() == 0 {
        href
    } else {
        dir.push(SLASH) + href
    }
}

/// The directory of the package document.
pub fn root_file_dir(root_file_path: &[u8]) -> (r: Vec<u8>)
    ensures
        r@ == dir_of(root_file_path@),
{
    let start = segment_start(root_file_path);
    if start == 0 {
        Vec::new()
    } else {
        let dir = vstd::slice::slice_subrange(root_file_path, 0, start - 1);
        slice_to_vec(dir)
    }
}

/// The archive path of a package item, if it is a text document: its `href`
/// qualified by the package document's directory.
pub fn item_path(dir: &[u8], name: &[u8], attributes: &Vec<XmlAttribute>) -> (r: Option<Vec<u8>>)
    ensures
        match r {
            Some(p) => tag_of(name@) == Tag::Item && is_xhtml_type(last_value(attributes@, AttrKey::MediaType))
                && p@ == joined_path(dir@, last_value(attributes@, AttrKey::Href)),
            None => !(tag_of(name@) == Tag::Item && is_xhtml_type(last_value(attributes@, AttrKey::MediaType))),
        },
{
    if classify_tag(name) != Tag::Item {
        return None;
    }
    let ghost attrs = attributes@;
    let n = attributes.len();
    let mut media: Option<usize> = None;
    let mut href: Option<usize> = None;
    for i in 0..n
        invariant
            n == attributes@.len(),
            attrs == attributes@,
            match media {
                Some(j) => j < n && last_value(attrs.take(i as int), AttrKey::MediaType) == attrs[j as int].value@,
                None => last_value(attrs.take(i as int), AttrKey::MediaType).len() == 0,
            },
            match href {
                Some(j) => j < n && last_value(attrs.take(i as int), AttrKey::Href) == attrs[j as int].value@,
                None => last_value(attrs.take(i as int), AttrKey::Href).len() == 0,
            },
    {
        assert(attrs.take(i + 1).drop_last() =~= attrs.take(i as int));
        assert(attrs.take(i + 1).last() == attrs[i as int]);
        let k = crate::markup::classify_key(&attributes[i].key);
        if k == AttrKey::MediaType {
            media = Some(i);
        } else if k == AttrKey::Href {
            href = Some(i);
        }
    }
    assert(attrs.take(n as int) =~= attrs);
    let is_html = match media {
        Some(j) => xhtml_type(attributes[j].value.as_slice()),
        None => false,
    };
    if !is_html {
        return None;
    }
    let mut path = slice_to_vec(dir);
    if dir.len() > 0 {
        path.push(SLASH);
    }
    match href {
        Some(j) => {
            let mut tail = slice_to_vec(attributes[j].value.as_slice());
            path.append(&mut tail);
        },
        None => {},
    }
    assert(path@ =~= joined_path(dir@, last_value(attrs, AttrKey::Href)));
    Some(path)
}

/// The package document's location: the first `full-path` of a `rootfile`
/// element from event `i` on.
pub open spec fn root_from(es: Seq<XmlEvent>, i: int) -> Result<Seq<u8>, PackageError>
    decreases es.len() - i,
{
    if i < 0 || i >= es.len() {
        Err(PackageError::MissingRootFile)
    } else {
        match es[i] {
            XmlEvent::Start { name, tag } => if tag_of(name@) == Tag::Rootfile {
                match tag_attributes(name@, tag@) {
                    None => Err(PackageError::Xml),
                    Some(a) => match first_value(a, AttrKey::FullPath, false) {
                        Some(p) => Ok(p),
                        None => root_from(es, i + 1),
                    },
                }
            } else {
                root_from(es, i + 1)
            },
            _ => root_from(es, i + 1),
        }
    }
}

/// The package document's location that a container document gives.
pub open spec fn container_root_path(content: Seq<char>) -> Result<Seq<u8>, PackageError> {
    match xml_events_of(content) {
        Some(es) => root_from(es, 0),
        None => Err(PackageError::Xml),
    }
}

/// The text document paths declared by the items from event `i` on, after `acc`.
pub open spec fn paths_from(es: Seq<XmlEvent>, i: int, dir: Seq<u8>, acc: Seq<Seq<u8>>) -> Result<Seq<Seq<u8>>, PackageError>
    decreases es.len() - i,
{
    if i < 0 || i >= es.len() {
        Ok(acc)
    } else {
        match es[i] {
            XmlEvent::Start { name, tag } => if tag_of(name@) == Tag::Item {
                match tag_attributes(name@, tag@) {
                    None => Err(PackageError::Xml),
                    Some(a) => if is_xhtml_type(last_value(a, AttrKey::MediaType)) {
                        paths_from(es, i + 1, dir, acc.push(joined_path(dir, last_value(a, AttrKey::Href))))
                    } else {
                        paths_from(es, i + 1, dir, acc)
                    },
                }
            } else {
                paths_from(es, i + 1, dir, acc)
            },
            _ => paths_from(es, i + 1, dir, acc),
        }
    }
}

/// The text document paths of a package document at `root`, in declaration order.
pub open spec fn package_text_paths(content: Seq<char>, root: Seq<u8>) -> Result<Seq<Seq<u8>>, PackageError> {
    match xml_events_of(content) {
        Some(es) => match paths_from(es, 0, dir_of(root), seq![]) {
            Ok(ps) => if ps.len() == 0 {
                Err(PackageError::NoTextItems)
            } else {
                Ok(ps)
            },
            Err(e) => Err(e),
        },
        None => Err(PackageError::Xml),
    }
}

pub open spec fn paths_view(ps: Seq<Vec<u8>>) -> Seq<Seq<u8>> {
    ps.map_values(|p: Vec<u8>| p@)
}

/// The package document's location, from the container document.
pub fn get_root_file_path(container: &str) -> (r: Result<Vec<u8>, PackageError>)
    ensures
        match r {
            Ok(p) => container_root_path(container@) == Ok::<Seq<u8>, PackageError>(p@),
            Err(e) => container_root_path(container@) == Err::<Seq<u8>, PackageError>(e),
        },
{
    let events = match xml_events(container) {
        Some(es) => es,
        None => {
            return Err(PackageError::Xml);
        },
    };
    let ghost es = events@;
    let n = events.len();
    for i in 0..n
        invariant
            n == es.len(),
            es == events@,
            xml_events_of(container@) == Some(es),
            root_from(es, 0) == root_from(es, i as int),
    {
        if let XmlEvent::Start { name, tag } = &events[i] {
            if classify_tag(name.as_slice()) == Tag::Rootfile {
                match start_attributes(name, tag) {
                    Some(attributes) => {
                        if let Some(p) = rootfile_path(name.as_slice(), &attributes) {
                            assert(root_from(es, i as int) == Ok::<Seq<u8>, PackageError>(p@));
                            return Ok(p);
                        }
                    },
                    None => {
                        assert(root_from(es, i as int) == Err::<Seq<u8>, PackageError>(PackageError::Xml));
                        return Err(PackageError::Xml);
                    },
                }
            }
        }
    }
    Err(PackageError::MissingRootFile)
}

/// The archive paths of the package's text documents, in declaration order.
pub fn get_text_paths(package: &str, root_file_path: &[u8]) -> (r: Result<Vec<Vec<u8>>, PackageError>)
    ensures
        match r {
            Ok(ps) => package_text_paths(package@, root_file_path@) == Ok::<Seq<Seq<u8>>, PackageError>(paths_view(ps@)),
            Err(e) => package_text_paths(package@, root_file_path@) == Err::<Seq<Seq<u8>>, PackageError>(e),
        },
{
    let dir = root_file_dir(root_file_path);
    let events = match xml_events(package) {
        Some(es) => es,
        None => {
            return Err(PackageError::Xml);
        },
    };
    let ghost es = events@;
    let mut paths: Vec<Vec<u8>> = Vec::new();
    let n = events.len();
    assert(paths_view(paths@) =~= Seq::<Seq<u8>>::empty());
    for i in 0..n
        invariant
            n == es.len(),
            es == events@,
            xml_events_of(package@) == Some(es),
            dir@ == dir_of(root_file_path@),
            paths_from(es, 0, dir@, seq![]) == paths_from(es, i as int, dir@, paths_view(paths@)),
    {
        if let XmlEvent::Start { name, tag } = &events[i] {
            if classify_tag(name.as_slice()) == Tag::Item {
                match start_attributes(name, tag) {
                    Some(attributes) => {
                        if let Some(p) = item_path(dir.as_slice(), name.as_slice(), &attributes) {
                            let ghost before = paths@;
                            paths.push(p);
                            assert(paths_view(paths@) =~= paths_view(before).push(p@));
                        }
                    },
                    None => {
                        assert(paths_from(es, i as int, dir@, paths_view(paths@)) == Err::<Seq<Seq<u8>>, PackageError>(PackageError::Xml));
                        return Err(PackageError::Xml);
                    },
                }
            }
        }
    }
    if paths.len() == 0 {
        Err(PackageError::NoTextItems)
    } else {
        Ok(paths)
    }
}

} // verus!
