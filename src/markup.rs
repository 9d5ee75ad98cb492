//! The markup state machine: structural events in, paragraphs out.
use vstd::prelude::*;
use vstd::slice::slice_subrange;
use vstd::utf8::{decode_utf8, valid_utf8};
use crate::utf16::str_from_utf8;
use crate::xml::{xml_attributes, xml_attributes_of};

verus! {

pub const SPACE: u8 = 0x20;

/// The space-separated tokens of a class attribute, empty ones included.
pub open spec fn tokens(s: Seq<u8>) -> Seq<Seq<u8>>
    decreases s.len(),
{
    if s.len() == 0 {
        seq![Seq::<u8>::empty()]
    } else {
        let t = tokens(s.drop_last());
        if s.last() == SPACE {
            t.push(Seq::<u8>::empty())
        } else {
            t.update(t.len() - 1, t.last().push(s.last()))
        }
    }
}

pub open spec fn is_bold_token(t: Seq<u8>) -> bool {
    t.len() == 4 && t[0] == 98 && t[1] == 111 && t[2] == 108 && t[3] == 100
}

/// A font-size token above a single unit: `font-1` followed by a percentage
/// (`font-110per`) or by more than `em` (`font-1em30`).
pub open spec fn is_large_token(t: Seq<u8>) -> bool {
    &&& !is_bold_token(t)
    &&& t.len() >= 6
    &&& t[0] == 102 && t[1] == 111 && t[2] == 110 && t[3] == 116 && t[4] == 45 && t[5] == 49
    &&& ((t[t.len() - 3] == 112 && t[t.len() - 2] == 101 && t[t.len() - 1] == 114) || t.len() > 8)
}

/// The formatting flags of a class attribute: bit 0 bold, bit 1 large text.
pub open spec fn flags_of(class: Seq<u8>) -> u8 {
    let ts = tokens(class);
    ((if exists|i: int| 0 <= i < ts.len() && is_bold_token(#[trigger] ts[i]) { 1int } else { 0int })
        + (if exists|i: int| 0 <= i < ts.len() && is_large_token(#[trigger] ts[i]) { 2int } else { 0int })) as u8
}

/// Whether `s[start..end]` is the bold token, and whether it is a large-text token.
fn token_kind(s: &[u8], start: usize, end: usize) -> (r: (bool, bool))
    requires
        start <= end <= s@.len(),
    ensures
        r.0 == is_bold_token(s@.subrange(start as int, end as int)),
        r.1 == is_large_token(s@.subrange(start as int, end as int)),
{
    let ghost t = s@.subrange(start as int, end as int);
    let len = end - start;
    let bold = len == 4 && s[start] == 98u8 && s[start + 1] == 111u8 && s[start + 2] == 108u8 && s[start + 3] == 100u8;
    assert(len == 4 ==> (t[0] == s@[start as int] && t[1] == s@[start + 1] && t[2] == s@[start + 2] && t[3] == s@[start + 3]));
    if bold || len < 6 {
        return (bold, false);
    }
    let font = s[start] == 102u8 && s[start + 1] == 111u8 && s[start + 2] == 110u8 && s[start + 3] == 116u8
        && s[start + 4] == 45u8 && s[start + 5] == 49u8;
    assert(t[0] == s@[start as int] && t[1] == s@[start + 1] && t[2] == s@[start + 2]);
    assert(t[3] == s@[start + 3] && t[4] == s@[start + 4] && t[5] == s@[start + 5]);
    let per = s[end - 3] == 112u8 && s[end - 2] == 101u8 && s[end - 1] == 114u8;
    assert(t[t.len() - 3] == s@[end - 3] && t[t.len() - 2] == s@[end - 2] && t[t.len() - 1] == s@[end - 1]);
    (false, font && (per || len > 8))
}

/// The formatting flags that a paragraph's class attribute asks for.
pub fn get_flags(class: &[u8]) -> (flags: u8)
    ensures
        flags == flags_of(class@),
{
    let n = class.len();
    let mut start: usize = 0;
    let mut bold = false;
    let mut large = false;
    let mut i: usize = 0;
    proof {
        assert(class@.take(0) =~= Seq::<u8>::empty());
    }
    while i < n
        invariant
            n == class@.len(),
            start <= i <= n,
            tokens(class@.take(i as int)).len() >= 1,
            tokens(class@.take(i as int)).last() == class@.subrange(start as int, i as int),
            bold == exists|j: int| 0 <= j < tokens(class@.take(i as int)).len() - 1
                && is_bold_token(#[trigger] tokens(class@.take(i as int))[j]),
            large == exists|j: int| 0 <= j < tokens(class@.take(i as int)).len() - 1
                && is_large_token(#[trigger] tokens(class@.take(i as int))[j]),
        decreases n - i,
    {
        let ghost ts = tokens(class@.take(i as int));
        let ghost next = class@.take(i + 1);
        assert(next.drop_last() =~= class@.take(i as int));
        assert(next.last() == class@[i as int]);
        if class[i] == SPACE {
            let (b, l) = token_kind(class, start, i);
            let ghost nts = tokens(next);
            assert(nts == ts.push(Seq::<u8>::empty()));
            assert forall|j: int| 0 <= j < nts.len() - 1 implies #[trigger] nts[j] == ts[j] by {}
            assert(nts[ts.len() - 1] == ts.last());
            assert((bold || b) == exists|j: int| 0 <= j < nts.len() - 1 && is_bold_token(#[trigger] nts[j])) by {
                if bold {
                    let j = choose|j: int| 0 <= j < ts.len() - 1 && is_bold_token(#[trigger] ts[j]);
                    assert(is_bold_token(nts[j]));
                }
                if b {
                    assert(is_bold_token(nts[ts.len() - 1]));
                }
                if exists|j: int| 0 <= j < nts.len() - 1 && is_bold_token(#[trigger] nts[j]) {
                    let j = choose|j: int| 0 <= j < nts.len() - 1 && is_bold_token(#[trigger] nts[j]);
                    if j < ts.len() - 1 {
                        assert(is_bold_token(ts[j]));
                    }
                }
            }
            assert((large || l) == exists|j: int| 0 <= j < nts.len() - 1 && is_large_token(#[trigger] nts[j])) by {
                if large {
                    let j = choose|j: int| 0 <= j < ts.len() - 1 && is_large_token(#[trigger] ts[j]);
                    assert(is_large_token(nts[j]));
                }
                if l {
                    assert(is_large_token(nts[ts.len() - 1]));
                }
                if exists|j: int| 0 <= j < nts.len() - 1 && is_large_token(#[trigger] nts[j]) {
                    let j = choose|j: int| 0 <= j < nts.len() - 1 && is_large_token(#[trigger] nts[j]);
                    if j < ts.len() - 1 {
                        assert(is_large_token(ts[j]));
                    }
                }
            }
            bold = bold || b;
            large = large || l;
            start = i + 1;
            assert(class@.subrange(start as int, i + 1) =~= Seq::<u8>::empty());
        } else {
            let ghost nts = tokens(next);
            assert(nts == ts.update(ts.len() - 1, ts.last().push(class@[i as int])));
            assert(class@.subrange(start as int, i + 1) =~= class@.subrange(start as int, i as int).push(class@[i as int]));
            assert forall|j: int| 0 <= j < nts.len() - 1 implies #[trigger] nts[j] == ts[j] by {}
            assert(bold == exists|j: int| 0 <= j < nts.len() - 1 && is_bold_token(#[trigger] nts[j])) by {
                if bold {
                    let j = choose|j: int| 0 <= j < ts.len() - 1 && is_bold_token(#[trigger] ts[j]);
                    assert(is_bold_token(nts[j]));
                }
            }
            assert(large == exists|j: int| 0 <= j < nts.len() - 1 && is_large_token(#[trigger] nts[j])) by {
                if large {
                    let j = choose|j: int| 0 <= j < ts.len() - 1 && is_large_token(#[trigger] ts[j]);
                    assert(is_large_token(nts[j]));
                }
            }
        }
        i = i + 1;
    }
    let (b, l) = token_kind(class, start, n);
    assert(class@.take(n as int) =~= class@);
    let ghost ts = tokens(class@);
    assert((bold || b) == exists|j: int| 0 <= j < ts.len() && is_bold_token(#[trigger] ts[j])) by {
        if exists|j: int| 0 <= j < ts.len() && is_bold_token(#[trigger] ts[j]) {
            let j = choose|j: int| 0 <= j < ts.len() && is_bold_token(#[trigger] ts[j]);
            if j < ts.len() - 1 {
                assert(is_bold_token(ts[j]));
            }
        }
    }
    assert((large || l) == exists|j: int| 0 <= j < ts.len() && is_large_token(#[trigger] ts[j])) by {
        if exists|j: int| 0 <= j < ts.len() && is_large_token(#[trigger] ts[j]) {
            let j = choose|j: int| 0 <= j < ts.len() && is_large_token(#[trigger] ts[j]);
            if j < ts.len() - 1 {
                assert(is_large_token(ts[j]));
            }
        }
    }
    bold = bold || b;
    large = large || l;
    let flags: u8 = if bold { 1 } else { 0 } + if large { 2 } else { 0 };
    flags
}


/// The elements that the state machine acts on.
#[derive(Debug, Clone, Copy, PartialEq, Eq, Structural)]
pub enum Tag {
    P,
    Ruby,
    Rb,
    Rt,
    Img,
    Image,
    Rootfile,
    Item,
    Other,
}

pub open spec fn tag_of(name: Seq<u8>) -> Tag {
    if name =~= seq![112u8] {
        Tag::P
    } else if name =~= seq![114u8, 117u8, 98u8, 121u8] {
        Tag::Ruby
    } else if name =~= seq![114u8, 98u8] {
        Tag::Rb
    } else if name =~= seq![114u8, 116u8] {
        Tag::Rt
    } else if name =~= seq![105u8, 109u8, 103u8] {
        Tag::Img
    } else if name =~= seq![105u8, 109u8, 97u8, 103u8, 101u8] {
        Tag::Image
    } else if name =~= seq![114u8, 111u8, 111u8, 116u8, 102u8, 105u8, 108u8, 101u8] {
        Tag::Rootfile
    } else if name =~= seq![105u8, 116u8, 101u8, 109u8] {
        Tag::Item
    } else {
        Tag::Other
    }
}

/// Which element a tag name names.
pub fn classify_tag(name: &[u8]) -> (t: Tag)
    ensures
        t == tag_of(name@),
{
    if name.len() == 1 && name[0] == 112u8 {
        Tag::P
    } else if name.len() == 4 && name[0] == 114u8 && name[1] == 117u8 && name[2] == 98u8 && name[3] == 121u8 {
        Tag::Ruby
    } else if name.len() == 2 && name[0] == 114u8 && name[1] == 98u8 {
        Tag::Rb
    } else if name.len() == 2 && name[0] == 114u8 && name[1] == 116u8 {
        Tag::Rt
    } else if name.len() == 3 && name[0] == 105u8 && name[1] == 109u8 && name[2] == 103u8 {
        Tag::Img
    } else if name.len() == 5 && name[0] == 105u8 && name[1] == 109u8 && name[2] == 97u8 && name[3] == 103u8 && name[4] == 101u8 {
        Tag::Image
    } else if name.len() == 8 && name[0] == 114u8 && name[1] == 111u8 && name[2] == 111u8 && name[3] == 116u8 && name[4] == 102u8 && name[5] == 105u8 && name[6] == 108u8 && name[7] == 101u8 {
        Tag::Rootfile
    } else if name.len() == 4 && name[0] == 105u8 && name[1] == 116u8 && name[2] == 101u8 && name[3] == 109u8 {
        Tag::Item
    } else {
        Tag::Other
    }
}

/// The attributes that the state machine reads.
#[derive(Debug, Clone, Copy, PartialEq, Eq, Structural)]
pub enum AttrKey {
    Class,
    Src,
    Href,
    FullPath,
    MediaType,
    Other,
}

pub open spec fn key_of(key: Seq<u8>) -> AttrKey {
    if key =~= seq![99u8, 108u8, 97u8, 115u8, 115u8] {
        AttrKey::Class
    } else if key =~= seq![115u8, 114u8, 99u8] {
        AttrKey::Src
    } else if key =~= seq![104u8, 114u8, 101u8, 102u8] {
        AttrKey::Href
    } else if key =~= seq![102u8, 117u8, 108u8, 108u8, 45u8, 112u8, 97u8, 116u8, 104u8] {
        AttrKey::FullPath
    } else if key =~= seq![109u8, 101u8, 100u8, 105u8, 97u8, 45u8, 116u8, 121u8, 112u8, 101u8] {
        AttrKey::MediaType
    } else {
        AttrKey::Other
    }
}

/// Which attribute a key names.
pub fn classify_key(key: &[u8]) -> (k: AttrKey)
    ensures
        k == key_of(key@),
{
    if key.len() == 5 && key[0] == 99u8 && key[1] == 108u8 && key[2] == 97u8 && key[3] == 115u8 && key[4] == 115u8 {
        AttrKey::Class
    } else if key.len() == 3 && key[0] == 115u8 && key[1] == 114u8 && key[2] == 99u8 {
        AttrKey::Src
    } else if key.len() == 4 && key[0] == 104u8 && key[1] == 114u8 && key[2] == 101u8 && key[3] == 102u8 {
        AttrKey::Href
    } else if key.len() == 9 && key[0] == 102u8 && key[1] == 117u8 && key[2] == 108u8 && key[3] == 108u8 && key[4] == 45u8 && key[5] == 112u8 && key[6] == 97u8 && key[7] == 116u8 && key[8] == 104u8 {
        AttrKey::FullPath
    } else if key.len() == 10 && key[0] == 109u8 && key[1] == 101u8 && key[2] == 100u8 && key[3] == 105u8 && key[4] == 97u8 && key[5] == 45u8 && key[6] == 116u8 && key[7] == 121u8 && key[8] == 112u8 && key[9] == 101u8 {
        AttrKey::MediaType
    } else {
        AttrKey::Other
    }
}

/// The class value that marks an image as an external glyph.
pub open spec fn is_gaiji_class(v: Seq<u8>) -> bool {
    v =~= seq![103u8, 97u8, 105u8, 106u8, 105u8]
}

fn gaiji_class(v: &[u8]) -> (r: bool)
    ensures
        r == is_gaiji_class(v@),
{
    v.len() == 5 && v[0] == 103u8 && v[1] == 97u8 && v[2] == 105u8 && v[3] == 106u8 && v[4] == 105u8
}


/// One attribute of a start tag, with its raw (unescaped) value.
#[derive(Debug, Clone, PartialEq, Eq)]
pub struct XmlAttribute {
    /// The qualified key, prefix included.
    pub key: Vec<u8>,
    pub value: Vec<u8>,
}

/// A structural event of a markup document.
#[derive(Debug, Clone, PartialEq, Eq)]
pub enum XmlEvent {
    /// An element opens (an empty element opens and then closes); `tag` is the
    /// start tag's content, its name first.
    Start { name: Vec<u8>, tag: Vec<u8> },
    /// An element closes; its qualified name.
    End { name: Vec<u8> },
    /// Character data, as it stands in the document.
    Text { raw: Vec<u8> },
    /// A CDATA section.
    CData,
    /// Anything else: comments, declarations, processing instructions.
    Other,
}

pub const COLON: u8 = 0x3a;

/// `i` is the position of the first `:` of a qualified name.
pub open spec fn is_first_colon(n: Seq<u8>, i: int) -> bool {
    &&& 0 <= i < n.len()
    &&& n[i] == COLON
    &&& forall|j: int| 0 <= j < i ==> n[j] != COLON
}

/// A qualified name without its namespace prefix: everything after its first `:`.
pub open spec fn local_of(n: Seq<u8>) -> Seq<u8> {
    if exists|i: int| is_first_colon(n, i) {
        n.subrange((choose|i: int| is_first_colon(n, i)) + 1, n.len() as int)
    } else {
        n
    }
}

/// Where the local part of a qualified name begins.
pub fn local_start(n: &[u8]) -> (start: usize)
    ensures
        start <= n@.len(),
        n@.subrange(start as int, n@.len() as int) == local_of(n@),
{
    let len = n.len();
    for i in 0..len
        invariant
            len == n@.len(),
            forall|j: int| 0 <= j < i ==> n@[j] != COLON,
    {
        if n[i] == COLON {
            proof {
                assert(is_first_colon(n@, i as int));
                let c = choose|c: int| is_first_colon(n@, c);
                if c < i {
                    assert(n@[c] != COLON);
                } else if i < c {
                    assert(n@[i as int] != COLON);
                }
            }
            return i + 1;
        }
    }
    assert(n@.subrange(len as int, len as int) =~= Seq::<u8>::empty());
    0
}

/// The attributes of a start tag, read by quick-xml from its content past the
/// name; `None` when they cannot be read.
pub open spec fn tag_attributes(name: Seq<u8>, tag: Seq<u8>) -> Option<Seq<XmlAttribute>> {
    if valid_utf8(tag) && name.len() <= tag.len() {
        xml_attributes_of(decode_utf8(tag), name.len())
    } else {
        None
    }
}

/// Reads the attributes of a start tag.
pub fn start_attributes(name: &Vec<u8>, tag: &Vec<u8>) -> (r: Option<Vec<XmlAttribute>>)
    ensures
        match r {
            Some(v) => tag_attributes(name@, tag@) == Some(v@),
            None => tag_attributes(name@, tag@) is None,
        },
{
    if name.len() > tag.len() {
        return None;
    }
    match str_from_utf8(tag.as_slice()) {
        Some(s) => {
            proof {
                vstd::utf8::decode_utf8_encode_utf8(tag@);
            }
            xml_attributes(s, name.len())
        },
        None => None,
    }
}

/// The key of an attribute: qualified, or without its prefix.
pub open spec fn attr_key(a: XmlAttribute, local: bool) -> AttrKey {
    if local {
        key_of(local_of(a.key@))
    } else {
        key_of(a.key@)
    }
}

/// The value of the first attribute with key `k`.
pub open spec fn first_value(attrs: Seq<XmlAttribute>, k: AttrKey, local: bool) -> Option<Seq<u8>>
    decreases attrs.len(),
{
    if attrs.len() == 0 {
        None
    } else {
        match first_value(attrs.drop_last(), k, local) {
            Some(v) => Some(v),
            None => if attr_key(attrs.last(), local) == k {
                Some(attrs.last().value@)
            } else {
                None
            },
        }
    }
}

/// The value of the last attribute with key `k`; empty when there is none.
pub open spec fn last_value(attrs: Seq<XmlAttribute>, k: AttrKey) -> Seq<u8>
    decreases attrs.len(),
{
    if attrs.len() == 0 {
        Seq::<u8>::empty()
    } else if attr_key(attrs.last(), false) == k {
        attrs.last().value@
    } else {
        last_value(attrs.drop_last(), k)
    }
}

fn copy_bytes(v: &Vec<u8>) -> (r: Vec<u8>)
    ensures
        r@ == v@,
{
    let r = v.clone();
    assert(r@ =~= v@);
    r
}

/// The value of the first attribute whose key (qualified, or without its prefix
/// where `local` holds) is `key`.
pub fn get_attr(attributes: &Vec<XmlAttribute>, key: AttrKey, local: bool) -> (r: Option<Vec<u8>>)
    ensures
        match r {
            Some(v) => first_value(attributes@, key, local) == Some(v@),
            None => first_value(attributes@, key, local) is None,
        },
{
    let n = attributes.len();
    for i in 0..n
        invariant
            n == attributes@.len(),
            first_value(attributes@.take(i as int), key, local) is None,
    {
        assert(attributes@.take(i + 1).drop_last() =~= attributes@.take(i as int));
        let a = &attributes[i];
        let k = if local {
            let start = local_start(a.key.as_slice());
            classify_key(slice_subrange(a.key.as_slice(), start, a.key.len()))
        } else {
            classify_key(a.key.as_slice())
        };
        if k == key {
            proof { lemma_first_value_found(attributes@, key, local, i as int); }
            return Some(copy_bytes(&a.value));
        }
    }
    assert(attributes@.take(n as int) =~= attributes@);
    None
}

proof fn lemma_first_value_found(attrs: Seq<XmlAttribute>, k: AttrKey, local: bool, i: int)
    requires
        0 <= i < attrs.len(),
        first_value(attrs.take(i), k, local) is None,
        attr_key(attrs[i], local) == k,
    ensures
        first_value(attrs, k, local) == Some(attrs[i].value@),
    decreases attrs.len(),
{
    assert(attrs.take(i + 1).drop_last() =~= attrs.take(i));
    if i + 1 < attrs.len() {
        assert(attrs.drop_last().take(i) =~= attrs.take(i));
        lemma_first_value_found(attrs.drop_last(), k, local, i);
    } else {
        assert(attrs.take(i + 1) =~= attrs);
    }
}

/// What an image element refers to.
#[derive(Debug, Clone, PartialEq, Eq)]
pub enum ImgSrc {
    /// An external glyph, to be replaced by text.
    Gaiji(Vec<u8>),
    /// An illustration of the image catalog.
    Illustration(Vec<u8>),
    /// No source at all.
    Missing,
}

/// Reads an image element's source and class: a non-empty source refers to an
/// external glyph when the class is `gaiji`, else to an illustration.
pub fn parse_img_src(attributes: &Vec<XmlAttribute>) -> (r: ImgSrc)
    ensures
        match r {
            ImgSrc::Gaiji(v) => v@ == last_value(attributes@, AttrKey::Src) && v@.len() > 0
                && is_gaiji_class(last_value(attributes@, AttrKey::Class)),
            ImgSrc::Illustration(v) => v@ == last_value(attributes@, AttrKey::Src) && v@.len() > 0
                && !is_gaiji_class(last_value(attributes@, AttrKey::Class)),
            ImgSrc::Missing => last_value(attributes@, AttrKey::Src).len() == 0,
        },
{
    let n = attributes.len();
    let mut src: Option<usize> = None;
    let mut class: Option<usize> = None;
    for i in 0..n
        invariant
            n == attributes@.len(),
            match src {
                Some(j) => j < n && last_value(attributes@.take(i as int), AttrKey::Src) == attributes@[j as int].value@,
                None => last_value(attributes@.take(i as int), AttrKey::Src).len() == 0,
            },
            match class {
                Some(j) => j < n && last_value(attributes@.take(i as int), AttrKey::Class) == attributes@[j as int].value@,
                None => last_value(attributes@.take(i as int), AttrKey::Class).len() == 0,
            },
    {
        assert(attributes@.take(i + 1).drop_last() =~= attributes@.take(i as int));
        assert(attributes@.take(i + 1).last() == attributes@[i as int]);
        let k = classify_key(&attributes[i].key);
        if k == AttrKey::Src {
            src = Some(i);
        } else if k == AttrKey::Class {
            class = Some(i);
        }
    }
    assert(attributes@.take(n as int) =~= attributes@);
    let is_gaiji = match class {
        Some(j) => gaiji_class(&attributes[j].value),
        None => false,
    };
    match src {
        Some(j) => {
            if attributes[j].value.len() == 0 {
                ImgSrc::Missing
            } else if is_gaiji {
                ImgSrc::Gaiji(copy_bytes(&attributes[j].value))
            } else {
                ImgSrc::Illustration(copy_bytes(&attributes[j].value))
            }
        },
        None => ImgSrc::Missing,
    }
}


/// The media type of a text document.
pub open spec fn is_xhtml_type(v: Seq<u8>) -> bool {
    v =~= seq![97u8, 112u8, 112u8, 108u8, 105u8, 99u8, 97u8, 116u8, 105u8, 111u8, 110u8, 47u8, 120u8, 104u8, 116u8, 109u8, 108u8, 43u8, 120u8, 109u8, 108u8]
}

pub fn xhtml_type(v: &[u8]) -> (r: bool)
    ensures
        r == is_xhtml_type(v@),
{
    v.len() == 21 && v[0] == 97u8 && v[1] == 112u8 && v[2] == 112u8 && v[3] == 108u8 && v[4] == 105u8 && v[5] == 99u8 && v[6] == 97u8 && v[7] == 116u8 && v[8] == 105u8 && v[9] == 111u8 && v[10] == 110u8 && v[11] == 47u8 && v[12] == 120u8 && v[13] == 104u8 && v[14] == 116u8 && v[15] == 109u8 && v[16] == 108u8 && v[17] == 43u8 && v[18] == 120u8 && v[19] == 109u8 && v[20] == 108u8
}

} // verus!
