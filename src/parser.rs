//! The paragraph state machine that runs over a document's structural events.
use vstd::prelude::*;
use crate::catalog::{Gaiji, ImageFiles, first_match, last_segment};
use crate::markup::{
    AttrKey, ImgSrc, Tag, XmlAttribute, classify_tag, first_value, flags_of, get_attr, get_flags,
    is_gaiji_class, last_value, parse_img_src, tag_of,
};
use crate::markup::{XmlEvent, local_of, local_start, start_attributes, tag_attributes};
use crate::utf16::{encode_utf16, lemma_utf16_injective, str_from_utf8, utf16_of};
use crate::xml::{xml_events, xml_events_of};
use vstd::slice::slice_subrange;
use vstd::utf8::{decode_utf8, encode_utf8, encode_utf8_decode_utf8, valid_utf8};
use crate::model::{Content, Paragraph, Ruby, RubyView, content_wf, paragraphs_view, ruby_view, spans_within};

verus! {

/// Why a document cannot be turned into paragraphs.
#[derive(Debug, Clone, Copy, PartialEq, Eq, Structural)]
pub enum ParseError {
    /// The tokenizer refused the document.
    Xml,
    /// The document holds a CDATA section.
    CData,
    /// Character data that is not UTF-8.
    InvalidText,
    /// An external-glyph reference with no replacement in the table.
    UnknownGlyph,
    /// An illustration reference that names no image of the catalog.
    UnknownImage,
    /// An image element without a source.
    MissingImageSource,
    /// A reading whose position or length does not fit its span fields.
    RubyOutOfRange,
    /// The document ends inside an element whose text was to be a reading.
    UnclosedReading,
}

/// The paragraph being read.
pub enum ParagraphState {
    Content { flags: u8, data: Vec<u16>, ruby: Vec<Ruby> },
    Image { image_idx: u8 },
    Closed,
}

/// Where the text under the next reading starts, within a ruby group.
pub enum RubyState {
    Reading { start_index: usize },
    Idle,
}

/// The state of a scan over one document.
pub struct MarkupParser {
    pub paragraph: ParagraphState,
    pub ruby: RubyState,
    /// The paragraphs completed so far.
    pub paragraphs: Vec<Paragraph>,
}

pub enum OpenView {
    Text { flags: u8, data: Seq<u16>, ruby: Seq<RubyView> },
    Image { index: u8 },
    Closed,
}

pub struct ParserView {
    pub open: OpenView,
    pub reading_from: Option<int>,
    pub done: Seq<Content>,
}

impl View for MarkupParser {
    type V = ParserView;

    open spec fn view(&self) -> ParserView {
        ParserView {
            open: match self.paragraph {
                ParagraphState::Content { flags, data, ruby } => OpenView::Text {
                    flags,
                    data: data@,
                    ruby: ruby_view(ruby@),
                },
                ParagraphState::Image { image_idx } => OpenView::Image { index: image_idx },
                ParagraphState::Closed => OpenView::Closed,
            },
            reading_from: match self.ruby {
                RubyState::Reading { start_index } => Some(start_index as int),
                RubyState::Idle => None,
            },
            done: paragraphs_view(self.paragraphs@),
        }
    }
}

/// Open text carries spans inside its text, and every completed paragraph does too.
pub open spec fn parser_wf(v: ParserView) -> bool {
    &&& match v.open {
        OpenView::Text { data, ruby, .. } => spans_within(data, ruby),
        _ => true,
    }
    &&& forall|i: int| 0 <= i < v.done.len() ==> content_wf(#[trigger] v.done[i])
}

pub open spec fn after_open_paragraph(v: ParserView, flags: u8) -> ParserView {
    ParserView { open: OpenView::Text { flags, data: seq![], ruby: seq![] }, ..v }
}

pub open spec fn after_open_ruby(v: ParserView) -> ParserView {
    match v.open {
        OpenView::Text { data, .. } => ParserView { reading_from: Some(data.len() as int), ..v },
        _ => v,
    }
}

pub open spec fn after_text(v: ParserView, units: Seq<u16>) -> ParserView {
    match v.open {
        OpenView::Text { flags, data, ruby } => ParserView {
            open: OpenView::Text { flags, data: data + units, ruby },
            ..v
        },
        _ => v,
    }
}

/// A reading covers the text added since the group opened or since the previous
/// reading. `None` where its position or length does not fit the span fields.
pub open spec fn after_reading(v: ParserView, units: Seq<u16>) -> Option<ParserView> {
    match (v.reading_from, v.open) {
        (Some(s), OpenView::Text { flags, data, ruby }) => {
            if s <= data.len() && s <= u16::MAX && data.len() - s <= u8::MAX {
                Some(ParserView {
                    open: OpenView::Text {
                        flags,
                        data,
                        ruby: ruby.push(RubyView { start_offset: s as u16, length: (data.len() - s) as u8, reading: units }),
                    },
                    reading_from: Some(data.len() as int),
                    done: v.done,
                })
            } else {
                None
            }
        },
        _ => Some(v),
    }
}

pub open spec fn after_illustration(v: ParserView, index: u8) -> ParserView {
    ParserView { open: OpenView::Image { index }, ..v }
}

/// The completed paragraphs, with the open one, if any, completed too.
pub open spec fn flushed(v: ParserView) -> Seq<Content> {
    match v.open {
        OpenView::Text { flags, data, ruby } => v.done.push(Content::Text { text: data, ruby, flags }),
        OpenView::Image { index } => v.done.push(Content::Image { index }),
        OpenView::Closed => v.done,
    }
}

pub open spec fn after_close_paragraph(v: ParserView) -> ParserView {
    ParserView { open: OpenView::Closed, reading_from: v.reading_from, done: flushed(v) }
}

pub open spec fn after_close_ruby(v: ParserView) -> ParserView {
    ParserView { reading_from: None, ..v }
}

impl MarkupParser {
    /// Nothing read yet.
    pub fn new() -> (r: MarkupParser)
        ensures
            r@ == (ParserView { open: OpenView::Closed, reading_from: None, done: seq![] }),
            parser_wf(r@),
    {
        let r = MarkupParser { paragraph: ParagraphState::Closed, ruby: RubyState::Idle, paragraphs: Vec::new() };
        assert(r@.done =~= Seq::<Content>::empty());
        r
    }

    /// A paragraph opens with the given flags, replacing whatever was open.
    pub fn open_paragraph(&mut self, flags: u8)
        requires
            parser_wf(old(self)@),
        ensures
            final(self)@ == after_open_paragraph(old(self)@, flags),
            parser_wf(final(self)@),
    {
        let ruby: Vec<Ruby> = Vec::new();
        assert(ruby_view(ruby@) =~= Seq::<RubyView>::empty());
        self.paragraph = ParagraphState::Content { flags, data: Vec::new(), ruby };
        assert(self@.open == after_open_paragraph(old(self)@, flags).open);
    }

    /// A ruby group opens: its first reading covers the text from here on.
    pub fn open_ruby(&mut self)
        requires
            parser_wf(old(self)@),
        ensures
            final(self)@ == after_open_ruby(old(self)@),
            parser_wf(final(self)@),
    {
        if let ParagraphState::Content { data, .. } = &self.paragraph {
            self.ruby = RubyState::Reading { start_index: data.len() };
        }
    }

    /// Text joins the open text paragraph; elsewhere it is dropped.
    pub fn add_text(&mut self, units: Vec<u16>)
        requires
            parser_wf(old(self)@),
        ensures
            final(self)@ == after_text(old(self)@, units@),
            parser_wf(final(self)@),
    {
        let ghost u0 = units@;
        let mut units = units;
        let mut open = ParagraphState::Closed;
        std::mem::swap(&mut open, &mut self.paragraph);
        match open {
            ParagraphState::Content { flags, mut data, ruby } => {
                let ghost d0 = data@;
                data.append(&mut units);
                self.paragraph = ParagraphState::Content { flags, data, ruby };
                assert(data@ == d0 + u0);
            },
            other => {
                self.paragraph = other;
            },
        }
    }

    /// A reading of the open ruby group: a span over the text added since the
    /// group opened or since the previous reading.
    pub fn add_reading(&mut self, reading: Vec<u16>) -> (r: Result<(), ParseError>)
        requires
            parser_wf(old(self)@),
        ensures
            match r {
                Ok(()) => after_reading(old(self)@, reading@) == Some(final(self)@),
                Err(e) => after_reading(old(self)@, reading@) is None && e == ParseError::RubyOutOfRange,
            },
            parser_wf(final(self)@),
    {
        let start_index = match self.ruby {
            RubyState::Reading { start_index } => start_index,
            RubyState::Idle => {
                return Ok(());
            },
        };
        let mut open = ParagraphState::Closed;
        std::mem::swap(&mut open, &mut self.paragraph);
        match open {
            ParagraphState::Content { flags, data, mut ruby } => {
                let len = data.len();
                if start_index > len || start_index > u16::MAX as usize || len - start_index > u8::MAX as usize {
                    self.paragraph = ParagraphState::Content { flags, data, ruby };
                    return Err(ParseError::RubyOutOfRange);
                }
                let span = Ruby { start_offset: start_index as u16, length: (len - start_index) as u8, reading };
                let ghost r0 = ruby@;
                ruby.push(span);
                assert(ruby_view(ruby@) =~= ruby_view(r0).push(span@));
                self.paragraph = ParagraphState::Content { flags, data, ruby };
                self.ruby = RubyState::Reading { start_index: len };
                Ok(())
            },
            other => {
                self.paragraph = other;
                Ok(())
            },
        }
    }

    /// An illustration takes the place of the open paragraph.
    pub fn set_image(&mut self, index: u8)
        requires
            parser_wf(old(self)@),
        ensures
            final(self)@ == after_illustration(old(self)@, index),
            parser_wf(final(self)@),
    {
        self.paragraph = ParagraphState::Image { image_idx: index };
    }

    /// Completes the open paragraph, if any.
    fn flush(&mut self)
        requires
            parser_wf(old(self)@),
        ensures
            final(self)@.done == flushed(old(self)@),
            final(self)@.reading_from == old(self)@.reading_from,
            final(self)@.open == OpenView::Closed,
            parser_wf(final(self)@),
    {
        let mut open = ParagraphState::Closed;
        std::mem::swap(&mut open, &mut self.paragraph);
        let ghost ps = self.paragraphs@;
        match open {
            ParagraphState::Content { flags, data, ruby } => {
                let p = Paragraph::Text { text: data, ruby, flags };
                self.paragraphs.push(p);
                assert(paragraphs_view(self.paragraphs@) =~= paragraphs_view(ps).push(p@));
            },
            ParagraphState::Image { image_idx } => {
                let p = Paragraph::Image { index: image_idx };
                self.paragraphs.push(p);
                assert(paragraphs_view(self.paragraphs@) =~= paragraphs_view(ps).push(p@));
            },
            ParagraphState::Closed => {},
        }
    }

    /// The open paragraph is complete.
    pub fn close_paragraph(&mut self)
        requires
            parser_wf(old(self)@),
        ensures
            final(self)@ == after_close_paragraph(old(self)@),
            parser_wf(final(self)@),
    {
        self.flush();
    }

    /// The ruby group closes: text after it gets no reading.
    pub fn close_ruby(&mut self)
        requires
            parser_wf(old(self)@),
        ensures
            final(self)@ == after_close_ruby(old(self)@),
            parser_wf(final(self)@),
    {
        self.ruby = RubyState::Idle;
    }

    /// The paragraphs of the document: a paragraph still open at its end is complete too.
    pub fn finish(self) -> (r: Vec<Paragraph>)
        requires
            parser_wf(self@),
        ensures
            paragraphs_view(r@) == flushed(self@),
            forall|i: int| 0 <= i < r@.len() ==> content_wf(#[trigger] r@[i]@),
    {
        let mut s = self;
        s.flush();
        assert forall|i: int| 0 <= i < s.paragraphs@.len() implies content_wf(#[trigger] s.paragraphs@[i]@) by {
            assert(paragraphs_view(s.paragraphs@)[i] == s.paragraphs@[i]@);
        }
        s.paragraphs
    }
}


/// The flags of a paragraph: from its first class attribute, none without one.
pub open spec fn class_flags(attrs: Seq<XmlAttribute>) -> u8 {
    match first_value(attrs, AttrKey::Class, false) {
        Some(c) => flags_of(c),
        None => 0,
    }
}

/// The catalog index of the image that a reference names, if any.
pub open spec fn image_of(images: ImageFiles, src: Seq<u8>) -> Option<u8> {
    if exists|k: int| first_match(images.names@, last_segment(src), k) {
        Some((choose|k: int| first_match(images.names@, last_segment(src), k)) as u8)
    } else {
        None
    }
}

/// The replacement text of the glyph that a reference names, if it has a non-empty one.
pub open spec fn glyph_of(gaiji: Gaiji, src: Seq<u8>) -> Option<Seq<u16>> {
    if exists|k: int| first_match(gaiji.names@, last_segment(src), k) {
        let k = choose|k: int| first_match(gaiji.names@, last_segment(src), k);
        if gaiji.replacements@[k]@.len() > 0 {
            Some(gaiji.replacements@[k]@)
        } else {
            None
        }
    } else {
        None
    }
}

/// What an element's start does: the next state, and whether the text of a
/// reading is to be read now.
pub open spec fn after_start(
    v: ParserView,
    name: Seq<u8>,
    attrs: Seq<XmlAttribute>,
    images: ImageFiles,
    gaiji: Gaiji,
) -> Result<(ParserView, bool), ParseError> {
    match tag_of(name) {
        Tag::P => Ok((after_open_paragraph(v, class_flags(attrs)), false)),
        Tag::Ruby | Tag::Rb => Ok((after_open_ruby(v), false)),
        Tag::Rt => Ok((v, v.reading_from is Some)),
        Tag::Img => {
            let src = last_value(attrs, AttrKey::Src);
            if src.len() == 0 {
                Err(ParseError::MissingImageSource)
            } else if is_gaiji_class(last_value(attrs, AttrKey::Class)) {
                match glyph_of(gaiji, src) {
                    Some(t) => Ok((after_text(v, t), false)),
                    None => Err(ParseError::UnknownGlyph),
                }
            } else {
                match image_of(images, src) {
                    Some(k) => Ok((after_illustration(v, k), false)),
                    None => Err(ParseError::UnknownImage),
                }
            }
        },
        Tag::Image => match first_value(attrs, AttrKey::Href, true) {
            Some(href) => match image_of(images, href) {
                Some(k) => Ok((after_illustration(v, k), false)),
                None => Err(ParseError::UnknownImage),
            },
            None => Err(ParseError::UnknownImage),
        },
        Tag::Rootfile | Tag::Item | Tag::Other => Ok((v, false)),
    }
}

/// What an element's end does.
pub open spec fn after_end(v: ParserView, local_name: Seq<u8>) -> ParserView {
    match tag_of(local_name) {
        Tag::P => after_close_paragraph(v),
        Tag::Ruby => after_close_ruby(v),
        _ => v,
    }
}

proof fn lemma_first_match_unique(names: Seq<Vec<u8>>, key: Seq<u8>, a: int, b: int)
    requires
        first_match(names, key, a),
        first_match(names, key, b),
    ensures
        a == b,
{
    if a < b {
        assert(names[a]@ != key);
    } else if b < a {
        assert(names[b]@ != key);
    }
}

impl MarkupParser {
    /// An element starts. `Ok(true)` asks for the text of a reading, to be handed
    /// to `add_reading`.
    pub fn start_element(
        &mut self,
        name: &[u8],
        attributes: &Vec<XmlAttribute>,
        image_files: &ImageFiles,
        gaiji: &Gaiji,
    ) -> (r: Result<bool, ParseError>)
        requires
            parser_wf(old(self)@),
            image_files.wf(),
            gaiji.wf(),
        ensures
            parser_wf(final(self)@),
            match r {
                Ok(b) => after_start(old(self)@, name@, attributes@, *image_files, *gaiji) == Ok::<(ParserView, bool), ParseError>((final(self)@, b)),
                Err(e) => after_start(old(self)@, name@, attributes@, *image_files, *gaiji) == Err::<(ParserView, bool), ParseError>(e),
            },
    {
        match classify_tag(name) {
            Tag::P => {
                let flags = match get_attr(attributes, AttrKey::Class, false) {
                    Some(class) => get_flags(class.as_slice()),
                    None => 0,
                };
                self.open_paragraph(flags);
                Ok(false)
            },
            Tag::Ruby | Tag::Rb => {
                self.open_ruby();
                Ok(false)
            },
            Tag::Rt => Ok(match self.ruby {
                RubyState::Reading { .. } => true,
                RubyState::Idle => false,
            }),
            Tag::Img => match parse_img_src(attributes) {
                ImgSrc::Gaiji(src) => match gaiji.mapped(src.as_slice()) {
                    Some(units) => {
                        proof {
                            let k = choose|k: int| first_match(gaiji.names@, last_segment(src@), k) && *units == gaiji.replacements@[k];
                            let c = choose|k: int| first_match(gaiji.names@, last_segment(src@), k);
                            lemma_first_match_unique(gaiji.names@, last_segment(src@), k, c);
                        }
                        if units.len() == 0 {
                            return Err(ParseError::UnknownGlyph);
                        }
                        let copy = units.clone();
                        assert(copy@ =~= units@);
                        self.add_text(copy);
                        Ok(false)
                    },
                    None => Err(ParseError::UnknownGlyph),
                },
                ImgSrc::Illustration(src) => match image_files.index_of(src.as_slice()) {
                    Some(k) => {
                        proof {
                            let c = choose|j: int| first_match(image_files.names@, last_segment(src@), j);
                            lemma_first_match_unique(image_files.names@, last_segment(src@), k as int, c);
                        }
                        self.set_image(k);
                        Ok(false)
                    },
                    None => Err(ParseError::UnknownImage),
                },
                ImgSrc::Missing => Err(ParseError::MissingImageSource),
            },
            Tag::Image => match get_attr(attributes, AttrKey::Href, true) {
                Some(href) => match image_files.index_of(href.as_slice()) {
                    Some(k) => {
                        proof {
                            let c = choose|j: int| first_match(image_files.names@, last_segment(href@), j);
                            lemma_first_match_unique(image_files.names@, last_segment(href@), k as int, c);
                        }
                        self.set_image(k);
                        Ok(false)
                    },
                    None => Err(ParseError::UnknownImage),
                },
                None => Err(ParseError::UnknownImage),
            },
            Tag::Rootfile | Tag::Item | Tag::Other => Ok(false),
        }
    }

    /// An element ends: a paragraph completes, a ruby group closes.
    pub fn end_element(&mut self, local_name: &[u8])
        requires
            parser_wf(old(self)@),
        ensures
            final(self)@ == after_end(old(self)@, local_name@),
            parser_wf(final(self)@),
    {
        match classify_tag(local_name) {
            Tag::P => self.close_paragraph(),
            Tag::Ruby => self.close_ruby(),
            _ => {},
        }
    }
}


/// Whether the state machine reads an element's attributes.
pub open spec fn needs_attributes(t: Tag) -> bool {
    t == Tag::P || t == Tag::Img || t == Tag::Image
}

/// What a start tag does, its attributes read where they matter.
pub open spec fn start_step(v: ParserView, name: Seq<u8>, tag: Seq<u8>, images: ImageFiles, gaiji: Gaiji) -> Result<(ParserView, bool), ParseError> {
    if needs_attributes(tag_of(name)) {
        match tag_attributes(name, tag) {
            Some(attrs) => after_start(v, name, attrs, images, gaiji),
            None => Err(ParseError::Xml),
        }
    } else {
        after_start(v, name, seq![], images, gaiji)
    }
}

/// The state machine, and the reading being gathered if one is: how many
/// same-named elements are open inside it, its text so far, and its element's name.
pub struct Scan {
    pub view: ParserView,
    pub reading: Option<(int, Seq<u8>, Seq<u8>)>,
}

/// One event through the scan. Inside a reading element, character data joins
/// the reading until the element's end; other events there are passed over.
pub open spec fn scan_step(s: Scan, e: XmlEvent, images: ImageFiles, gaiji: Gaiji) -> Result<Scan, ParseError> {
    match s.reading {
        Some((depth, text, rname)) => match e {
            XmlEvent::Start { name, .. } => if name@ == rname {
                Ok(Scan { view: s.view, reading: Some((depth + 1, text, rname)) })
            } else {
                Ok(s)
            },
            XmlEvent::End { name } => if name@ != rname {
                Ok(s)
            } else if depth > 0 {
                Ok(Scan { view: s.view, reading: Some((depth - 1, text, rname)) })
            } else if !valid_utf8(text) {
                Err(ParseError::InvalidText)
            } else {
                match after_reading(s.view, utf16_of(decode_utf8(text))) {
                    Some(w) => Ok(Scan { view: w, reading: None }),
                    None => Err(ParseError::RubyOutOfRange),
                }
            },
            XmlEvent::Text { raw } => Ok(Scan { view: s.view, reading: Some((depth, text + raw@, rname)) }),
            _ => Ok(s),
        },
        None => match e {
            XmlEvent::Start { name, tag } => match start_step(s.view, name@, tag@, images, gaiji) {
                Ok((w, wants)) => Ok(Scan { view: w, reading: if wants { Some((0, seq![], name@)) } else { None } }),
                Err(x) => Err(x),
            },
            XmlEvent::End { name } => Ok(Scan { view: after_end(s.view, local_of(name@)), reading: None }),
            XmlEvent::Text { raw } => if valid_utf8(raw@) {
                Ok(Scan { view: after_text(s.view, utf16_of(decode_utf8(raw@))), reading: None })
            } else {
                Err(ParseError::InvalidText)
            },
            XmlEvent::CData => Err(ParseError::CData),
            XmlEvent::Other => Ok(s),
        },
    }
}

/// The scan after the first `n` events; the first refused event decides the error.
pub open spec fn scan_events(es: Seq<XmlEvent>, n: int, images: ImageFiles, gaiji: Gaiji) -> Result<Scan, ParseError>
    decreases n,
{
    if n <= 0 {
        Ok(Scan { view: initial_view(), reading: None })
    } else {
        match scan_events(es, n - 1, images, gaiji) {
            Ok(s) => scan_step(s, es[n - 1], images, gaiji),
            Err(e) => Err(e),
        }
    }
}

/// The paragraphs of a document's events: a paragraph still open at the end is
/// complete too.
pub open spec fn events_paragraphs(es: Seq<XmlEvent>, images: ImageFiles, gaiji: Gaiji) -> Result<Seq<Content>, ParseError> {
    match scan_events(es, es.len() as int, images, gaiji) {
        Ok(s) => if s.reading is Some {
            Err(ParseError::UnclosedReading)
        } else {
            Ok(flushed(s.view))
        },
        Err(e) => Err(e),
    }
}

/// The paragraphs of a document; `Xml` when the tokenizer refuses it.
pub open spec fn document_paragraphs(content: Seq<char>, images: ImageFiles, gaiji: Gaiji) -> Result<Seq<Content>, ParseError> {
    match xml_events_of(content) {
        Some(es) => events_paragraphs(es, images, gaiji),
        None => Err(ParseError::Xml),
    }
}

pub open spec fn reading_view(r: Option<(usize, Vec<u8>, Vec<u8>)>) -> Option<(int, Seq<u8>, Seq<u8>)> {
    match r {
        Some((d, t, n)) => Some((d as int, t@, n@)),
        None => None,
    }
}

/// Whether two byte strings are equal.
fn bytes_equal(a: &[u8], b: &[u8]) -> (r: bool)
    ensures
        r == (a@ == b@),
{
    if a.len() != b.len() {
        return false;
    }
    let n = a.len();
    for i in 0..n
        invariant
            n == a@.len(),
            n == b@.len(),
            forall|j: int| 0 <= j < i ==> a@[j] == b@[j],
    {
        if a[i] != b[i] {
            return false;
        }
    }
    assert(a@ =~= b@);
    true
}

proof fn lemma_scan_error_stays(es: Seq<XmlEvent>, k: int, images: ImageFiles, gaiji: Gaiji, e: ParseError)
    requires
        0 <= k <= es.len(),
        scan_events(es, k, images, gaiji) == Err::<Scan, ParseError>(e),
    ensures
        events_paragraphs(es, images, gaiji) == Err::<Seq<Content>, ParseError>(e),
    decreases es.len() - k,
{
    if k < es.len() {
        lemma_scan_error_stays(es, k + 1, images, gaiji, e);
    }
}

/// The paragraphs that the state machine makes of a document's events.
pub fn parse_events(events: &Vec<XmlEvent>, image_files: &ImageFiles, gaiji: &Gaiji) -> (r: Result<Vec<Paragraph>, ParseError>)
    requires
        image_files.wf(),
        gaiji.wf(),
    ensures
        match r {
            Ok(ps) => events_paragraphs(events@, *image_files, *gaiji) == Ok::<Seq<Content>, ParseError>(paragraphs_view(ps@)),
            Err(e) => events_paragraphs(events@, *image_files, *gaiji) == Err::<Seq<Content>, ParseError>(e),
        },
        r is Ok ==> forall|i: int| 0 <= i < r->Ok_0@.len() ==> content_wf(#[trigger] r->Ok_0@[i]@),
{
    let ghost es = events@;
    let mut parser = MarkupParser::new();
    let mut reading: Option<(usize, Vec<u8>, Vec<u8>)> = None;
    let n = events.len();
    for i in 0..n
        invariant
            n == es.len(),
            es == events@,
            parser_wf(parser@),
            image_files.wf(),
            gaiji.wf(),
            match reading {
                Some((d, _, _)) => d <= i,
                None => true,
            },
            scan_events(es, i as int, *image_files, *gaiji) == Ok::<Scan, ParseError>(Scan { view: parser@, reading: reading_view(reading) }),
    {
        let ghost s0 = Scan { view: parser@, reading: reading_view(reading) };
        assert(scan_events(es, i + 1, *image_files, *gaiji) == scan_step(s0, es[i as int], *image_files, *gaiji));
        let event = &events[i];
        match reading {
            Some((depth, mut text, rname)) => {
                match event {
                    XmlEvent::Start { name, .. } => {
                        if bytes_equal(name.as_slice(), rname.as_slice()) {
                            reading = Some((depth + 1, text, rname));
                        } else {
                            reading = Some((depth, text, rname));
                        }
                    },
                    XmlEvent::End { name } => {
                        if !bytes_equal(name.as_slice(), rname.as_slice()) {
                            reading = Some((depth, text, rname));
                        } else if depth > 0 {
                            reading = Some((depth - 1, text, rname));
                        } else {
                            match str_from_utf8(text.as_slice()) {
                                Some(s) => {
                                    match parser.add_reading(encode_utf16(s)) {
                                        Ok(()) => {},
                                        Err(e) => {
                                            proof { lemma_scan_error_stays(es, i + 1, *image_files, *gaiji, e); }
                                            return Err(e);
                                        },
                                    }
                                    reading = None;
                                },
                                None => {
                                    proof { lemma_scan_error_stays(es, i + 1, *image_files, *gaiji, ParseError::InvalidText); }
                                    return Err(ParseError::InvalidText);
                                },
                            }
                        }
                    },
                    XmlEvent::Text { raw } => {
                        let mut more = raw.clone();
                        assert(more@ =~= raw@);
                        text.append(&mut more);
                        reading = Some((depth, text, rname));
                    },
                    _ => {
                        reading = Some((depth, text, rname));
                    },
                }
            },
            None => {
                match event {
                    XmlEvent::Start { name, tag } => {
                        let t = classify_tag(name.as_slice());
                        let started = if t == Tag::P || t == Tag::Img || t == Tag::Image {
                            match start_attributes(name, tag) {
                                Some(attrs) => parser.start_element(name.as_slice(), &attrs, image_files, gaiji),
                                None => {
                                    proof { lemma_scan_error_stays(es, i + 1, *image_files, *gaiji, ParseError::Xml); }
                                    return Err(ParseError::Xml);
                                },
                            }
                        } else {
                            let none: Vec<XmlAttribute> = Vec::new();
                            assert(none@ =~= Seq::<XmlAttribute>::empty());
                            parser.start_element(name.as_slice(), &none, image_files, gaiji)
                        };
                        match started {
                            Ok(true) => {
                                let rname = name.clone();
                                assert(rname@ =~= name@);
                                let text: Vec<u8> = Vec::new();
                                assert(text@ =~= Seq::<u8>::empty());
                                reading = Some((0, text, rname));
                            },
                            Ok(false) => {},
                            Err(e) => {
                                proof { lemma_scan_error_stays(es, i + 1, *image_files, *gaiji, e); }
                                return Err(e);
                            },
                        }
                    },
                    XmlEvent::End { name } => {
                        let start = local_start(name.as_slice());
                        parser.end_element(slice_subrange(name.as_slice(), start, name.len()));
                    },
                    XmlEvent::Text { raw } => match str_from_utf8(raw.as_slice()) {
                        Some(s) => parser.add_text(encode_utf16(s)),
                        None => {
                            proof { lemma_scan_error_stays(es, i + 1, *image_files, *gaiji, ParseError::InvalidText); }
                            return Err(ParseError::InvalidText);
                        },
                    },
                    XmlEvent::CData => {
                        proof { lemma_scan_error_stays(es, i + 1, *image_files, *gaiji, ParseError::CData); }
                        return Err(ParseError::CData);
                    },
                    XmlEvent::Other => {},
                }
            },
        }
    }
    if reading.is_some() {
        return Err(ParseError::UnclosedReading);
    }
    Ok(parser.finish())
}

/// Reads one document's paragraphs, in document order. Any error that the
/// tokenizer reports anywhere in the document makes the result `Xml`; a reading
/// is the character data inside its element, markup nested there left out.
pub fn parse_text_file(content: &str, image_files: &ImageFiles, gaiji: &Gaiji) -> (r: Result<Vec<Paragraph>, ParseError>)
    requires
        image_files.wf(),
        gaiji.wf(),
    ensures
        match r {
            Ok(ps) => document_paragraphs(content@, *image_files, *gaiji) == Ok::<Seq<Content>, ParseError>(paragraphs_view(ps@)),
            Err(e) => document_paragraphs(content@, *image_files, *gaiji) == Err::<Seq<Content>, ParseError>(e),
        },
        r is Ok ==> forall|i: int| 0 <= i < r->Ok_0@.len() ==> content_wf(#[trigger] r->Ok_0@[i]@),
{
    match xml_events(content) {
        Some(events) => parse_events(&events, image_files, gaiji),
        None => Err(ParseError::Xml),
    }
}

/// The state before any event.
pub open spec fn initial_view() -> ParserView {
    ParserView { open: OpenView::Closed, reading_from: None, done: seq![] }
}



/// Whether some result in `lo..` carries the tag `t`.
pub open spec fn has_tag(results: Seq<(usize, Vec<Paragraph>)>, lo: int, t: int) -> bool {
    exists|j: int| lo <= j < results.len() && #[trigger] results[j].0 == t
}

/// The paragraphs of the document tagged `t` among the results from `lo` on;
/// none when no such result carries that tag.
pub open spec fn tagged_from(results: Seq<(usize, Vec<Paragraph>)>, lo: int, t: int) -> Seq<Paragraph> {
    if has_tag(results, lo, t) {
        results[choose|j: int| lo <= j < results.len() && #[trigger] results[j].0 == t].1@
    } else {
        seq![]
    }
}

/// The documents' paragraphs one document after another, by tag `0..n`.
pub open spec fn in_tag_order(results: Seq<(usize, Vec<Paragraph>)>, n: int) -> Seq<Paragraph>
    decreases n,
{
    if n <= 0 {
        seq![]
    } else {
        in_tag_order(results, n - 1) + tagged_from(results, 0, n - 1)
    }
}

pub open spec fn distinct_tags(results: Seq<(usize, Vec<Paragraph>)>) -> bool {
    forall|i: int, j: int| 0 <= i < j < results.len() ==> #[trigger] results[i].0 != #[trigger] results[j].0
}

proof fn lemma_tag_unique(results: Seq<(usize, Vec<Paragraph>)>, a: int, b: int)
    requires
        distinct_tags(results),
        0 <= a < results.len(),
        0 <= b < results.len(),
        results[a].0 == results[b].0,
    ensures
        a == b,
{
    if a < b {
        assert(results[a].0 != results[b].0);
    } else if b < a {
        assert(results[b].0 != results[a].0);
    }
}

/// Puts the paragraphs of documents parsed in any order back in document order:
/// each result carries its document's position, and the documents' paragraphs are
/// concatenated by that position.
pub fn reassemble(results: Vec<(usize, Vec<Paragraph>)>, n: usize) -> (r: Vec<Paragraph>)
    requires
        distinct_tags(results@),
    ensures
        r@ == in_tag_order(results@, n as int),
{
    let ghost orig = results@;
    let mut slots: Vec<Vec<Paragraph>> = Vec::new();
    for t in 0..n
        invariant
            slots@.len() == t,
            forall|u: int| 0 <= u < t ==> (#[trigger] slots@[u])@ == Seq::<Paragraph>::empty(),
    {
        let empty: Vec<Paragraph> = Vec::new();
        slots.push(empty);
    }
    let mut rest = results;
    while rest.len() > 0
        invariant
            rest@.len() <= orig.len(),
            rest@ == orig.take(rest@.len() as int),
            distinct_tags(orig),
            slots@.len() == n,
            forall|u: int| 0 <= u < n ==> (#[trigger] slots@[u])@ == tagged_from(orig, rest@.len() as int, u),
        decreases rest@.len(),
    {
        let lo = rest.len() - 1;
        let (t, ps) = rest.pop().unwrap();
        assert(orig[lo as int] == (t, ps));
        assert(rest@ =~= orig.take(lo as int));
        proof {
            assert forall|u: int| 0 <= u < n && u != t implies tagged_from(orig, lo as int, u) == tagged_from(orig, lo + 1, u) by {
                if has_tag(orig, lo as int, u) {
                    let j = choose|j: int| lo <= j < orig.len() && #[trigger] orig[j].0 == u;
                    assert(j != lo);
                    assert(has_tag(orig, lo + 1, u));
                    let k = choose|j: int| lo + 1 <= j < orig.len() && #[trigger] orig[j].0 == u;
                    lemma_tag_unique(orig, j, k);
                } else {
                    assert(!has_tag(orig, lo + 1, u));
                }
            }
            if t < n {
                assert(has_tag(orig, lo as int, t as int));
                let j = choose|j: int| lo <= j < orig.len() && #[trigger] orig[j].0 == t as int;
                lemma_tag_unique(orig, j, lo as int);
            }
        }
        if t < n {
            slots.set(t, ps);
        }
    }
    let mut r: Vec<Paragraph> = Vec::new();
    for t in 0..n
        invariant
            slots@.len() == n,
            r@ == in_tag_order(orig, t as int),
            forall|u: int| t <= u < n ==> (#[trigger] slots@[u])@ == tagged_from(orig, 0, u),
    {
        let mut moved: Vec<Paragraph> = Vec::new();
        let ghost before = slots@;
        std::mem::swap(&mut moved, &mut slots[t]);
        assert(moved@ == tagged_from(orig, 0, t as int));
        r.append(&mut moved);
        assert forall|u: int| t + 1 <= u < n implies (#[trigger] slots@[u])@ == tagged_from(orig, 0, u) by {
            assert(slots@[u] == before[u]);
        }
    }
    r
}


/// A document whose events are a paragraph start without class, its text as the
/// document's UTF-8 bytes, and the paragraph's end yields one unformatted paragraph
/// without spans whose code units decode back to exactly that text.
pub proof fn lemma_plain_paragraph_document(
    s: Seq<char>,
    es: Seq<XmlEvent>,
    attrs: Seq<XmlAttribute>,
    images: ImageFiles,
    gaiji: Gaiji,
)
    requires
        es.len() == 3,
        es[0] is Start && tag_of(es[0]->Start_name@) == Tag::P,
        tag_attributes(es[0]->Start_name@, es[0]->Start_tag@) == Some(attrs),
        first_value(attrs, AttrKey::Class, false) is None,
        es[1] is Text && es[1]->Text_raw@ == encode_utf8(s),
        es[2] is End && tag_of(local_of(es[2]->End_name@)) == Tag::P,
    ensures
        events_paragraphs(es, images, gaiji) == Ok::<Seq<Content>, ParseError>(
            seq![Content::Text { text: utf16_of(s), ruby: seq![], flags: 0 }],
        ),
        forall|t: Seq<char>| #[trigger] utf16_of(t) == utf16_of(s) ==> t == s,
{
    encode_utf8_decode_utf8(s);
    vstd::utf8::encode_utf8_valid_utf8(s);
    let s0 = Scan { view: initial_view(), reading: None };
    let v1 = after_open_paragraph(initial_view(), 0);
    assert(scan_events(es, 0, images, gaiji) == Ok::<Scan, ParseError>(s0));
    assert(class_flags(attrs) == 0);
    assert(after_start(initial_view(), es[0]->Start_name@, attrs, images, gaiji) == Ok::<(ParserView, bool), ParseError>((v1, false)));
    assert(start_step(initial_view(), es[0]->Start_name@, es[0]->Start_tag@, images, gaiji) == Ok::<(ParserView, bool), ParseError>((v1, false)));
    assert(scan_step(s0, es[0], images, gaiji) == Ok::<Scan, ParseError>(Scan { view: v1, reading: None }));
    assert(scan_events(es, 1, images, gaiji) == Ok::<Scan, ParseError>(Scan { view: v1, reading: None }));
    let v2 = after_text(v1, utf16_of(s));
    assert(scan_events(es, 2, images, gaiji) == Ok::<Scan, ParseError>(Scan { view: v2, reading: None }));
    let v3 = after_end(v2, local_of(es[2]->End_name@));
    assert(scan_events(es, 3, images, gaiji) == Ok::<Scan, ParseError>(Scan { view: v3, reading: None }));
    assert(Seq::<u16>::empty() + utf16_of(s) =~= utf16_of(s));
    assert(flushed(v3) =~= seq![Content::Text { text: utf16_of(s), ruby: seq![], flags: 0 }]);
    assert forall|t: Seq<char>| #[trigger] utf16_of(t) == utf16_of(s) implies t == s by {
        lemma_utf16_injective(t, s);
    }
}


/// The text segments of a ruby group, one after another.
pub open spec fn joined(ts: Seq<Seq<u16>>) -> Seq<u16>
    decreases ts.len(),
{
    if ts.len() == 0 {
        seq![]
    } else {
        joined(ts.drop_last()) + ts.last()
    }
}

/// The sum of the spans' lengths.
pub open spec fn span_total(rs: Seq<RubyView>) -> int
    decreases rs.len(),
{
    if rs.len() == 0 {
        0
    } else {
        span_total(rs.drop_last()) + rs.last().length
    }
}

/// A ruby group read in a text paragraph: the group opens, then each text segment
/// `ts[k]` is followed by its reading `rs[k]`.
pub open spec fn ruby_group(v: ParserView, ts: Seq<Seq<u16>>, rs: Seq<Seq<u16>>) -> Option<ParserView>
    decreases ts.len(),
{
    if ts.len() == 0 {
        Some(after_open_ruby(v))
    } else {
        match ruby_group(v, ts.drop_last(), rs.drop_last()) {
            Some(w) => after_reading(after_text(w, ts.last()), rs.last()),
            None => None,
        }
    }
}

proof fn lemma_ruby_group_spans(v: ParserView, ts: Seq<Seq<u16>>, rs: Seq<Seq<u16>>)
    requires
        v.open is Text,
        ts.len() == rs.len(),
        v.open->Text_data.len() + joined(ts).len() <= u16::MAX,
        forall|k: int| 0 <= k < ts.len() ==> (#[trigger] ts[k]).len() <= u8::MAX,
    ensures
        ruby_group(v, ts, rs) is Some,
        ({
            let w = ruby_group(v, ts, rs)->Some_0;
            let d0 = v.open->Text_data;
            let r0 = v.open->Text_ruby;
            &&& w.open is Text
            &&& w.open->Text_flags == v.open->Text_flags
            &&& w.open->Text_data == d0 + joined(ts)
            &&& w.reading_from == Some(w.open->Text_data.len() as int)
            &&& w.done == v.done
            &&& w.open->Text_ruby.len() == r0.len() + ts.len()
            &&& w.open->Text_ruby.take(r0.len() as int) == r0
            &&& forall|k: int| 0 <= k < ts.len() ==> {
                let span = #[trigger] w.open->Text_ruby[r0.len() + k];
                &&& span.start_offset == d0.len() + joined(ts.take(k)).len()
                &&& span.length == ts[k].len()
                &&& span.reading == rs[k]
            }
        }),
    decreases ts.len(),
{
    let d0 = v.open->Text_data;
    let r0 = v.open->Text_ruby;
    if ts.len() == 0 {
        assert(d0 + joined(ts) =~= d0);
        assert(r0.take(r0.len() as int) =~= r0);
    } else {
        let n = ts.len() - 1;
        let pts = ts.drop_last();
        let prs = rs.drop_last();
        assert(joined(ts).len() == joined(pts).len() + ts.last().len());
        assert forall|k: int| 0 <= k < pts.len() implies (#[trigger] pts[k]).len() <= u8::MAX by {
            assert(pts[k] == ts[k]);
        }
        lemma_ruby_group_spans(v, pts, prs);
        let w0 = ruby_group(v, pts, prs)->Some_0;
        let w1 = after_text(w0, ts.last());
        let data = w0.open->Text_data;
        assert(w1.open->Text_data == data + ts.last());
        let w = ruby_group(v, ts, rs)->Some_0;
        assert(d0 + joined(ts) =~= data + ts.last());
        let old_ruby = w0.open->Text_ruby;
        assert(w.open->Text_ruby == old_ruby.push(
            RubyView { start_offset: data.len() as u16, length: ts.last().len() as u8, reading: rs.last() },
        ));
        assert(w.open->Text_ruby.take(r0.len() as int) =~= old_ruby.take(r0.len() as int));
        assert(ts.take(n) =~= pts);
        assert forall|k: int| 0 <= k < ts.len() implies {
            let span = #[trigger] w.open->Text_ruby[r0.len() + k];
            &&& span.start_offset == d0.len() + joined(ts.take(k)).len()
            &&& span.length == ts[k].len()
            &&& span.reading == rs[k]
        } by {
            if k < n {
                assert(pts.take(k) =~= ts.take(k));
                assert(pts[k] == ts[k]);
                assert(prs[k] == rs[k]);
            }
        }
    }
}

proof fn lemma_joined_prefix(ts: Seq<Seq<u16>>, k: int, l: int)
    requires
        0 <= k <= l <= ts.len(),
    ensures
        joined(ts.take(k)).len() <= joined(ts.take(l)).len(),
    decreases l - k,
{
    if k < l {
        lemma_joined_prefix(ts, k, l - 1);
        assert(ts.take(l).drop_last() =~= ts.take(l - 1));
    }
}

proof fn lemma_span_total(spans: Seq<RubyView>, ts: Seq<Seq<u16>>)
    requires
        spans.len() == ts.len(),
        forall|k: int| 0 <= k < ts.len() ==> (#[trigger] spans[k]).length == ts[k].len(),
    ensures
        span_total(spans) == joined(ts).len(),
    decreases ts.len(),
{
    if ts.len() > 0 {
        assert forall|k: int| 0 <= k < ts.len() - 1 implies (#[trigger] spans.drop_last()[k]).length == ts.drop_last()[k].len() by {
            assert(spans.drop_last()[k] == spans[k]);
        }
        lemma_span_total(spans.drop_last(), ts.drop_last());
    }
}

/// A ruby group with N readings over text segments T1..TN yields exactly N spans,
/// one per reading and in order, whose start offsets never decrease and whose
/// lengths add up to the group's text length.
pub proof fn lemma_ruby_extraction(v: ParserView, ts: Seq<Seq<u16>>, rs: Seq<Seq<u16>>)
    requires
        v.open is Text,
        ts.len() == rs.len(),
        v.open->Text_data.len() + joined(ts).len() <= u16::MAX,
        forall|k: int| 0 <= k < ts.len() ==> (#[trigger] ts[k]).len() <= u8::MAX,
    ensures
        ruby_group(v, ts, rs) is Some,
        ({
            let r0 = v.open->Text_ruby;
            let ruby = ruby_group(v, ts, rs)->Some_0.open->Text_ruby;
            let spans = ruby.subrange(r0.len() as int, ruby.len() as int);
            &&& ruby_group(v, ts, rs)->Some_0.open is Text
            &&& ruby.take(r0.len() as int) == r0
            &&& spans.len() == ts.len()
            &&& forall|k: int| 0 <= k < spans.len() ==> (#[trigger] spans[k]).reading == rs[k]
            &&& forall|k: int, l: int| 0 <= k <= l < spans.len() ==> (#[trigger] spans[k]).start_offset <= (#[trigger] spans[l]).start_offset
            &&& span_total(spans) == joined(ts).len()
        }),
{
    lemma_ruby_group_spans(v, ts, rs);
    let r0 = v.open->Text_ruby;
    let ruby = ruby_group(v, ts, rs)->Some_0.open->Text_ruby;
    let spans = ruby.subrange(r0.len() as int, ruby.len() as int);
    assert forall|k: int| 0 <= k < spans.len() implies (#[trigger] spans[k]).reading == rs[k] by {
        assert(spans[k] == ruby[r0.len() + k]);
    }
    assert forall|k: int, l: int| 0 <= k <= l < spans.len() implies (#[trigger] spans[k]).start_offset <= (#[trigger] spans[l]).start_offset by {
        assert(spans[k] == ruby[r0.len() + k]);
        assert(spans[l] == ruby[r0.len() + l]);
        lemma_joined_prefix(ts, k, l);
    }
    assert forall|k: int| 0 <= k < ts.len() implies (#[trigger] spans[k]).length == ts[k].len() by {
        assert(spans[k] == ruby[r0.len() + k]);
    }
    lemma_span_total(spans, ts);
}

/// The code units of the character data of event `i`.
pub open spec fn text_units(es: Seq<XmlEvent>, i: int) -> Seq<u16> {
    utf16_of(decode_utf8(es[i]->Text_raw@))
}

/// The events of a ruby group in a paragraph: a paragraph start without class,
/// a ruby start, then for each of `n` segments its text and a reading element
/// holding its reading, then the ends of the ruby group and of the paragraph.
pub open spec fn is_ruby_paragraph(es: Seq<XmlEvent>, n: int, attrs: Seq<XmlAttribute>) -> bool {
    &&& n >= 0
    &&& es.len() == 4 * n + 4
    &&& es[0] is Start && tag_of(es[0]->Start_name@) == Tag::P
    &&& tag_attributes(es[0]->Start_name@, es[0]->Start_tag@) == Some(attrs)
    &&& first_value(attrs, AttrKey::Class, false) is None
    &&& es[1] is Start && tag_of(es[1]->Start_name@) == Tag::Ruby
    &&& forall|k: int| 0 <= k < n ==> {
        &&& (#[trigger] es[2 + 4 * k]) is Text && valid_utf8(es[2 + 4 * k]->Text_raw@)
        &&& es[3 + 4 * k] is Start && tag_of(es[3 + 4 * k]->Start_name@) == Tag::Rt
        &&& es[4 + 4 * k] is Text && valid_utf8(es[4 + 4 * k]->Text_raw@)
        &&& es[5 + 4 * k] is End && es[5 + 4 * k]->End_name@ == es[3 + 4 * k]->Start_name@
        &&& text_units(es, 2 + 4 * k).len() <= u8::MAX
    }
    &&& es[4 * n + 2] is End && tag_of(local_of(es[4 * n + 2]->End_name@)) == Tag::Ruby
    &&& es[4 * n + 3] is End && tag_of(local_of(es[4 * n + 3]->End_name@)) == Tag::P
}

pub open spec fn segments(es: Seq<XmlEvent>, n: int) -> Seq<Seq<u16>> {
    Seq::new(n as nat, |k: int| text_units(es, 2 + 4 * k))
}

pub open spec fn readings(es: Seq<XmlEvent>, n: int) -> Seq<Seq<u16>> {
    Seq::new(n as nat, |k: int| text_units(es, 4 + 4 * k))
}

proof fn lemma_ruby_events_prefix(es: Seq<XmlEvent>, n: int, attrs: Seq<XmlAttribute>, k: int, images: ImageFiles, gaiji: Gaiji)
    requires
        is_ruby_paragraph(es, n, attrs),
        0 <= k <= n,
        joined(segments(es, n)).len() <= u16::MAX,
    ensures
        ruby_group(after_open_paragraph(initial_view(), 0), segments(es, n).take(k), readings(es, n).take(k)) is Some,
        scan_events(es, 2 + 4 * k, images, gaiji) == Ok::<Scan, ParseError>(Scan {
            view: ruby_group(after_open_paragraph(initial_view(), 0), segments(es, n).take(k), readings(es, n).take(k))->Some_0,
            reading: None,
        }),
    decreases k,
{
    let v1 = after_open_paragraph(initial_view(), 0);
    let ts = segments(es, n).take(k);
    let rs = readings(es, n).take(k);
    lemma_joined_prefix(segments(es, n), k, n);
    assert(segments(es, n).take(n) =~= segments(es, n));
    assert forall|j: int| 0 <= j < ts.len() implies (#[trigger] ts[j]).len() <= u8::MAX by {
        assert(ts[j] == text_units(es, 2 + 4 * j));
    }
    lemma_ruby_group_spans(v1, ts, rs);
    if k == 0 {
        let s0 = Scan { view: initial_view(), reading: None };
        assert(scan_events(es, 0, images, gaiji) == Ok::<Scan, ParseError>(s0));
        assert(class_flags(attrs) == 0);
        assert(start_step(initial_view(), es[0]->Start_name@, es[0]->Start_tag@, images, gaiji) == Ok::<(ParserView, bool), ParseError>((v1, false)));
        assert(scan_events(es, 1, images, gaiji) == Ok::<Scan, ParseError>(Scan { view: v1, reading: None }));
        assert(scan_events(es, 2, images, gaiji) == Ok::<Scan, ParseError>(Scan { view: after_open_ruby(v1), reading: None }));
    } else {
        let j = k - 1;
        lemma_ruby_events_prefix(es, n, attrs, j, images, gaiji);
        let pts = segments(es, n).take(j);
        let prs = readings(es, n).take(j);
        assert(ts.drop_last() =~= pts);
        assert(rs.drop_last() =~= prs);
        assert(ts.last() == text_units(es, 2 + 4 * j));
        assert(rs.last() == text_units(es, 4 + 4 * j));
        let w = ruby_group(v1, pts, prs)->Some_0;
        let b = 2 + 4 * j;
        let seg = es[b];
        let rt = es[b + 1];
        let rd = es[b + 2];
        let en = es[b + 3];
        assert(seg is Text && valid_utf8(seg->Text_raw@));
        let wt = after_text(w, ts.last());
        assert(scan_events(es, b + 1, images, gaiji) == Ok::<Scan, ParseError>(Scan { view: wt, reading: None }));
        assert(rt is Start && tag_of(rt->Start_name@) == Tag::Rt);
        assert(wt.reading_from is Some);
        assert(start_step(wt, rt->Start_name@, rt->Start_tag@, images, gaiji) == Ok::<(ParserView, bool), ParseError>((wt, true)));
        let rname = rt->Start_name@;
        assert(scan_events(es, b + 2, images, gaiji) == Ok::<Scan, ParseError>(Scan { view: wt, reading: Some((0, seq![], rname)) }));
        let raw = rd->Text_raw@;
        assert(Seq::<u8>::empty() + raw =~= raw);
        assert(scan_events(es, b + 3, images, gaiji) == Ok::<Scan, ParseError>(Scan { view: wt, reading: Some((0, raw, rname)) }));
        assert(en is End && en->End_name@ == rname);
        assert(after_reading(wt, rs.last()) == ruby_group(v1, ts, rs));
        assert(scan_events(es, b + 4, images, gaiji) == scan_step(Scan { view: wt, reading: Some((0, raw, rname)) }, en, images, gaiji));
    }
}

/// A ruby group with N readings in a paragraph's events yields one paragraph
/// holding the group's text, with exactly N spans, one per reading and in order,
/// whose start offsets never decrease and whose lengths add up to the group's text length.
pub proof fn lemma_ruby_paragraph_events(es: Seq<XmlEvent>, n: int, attrs: Seq<XmlAttribute>, images: ImageFiles, gaiji: Gaiji)
    requires
        is_ruby_paragraph(es, n, attrs),
        joined(segments(es, n)).len() <= u16::MAX,
    ensures
        events_paragraphs(es, images, gaiji) is Ok,
        ({
            let ps = events_paragraphs(es, images, gaiji)->Ok_0;
            let ts = segments(es, n);
            let rs = readings(es, n);
            &&& ps.len() == 1
            &&& ps[0] is Text
            &&& ps[0]->Text_flags == 0
            &&& ps[0]->Text_text == joined(ts)
            &&& ps[0]->Text_ruby.len() == n
            &&& forall|k: int| 0 <= k < n ==> (#[trigger] ps[0]->Text_ruby[k]).reading == rs[k]
            &&& forall|k: int, l: int| 0 <= k <= l < n ==> (#[trigger] ps[0]->Text_ruby[k]).start_offset <= (#[trigger] ps[0]->Text_ruby[l]).start_offset
            &&& span_total(ps[0]->Text_ruby) == joined(ts).len()
        }),
{
    let v1 = after_open_paragraph(initial_view(), 0);
    let ts = segments(es, n);
    let rs = readings(es, n);
    lemma_ruby_events_prefix(es, n, attrs, n, images, gaiji);
    assert(ts.take(n) =~= ts);
    assert(rs.take(n) =~= rs);
    assert forall|k: int| 0 <= k < ts.len() implies (#[trigger] ts[k]).len() <= u8::MAX by {
        assert(ts[k] == text_units(es, 2 + 4 * k));
    }
    lemma_ruby_extraction(v1, ts, rs);
    lemma_ruby_group_spans(v1, ts, rs);
    let w = ruby_group(v1, ts, rs)->Some_0;
    let w1 = after_close_ruby(w);
    assert(scan_events(es, 4 * n + 3, images, gaiji) == Ok::<Scan, ParseError>(Scan { view: w1, reading: None }));
    let w2 = after_close_paragraph(w1);
    assert(scan_events(es, 4 * n + 4, images, gaiji) == Ok::<Scan, ParseError>(Scan { view: w2, reading: None }));
    let ruby = w.open->Text_ruby;
    assert(v1.open->Text_ruby =~= Seq::<RubyView>::empty());
    assert(ruby.subrange(0, ruby.len() as int) =~= ruby);
    assert(v1.open->Text_data + joined(ts) =~= joined(ts));
    assert(flushed(w2) =~= seq![Content::Text { text: w.open->Text_data, ruby, flags: 0 }]);
}

} // verus!
