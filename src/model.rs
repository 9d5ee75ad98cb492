//! Paragraphs, blocks and ruby spans, with their mathematical views.
use vstd::prelude::*;

verus! {

/// A reading annotation over a run of the owning text.
#[derive(Debug, Clone, PartialEq, Eq)]
pub struct Ruby {
    /// Offset, in UTF-16 code units, into the owning text where the reading starts.
    pub start_offset: u16,
    /// Number of UTF-16 code units of the owning text that the reading covers.
    pub length: u8,
    /// The reading itself, as UTF-16 code units.
    pub reading: Vec<u16>,
}

/// A paragraph as the markup parser produces it.
#[derive(Debug, Clone, PartialEq, Eq)]
pub enum Paragraph {
    /// Running text; bit 0 of `flags` is bold, bit 1 is large text.
    Text { text: Vec<u16>, ruby: Vec<Ruby>, flags: u8 },
    /// An illustration, by its index in the image catalog.
    Image { index: u8 },
}

/// A block of the container: one or more paragraphs, or one image.
#[derive(Debug, Clone, PartialEq, Eq)]
pub enum ContentBlock {
    Text { text: Vec<u16>, ruby: Vec<Ruby>, flags: u8 },
    Image { index: u8 },
}

/// The mathematical value of a ruby span.
pub struct RubyView {
    pub start_offset: u16,
    pub length: u8,
    pub reading: Seq<u16>,
}

/// The mathematical value of a paragraph or a block.
pub enum Content {
    Text { text: Seq<u16>, ruby: Seq<RubyView>, flags: u8 },
    Image { index: u8 },
}

impl View for Ruby {
    type V = RubyView;

    open spec fn view(&self) -> RubyView {
        RubyView { start_offset: self.start_offset, length: self.length, reading: self.reading@ }
    }
}

pub open spec fn ruby_view(rs: Seq<Ruby>) -> Seq<RubyView> {
    rs.map_values(|r: Ruby| r@)
}

impl View for Paragraph {
    type V = Content;

    open spec fn view(&self) -> Content {
        match self {
            Paragraph::Text { text, ruby, flags } => Content::Text {
                text: text@,
                ruby: ruby_view(ruby@),
                flags: *flags,
            },
            Paragraph::Image { index } => Content::Image { index: *index },
        }
    }
}

impl View for ContentBlock {
    type V = Content;

    open spec fn view(&self) -> Content {
        match self {
            ContentBlock::Text { text, ruby, flags } => Content::Text {
                text: text@,
                ruby: ruby_view(ruby@),
                flags: *flags,
            },
            ContentBlock::Image { index } => Content::Image { index: *index },
        }
    }
}

pub open spec fn paragraphs_view(ps: Seq<Paragraph>) -> Seq<Content> {
    ps.map_values(|p: Paragraph| p@)
}

pub open spec fn blocks_view(bs: Seq<ContentBlock>) -> Seq<Content> {
    bs.map_values(|b: ContentBlock| b@)
}

/// Every span starts inside (or at the end of) the text that owns it.
pub open spec fn spans_within(text: Seq<u16>, ruby: Seq<RubyView>) -> bool {
    forall|i: int| 0 <= i < ruby.len() ==> #[trigger] ruby[i].start_offset <= text.len()
}

/// A paragraph whose ruby spans address its own text.
pub open spec fn content_wf(c: Content) -> bool {
    match c {
        Content::Text { text, ruby, .. } => spans_within(text, ruby),
        Content::Image { .. } => true,
    }
}

} // verus!
