//! The markup tokenizer, reached through quick-xml.
use vstd::prelude::*;
use crate::markup::{XmlAttribute, XmlEvent};
use quick_xml::events::attributes::Attributes;
use quick_xml::events::Event;
use quick_xml::Reader;

verus! {

/// The events that quick-xml reports for a document, up to its end; `None` when
/// it refuses the document. Empty elements come as a start and an end, and end
/// tags need not match their start.
pub uninterp spec fn xml_events_of(content: Seq<char>) -> Option<Seq<XmlEvent>>;

/// The attributes that quick-xml reads from a start tag's content (`tag`, name
/// included) from byte `pos` on, without duplicate checks; `None` when one is malformed.
pub uninterp spec fn xml_attributes_of(tag: Seq<char>, pos: nat) -> Option<Seq<XmlAttribute>>;

/// Relies on quick_xml::Reader::read_event, on a reader over `content` set to
/// report an empty element as a start and an end and to accept end tags that do
/// not match their start: every event up to the end of the document.
#[verifier::external_body]
pub(crate) fn xml_events(content: &str) -> (r: Option<Vec<XmlEvent>>)
    ensures
        match r {
            Some(v) => xml_events_of(content@) == Some(v@),
            None => xml_events_of(content@) is None,
        },
{
    let mut reader = Reader::from_str(content);
    let c = reader.config_mut();
    (c.expand_empty_elements, c.check_end_names, c.trim_markup_names_in_closing_tags) = (true, false, false);
    let mut events = Vec::new();
    loop {
        events.push(match reader.read_event().ok()? {
            Event::Start(e) => XmlEvent::Start { name: e.name().0.to_vec(), tag: e.to_vec() },
            Event::End(e) => XmlEvent::End { name: e.name().0.to_vec() },
            Event::Text(e) => XmlEvent::Text { raw: e.to_vec() },
            Event::CData(_) => XmlEvent::CData,
            Event::Eof => return Some(events),
            _ => XmlEvent::Other,
        });
    }
}

/// Relies on quick_xml::events::attributes::Attributes::new, read without
/// duplicate checks: the attributes of a start tag's content from byte `pos` on.
#[verifier::external_body]
pub(crate) fn xml_attributes(tag: &str, pos: usize) -> (r: Option<Vec<XmlAttribute>>)
    requires
        pos <= vstd::utf8::encode_utf8(tag@).len(),
    ensures
        match r {
            Some(v) => xml_attributes_of(tag@, pos as nat) == Some(v@),
            None => xml_attributes_of(tag@, pos as nat) is None,
        },
{
    Attributes::new(tag, pos).with_checks(false).map(|a| a.ok().map(|a| XmlAttribute {
        key: a.key.0.to_vec(),
        value: a.value.to_vec(),
    })).collect()
}

} // verus!
