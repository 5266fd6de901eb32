//! XML documents as sequences of writer events, rendered by `quick_xml`.
//!
//! The exporters decide, in verified code, exactly which elements,
//! attributes and text a document holds and in what order; `quick_xml`
//! renders each tag with its escaped attributes, and its indenting writer
//! turns the event sequence into text.
use vstd::prelude::*;

use quick_xml::events::{BytesDecl, BytesEnd, BytesStart, BytesText, Event};
use quick_xml::Writer;

verus! {

/// One event handed to the XML writer. An opening or self-closing tag carries
/// its name and its rendered content (name and attributes).
#[derive(Clone, Debug, PartialEq, Eq)]
pub enum XmlEvent {
    /// The `<?xml version=.. encoding=..?>` declaration.
    Decl(String, String),
    /// A `<!DOCTYPE ..>` declaration.
    DocType(String),
    /// An opening tag: its name and rendered content.
    Start(String, String),
    /// A self-closing tag: its name and rendered content.
    Empty(String, String),
    /// A closing tag.
    End(String),
    /// Character data (escaped on output).
    Text(String),
}

/// An [`XmlEvent`] as plain values.
pub enum XmlEventView {
    /// The declaration's version and encoding.
    Decl(Seq<char>, Seq<char>),
    /// A document type declaration.
    DocType(Seq<char>),
    /// An opening tag and its rendered content.
    Start(Seq<char>, Seq<char>),
    /// A self-closing tag and its rendered content.
    Empty(Seq<char>, Seq<char>),
    /// A closing tag.
    End(Seq<char>),
    /// Character data.
    Text(Seq<char>),
}

impl View for XmlEvent {
    type V = XmlEventView;

    open spec fn view(&self) -> XmlEventView {
        match self {
            XmlEvent::Decl(v, e) => XmlEventView::Decl(v@, e@),
            XmlEvent::DocType(t) => XmlEventView::DocType(t@),
            XmlEvent::Start(n, c) => XmlEventView::Start(n@, c@),
            XmlEvent::Empty(n, c) => XmlEventView::Empty(n@, c@),
            XmlEvent::End(n) => XmlEventView::End(n@),
            XmlEvent::Text(t) => XmlEventView::Text(t@),
        }
    }
}

/// Attributes as plain values.
pub open spec fn attrs_view(attrs: Seq<(String, String)>) -> Seq<(Seq<char>, Seq<char>)> {
    attrs.map_values(|a: (String, String)| (a.0@, a.1@))
}

/// Events as plain values.
pub open spec fn events_view(events: Seq<XmlEvent>) -> Seq<XmlEventView> {
    events.map_values(|e: XmlEvent| e@)
}

/// Some event is markup rather than character data.
pub open spec fn has_markup(events: Seq<XmlEventView>) -> bool {
    exists|k: int| 0 <= k < events.len() && !(#[trigger] events[k] is Text)
}

/// Events that start with markup have markup.
pub proof fn lemma_leading_markup(events: Seq<XmlEventView>)
    requires
        events.len() > 0,
        !(events[0] is Text),
    ensures
        has_markup(events),
{
    assert(!(events[0] is Text));
}

/// The content `quick_xml` renders for a tag named `name` with `attrs`
/// pushed in order (each value escaped).
pub uninterp spec fn tag_content(name: Seq<char>, attrs: Seq<(Seq<char>, Seq<char>)>) -> Seq<char>;

/// The text `quick_xml`'s writer, indenting with two spaces, produces for
/// `events`, or `None` where writing or UTF-8 decoding fails.
pub uninterp spec fn rendered_xml(events: Seq<XmlEventView>) -> Option<Seq<char>>;

/// An opening tag named `name` with `attrs`.
pub open spec fn open_tag(name: Seq<char>, attrs: Seq<(Seq<char>, Seq<char>)>) -> XmlEventView {
    XmlEventView::Start(name, tag_content(name, attrs))
}

/// A self-closing tag named `name` with `attrs`.
pub open spec fn empty_tag(name: Seq<char>, attrs: Seq<(Seq<char>, Seq<char>)>) -> XmlEventView {
    XmlEventView::Empty(name, tag_content(name, attrs))
}

/// An element holding only `text`: open tag, text, close tag.
pub open spec fn text_element(name: Seq<char>, text: Seq<char>) -> Seq<XmlEventView> {
    seq![open_tag(name, Seq::empty()), XmlEventView::Text(text), XmlEventView::End(name)]
}

/// `BytesStart::new(name).with_attributes(attrs)`, read back as text.
///
/// The contract names the result: the tag name followed by each attribute as
/// `quick_xml` writes it, its value escaped.
#[verifier::external_body]
fn render_tag(name: &str, attrs: &Vec<(String, String)>) -> (r: String)
    ensures
        r@ == tag_content(name@, attrs_view(attrs@)),
{
    let tag = BytesStart::new(name).with_attributes(attrs.iter().map(|(k, v)| (k.as_str(), v.as_str())));
    String::from_utf8_lossy(&tag).into_owned()
}

/// Renders `events` with `quick_xml::Writer::new_with_indent(.., b' ', 2)`,
/// one `write_event` per event, then decodes the bytes as UTF-8.
///
/// The contract names the text: what `quick_xml` writes for a sequence of
/// events (escaping, line breaks, indentation) is its own. It states that the
/// rendering always succeeds (the writer's sink is a `Vec<u8>`, which never
/// fails, and every piece written is UTF-8), and that any event but text
/// writes at least its brackets, so the text is then not empty.
#[verifier::external_body]
pub(crate) fn render_xml(events: &Vec<XmlEvent>) -> (r: Option<String>)
    ensures
        match rendered_xml(events_view(events@)) {
            Some(text) => r matches Some(s) && s@ == text,
            None => r is None,
        },
        r is Some,
        r matches Some(s) ==> (has_markup(events_view(events@)) ==> s@.len() > 0),
{
    let mut writer = Writer::new_with_indent(Vec::new(), b' ', 2);
    for event in events {
        writer.write_event(match event {
            XmlEvent::Decl(v, e) => Event::Decl(BytesDecl::new(v, Some(e.as_str()), None)),
            XmlEvent::DocType(t) => Event::DocType(BytesText::new(t)),
            XmlEvent::Start(n, c) => Event::Start(BytesStart::from_content(c, n.len())),
            XmlEvent::Empty(n, c) => Event::Empty(BytesStart::from_content(c, n.len())),
            XmlEvent::End(n) => Event::End(BytesEnd::new(n)),
            XmlEvent::Text(t) => Event::Text(BytesText::new(t)),
        }).ok()?;
    }
    String::from_utf8(writer.into_inner()).ok()
}

proof fn lemma_events_push(events: Seq<XmlEvent>, event: XmlEvent)
    ensures
        events_view(events.push(event)) == events_view(events).push(event@),
{
    assert(events_view(events.push(event)) =~= events_view(events).push(event@));
}

proof fn lemma_attrs_push(attrs: Seq<(String, String)>, attr: (String, String))
    ensures
        attrs_view(attrs.push(attr)) == attrs_view(attrs).push((attr.0@, attr.1@)),
{
    assert(attrs_view(attrs.push(attr)) =~= attrs_view(attrs).push((attr.0@, attr.1@)));
}

/// An attribute list under construction.
pub fn new_attrs() -> (a: Vec<(String, String)>)
    ensures
        attrs_view(a@) == Seq::<(Seq<char>, Seq<char>)>::empty(),
{
    let a = Vec::new();
    assert(attrs_view(a@) =~= Seq::<(Seq<char>, Seq<char>)>::empty());
    a
}

/// Append the attribute `key="value"`.
pub fn push_attr(attrs: &mut Vec<(String, String)>, key: &str, value: String)
    ensures
        attrs_view(final(attrs)@) == attrs_view(old(attrs)@).push((key@, value@)),
{
    let entry = (String::from_str(key), value);
    proof {
        lemma_attrs_push(old(attrs)@, entry);
    }
    attrs.push(entry);
}

/// Append an event.
fn push_event(events: &mut Vec<XmlEvent>, event: XmlEvent)
    ensures
        events_view(final(events)@) == events_view(old(events)@).push(event@),
{
    proof {
        lemma_events_push(old(events)@, event);
    }
    events.push(event);
}

/// Append the XML declaration.
pub fn push_decl(events: &mut Vec<XmlEvent>, version: &str, encoding: &str)
    ensures
        events_view(final(events)@) == events_view(old(events)@).push(
            XmlEventView::Decl(version@, encoding@),
        ),
{
    push_event(events, XmlEvent::Decl(String::from_str(version), String::from_str(encoding)));
}

/// Append a document type declaration.
pub fn push_doctype(events: &mut Vec<XmlEvent>, text: &str)
    ensures
        events_view(final(events)@) == events_view(old(events)@).push(
            XmlEventView::DocType(text@),
        ),
{
    push_event(events, XmlEvent::DocType(String::from_str(text)));
}

/// Append an opening tag with attributes.
pub fn push_start_with(events: &mut Vec<XmlEvent>, name: &str, attrs: &Vec<(String, String)>)
    ensures
        events_view(final(events)@) == events_view(old(events)@).push(
            open_tag(name@, attrs_view(attrs@)),
        ),
{
    let content = render_tag(name, attrs);
    push_event(events, XmlEvent::Start(String::from_str(name), content));
}

/// Append a self-closing tag with attributes.
pub fn push_empty_with(events: &mut Vec<XmlEvent>, name: &str, attrs: &Vec<(String, String)>)
    ensures
        events_view(final(events)@) == events_view(old(events)@).push(
            empty_tag(name@, attrs_view(attrs@)),
        ),
{
    let content = render_tag(name, attrs);
    push_event(events, XmlEvent::Empty(String::from_str(name), content));
}

/// Append an opening tag without attributes.
pub fn push_start(events: &mut Vec<XmlEvent>, name: &str)
    ensures
        events_view(final(events)@) == events_view(old(events)@).push(
            open_tag(name@, Seq::empty()),
        ),
{
    let attrs = new_attrs();
    push_start_with(events, name, &attrs);
}

/// Append a closing tag.
pub fn push_end(events: &mut Vec<XmlEvent>, name: &str)
    ensures
        events_view(final(events)@) == events_view(old(events)@).push(XmlEventView::End(name@)),
{
    push_event(events, XmlEvent::End(String::from_str(name)));
}

/// Append an element holding only `text`.
pub fn push_text_element(events: &mut Vec<XmlEvent>, name: &str, text: &str)
    ensures
        events_view(final(events)@) == events_view(old(events)@) + text_element(name@, text@),
{
    push_start(events, name);
    push_event(events, XmlEvent::Text(String::from_str(text)));
    push_end(events, name);
    assert(events_view(final(events)@) =~= events_view(old(events)@) + text_element(
        name@,
        text@,
    ));
}

} // verus!
