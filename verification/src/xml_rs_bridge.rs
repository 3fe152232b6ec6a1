//! From what the `xml` parser makes of a text to a collection: the events of
//! the parser become events for the builder, and an error of the parser makes
//! the text invalid. The parser itself is run by the caller, who hands over
//! what it yields.

use vstd::prelude::*;
use xml::attribute::OwnedAttribute;
use xml::name::OwnedName;
use crate::collection_builder::{build_agrees, build_collection, built, BuildError};
use crate::event::{Attribute, AttributeView, Event, EventView, events_view};
use crate::node_collection::{text_or_empty, CollectionView, NodeCollection};

verus! {

/// The parser's qualified name, `xml::name::OwnedName`: a local name, and a
/// namespace uri and a prefix where the name has them.
#[verifier::external_type_specification]
pub struct ExOwnedName(xml::name::OwnedName);

/// The parser's attribute, `xml::attribute::OwnedAttribute`: a qualified name
/// and a value.
#[verifier::external_type_specification]
pub struct ExOwnedAttribute(xml::attribute::OwnedAttribute);

/// What this library reads of one event of the parser. The variants are those
/// of `xml::reader::XmlEvent`; the declaration of the document, the namespace
/// mapping of a start tag and the name of an end tag are left out.
pub enum XmlToken {
    StartDocument,
    EndDocument,
    ProcessingInstruction { target: String, data: Option<String> },
    StartElement { name: OwnedName, attributes: Vec<OwnedAttribute> },
    EndElement,
    CData(String),
    Comment(String),
    Characters(String),
    Whitespace(String),
}

pub struct XmlNameView {
    pub local_name: Seq<char>,
    pub namespace: Option<Seq<char>>,
    pub prefix: Option<Seq<char>>,
}

pub struct XmlAttributeView {
    pub name: XmlNameView,
    pub value: Seq<char>,
}

pub enum XmlTokenView {
    StartDocument,
    EndDocument,
    ProcessingInstruction { target: Seq<char>, data: Option<Seq<char>> },
    StartElement { name: XmlNameView, attributes: Seq<XmlAttributeView> },
    EndElement,
    CData(Seq<char>),
    Comment(Seq<char>),
    Characters(Seq<char>),
    Whitespace(Seq<char>),
}

pub open spec fn optional_text(text: Option<String>) -> Option<Seq<char>> {
    match text {
        Some(s) => Some(s@),
        None => None,
    }
}

pub open spec fn xml_name_view(name: OwnedName) -> XmlNameView {
    XmlNameView {
        local_name: name.local_name@,
        namespace: optional_text(name.namespace),
        prefix: optional_text(name.prefix),
    }
}

pub open spec fn xml_attribute_view(attribute: OwnedAttribute) -> XmlAttributeView {
    XmlAttributeView { name: xml_name_view(attribute.name), value: attribute.value@ }
}

impl View for XmlToken {
    type V = XmlTokenView;

    open spec fn view(&self) -> XmlTokenView {
        match *self {
            XmlToken::StartDocument => XmlTokenView::StartDocument,
            XmlToken::EndDocument => XmlTokenView::EndDocument,
            XmlToken::ProcessingInstruction { target, data } => XmlTokenView::ProcessingInstruction {
                target: target@,
                data: optional_text(data),
            },
            XmlToken::StartElement { name, attributes } => XmlTokenView::StartElement {
                name: xml_name_view(name),
                attributes: Seq::new(attributes@.len(), |i: int| xml_attribute_view(attributes@[i])),
            },
            XmlToken::EndElement => XmlTokenView::EndElement,
            XmlToken::CData(s) => XmlTokenView::CData(s@),
            XmlToken::Comment(s) => XmlTokenView::Comment(s@),
            XmlToken::Characters(s) => XmlTokenView::Characters(s@),
            XmlToken::Whitespace(s) => XmlTokenView::Whitespace(s@),
        }
    }
}

pub open spec fn tokens_view(tokens: Seq<XmlToken>) -> Seq<XmlTokenView> {
    Seq::new(tokens.len(), |i: int| tokens[i]@)
}

/// An error of the parser, in place of an event.
#[derive(Debug, PartialEq, Eq, Clone, Copy, Structural)]
pub struct XmlFailure;

/// One item of what the parser yields for a text: an event or an error.
pub type XmlItem = Result<XmlToken, XmlFailure>;

/// Whether the parser met an error.
pub open spec fn failed(items: Seq<XmlItem>) -> bool {
    exists|i: int| 0 <= i < items.len() && #[trigger] items[i] is Err
}

/// The events among the items of the parser.
pub open spec fn events_read(items: Seq<XmlItem>) -> Seq<XmlTokenView> {
    Seq::new(items.len(), |i: int| items[i]->Ok_0@)
}

/// The collection that the items of the parser build: none where the parser
/// met an error, else what its events build.
pub open spec fn parsed(items: Seq<XmlItem>, base_uri: Seq<char>) -> Result<
    CollectionView,
    BuildError,
> {
    if failed(items) {
        Err(BuildError::InvalidDocument)
    } else {
        built(decoded_all(events_read(items)), base_uri)
    }
}

/// An attribute of the parser as the attribute of an event.
pub open spec fn decoded_attribute(attribute: XmlAttributeView) -> AttributeView {
    AttributeView {
        uri: text_or_empty(attribute.name.namespace),
        prefix: text_or_empty(attribute.name.prefix),
        local_name: attribute.name.local_name,
        value: attribute.value,
    }
}

/// The event that an event of the parser stands for: whitespace and
/// character data of either form are characters, a missing prefix, namespace
/// or data of a processing instruction is the empty text.
pub open spec fn decoded(token: XmlTokenView) -> EventView {
    match token {
        XmlTokenView::Whitespace(s) => EventView::Characters { text: s },
        XmlTokenView::Characters(s) => EventView::Characters { text: s },
        XmlTokenView::Comment(s) => EventView::Comment { text: s },
        XmlTokenView::CData(s) => EventView::Characters { text: s },
        XmlTokenView::EndElement => EventView::EndElement,
        XmlTokenView::StartElement { name, attributes } => EventView::StartElement {
            prefix: text_or_empty(name.prefix),
            local_name: name.local_name,
            uri: text_or_empty(name.namespace),
            attributes: Seq::new(attributes.len(), |i: int| decoded_attribute(attributes[i])),
        },
        XmlTokenView::ProcessingInstruction { target, data } => EventView::ProcessingInstruction {
            data: text_or_empty(data),
            target,
        },
        XmlTokenView::EndDocument => EventView::EndDocument,
        XmlTokenView::StartDocument => EventView::StartDocument,
    }
}

pub open spec fn decoded_all(tokens: Seq<XmlTokenView>) -> Seq<EventView> {
    Seq::new(tokens.len(), |i: int| decoded(tokens[i]))
}

pub fn empty_str_if_none(string: Option<&String>) -> (text: String)
    ensures
        text@ == (match string {
            Some(s) => s@,
            None => Seq::<char>::empty(),
        }),
{
    match string {
        Some(s) => s.clone(),
        None => String::new(),
    }
}

/// Turns one event of the parser into an event for the builder.
pub fn decode_event(event: XmlToken) -> (decoded: Event)
    ensures
        decoded@ == self::decoded(event@),
{
    match event {
        XmlToken::Whitespace(string) => Event::Characters { text: string },
        XmlToken::Characters(string) => Event::Characters { text: string },
        XmlToken::Comment(string) => Event::Comment { text: string },
        XmlToken::CData(string) => Event::Characters { text: string },
        XmlToken::EndElement => Event::EndElement,
        XmlToken::StartElement { name, attributes } => {
            let ghost wanted = Seq::new(
                attributes@.len(),
                |i: int| decoded_attribute(xml_attribute_view(attributes@[i])),
            );
            let mut atts: Vec<Attribute> = Vec::new();
            let mut i: usize = 0;
            while i < attributes.len()
                invariant
                    i <= attributes@.len(),
                    wanted == Seq::new(
                        attributes@.len(),
                        |i: int| decoded_attribute(xml_attribute_view(attributes@[i])),
                    ),
                    atts@.len() == i,
                    forall|j: int|
                        0 <= j < i ==> crate::event::attribute_view(#[trigger] atts@[j])
                            == wanted[j],
                decreases attributes@.len() - i,
            {
                let attribute = &attributes[i];
                atts.push(
                    (
                        empty_str_if_none(attribute.name.namespace.as_ref()),
                        empty_str_if_none(attribute.name.prefix.as_ref()),
                        attribute.name.local_name.clone(),
                        attribute.value.clone(),
                    ),
                );
                i = i + 1;
            }
            assert(crate::event::attributes_view(atts@) =~= wanted);
            let OwnedName { local_name, namespace, prefix } = name;
            let decoded = Event::StartElement {
                prefix: match prefix {
                    Some(p) => p,
                    None => String::new(),
                },
                local_name,
                uri: match namespace {
                    Some(u) => u,
                    None => String::new(),
                },
                attributes: atts,
            };
            assert(decoded@ =~= self::decoded(event@)) by {
                assert(self::decoded(event@)->StartElement_attributes =~= wanted);
            }
            decoded
        },
        XmlToken::ProcessingInstruction { target, data } => Event::ProcessingInstruction {
            data: match data {
                Some(d) => d,
                None => String::new(),
            },
            target,
        },
        XmlToken::EndDocument => Event::EndDocument,
        XmlToken::StartDocument => Event::StartDocument,
    }
}

/// Builds a collection from the events of the parser.
pub fn parse_tokens(tokens: Vec<XmlToken>, base_uri: String) -> (result: Result<
    NodeCollection,
    BuildError,
>)
    ensures
        build_agrees(result, built(decoded_all(tokens_view(tokens@)), base_uri@)),
{
    let ghost wanted = decoded_all(tokens_view(tokens@));
    let mut events: Vec<Event> = Vec::new();
    for token in iter: tokens
        invariant
            iter.seq() == tokens@,
            wanted == decoded_all(tokens_view(tokens@)),
            events@.len() == iter.index(),
            forall|j: int| 0 <= j < iter.index() ==> (#[trigger] events@[j])@ == wanted[j],
    {
        events.push(decode_event(token));
    }
    assert(events_view(events@) =~= wanted);
    build_collection(events, base_uri)
}

/// Builds a collection from what the parser has made of a text. Where the
/// parser met an error the text is no document, whatever events came before
/// the error: also where none came, as with an empty text.
pub fn parse_string(items: Vec<XmlItem>, base_uri: String) -> (result: Result<
    NodeCollection,
    BuildError,
>)
    ensures
        build_agrees(result, parsed(items@, base_uri@)),
{
    let mut tokens: Vec<XmlToken> = Vec::new();
    for item in iter: items
        invariant
            iter.seq() == items@,
            tokens@.len() == iter.index(),
            forall|j: int| 0 <= j < iter.index() ==> (#[trigger] items@[j]) is Ok,
            forall|j: int|
                0 <= j < iter.index() ==> (#[trigger] tokens@[j])@ == events_read(items@)[j],
    {
        match item {
            Ok(token) => {
                tokens.push(token);
            },
            Err(_) => {
                assert(items@[iter.index() as int] is Err);
                return Err(BuildError::InvalidDocument);
            },
        }
    }
    assert(tokens_view(tokens@) =~= events_read(items@));
    parse_tokens(tokens, base_uri)
}

} // verus!
