//! The structural events that a document is built from.

use vstd::prelude::*;

verus! {

/// One attribute of a start tag: namespace uri, prefix, local name and value.
pub type Attribute = (String, String, String, String);

pub enum Event {
    StartDocument,
    EndDocument,
    StartPrefixMapping { prefix: String, uri: String },
    EndPrefixMapping,
    StartElement { uri: String, local_name: String, prefix: String, attributes: Vec<Attribute> },
    EndElement,
    Characters { text: String },
    IgnorableWhitespace { text: String },
    ProcessingInstruction { target: String, data: String },
    Comment { text: String },
    /// Anything else, such as a declaration of a document type or an entity.
    Unkown,
}

pub struct AttributeView {
    pub uri: Seq<char>,
    pub prefix: Seq<char>,
    pub local_name: Seq<char>,
    pub value: Seq<char>,
}

pub enum EventView {
    StartDocument,
    EndDocument,
    StartPrefixMapping { prefix: Seq<char>, uri: Seq<char> },
    EndPrefixMapping,
    StartElement {
        uri: Seq<char>,
        local_name: Seq<char>,
        prefix: Seq<char>,
        attributes: Seq<AttributeView>,
    },
    EndElement,
    Characters { text: Seq<char> },
    IgnorableWhitespace { text: Seq<char> },
    ProcessingInstruction { target: Seq<char>, data: Seq<char> },
    Comment { text: Seq<char> },
    Unkown,
}

pub open spec fn attribute_view(attribute: Attribute) -> AttributeView {
    AttributeView {
        uri: attribute.0@,
        prefix: attribute.1@,
        local_name: attribute.2@,
        value: attribute.3@,
    }
}

pub open spec fn attributes_view(attributes: Seq<Attribute>) -> Seq<AttributeView> {
    Seq::new(attributes.len(), |i: int| attribute_view(attributes[i]))
}

impl View for Event {
    type V = EventView;

    open spec fn view(&self) -> EventView {
        match *self {
            Event::StartDocument => EventView::StartDocument,
            Event::EndDocument => EventView::EndDocument,
            Event::StartPrefixMapping { prefix, uri } => EventView::StartPrefixMapping {
                prefix: prefix@,
                uri: uri@,
            },
            Event::EndPrefixMapping => EventView::EndPrefixMapping,
            Event::StartElement { uri, local_name, prefix, attributes } => EventView::StartElement {
                uri: uri@,
                local_name: local_name@,
                prefix: prefix@,
                attributes: attributes_view(attributes@),
            },
            Event::EndElement => EventView::EndElement,
            Event::Characters { text } => EventView::Characters { text: text@ },
            Event::IgnorableWhitespace { text } => EventView::IgnorableWhitespace { text: text@ },
            Event::ProcessingInstruction { target, data } => EventView::ProcessingInstruction {
                target: target@,
                data: data@,
            },
            Event::Comment { text } => EventView::Comment { text: text@ },
            Event::Unkown => EventView::Unkown,
        }
    }
}

/// The views of a list of events.
pub open spec fn events_view(events: Seq<Event>) -> Seq<EventView> {
    Seq::new(events.len(), |i: int| events[i]@)
}

} // verus!
