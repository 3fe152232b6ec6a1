//! From the events of `xmerl_sax_parser`, as an Erlang node hands them over,
//! to a collection.

use vstd::prelude::*;
use vstd::utf8::{
    encode_scalar, encode_utf8, encode_utf8_decode_utf8, encode_utf8_valid_utf8, is_scalar,
    valid_utf8,
};
use crate::collection_builder::{build_agrees, build_collection, built, BuildError};
use crate::event::{Attribute, AttributeView, Event, EventView, events_view};
use crate::node_collection::NodeCollection;

verus! {

/// An Erlang string: a list of code points. An element of the list that is
/// no integer of 32 bits is `None`.
pub type CharList = Vec<Option<u32>>;

/// The code point that an element of a list stands for; 0 where it is none.
pub open spec fn code_point(item: Option<u32>) -> u32 {
    match item {
        Some(d) => d,
        None => 0,
    }
}

/// Whether every element of the list stands for a Unicode scalar value: a
/// code point up to 0x10FFFF that is no surrogate.
pub open spec fn unicode_list(chars: Seq<Option<u32>>) -> bool {
    forall|i: int| 0 <= i < chars.len() ==> is_scalar(code_point(#[trigger] chars[i]))
}

/// The text that a list of code points spells.
pub open spec fn text_of(chars: Seq<Option<u32>>) -> Seq<char> {
    Seq::new(chars.len(), |i: int| code_point(chars[i]) as char)
}

/// Whether every element of the list stands for a Unicode scalar value.
pub fn is_unicode_list(chars: &CharList) -> (ok: bool)
    ensures
        ok == unicode_list(chars@),
{
    let mut i: usize = 0;
    while i < chars.len()
        invariant
            i <= chars@.len(),
            forall|j: int| 0 <= j < i ==> is_scalar(code_point(#[trigger] chars@[j])),
        decreases chars@.len() - i,
    {
        let d: u32 = match chars[i] {
            Some(d) => d,
            None => 0,
        };
        if d > 0x10FFFF || (0xD800 <= d && d <= 0xDFFF) {
            assert(!is_scalar(code_point(chars@[i as int])));
            return false;
        }
        i = i + 1;
    }
    true
}

/// `std::string::String::from_utf8`, on bytes that are valid UTF-8: the
/// string whose bytes they are.
#[verifier::external_body]
fn string_from_utf8(bytes: Vec<u8>) -> (text: String)
    requires
        valid_utf8(bytes@),
    ensures
        encode_utf8(text@) == bytes@,
{
    match String::from_utf8(bytes) {
        Ok(text) => text,
        Err(_) => String::new(),
    }
}

/// The encoding of a text with one more character at its end.
pub proof fn lemma_encode_push(chars: Seq<char>, c: char)
    ensures
        encode_utf8(chars.push(c)) == encode_utf8(chars) + encode_scalar(c as u32),
    decreases chars.len(),
{
    if chars.len() == 0 {
        assert(chars.push(c).drop_first() =~= Seq::<char>::empty());
        assert(encode_utf8(chars.push(c)) =~= encode_scalar(c as u32) + encode_utf8(Seq::empty()));
        assert(encode_utf8(chars) + encode_scalar(c as u32) =~= encode_scalar(c as u32));
    } else {
        assert(chars.push(c).drop_first() =~= chars.drop_first().push(c));
        lemma_encode_push(chars.drop_first(), c);
        assert(encode_utf8(chars.push(c)) =~= encode_utf8(chars) + encode_scalar(c as u32));
    }
}

/// Appends the UTF-8 encoding of one code point: one byte up to 0x7F, two
/// up to 0x7FF, three up to 0xFFFF and four above.
fn push_code_point(buf: &mut Vec<u8>, d: u32)
    requires
        is_scalar(d),
    ensures
        final(buf)@ == old(buf)@ + encode_scalar(d),
{
    if d <= 0x7F {
        assert(d & 0x7F == d && d < 0x100) by (bit_vector)
            requires
                d <= 0x7F,
        ;
        buf.push(d as u8);
        assert(buf@ =~= old(buf)@ + encode_scalar(d));
    } else if d <= 0x7FF {
        assert(((d >> 6) | 0xC0) < 0x100 && ((d & 0x3F) | 0x80) < 0x100 && ((d >> 6) | 0xC0) as u8
            == 0xC0u8 | ((d >> 6) & 0x1F) as u8 && ((d & 0x3F) | 0x80) as u8 == 0x80u8 | (d
            & 0x3F) as u8) by (bit_vector)
            requires
                d <= 0x7FF,
        ;
        let b1 = ((d >> 6) | 0xC0) as u8;
        let b2 = ((d & 0x3F) | 0x80) as u8;
        buf.push(b1);
        buf.push(b2);
        assert(buf@ =~= old(buf)@ + encode_scalar(d));
    } else if d <= 0xFFFF {
        assert(((d >> 12) | 0xE0) < 0x100 && (((d >> 6) & 0x3F) | 0x80) < 0x100 && ((d & 0x3F)
            | 0x80) < 0x100 && ((d >> 12) | 0xE0) as u8 == 0xE0u8 | ((d >> 12) & 0x0F) as u8 && (((d
            >> 6) & 0x3F) | 0x80) as u8 == 0x80u8 | ((d >> 6) & 0x3F) as u8 && ((d & 0x3F)
            | 0x80) as u8 == 0x80u8 | (d & 0x3F) as u8) by (bit_vector)
            requires
                d <= 0xFFFF,
        ;
        let b1 = ((d >> 12) | 0xE0) as u8;
        let b2 = (((d >> 6) & 0x3F) | 0x80) as u8;
        let b3 = ((d & 0x3F) | 0x80) as u8;
        buf.push(b1);
        buf.push(b2);
        buf.push(b3);
        assert(buf@ =~= old(buf)@ + encode_scalar(d));
    } else {
        assert(((d >> 18) | 0xF0) < 0x100 && (((d >> 12) & 0x3F) | 0x80) < 0x100 && (((d >> 6)
            & 0x3F) | 0x80) < 0x100 && ((d & 0x3F) | 0x80) < 0x100 && ((d >> 18) | 0xF0) as u8
            == 0xF0u8 | ((d >> 18) & 0x7) as u8 && (((d >> 12) & 0x3F) | 0x80) as u8 == 0x80u8 | ((d
            >> 12) & 0x3F) as u8 && (((d >> 6) & 0x3F) | 0x80) as u8 == 0x80u8 | ((d >> 6)
            & 0x3F) as u8 && ((d & 0x3F) | 0x80) as u8 == 0x80u8 | (d & 0x3F) as u8)
            by (bit_vector)
            requires
                d <= 0x10FFFF,
        ;
        let b1 = ((d >> 18) | 0xF0) as u8;
        let b2 = (((d >> 12) & 0x3F) | 0x80) as u8;
        let b3 = (((d >> 6) & 0x3F) | 0x80) as u8;
        let b4 = ((d & 0x3F) | 0x80) as u8;
        buf.push(b1);
        buf.push(b2);
        buf.push(b3);
        buf.push(b4);
        assert(buf@ =~= old(buf)@ + encode_scalar(d));
    }
}

/// The text that a list of code points spells, by way of its UTF-8 encoding.
pub fn erl_char_list_to_string(chars: &CharList) -> (text: String)
    requires
        unicode_list(chars@),
    ensures
        text@ == text_of(chars@),
{
    let ghost wanted = text_of(chars@);
    let mut buf: Vec<u8> = Vec::new();
    let mut i: usize = 0;
    assert(wanted.take(0) =~= Seq::<char>::empty());
    while i < chars.len()
        invariant
            i <= chars@.len(),
            wanted == text_of(chars@),
            unicode_list(chars@),
            buf@ == encode_utf8(wanted.take(i as int)),
        decreases chars@.len() - i,
    {
        let d: u32 = match chars[i] {
            Some(d) => d,
            None => 0,
        };
        proof {
            assert(is_scalar(code_point(chars@[i as int])));
            assert(wanted.take(i + 1) =~= wanted.take(i as int).push(wanted[i as int]));
            lemma_encode_push(wanted.take(i as int), wanted[i as int]);
            assert(wanted[i as int] as u32 == d);
        }
        push_code_point(&mut buf, d);
        i = i + 1;
    }
    proof {
        assert(wanted.take(i as int) =~= wanted);
        encode_utf8_valid_utf8(wanted);
    }
    let text = string_from_utf8(buf);
    proof {
        encode_utf8_decode_utf8(wanted);
        encode_utf8_decode_utf8(text@);
    }
    text
}

/// One attribute of a start tag: the lists of its uri, prefix, name and value.
pub type SaxAttribute = (CharList, CharList, CharList, CharList);

/// What the bridge reads of one event term of `xmerl_sax_parser`: the shape
/// of the term, the name of its atom and the strings that it carries.
pub enum SaxTerm {
    /// A lone atom.
    Atom(String),
    /// `{Atom, String}`.
    Pair(String, CharList),
    /// `{Atom, String, String}`.
    Triple(String, CharList, CharList),
    /// `{Atom, Uri, LocalName, {Prefix, LocalName}}`.
    EndTag(String),
    /// `{Atom, Uri, LocalName, {Prefix, LocalName}, Attributes}`, each of
    /// the attributes as `{Uri, Prefix, Name, Value}`.
    StartTag {
        tag: String,
        uri: CharList,
        local_name: CharList,
        prefix: CharList,
        attributes: Vec<SaxAttribute>,
    },
    /// Any other term.
    Other,
}

/// The attribute that the four lists of an attribute term spell.
pub open spec fn decoded_attribute(attribute: SaxAttribute) -> AttributeView {
    AttributeView {
        uri: text_of(attribute.0@),
        prefix: text_of(attribute.1@),
        local_name: text_of(attribute.2@),
        value: text_of(attribute.3@),
    }
}

pub open spec fn unicode_attribute(attribute: SaxAttribute) -> bool {
    &&& unicode_list(attribute.0@)
    &&& unicode_list(attribute.1@)
    &&& unicode_list(attribute.2@)
    &&& unicode_list(attribute.3@)
}

/// The event that a term stands for. The atom of the term, together with
/// its shape, names the event; a term with any other atom or shape is an
/// unknown event.
pub open spec fn decoded_term(term: SaxTerm) -> EventView {
    match term {
        SaxTerm::Pair(tag, text) => if tag@ == "endPrefixMapping"@ {
            EventView::EndPrefixMapping
        } else if tag@ == "characters"@ {
            EventView::Characters { text: text_of(text@) }
        } else if tag@ == "ignorableWhitespace"@ {
            EventView::IgnorableWhitespace { text: text_of(text@) }
        } else if tag@ == "comment"@ {
            EventView::Comment { text: text_of(text@) }
        } else {
            EventView::Unkown
        },
        SaxTerm::Triple(tag, first, second) => if tag@ == "startPrefixMapping"@ {
            EventView::StartPrefixMapping { prefix: text_of(first@), uri: text_of(second@) }
        } else if tag@ == "processingInstruction"@ {
            EventView::ProcessingInstruction { target: text_of(first@), data: text_of(second@) }
        } else {
            EventView::Unkown
        },
        SaxTerm::EndTag(tag) => if tag@ == "endElement"@ {
            EventView::EndElement
        } else {
            EventView::Unkown
        },
        SaxTerm::StartTag { tag, uri, local_name, prefix, attributes } => if tag@
            == "startElement"@ {
            EventView::StartElement {
                uri: text_of(uri@),
                local_name: text_of(local_name@),
                prefix: text_of(prefix@),
                attributes: Seq::new(attributes@.len(), |i: int| decoded_attribute(attributes@[i])),
            }
        } else {
            EventView::Unkown
        },
        SaxTerm::Atom(tag) => if tag@ == "startDocument"@ {
            EventView::StartDocument
        } else if tag@ == "endDocument"@ {
            EventView::EndDocument
        } else {
            EventView::Unkown
        },
        SaxTerm::Other => EventView::Unkown,
    }
}

/// Whether the strings of a term that its event takes over are Unicode text.
pub open spec fn unicode_term(term: SaxTerm) -> bool {
    match term {
        SaxTerm::Pair(tag, text) => tag@ == "characters"@ || tag@ == "ignorableWhitespace"@ || tag@
            == "comment"@ ==> unicode_list(text@),
        SaxTerm::Triple(tag, first, second) => tag@ == "startPrefixMapping"@ || tag@
            == "processingInstruction"@ ==> unicode_list(first@) && unicode_list(second@),
        SaxTerm::StartTag { tag, uri, local_name, prefix, attributes } => tag@ == "startElement"@ ==> {
            &&& unicode_list(uri@)
            &&& unicode_list(local_name@)
            &&& unicode_list(prefix@)
            &&& forall|i: int|
                0 <= i < attributes@.len() ==> unicode_attribute(#[trigger] attributes@[i])
        },
        _ => true,
    }
}

/// Whether an atom has the given name.
fn named(tag: &String, name: &str) -> (same: bool)
    ensures
        same == (tag@ == name@),
{
    *tag == name.to_string()
}

impl SaxTerm {
    /// Whether the strings of the term that its event takes over are Unicode
    /// text, so that the term can be decoded.
    pub fn is_unicode(&self) -> (ok: bool)
        ensures
            ok == unicode_term(*self),
    {
        match self {
            SaxTerm::Pair(tag, text) => {
                if named(tag, "characters") || named(tag, "ignorableWhitespace") || named(
                    tag,
                    "comment",
                ) {
                    is_unicode_list(text)
                } else {
                    true
                }
            },
            SaxTerm::Triple(tag, first, second) => {
                if named(tag, "startPrefixMapping") || named(tag, "processingInstruction") {
                    is_unicode_list(first) && is_unicode_list(second)
                } else {
                    true
                }
            },
            SaxTerm::StartTag { tag, uri, local_name, prefix, attributes } => {
                if !named(tag, "startElement") {
                    return true;
                }
                if !(is_unicode_list(uri) && is_unicode_list(local_name) && is_unicode_list(prefix)) {
                    return false;
                }
                let mut i: usize = 0;
                while i < attributes.len()
                    invariant
                        i <= attributes@.len(),
                        *self is StartTag,
                        self->tag@ == "startElement"@,
                        self->attributes == *attributes,
                        forall|j: int| 0 <= j < i ==> unicode_attribute(#[trigger] attributes@[j]),
                    decreases attributes@.len() - i,
                {
                    let a = &attributes[i];
                    if !(is_unicode_list(&a.0) && is_unicode_list(&a.1) && is_unicode_list(&a.2)
                        && is_unicode_list(&a.3)) {
                        assert(!unicode_attribute(attributes@[i as int]));
                        return false;
                    }
                    i = i + 1;
                }
                true
            },
            _ => true,
        }
    }
}

/// Turns one event term into an event for the builder.
pub fn decode_event(event: SaxTerm) -> (decoded: Event)
    requires
        unicode_term(event),
    ensures
        decoded@ == decoded_term(event),
{
    match event {
        SaxTerm::Pair(tag, text) => {
            proof {
                reveal_strlit("endPrefixMapping");
                reveal_strlit("characters");
                reveal_strlit("ignorableWhitespace");
                reveal_strlit("comment");
            }
            if named(&tag, "endPrefixMapping") {
                Event::EndPrefixMapping
            } else if named(&tag, "characters") {
                Event::Characters { text: erl_char_list_to_string(&text) }
            } else if named(&tag, "ignorableWhitespace") {
                Event::IgnorableWhitespace { text: erl_char_list_to_string(&text) }
            } else if named(&tag, "comment") {
                Event::Comment { text: erl_char_list_to_string(&text) }
            } else {
                Event::Unkown
            }
        },
        SaxTerm::Triple(tag, first, second) => {
            if named(&tag, "startPrefixMapping") {
                Event::StartPrefixMapping {
                    prefix: erl_char_list_to_string(&first),
                    uri: erl_char_list_to_string(&second),
                }
            } else if named(&tag, "processingInstruction") {
                Event::ProcessingInstruction {
                    target: erl_char_list_to_string(&first),
                    data: erl_char_list_to_string(&second),
                }
            } else {
                Event::Unkown
            }
        },
        SaxTerm::EndTag(tag) => {
            if named(&tag, "endElement") {
                Event::EndElement
            } else {
                Event::Unkown
            }
        },
        SaxTerm::StartTag { tag, uri, local_name, prefix, attributes } => {
            if named(&tag, "startElement") {
                let ghost wanted = Seq::new(
                    attributes@.len(),
                    |i: int| decoded_attribute(attributes@[i]),
                );
                let mut atts: Vec<Attribute> = Vec::new();
                let mut i: usize = 0;
                while i < attributes.len()
                    invariant
                        i <= attributes@.len(),
                        forall|j: int|
                            0 <= j < attributes@.len() ==> unicode_attribute(
                                #[trigger] attributes@[j],
                            ),
                        wanted == Seq::new(
                            attributes@.len(),
                            |i: int| decoded_attribute(attributes@[i]),
                        ),
                        atts@.len() == i,
                        forall|j: int|
                            0 <= j < i ==> crate::event::attribute_view(#[trigger] atts@[j])
                                == wanted[j],
                    decreases attributes@.len() - i,
                {
                    let a = &attributes[i];
                    assert(unicode_attribute(attributes@[i as int]));
                    atts.push(
                        (
                            erl_char_list_to_string(&a.0),
                            erl_char_list_to_string(&a.1),
                            erl_char_list_to_string(&a.2),
                            erl_char_list_to_string(&a.3),
                        ),
                    );
                    i = i + 1;
                }
                assert(crate::event::attributes_view(atts@) =~= wanted);
                Event::StartElement {
                    uri: erl_char_list_to_string(&uri),
                    local_name: erl_char_list_to_string(&local_name),
                    prefix: erl_char_list_to_string(&prefix),
                    attributes: atts,
                }
            } else {
                Event::Unkown
            }
        },
        SaxTerm::Atom(tag) => {
            if named(&tag, "startDocument") {
                Event::StartDocument
            } else if named(&tag, "endDocument") {
                Event::EndDocument
            } else {
                Event::Unkown
            }
        },
        SaxTerm::Other => Event::Unkown,
    }
}

/// The events that a list of terms stands for.
pub open spec fn decoded_terms(terms: Seq<SaxTerm>) -> Seq<EventView> {
    Seq::new(terms.len(), |i: int| decoded_term(terms[i]))
}

/// Builds a collection from the event terms of one document.
pub fn parse_list(terms: Vec<SaxTerm>, base_uri: String) -> (result: Result<
    NodeCollection,
    BuildError,
>)
    requires
        forall|i: int| 0 <= i < terms@.len() ==> unicode_term(#[trigger] terms@[i]),
    ensures
        build_agrees(result, built(decoded_terms(terms@), base_uri@)),
{
    let ghost wanted = decoded_terms(terms@);
    let mut events: Vec<Event> = Vec::new();
    for term in iter: terms
        invariant
            iter.seq() == terms@,
            forall|i: int| 0 <= i < terms@.len() ==> unicode_term(#[trigger] terms@[i]),
            wanted == decoded_terms(terms@),
            events@.len() == iter.index(),
            forall|j: int| 0 <= j < iter.index() ==> (#[trigger] events@[j])@ == wanted[j],
    {
        events.push(decode_event(term));
    }
    assert(events_view(events@) =~= wanted);
    build_collection(events, base_uri)
}

} // verus!
