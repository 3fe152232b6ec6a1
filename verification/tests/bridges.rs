use libxdm::collection_builder::BuildError;
use libxdm::event::Event;
use libxdm::mem_nodes::{
    ancestors, children, children_of, descendants, parse_binary, parse_list, size, string_value,
    NodeResource, Payload, XqerlNode,
};
use libxdm::nodes::{NodeId, NodeKind};
use libxdm::xmerl_sax::{erl_char_list_to_string, is_unicode_list, CharList, SaxTerm};
use libxdm::xml_rs_bridge::{empty_str_if_none, parse_tokens, XmlFailure, XmlItem, XmlToken};
use xml::attribute::OwnedAttribute;
use xml::name::OwnedName;
use xml::reader::{EventReader, XmlEvent};

fn own_token(event: XmlEvent) -> XmlToken {
    match event {
        XmlEvent::StartDocument { .. } => XmlToken::StartDocument,
        XmlEvent::EndDocument => XmlToken::EndDocument,
        XmlEvent::ProcessingInstruction { name, data } => {
            XmlToken::ProcessingInstruction { target: name, data }
        }
        XmlEvent::StartElement { name, attributes, .. } => {
            XmlToken::StartElement { name, attributes }
        }
        XmlEvent::EndElement { .. } => XmlToken::EndElement,
        XmlEvent::CData(text) => XmlToken::CData(text),
        XmlEvent::Comment(text) => XmlToken::Comment(text),
        XmlEvent::Characters(text) => XmlToken::Characters(text),
        XmlEvent::Whitespace(text) => XmlToken::Whitespace(text),
    }
}

/// What the parser yields for a text: its events, and its error if it meets one.
fn items_of(text: &str) -> Vec<XmlItem> {
    EventReader::new(text.as_bytes())
        .into_iter()
        .map(|item| item.map(own_token).map_err(|_| XmlFailure))
        .collect()
}

fn s(text: &str) -> String {
    text.to_string()
}

fn list(text: &str) -> CharList {
    text.chars().map(|c| Some(c as u32)).collect()
}

fn resource(text: &str) -> NodeResource {
    parse_binary(items_of(text), s("base")).unwrap()
}

fn summary(nodes: &Vec<XqerlNode>) -> Vec<(NodeId, Payload)> {
    nodes
        .iter()
        .map(|n| {
            (
                n.id,
                match &n.payload {
                    Payload::Element(name) => Payload::Element(name.clone()),
                    Payload::Comment(t) => Payload::Comment(t.clone()),
                    Payload::Document(t) => Payload::Document(t.clone()),
                    Payload::Text(t) => Payload::Text(t.clone()),
                },
            )
        })
        .collect()
}

fn element(namespace: &str, prefix: &str, local: &str) -> Payload {
    Payload::Element(Some((s(namespace), s(prefix), s(local))))
}

#[test]
fn code_points_become_utf8_text() {
    assert_eq!(erl_char_list_to_string(&list("hello")), "hello");
    assert_eq!(erl_char_list_to_string(&vec![]), "");
    // one, two, three and four bytes
    let text = erl_char_list_to_string(&vec![Some(0x24), Some(0xA3), Some(0x20AC), Some(0x10348)]);
    assert_eq!(text, "$\u{A3}\u{20AC}\u{10348}");
    assert_eq!(
        text.as_bytes(),
        &[0x24, 0xC2, 0xA3, 0xE2, 0x82, 0xAC, 0xF0, 0x90, 0x8D, 0x88]
    );
    // the ends of the ranges
    let edges = vec![
        Some(0x0),
        Some(0x7F),
        Some(0x80),
        Some(0x7FF),
        Some(0x800),
        Some(0xD7FF),
        Some(0xE000),
        Some(0xFFFF),
        Some(0x10000),
        Some(0x10FFFF),
    ];
    let expected: String = edges.iter().map(|d| char::from_u32(d.unwrap()).unwrap()).collect();
    assert_eq!(erl_char_list_to_string(&edges), expected);
}

#[test]
fn an_element_that_is_no_integer_counts_as_zero() {
    assert_eq!(erl_char_list_to_string(&vec![Some(0x61), None, Some(0x62)]), "a\u{0}b");
}

#[test]
fn code_points_are_checked() {
    assert!(is_unicode_list(&list("hällo €")));
    assert!(is_unicode_list(&vec![]));
    assert!(is_unicode_list(&vec![None, Some(0xD7FF), Some(0xE000), Some(0x10FFFF)]));
    assert!(!is_unicode_list(&vec![Some(0x61), Some(0x110000)]));
    assert!(!is_unicode_list(&vec![Some(0xD800)]));
    assert!(!is_unicode_list(&vec![Some(0xDFFF), Some(0x61)]));
    assert!(!is_unicode_list(&vec![Some(u32::MAX)]));
}

fn sax_document() -> Vec<SaxTerm> {
    vec![
        SaxTerm::Atom(s("startDocument")),
        SaxTerm::Triple(s("startPrefixMapping"), list("p"), list("urn:p")),
        SaxTerm::StartTag {
            tag: s("startElement"),
            uri: list("urn:p"),
            local_name: list("a"),
            prefix: list("p"),
            attributes: vec![(list(""), list(""), list("k"), list("v"))],
        },
        SaxTerm::Pair(s("characters"), list("x")),
        SaxTerm::Pair(s("ignorableWhitespace"), list(" ")),
        SaxTerm::Pair(s("comment"), list("c")),
        SaxTerm::Triple(s("processingInstruction"), list("t"), list("d")),
        SaxTerm::Pair(s("startEntity"), list("e")),
        SaxTerm::Other,
        SaxTerm::EndTag(s("endElement")),
        SaxTerm::Pair(s("endPrefixMapping"), list("p")),
        SaxTerm::Atom(s("endDocument")),
    ]
}

#[test]
fn sax_terms_are_decoded() {
    assert!(matches!(libxdm::xmerl_sax::decode_event(SaxTerm::Atom(s("startDocument"))), Event::StartDocument));
    assert!(matches!(libxdm::xmerl_sax::decode_event(SaxTerm::Atom(s("endDocument"))), Event::EndDocument));
    assert!(matches!(libxdm::xmerl_sax::decode_event(SaxTerm::Atom(s("other"))), Event::Unkown));
    assert!(matches!(libxdm::xmerl_sax::decode_event(SaxTerm::Other), Event::Unkown));
    assert!(matches!(libxdm::xmerl_sax::decode_event(SaxTerm::EndTag(s("endElement"))), Event::EndElement));
    assert!(matches!(libxdm::xmerl_sax::decode_event(SaxTerm::EndTag(s("startElement"))), Event::Unkown));
    assert!(matches!(
        libxdm::xmerl_sax::decode_event(SaxTerm::Pair(s("endPrefixMapping"), list("p"))),
        Event::EndPrefixMapping
    ));
    match libxdm::xmerl_sax::decode_event(SaxTerm::Pair(s("characters"), list("x"))) {
        Event::Characters { text } => assert_eq!(text, "x"),
        _ => panic!("characters"),
    }
    match libxdm::xmerl_sax::decode_event(SaxTerm::Pair(s("ignorableWhitespace"), list(" "))) {
        Event::IgnorableWhitespace { text } => assert_eq!(text, " "),
        _ => panic!("whitespace"),
    }
    match libxdm::xmerl_sax::decode_event(SaxTerm::Pair(s("comment"), list("c"))) {
        Event::Comment { text } => assert_eq!(text, "c"),
        _ => panic!("comment"),
    }
    assert!(matches!(libxdm::xmerl_sax::decode_event(SaxTerm::Pair(s("startEntity"), list("c"))), Event::Unkown));
    match libxdm::xmerl_sax::decode_event(SaxTerm::Triple(s("startPrefixMapping"), list("p"), list("u"))) {
        Event::StartPrefixMapping { prefix, uri } => {
            assert_eq!(prefix, "p");
            assert_eq!(uri, "u");
        }
        _ => panic!("prefix mapping"),
    }
    match libxdm::xmerl_sax::decode_event(SaxTerm::Triple(s("processingInstruction"), list("t"), list("d"))) {
        Event::ProcessingInstruction { target, data } => {
            assert_eq!(target, "t");
            assert_eq!(data, "d");
        }
        _ => panic!("processing instruction"),
    }
    assert!(matches!(
        libxdm::xmerl_sax::decode_event(SaxTerm::Triple(s("elementDecl"), list("t"), list("d"))),
        Event::Unkown
    ));
    match libxdm::xmerl_sax::decode_event(SaxTerm::StartTag {
        tag: s("startElement"),
        uri: list("u"),
        local_name: list("l"),
        prefix: list("p"),
        attributes: vec![(list("au"), list("ap"), list("al"), list("av"))],
    }) {
        Event::StartElement { uri, local_name, prefix, attributes } => {
            assert_eq!(uri, "u");
            assert_eq!(local_name, "l");
            assert_eq!(prefix, "p");
            assert_eq!(attributes, vec![(s("au"), s("ap"), s("al"), s("av"))]);
        }
        _ => panic!("start element"),
    }
}

#[test]
fn terms_are_checked_as_far_as_they_are_read() {
    let bad = vec![Some(0xD800)];
    assert!(!SaxTerm::Pair(s("characters"), bad.clone()).is_unicode());
    assert!(!SaxTerm::Pair(s("comment"), bad.clone()).is_unicode());
    assert!(SaxTerm::Pair(s("endPrefixMapping"), bad.clone()).is_unicode());
    assert!(SaxTerm::Pair(s("startEntity"), bad.clone()).is_unicode());
    assert!(!SaxTerm::Triple(s("startPrefixMapping"), list("p"), bad.clone()).is_unicode());
    assert!(!SaxTerm::Triple(s("processingInstruction"), bad.clone(), list("p")).is_unicode());
    assert!(SaxTerm::Triple(s("elementDecl"), bad.clone(), list("p")).is_unicode());
    assert!(SaxTerm::Atom(s("startDocument")).is_unicode());
    assert!(SaxTerm::Other.is_unicode());
    let tag = |name: &str, attribute: CharList| SaxTerm::StartTag {
        tag: s(name),
        uri: list("u"),
        local_name: list("l"),
        prefix: list("p"),
        attributes: vec![(list(""), list(""), list("k"), list("v")), (
            list(""),
            list(""),
            list("k"),
            attribute,
        )],
    };
    assert!(tag("startElement", list("v")).is_unicode());
    assert!(!tag("startElement", bad.clone()).is_unicode());
    assert!(tag("other", bad.clone()).is_unicode());
    for term in sax_document() {
        assert!(term.is_unicode());
    }
}

#[test]
fn a_list_of_terms_builds_a_resource() {
    let resource = parse_list(sax_document(), s("base")).unwrap();
    assert_eq!(size(&resource), 7);
    let arena = resource.collection();
    let kinds: Vec<NodeKind> = arena.nodes.iter().map(|n| n.node_kind).collect();
    assert_eq!(
        kinds,
        vec![
            NodeKind::Document,
            NodeKind::Attribute,
            NodeKind::Element,
            NodeKind::Text,
            NodeKind::Text,
            NodeKind::Comment,
            NodeKind::ProcessingInstruction,
        ]
    );
    assert_eq!(arena.base_uri, Some(s("base")));
    assert_eq!(arena.namespaces.len(), 1);
    assert_eq!(arena.namespaces[0].pos, 1);
    assert_eq!(
        summary(&children(&resource, 2)),
        vec![
            (3, Payload::Text(s("x"))),
            (4, Payload::Text(s(" "))),
            (5, Payload::Comment(s("c"))),
        ]
    );
    assert_eq!(string_value(&resource, 2), "x ");
    assert_eq!(string_value(&resource, 5), "c");
}

#[test]
fn unbalanced_terms_build_nothing() {
    let mut terms = sax_document();
    terms.remove(9);
    assert_eq!(parse_list(terms, s("base")).err(), Some(BuildError::InvalidDocument));
    let mut terms = sax_document();
    terms.pop();
    assert_eq!(parse_list(terms, s("base")).err(), Some(BuildError::InvalidDocument));
}

#[test]
fn nodes_are_handed_out_with_their_payload() {
    let resource = resource("<p:a xmlns:p='urn:p' k='v'><b/>text<?pi d?><c><d/></c></p:a>");
    // document 0, k 1, a 2, b 3, text 4, pi 5, c 6, d 7
    assert_eq!(size(&resource), 8);
    let found = descendants(&resource, 0);
    for node in &found {
        assert!(std::ptr::eq(node.resource, &resource));
    }
    assert_eq!(
        summary(&found),
        vec![
            (2, element("urn:p", "p", "a")),
            (3, element("", "", "b")),
            (4, Payload::Text(s("text"))),
            (6, element("", "", "c")),
            (7, element("", "", "d")),
        ]
    );
    assert_eq!(
        summary(&ancestors(&resource, 7)),
        vec![(6, element("", "", "c")), (2, element("urn:p", "p", "a")), (0, Payload::Document(s("")))]
    );
    assert_eq!(
        summary(&children(&resource, 2)),
        vec![(3, element("", "", "b")), (4, Payload::Text(s("text"))), (6, element("", "", "c"))]
    );
    assert_eq!(summary(&children(&resource, 3)), vec![]);
    assert_eq!(summary(&ancestors(&resource, 0)), vec![]);
    assert_eq!(string_value(&resource, 2), "text");
    assert_eq!(string_value(&resource, 1), "");
}

#[test]
fn children_of_a_batch() {
    let one = resource("<a><b/><c/></a>");
    let two = resource("<x>y</x>");
    let found = children_of(&vec![(&one, 1), (&two, 1), (&one, 0), (&one, 2), (&one, 1)]);
    assert_eq!(
        summary(&found),
        vec![
            (2, element("", "", "b")),
            (3, element("", "", "c")),
            (2, Payload::Text(s("y"))),
            (1, element("", "", "a")),
            (2, element("", "", "b")),
            (3, element("", "", "c")),
        ]
    );
    let owners: Vec<bool> = found.iter().map(|n| std::ptr::eq(n.resource, &one)).collect();
    assert_eq!(owners, vec![true, true, false, true, true, true]);
    assert!(std::ptr::eq(found[2].resource, &two));
    assert_eq!(children_of(&vec![]).len(), 0);
}

#[test]
fn a_built_collection_becomes_a_resource() {
    let collection = libxdm::collection_builder::build_collection(
        vec![
            Event::StartDocument,
            Event::Comment { text: s("c") },
            Event::ProcessingInstruction { target: s("t"), data: s("d") },
            Event::EndDocument,
        ],
        s("base"),
    )
    .unwrap();
    assert!(collection.names_inv.is_empty());
    let resource = NodeResource::new(collection);
    assert_eq!(resource.collection().names_inv.len(), 1);
    assert_eq!(summary(&children(&resource, 0)), vec![(1, Payload::Comment(s("c")))]);
}

#[test]
fn a_resource_is_finalized() {
    let resource = resource("<p:a xmlns:p='urn:p'/>");
    let arena = resource.collection();
    assert_eq!(arena.names_inv.len(), arena.names.len());
    assert_eq!(arena.nsp_inv.len(), arena.nsp.len());
    let name = arena.node(1).node_name();
    assert_eq!(arena.get_qname(name), Some((&s("urn:p"), &s("p"), &s("a"))));
}

#[test]
fn text_that_is_no_document_gives_no_resource() {
    for text in ["<a><b></a>", "<a", "", "plain words"] {
        assert_eq!(
            parse_binary(items_of(text), s("base")).err(),
            Some(BuildError::InvalidDocument)
        );
    }
    assert_eq!(
        parse_binary(vec![Err(XmlFailure)], s("base")).err(),
        Some(BuildError::InvalidDocument)
    );
}

#[test]
fn missing_text_is_empty() {
    assert_eq!(empty_str_if_none(None), "");
    assert_eq!(empty_str_if_none(Some(&s("x"))), "x");
}

#[test]
fn parser_tokens_are_decoded() {
    assert!(matches!(libxdm::xml_rs_bridge::decode_event(XmlToken::StartDocument), Event::StartDocument));
    assert!(matches!(libxdm::xml_rs_bridge::decode_event(XmlToken::EndDocument), Event::EndDocument));
    assert!(matches!(libxdm::xml_rs_bridge::decode_event(XmlToken::EndElement), Event::EndElement));
    for token in [XmlToken::Whitespace(s("w")), XmlToken::Characters(s("w")), XmlToken::CData(s("w"))]
    {
        match libxdm::xml_rs_bridge::decode_event(token) {
            Event::Characters { text } => assert_eq!(text, "w"),
            _ => panic!("characters"),
        }
    }
    match libxdm::xml_rs_bridge::decode_event(XmlToken::Comment(s("c"))) {
        Event::Comment { text } => assert_eq!(text, "c"),
        _ => panic!("comment"),
    }
    match libxdm::xml_rs_bridge::decode_event(XmlToken::ProcessingInstruction { target: s("t"), data: None }) {
        Event::ProcessingInstruction { target, data } => {
            assert_eq!(target, "t");
            assert_eq!(data, "");
        }
        _ => panic!("processing instruction"),
    }
    match libxdm::xml_rs_bridge::decode_event(XmlToken::ProcessingInstruction { target: s("t"), data: Some(s("d")) }) {
        Event::ProcessingInstruction { target, data } => {
            assert_eq!(target, "t");
            assert_eq!(data, "d");
        }
        _ => panic!("processing instruction"),
    }
    let name = |local: &str, namespace: Option<&str>, prefix: Option<&str>| OwnedName {
        local_name: s(local),
        namespace: namespace.map(s),
        prefix: prefix.map(s),
    };
    match libxdm::xml_rs_bridge::decode_event(XmlToken::StartElement {
        name: name("l", Some("u"), None),
        attributes: vec![
            OwnedAttribute { name: name("k", None, Some("p")), value: s("v") },
            OwnedAttribute { name: name("m", Some("n"), None), value: s("w") },
        ],
    }) {
        Event::StartElement { uri, local_name, prefix, attributes } => {
            assert_eq!(uri, "u");
            assert_eq!(local_name, "l");
            assert_eq!(prefix, "");
            assert_eq!(
                attributes,
                vec![(s(""), s("p"), s("k"), s("v")), (s("n"), s(""), s("m"), s("w"))]
            );
        }
        _ => panic!("start element"),
    }
}

#[test]
fn tokens_build_a_collection() {
    let arena = parse_tokens(
        vec![
            XmlToken::StartDocument,
            XmlToken::StartElement {
                name: OwnedName { local_name: s("a"), namespace: None, prefix: None },
                attributes: vec![],
            },
            XmlToken::Comment(s("c")),
            XmlToken::CData(s("d")),
            XmlToken::EndElement,
            XmlToken::EndDocument,
        ],
        s("base"),
    )
    .unwrap();
    let kinds: Vec<NodeKind> = arena.nodes.iter().map(|n| n.node_kind).collect();
    assert_eq!(
        kinds,
        vec![NodeKind::Document, NodeKind::Element, NodeKind::Comment, NodeKind::Text]
    );
    assert_eq!(
        parse_tokens(vec![XmlToken::StartDocument], s("base")).err(),
        Some(BuildError::InvalidDocument)
    );
}
