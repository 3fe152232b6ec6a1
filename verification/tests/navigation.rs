use libxdm::collection_builder::build_collection;
use libxdm::event::Event;
use libxdm::node_collection::{NodeCollection, NodeTup};
use libxdm::nodes::{Node, NodeId, NodeKind};
use libxdm::collection_builder::BuildError;
use libxdm::xml_rs_bridge::{parse_string, XmlFailure, XmlItem, XmlToken};
use xml::reader::{EventReader, XmlEvent};

fn token(event: XmlEvent) -> XmlToken {
    match event {
        XmlEvent::StartDocument { .. } => XmlToken::StartDocument,
        XmlEvent::EndDocument => XmlToken::EndDocument,
        XmlEvent::ProcessingInstruction { name, data } => {
            XmlToken::ProcessingInstruction { target: name, data }
        }
        XmlEvent::StartElement { name, attributes, .. } => {
            XmlToken::StartElement { name, attributes }
        }
        XmlEvent::EndElement { .. } => XmlToken::EndElement,
        XmlEvent::CData(text) => XmlToken::CData(text),
        XmlEvent::Comment(text) => XmlToken::Comment(text),
        XmlEvent::Characters(text) => XmlToken::Characters(text),
        XmlEvent::Whitespace(text) => XmlToken::Whitespace(text),
    }
}

/// What the parser yields for a text: its events, and its error if it meets one.
fn read(text: &str) -> Vec<XmlItem> {
    EventReader::new(text.as_bytes())
        .into_iter()
        .map(|item| item.map(token).map_err(|_| XmlFailure))
        .collect()
}

fn parse(text: &str) -> NodeCollection {
    parse_string(read(text), "base".to_string()).unwrap()
}

fn s(text: &str) -> String {
    text.to_string()
}

fn start(name: &str, attributes: Vec<(&str, &str)>) -> Event {
    Event::StartElement {
        uri: s(""),
        local_name: s(name),
        prefix: s(""),
        attributes: attributes.into_iter().map(|(l, v)| (s(""), s(""), s(l), s(v))).collect(),
    }
}

fn build(mut events: Vec<Event>) -> NodeCollection {
    events.insert(0, Event::StartDocument);
    events.push(Event::EndDocument);
    build_collection(events, s("base")).unwrap()
}

fn ids(buf: &Vec<NodeTup>) -> Vec<NodeId> {
    buf.iter().map(|(id, _)| **id).collect()
}

fn local_name(arena: &NodeCollection, node: &Node) -> String {
    arena.names[node.node_name.as_ref().unwrap().local as usize].clone()
}

fn names(arena: &NodeCollection, buf: &Vec<NodeTup>) -> Vec<String> {
    buf.iter()
        .map(|(_, n)| match n.node_kind {
            NodeKind::Document => "#document".to_string(),
            _ => local_name(arena, n),
        })
        .collect()
}

#[test]
fn parsed_document_has_the_expected_nodes() {
    let arena = parse("<a><b/><c><d/></c></a>");
    let kinds: Vec<NodeKind> = arena.nodes.iter().map(|n| n.node_kind).collect();
    assert_eq!(
        kinds,
        vec![
            NodeKind::Document,
            NodeKind::Element,
            NodeKind::Element,
            NodeKind::Element,
            NodeKind::Element
        ]
    );
    assert_eq!(arena.names, vec!["a", "b", "c", "d"]);
    assert_eq!(arena.nodes[0].children, Some(vec![1]));
    assert_eq!(arena.nodes[1].children, Some(vec![2, 3]));
    assert_eq!(arena.nodes[3].children, Some(vec![4]));
}

#[test]
fn descendants_come_in_document_order() {
    let arena = parse("<a><b/><c><d/></c></a>");
    let a: NodeId = 1;
    let mut buf = vec![];
    arena.descendants(&(&a, arena.node(a)), &mut buf);
    assert_eq!(names(&arena, &buf), vec!["b", "c", "d"]);
    assert_eq!(ids(&buf), vec![2, 3, 4]);
    for (id, node) in &buf {
        assert!(std::ptr::eq(*node, arena.node(**id)));
    }
}

#[test]
fn descendants_keep_what_the_buffer_held() {
    let arena = parse("<a><b/><c><d/></c></a>");
    let a: NodeId = 1;
    let c: NodeId = 3;
    let mut buf = vec![];
    arena.descendants(&(&c, arena.node(c)), &mut buf);
    arena.descendants(&(&a, arena.node(a)), &mut buf);
    assert_eq!(ids(&buf), vec![4, 2, 3, 4]);
}

#[test]
fn ancestors_come_nearest_first() {
    let arena = parse("<a><b/><c><d/></c></a>");
    let d: NodeId = 4;
    let mut buf = vec![];
    arena.ancestors(&(&d, arena.node(d)), &mut buf);
    assert_eq!(names(&arena, &buf), vec!["c", "a", "#document"]);
    assert_eq!(ids(&buf), vec![3, 1, 0]);
}

#[test]
fn ancestors_of_an_attribute_start_with_its_element() {
    let arena = parse("<a><c k='v'/></a>");
    // document 0, a 1, attribute 2, c 3
    assert_eq!(arena.nodes[2].node_kind, NodeKind::Attribute);
    let k: NodeId = 2;
    let mut buf = vec![];
    arena.ancestors(&(&k, arena.node(k)), &mut buf);
    assert_eq!(ids(&buf), vec![3, 1, 0]);
}

#[test]
fn ancestors_of_several_nodes_are_not_merged() {
    let arena = parse("<a><b/><c><d/></c></a>");
    let b: NodeId = 2;
    let d: NodeId = 4;
    let tb = (&b, arena.node(b));
    let td = (&d, arena.node(d));
    let mut buf = vec![];
    arena.ancestors_of(vec![&tb, &td], &mut buf);
    assert_eq!(ids(&buf), vec![1, 0, 3, 1, 0]);
}

#[test]
fn children_come_in_document_order() {
    let arena = build(vec![
        start("a", vec![]),
        start("b", vec![]),
        Event::EndElement,
        Event::Characters { text: s("text") },
        start("c", vec![]),
        start("d", vec![]),
        Event::EndElement,
        Event::EndElement,
        Event::Comment { text: s("x") },
        Event::EndElement,
    ]);
    let a: NodeId = 1;
    let mut buf = vec![];
    arena.children(&(&a, arena.node(a)), &mut buf);
    assert_eq!(ids(&buf), vec![2, 3, 4, 6]);
    let b: NodeId = 2;
    let mut none = vec![];
    arena.children(&(&b, arena.node(b)), &mut none);
    assert!(none.is_empty());
    let text: NodeId = 3;
    arena.children(&(&text, arena.node(text)), &mut none);
    assert!(none.is_empty());
}

#[test]
fn string_value_of_an_element_joins_its_texts() {
    let arena = build(vec![
        start("e", vec![]),
        Event::Characters { text: s("foo") },
        Event::Comment { text: s("bar") },
        start("n", vec![]),
        Event::Characters { text: s("baz") },
        Event::EndElement,
        Event::EndElement,
    ]);
    assert_eq!(arena.nodes[3].node_kind, NodeKind::Comment);
    let e: NodeId = 1;
    assert_eq!(arena.string_value(&(&e, arena.node(e))), "foobaz");
    let root: NodeId = 0;
    assert_eq!(arena.string_value(&(&root, arena.node(root))), "foobaz");
}

#[test]
fn string_value_of_the_other_kinds() {
    let arena = build(vec![
        start("e", vec![("k", "v")]),
        Event::Characters { text: s("foo") },
        Event::Comment { text: s("bar") },
        Event::ProcessingInstruction { target: s("pi"), data: s("data") },
        Event::EndElement,
    ]);
    // document 0, attribute 1, e 2, text 3, comment 4, pi 5
    let kinds: Vec<NodeKind> = arena.nodes.iter().map(|n| n.node_kind).collect();
    assert_eq!(
        kinds,
        vec![
            NodeKind::Document,
            NodeKind::Attribute,
            NodeKind::Element,
            NodeKind::Text,
            NodeKind::Comment,
            NodeKind::ProcessingInstruction
        ]
    );
    let value = |id: NodeId| arena.string_value(&(&id, arena.node(id)));
    assert_eq!(value(1), "");
    assert_eq!(value(2), "foo");
    assert_eq!(value(3), "foo");
    assert_eq!(value(4), "bar");
    assert_eq!(value(5), "");
    assert_eq!(arena.nodes[1].string_value, Some("v".to_string()));
    assert_eq!(arena.nodes[5].string_value, Some("data".to_string()));
}

#[test]
fn typed_descendants_are_filtered_by_kind() {
    let arena = build(vec![
        start("a", vec![]),
        Event::Characters { text: s("x") },
        start("b", vec![]),
        Event::Characters { text: s("y") },
        Event::EndElement,
        Event::Comment { text: s("c") },
        start("d", vec![]),
        Event::EndElement,
        Event::IgnorableWhitespace { text: s("z") },
        Event::EndElement,
    ]);
    let a: NodeId = 1;
    let mut texts = vec![];
    arena.get_typed_descendants(NodeKind::Text, &(&a, arena.node(a)), &mut texts);
    let values: Vec<&str> =
        texts.iter().map(|(_, n)| n.string_value.as_ref().unwrap().as_str()).collect();
    assert_eq!(values, vec!["x", "y", "z"]);
    let mut elements = vec![];
    arena.get_typed_descendants(NodeKind::Element, &(&a, arena.node(a)), &mut elements);
    assert_eq!(names(&arena, &elements), vec!["b", "d"]);
}

#[test]
fn malformed_text_is_rejected() {
    for text in ["<a><b></a>", "<a>", "<a></b>", "<a><b></b>", "<a", "<a/>trailing words"] {
        assert_eq!(
            parse_string(read(text), "base".to_string()).err(),
            Some(BuildError::InvalidDocument)
        );
    }
}

#[test]
fn empty_text_is_rejected() {
    let items = read("");
    assert_eq!(items.len(), 1);
    assert!(items[0].is_err());
    assert_eq!(parse_string(items, "base".to_string()).err(), Some(BuildError::InvalidDocument));
}

#[test]
fn plain_words_are_rejected() {
    for text in ["plain words", "hello", "  \n ", "x<a/>"] {
        let items = read(text);
        assert!(items.iter().any(|item| item.is_err()));
        assert_eq!(
            parse_string(items, "base".to_string()).err(),
            Some(BuildError::InvalidDocument)
        );
    }
}

#[test]
fn an_error_of_the_parser_makes_the_text_invalid() {
    // also where the events before and after the error would form a document
    let items = vec![
        Ok(XmlToken::StartDocument),
        Err(XmlFailure),
        Ok(XmlToken::EndDocument),
    ];
    assert_eq!(parse_string(items, "base".to_string()).err(), Some(BuildError::InvalidDocument));
    assert_eq!(
        parse_string(vec![Err(XmlFailure)], "base".to_string()).err(),
        Some(BuildError::InvalidDocument)
    );
    let fine = vec![Ok(XmlToken::StartDocument), Ok(XmlToken::EndDocument)];
    assert_eq!(parse_string(fine, "base".to_string()).unwrap().nodes.len(), 1);
    assert_eq!(parse_string(vec![], "base".to_string()).unwrap().nodes.len(), 0);
}

#[test]
fn parser_events_are_decoded() {
    let arena = parse("<p:a xmlns:p='urn:p' p:k='v'><![CDATA[<raw>]]> <?t?></p:a>");
    // document 0, attribute 1, element 2, then the content
    let element = &arena.nodes[2];
    let name = element.node_name.as_ref().unwrap();
    assert_eq!(arena.names[name.local as usize], "a");
    assert_eq!(arena.nsp[name.prefix as usize], "p");
    assert_eq!(arena.nsp[name.uri as usize], "urn:p");
    let attribute = &arena.nodes[1];
    let name = attribute.node_name.as_ref().unwrap();
    assert_eq!(arena.names[name.local as usize], "k");
    assert_eq!(arena.nsp[name.prefix as usize], "p");
    assert_eq!(arena.nsp[name.uri as usize], "urn:p");
    let last = arena.nodes.last().unwrap();
    assert_eq!(last.node_kind, NodeKind::ProcessingInstruction);
    assert_eq!(last.string_value, Some(String::new()));
    let e: NodeId = 2;
    assert_eq!(arena.string_value(&(&e, arena.node(e))), "<raw> ");
}

#[test]
fn ids_rise_along_the_document() {
    let arena = parse("<a k='1'><b l='2' m='3'><c/>x</b><d><e n='4'/></d>y<f/></a>");
    for id in 0..arena.nodes.len() {
        let mut buf = vec![];
        arena.descendants(&(&id, arena.node(id)), &mut buf);
        let found = ids(&buf);
        let mut sorted = found.clone();
        sorted.sort();
        sorted.dedup();
        assert_eq!(found, sorted);
        assert!(found.iter().all(|d| *d > id));
    }
    let root: NodeId = 0;
    let mut buf = vec![];
    arena.descendants(&(&root, arena.node(root)), &mut buf);
    let others: Vec<NodeId> = (1..arena.nodes.len())
        .filter(|id| arena.nodes[*id].node_kind != NodeKind::Attribute)
        .collect();
    assert_eq!(ids(&buf), others);
}
