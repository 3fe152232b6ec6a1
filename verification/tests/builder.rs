use libxdm::collection_builder::{build_collection, handle_event, BuildError, BuildState};
use libxdm::event::Event;
use libxdm::node_collection::NodeCollection;
use libxdm::nodes::{NodeKind, QName};

fn s(text: &str) -> String {
    text.to_string()
}

fn start(name: &str) -> Event {
    Event::StartElement { uri: s(""), local_name: s(name), prefix: s(""), attributes: vec![] }
}

fn start_with(name: &str, attributes: Vec<(&str, &str, &str, &str)>) -> Event {
    Event::StartElement {
        uri: s(""),
        local_name: s(name),
        prefix: s(""),
        attributes: attributes.into_iter().map(|(u, p, l, v)| (s(u), s(p), s(l), s(v))).collect(),
    }
}

fn initial() -> BuildState {
    (0, Vec::new(), 0, NodeCollection::new(s("base"), s("")))
}

fn run(events: Vec<Event>) -> Result<BuildState, BuildError> {
    let mut state = initial();
    for event in events {
        state = handle_event(event, state)?;
    }
    Ok(state)
}

#[test]
fn it_works() {
    assert_eq!(2 + 2, 4);
}

#[test]
fn empty_document_has_one_node() {
    let arena = build_collection(vec![Event::StartDocument, Event::EndDocument], s("base")).unwrap();
    assert_eq!(arena.nodes.len(), 1);
    assert_eq!(arena.nodes[0].node_kind, NodeKind::Document);
    assert_eq!(arena.nodes[0].children, Some(vec![]));
    assert_eq!(arena.nodes[0].parent, None);
    assert_eq!(arena.base_uri, Some(s("base")));
    assert_eq!(arena.doc_uri, Some(s("")));
}

#[test]
fn no_events_build_an_empty_arena() {
    let arena = build_collection(vec![], s("base")).unwrap();
    assert_eq!(arena.nodes.len(), 0);
}

#[test]
fn unclosed_element_is_rejected() {
    let result = build_collection(
        vec![Event::StartDocument, start("a"), Event::EndDocument],
        s("base"),
    );
    assert_eq!(result.err(), Some(BuildError::InvalidDocument));
}

#[test]
fn unclosed_document_is_rejected() {
    let result = build_collection(vec![Event::StartDocument, start("a"), Event::EndElement], s("b"));
    assert_eq!(result.err(), Some(BuildError::InvalidDocument));
}

#[test]
fn end_without_start_is_rejected() {
    assert_eq!(
        build_collection(vec![Event::EndDocument], s("b")).err(),
        Some(BuildError::InvalidDocument)
    );
    assert_eq!(
        build_collection(vec![Event::EndElement], s("b")).err(),
        Some(BuildError::InvalidDocument)
    );
    assert_eq!(
        build_collection(vec![Event::StartDocument, Event::EndElement], s("b")).err(),
        Some(BuildError::InvalidDocument)
    );
}

#[test]
fn content_outside_of_a_document_is_rejected() {
    for event in [
        Event::Characters { text: s("x") },
        Event::IgnorableWhitespace { text: s(" ") },
        Event::Comment { text: s("x") },
        Event::ProcessingInstruction { target: s("t"), data: s("d") },
        start("a"),
    ] {
        assert_eq!(build_collection(vec![event], s("b")).err(), Some(BuildError::InvalidDocument));
    }
}

#[test]
fn attributes_come_before_their_element() {
    let (next_id, stack, depth, arena) = run(vec![
        Event::StartDocument,
        start_with("e", vec![("", "", "a1", "1"), ("", "", "a2", "2"), ("", "", "a3", "3")]),
    ])
    .unwrap();
    assert_eq!(next_id, 5);
    assert_eq!(stack, vec![0, 4]);
    assert_eq!(depth, 2);
    assert_eq!(arena.nodes.len(), 5);
    let element = &arena.nodes[4];
    assert_eq!(element.node_kind, NodeKind::Element);
    assert_eq!(element.attributes, Some(vec![1, 2, 3]));
    assert_eq!(element.parent, Some(0));
    assert_eq!(element.level, 1);
    assert_eq!(element.children, Some(vec![]));
    for (id, value) in [(1usize, "1"), (2, "2"), (3, "3")] {
        let attribute = &arena.nodes[id];
        assert_eq!(attribute.node_kind, NodeKind::Attribute);
        assert_eq!(attribute.parent, Some(4));
        assert_eq!(attribute.level, 2);
        assert_eq!(attribute.string_value, Some(s(value)));
        assert_eq!(attribute.children, None);
    }
    assert_eq!(arena.nodes[0].children, Some(vec![4]));
    // the names are interned in the order of their use: a1, a2, a3, then e
    assert_eq!(arena.names, vec![s("a1"), s("a2"), s("a3"), s("e")]);
    assert_eq!(arena.nsp, vec![s("")]);
    assert_eq!(arena.nodes[1].node_name, Some(QName { uri: 0, prefix: 0, local: 0 }));
    assert_eq!(arena.nodes[4].node_name, Some(QName { uri: 0, prefix: 0, local: 3 }));
}

#[test]
fn ids_are_dense_and_in_order() {
    let events = vec![
        Event::StartDocument,
        start("a"),
        Event::Characters { text: s("x") },
        Event::Comment { text: s("c") },
        Event::ProcessingInstruction { target: s("pi"), data: s("d") },
        Event::IgnorableWhitespace { text: s(" ") },
        Event::EndElement,
        Event::EndDocument,
    ];
    let mut state = initial();
    let mut expected = 0;
    for event in events {
        let grows = !matches!(event, Event::EndElement | Event::EndDocument);
        state = handle_event(event, state).unwrap();
        if grows {
            expected += 1;
        }
        assert_eq!(state.0, expected);
        assert_eq!(state.3.nodes.len(), expected);
        assert_eq!(state.2 as usize, state.1.len());
    }
    let arena = state.3;
    let kinds: Vec<NodeKind> = arena.nodes.iter().map(|n| n.node_kind).collect();
    assert_eq!(
        kinds,
        vec![
            NodeKind::Document,
            NodeKind::Element,
            NodeKind::Text,
            NodeKind::Comment,
            NodeKind::ProcessingInstruction,
            NodeKind::Text,
        ]
    );
    assert_eq!(arena.nodes[1].children, Some(vec![2, 3, 4, 5]));
    assert_eq!(arena.nodes[0].level, 0);
    assert_eq!(arena.nodes[1].level, 1);
    for id in 2..6 {
        assert_eq!(arena.nodes[id].level, 2);
    }
    assert_eq!(arena.nodes[4].node_name, Some(QName { uri: 0, prefix: 0, local: 1 }));
    assert_eq!(arena.nodes[4].string_value, Some(s("d")));
}

#[test]
fn every_child_is_listed_once_by_its_parent() {
    let arena = build_collection(
        vec![
            Event::StartDocument,
            start_with("a", vec![("", "", "k", "v")]),
            start("b"),
            Event::EndElement,
            Event::Characters { text: s("t") },
            start_with("c", vec![("u", "p", "k", "w"), ("", "", "l", "x")]),
            start("d"),
            Event::EndElement,
            Event::EndElement,
            Event::EndElement,
            Event::EndDocument,
        ],
        s("base"),
    )
    .unwrap();
    for (id, node) in arena.nodes.iter().enumerate() {
        match node.parent {
            None => assert_eq!(node.node_kind, NodeKind::Document),
            Some(p) => {
                let parent = &arena.nodes[p];
                let in_children =
                    parent.children.as_ref().unwrap().iter().filter(|c| **c == id).count();
                let in_attributes = parent
                    .attributes
                    .as_ref()
                    .map(|a| a.iter().filter(|c| **c == id).count())
                    .unwrap_or(0);
                if node.node_kind == NodeKind::Attribute {
                    assert_eq!((in_children, in_attributes), (0, 1));
                    assert!(id < p);
                } else {
                    assert_eq!((in_children, in_attributes), (1, 0));
                    assert!(p < id);
                }
            }
        }
        for c in node.children.iter().flatten() {
            assert_eq!(arena.nodes[*c].parent, Some(id));
        }
    }
}

#[test]
fn prefix_mapping_is_recorded_at_the_next_id() {
    let (next_id, stack, depth, arena) = run(vec![
        Event::StartDocument,
        Event::StartPrefixMapping { prefix: s("p"), uri: s("urn:x") },
        Event::EndPrefixMapping,
        Event::Unkown,
    ])
    .unwrap();
    assert_eq!((next_id, stack, depth), (1, vec![0], 1));
    assert_eq!(arena.namespaces.len(), 1);
    assert_eq!(arena.namespaces[0].pos, 1);
    assert_eq!(arena.namespaces[0].prefix, s("p"));
    assert_eq!(arena.namespaces[0].uri, s("urn:x"));
    assert_eq!(arena.nodes.len(), 1);
}

#[test]
fn too_many_namespace_strings_are_refused() {
    let mut events = vec![Event::StartDocument];
    for i in 0..257 {
        events.push(Event::StartElement {
            uri: format!("urn:{}", i),
            local_name: s("e"),
            prefix: s(""),
            attributes: vec![],
        });
        events.push(Event::EndElement);
    }
    events.push(Event::EndDocument);
    assert_eq!(build_collection(events, s("b")).err(), Some(BuildError::LimitExceeded));
}

#[test]
fn namespace_table_takes_256_strings() {
    let mut events = vec![Event::StartDocument];
    for i in 0..255 {
        events.push(Event::StartElement {
            uri: format!("urn:{}", i),
            local_name: s("e"),
            prefix: s(""),
            attributes: vec![],
        });
        events.push(Event::EndElement);
    }
    events.push(Event::EndDocument);
    let arena = build_collection(events, s("b")).unwrap();
    assert_eq!(arena.nsp.len(), 256);
    assert_eq!(arena.nodes[255].node_name.as_ref().unwrap().uri, 255);
}

#[test]
fn nesting_deeper_than_a_level_can_count_is_refused() {
    let mut state = initial();
    for _ in 0..65535 {
        state = handle_event(Event::StartDocument, state).unwrap();
    }
    assert_eq!(state.2, u16::MAX);
    assert_eq!(state.1.len(), 65535);
    assert_eq!(handle_event(Event::StartDocument, state).err(), Some(BuildError::LimitExceeded));

    let mut state = handle_event(Event::StartDocument, initial()).unwrap();
    for _ in 0..65533 {
        state = handle_event(start("a"), state).unwrap();
    }
    assert_eq!(state.2, 65534);
    assert_eq!(state.3.nodes[65533].level, 65533);
    state = handle_event(start_with("a", vec![("", "", "k", "v")]), state).unwrap();
    assert_eq!(state.2, u16::MAX);
    assert_eq!(state.3.nodes[65534].level, u16::MAX);
    assert_eq!(state.3.nodes[65535].level, 65534);
    state = handle_event(Event::Characters { text: s("x") }, state).unwrap();
    assert_eq!(state.3.nodes[65536].level, u16::MAX);
    assert_eq!(handle_event(start("a"), state).err(), Some(BuildError::LimitExceeded));
}

#[test]
fn every_node_is_one_level_below_its_parent() {
    let arena = build_collection(
        vec![
            Event::StartDocument,
            Event::Comment { text: s("c") },
            start_with("a", vec![("", "", "k", "v")]),
            Event::Characters { text: s("t") },
            start_with("b", vec![("", "", "k", "v"), ("", "", "l", "w")]),
            Event::ProcessingInstruction { target: s("p"), data: s("d") },
            start("c"),
            Event::IgnorableWhitespace { text: s(" ") },
            Event::EndElement,
            Event::EndElement,
            start("d"),
            Event::EndElement,
            Event::EndElement,
            Event::EndDocument,
        ],
        s("base"),
    )
    .unwrap();
    // document 0, comment 1, k 2, a 3, t 4, k 5, l 6, b 7, pi 8, c 9, space 10, d 11
    let levels: Vec<u16> = arena.nodes.iter().map(|n| n.level).collect();
    assert_eq!(levels, vec![0, 1, 2, 1, 2, 3, 3, 2, 3, 3, 4, 2]);
    for node in &arena.nodes {
        match node.parent {
            None => assert_eq!(node.level, 0),
            Some(p) => assert_eq!(node.level, arena.nodes[p].level + 1),
        }
    }
}

#[test]
fn levels_count_from_the_root_of_each_document() {
    let (_, stack, depth, arena) = run(vec![
        Event::StartDocument,
        start("a"),
        Event::StartDocument,
        start("b"),
        Event::Characters { text: s("t") },
    ])
    .unwrap();
    assert_eq!(stack, vec![0, 1, 2, 3]);
    assert_eq!(depth, 4);
    let levels: Vec<u16> = arena.nodes.iter().map(|n| n.level).collect();
    assert_eq!(levels, vec![0, 1, 0, 1, 2]);
}

#[test]
fn a_document_may_follow_a_document() {
    let arena = build_collection(
        vec![
            Event::StartDocument,
            start("a"),
            Event::EndElement,
            Event::EndDocument,
            Event::StartDocument,
            Event::EndDocument,
        ],
        s("base"),
    )
    .unwrap();
    assert_eq!(arena.nodes.len(), 3);
    assert_eq!(arena.nodes[2].node_kind, NodeKind::Document);
    assert_eq!(arena.nodes[2].parent, None);
    assert_eq!(arena.nodes[0].children, Some(vec![1]));
}

#[test]
fn a_failed_event_ends_the_build() {
    let result = build_collection(
        vec![Event::EndElement, Event::StartDocument, Event::EndDocument],
        s("base"),
    );
    assert_eq!(result.err(), Some(BuildError::InvalidDocument));
}
