use libxdm::node_collection::NodeCollection;
use libxdm::nodes::{Namespace, Node, NodeKind, QName};

fn s(text: &str) -> String {
    text.to_string()
}

fn empty() -> NodeCollection {
    NodeCollection::new(s("base"), s("doc"))
}

#[test]
fn new_collection_is_empty() {
    let c = empty();
    assert_eq!(c.base_uri, Some(s("base")));
    assert_eq!(c.doc_uri, Some(s("doc")));
    assert!(c.names.is_empty());
    assert!(c.nsp.is_empty());
    assert!(c.names_inv.is_empty());
    assert!(c.nsp_inv.is_empty());
    assert!(c.namespaces.is_empty());
    assert!(c.nodes.is_empty());
    assert_eq!(c.get_uri(), Some(&s("doc")));
}

#[test]
fn interning_twice_gives_the_same_id() {
    let mut c = empty();
    let first = c.name_id(s("a"));
    let other = c.name_id(s("b"));
    let again = c.name_id(s("a"));
    assert_eq!(first, 0);
    assert_eq!(other, 1);
    assert_eq!(again, first);
    assert_eq!(c.names, vec![s("a"), s("b")]);
    assert_eq!(c.nsp_id(s("a")), 0);
    assert_eq!(c.nsp_id(s("")), 1);
    assert_eq!(c.nsp_id(s("a")), 0);
    assert_eq!(c.nsp, vec![s("a"), s("")]);
}

#[test]
fn two_collections_intern_on_their_own() {
    let mut one = empty();
    let mut two = empty();
    one.name_id(s("x"));
    assert_eq!(one.name_id(s("a")), 1);
    assert_eq!(two.name_id(s("a")), 0);
}

#[test]
fn lookups_do_not_intern() {
    let mut c = empty();
    assert_eq!(c.name_id_stat(s("a")), None);
    assert_eq!(c.nsp_id_stat(s("a")), None);
    assert!(c.names.is_empty());
    c.name_id(s("a"));
    c.nsp_id(s("u"));
    c.nsp_id(s("v"));
    assert_eq!(c.name_id_stat(s("a")), Some(0));
    assert_eq!(c.nsp_id_stat(s("v")), Some(1));
    assert_eq!(c.nsp_id_stat(s("a")), None);
    assert_eq!(c.name_id_stat(s("u")), None);
}

#[test]
fn qname_interns_local_then_prefix_then_namespace() {
    let mut c = empty();
    let name = c.qname(s("local"), s("p"), s("urn:x"));
    assert_eq!(name, QName { uri: 1, prefix: 0, local: 0 });
    assert_eq!(c.names, vec![s("local")]);
    assert_eq!(c.nsp, vec![s("p"), s("urn:x")]);
    let same = c.qname(s("local"), s("p"), s("urn:x"));
    assert_eq!(same, name);
    let shared = c.qname(s("p"), s("urn:x"), s("urn:x"));
    assert_eq!(shared, QName { uri: 1, prefix: 1, local: 1 });
    assert_eq!(c.try_qname(s("l2"), s(""), s("")), Some(QName { uri: 2, prefix: 2, local: 2 }));
}

#[test]
fn try_qname_refuses_when_a_table_is_full() {
    let mut c = empty();
    for i in 0..256 {
        assert_eq!(c.nsp_id(format!("n{}", i)) as usize, i);
    }
    assert_eq!(c.try_qname(s("a"), s("n0"), s("n255")), Some(QName { uri: 255, prefix: 0, local: 0 }));
    assert_eq!(c.try_qname(s("a"), s("n0"), s("new")), None);
    assert_eq!(c.try_qname(s("a"), s("new"), s("n0")), None);
    assert_eq!(c.nsp.len(), 256);
}

#[test]
fn finalize_fills_the_reverse_maps() {
    let mut c = empty();
    let name = c.qname(s("local"), s("p"), s("urn:x"));
    assert!(c.names_inv.is_empty());
    c.finalize();
    assert_eq!(c.names_inv.len(), 1);
    assert_eq!(c.nsp_inv.len(), 2);
    assert_eq!(c.names_inv[&0], s("local"));
    assert_eq!(c.nsp_inv[&0], s("p"));
    assert_eq!(c.nsp_inv[&1], s("urn:x"));
    assert_eq!(c.get_qname(Some(&name)), Some((&s("urn:x"), &s("p"), &s("local"))));
    assert_eq!(c.get_qname(None), None);
    c.finalize();
    assert_eq!(c.names_inv.len(), 1);
    assert_eq!(c.nsp_inv.len(), 2);
}

#[test]
fn nodes_get_the_next_id() {
    let mut c = empty();
    assert_eq!(c.add_node(Node::document()), 0);
    assert_eq!(c.add_node(Node::text(0, 1, s("t"))), 1);
    assert_eq!(c.add_node(Node::comment(0, 1, s("c"))), 2);
    assert_eq!(c.nodes.len(), 3);
    assert_eq!(c.node(1).node_kind, NodeKind::Text);
    assert_eq!(c.node(2).string_value, Some(s("c")));
}

#[test]
fn insert_node_moves_the_later_nodes_up() {
    let mut c = empty();
    c.add_node(Node::document());
    c.add_node(Node::text(0, 1, s("t")));
    c.insert_node(1, Node::comment(0, 1, s("c")));
    c.insert_node(3, Node::document());
    let kinds: Vec<NodeKind> = c.nodes.iter().map(|n| n.node_kind).collect();
    assert_eq!(kinds, vec![NodeKind::Document, NodeKind::Comment, NodeKind::Text, NodeKind::Document]);
}

#[test]
fn add_child_node_appends_to_the_children() {
    let mut c = empty();
    c.add_node(Node::document());
    c.add_node(Node::document());
    c.add_child_node(1, 7);
    c.add_child_node(1, 3);
    assert_eq!(c.node(1).children, Some(vec![7, 3]));
    assert_eq!(c.node(0).children, Some(vec![]));
}

#[test]
fn node_constructors() {
    let name = QName { uri: 1, prefix: 2, local: 3 };
    let d = Node::document();
    assert_eq!(
        d,
        Node {
            node_kind: NodeKind::Document,
            children: Some(vec![]),
            string_value: None,
            attributes: None,
            level: 0,
            node_name: None,
            parent: None
        }
    );
    let e = Node::element(4, name, 5, vec![1, 2]);
    assert_eq!(
        e,
        Node {
            node_kind: NodeKind::Element,
            children: Some(vec![]),
            string_value: None,
            attributes: Some(vec![1, 2]),
            level: 5,
            node_name: Some(name),
            parent: Some(4)
        }
    );
    let a = Node::attribute(4, name, 5, s("v"));
    assert_eq!(
        a,
        Node {
            node_kind: NodeKind::Attribute,
            children: None,
            string_value: Some(s("v")),
            attributes: None,
            level: 5,
            node_name: Some(name),
            parent: Some(4)
        }
    );
    let t = Node::text(4, 5, s("v"));
    assert_eq!(
        t,
        Node {
            node_kind: NodeKind::Text,
            children: None,
            string_value: Some(s("v")),
            attributes: None,
            level: 5,
            node_name: None,
            parent: Some(4)
        }
    );
    let c = Node::comment(4, 5, s("v"));
    assert_eq!(c.node_kind, NodeKind::Comment);
    assert_eq!(c.string_value, Some(s("v")));
    assert_eq!(c.node_name, None);
    let p = Node::processing_instruction(4, 5, name, s("v"));
    assert_eq!(
        p,
        Node {
            node_kind: NodeKind::ProcessingInstruction,
            children: None,
            string_value: Some(s("v")),
            attributes: None,
            level: 5,
            node_name: Some(name),
            parent: Some(4)
        }
    );
}

#[test]
fn node_accessors() {
    let name = QName { uri: 1, prefix: 2, local: 3 };
    let mut e = Node::element(4, name, 5, vec![1, 2]);
    assert_eq!(e.children(), Some(&vec![]));
    e.add_child(9);
    e.add_child(11);
    assert_eq!(e.children(), Some(&vec![9, 11]));
    assert_eq!(e.attributes(), Some(&vec![1, 2]));
    assert_eq!(e.node_name(), Some(&name));
    assert_eq!(e.string_value(), None);
    let t = Node::text(4, 5, s("v"));
    assert_eq!(t.string_value(), Some(&s("v")));
    assert_eq!(t.children(), None);
    assert_eq!(t.attributes(), None);
    assert_eq!(t.node_name(), None);
    assert_eq!(Node::comment(4, 5, s("c")).string_value(), Some(&s("c")));
    // the text of an attribute or a processing instruction is not its string value
    assert_eq!(Node::attribute(4, name, 5, s("v")).string_value(), None);
    assert_eq!(Node::processing_instruction(4, 5, name, s("v")).string_value(), None);
}

#[test]
fn kind_names() {
    let name = QName { uri: 0, prefix: 0, local: 0 };
    assert_eq!(Node::document().node_kind(), "document");
    assert_eq!(Node::element(0, name, 1, vec![]).node_kind(), "element");
    assert_eq!(Node::attribute(0, name, 1, s("")).node_kind(), "attribute");
    assert_eq!(Node::text(0, 1, s("")).node_kind(), "text");
    assert_eq!(Node::comment(0, 1, s("")).node_kind(), "comment");
    assert_eq!(
        Node::processing_instruction(0, 1, name, s("")).node_kind(),
        "processing-instruction"
    );
}

#[test]
fn namespace_bindings_compare_by_their_fields() {
    let a = Namespace { pos: 1, uri: s("u"), prefix: s("p") };
    let b = Namespace { pos: 1, uri: s("u"), prefix: s("p") };
    assert_eq!(a, b);
}
