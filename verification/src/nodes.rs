//! The node records of the arena and their mathematical views.

use vstd::prelude::*;

verus! {

/// The index of a node in its arena.
pub type NodeId = usize;

#[derive(Debug, PartialEq, Eq, Clone, Copy, Structural)]
pub enum NodeKind {
    Document,
    Element,
    Attribute,
    Text,
    Comment,
    ProcessingInstruction,
}

/// A qualified name: three interned ids. `uri` and `prefix` index the
/// namespace table, `local` indexes the local-name table.
#[derive(Debug, PartialEq, Eq, Clone, Copy, Structural)]
pub struct QName {
    pub uri: u8,
    pub prefix: u8,
    pub local: u16,
}

/// A namespace binding: the prefix and uri that were declared just before the
/// node with id `pos` was created.
#[derive(Debug, PartialEq)]
pub struct Namespace {
    pub pos: NodeId,
    pub uri: String,
    pub prefix: String,
}

pub struct NamespaceView {
    pub pos: NodeId,
    pub uri: Seq<char>,
    pub prefix: Seq<char>,
}

impl View for Namespace {
    type V = NamespaceView;

    open spec fn view(&self) -> NamespaceView {
        NamespaceView { pos: self.pos, uri: self.uri@, prefix: self.prefix@ }
    }
}

#[derive(Debug, PartialEq)]
pub struct Node {
    pub node_kind: NodeKind,
    pub children: Option<Vec<NodeId>>,
    pub string_value: Option<String>,
    pub attributes: Option<Vec<NodeId>>,
    pub level: u16,
    pub node_name: Option<QName>,
    pub parent: Option<NodeId>,
}

/// What a node holds, with its lists and text as sequences.
pub struct NodeView {
    pub node_kind: NodeKind,
    pub children: Option<Seq<NodeId>>,
    pub string_value: Option<Seq<char>>,
    pub attributes: Option<Seq<NodeId>>,
    pub level: u16,
    pub node_name: Option<QName>,
    pub parent: Option<NodeId>,
}

impl View for Node {
    type V = NodeView;

    open spec fn view(&self) -> NodeView {
        NodeView {
            node_kind: self.node_kind,
            children: match self.children {
                Some(c) => Some(c@),
                None => None,
            },
            string_value: match self.string_value {
                Some(s) => Some(s@),
                None => None,
            },
            attributes: match self.attributes {
                Some(a) => Some(a@),
                None => None,
            },
            level: self.level,
            node_name: self.node_name,
            parent: self.parent,
        }
    }
}

/// The name under which a kind is reported.
pub open spec fn kind_name(kind: NodeKind) -> Seq<char> {
    match kind {
        NodeKind::Comment => "comment"@,
        NodeKind::Element => "element"@,
        NodeKind::Document => "document"@,
        NodeKind::Attribute => "attribute"@,
        NodeKind::Text => "text"@,
        NodeKind::ProcessingInstruction => "processing-instruction"@,
    }
}

impl NodeView {
    pub open spec fn document() -> NodeView {
        NodeView {
            node_kind: NodeKind::Document,
            children: Some(Seq::empty()),
            string_value: None,
            attributes: None,
            level: 0,
            node_name: None,
            parent: None,
        }
    }

    pub open spec fn element(
        parent: NodeId,
        name: QName,
        level: u16,
        attributes: Seq<NodeId>,
    ) -> NodeView {
        NodeView {
            node_kind: NodeKind::Element,
            children: Some(Seq::empty()),
            string_value: None,
            attributes: Some(attributes),
            level,
            node_name: Some(name),
            parent: Some(parent),
        }
    }

    pub open spec fn attribute(
        parent: NodeId,
        name: QName,
        level: u16,
        string_value: Seq<char>,
    ) -> NodeView {
        NodeView {
            node_kind: NodeKind::Attribute,
            children: None,
            string_value: Some(string_value),
            attributes: None,
            level,
            node_name: Some(name),
            parent: Some(parent),
        }
    }

    pub open spec fn text(parent: NodeId, level: u16, string_value: Seq<char>) -> NodeView {
        NodeView {
            node_kind: NodeKind::Text,
            children: None,
            string_value: Some(string_value),
            attributes: None,
            level,
            node_name: None,
            parent: Some(parent),
        }
    }

    pub open spec fn comment(parent: NodeId, level: u16, string_value: Seq<char>) -> NodeView {
        NodeView {
            node_kind: NodeKind::Comment,
            children: None,
            string_value: Some(string_value),
            attributes: None,
            level,
            node_name: None,
            parent: Some(parent),
        }
    }

    pub open spec fn processing_instruction(
        parent: NodeId,
        level: u16,
        name: QName,
        string_value: Seq<char>,
    ) -> NodeView {
        NodeView {
            node_kind: NodeKind::ProcessingInstruction,
            children: None,
            string_value: Some(string_value),
            attributes: None,
            level,
            node_name: Some(name),
            parent: Some(parent),
        }
    }

    /// The children list, empty where the node cannot have children.
    pub open spec fn child_ids(self) -> Seq<NodeId> {
        match self.children {
            Some(c) => c,
            None => Seq::empty(),
        }
    }

    /// The attribute list, empty where the node cannot have attributes.
    pub open spec fn attribute_ids(self) -> Seq<NodeId> {
        match self.attributes {
            Some(a) => a,
            None => Seq::empty(),
        }
    }

    /// The fields that are present are those that the node's kind calls for.
    pub open spec fn shape_ok(self) -> bool {
        match self.node_kind {
            NodeKind::Document => {
                &&& self.children is Some
                &&& self.attributes is None
                &&& self.string_value is None
                &&& self.node_name is None
                &&& self.parent is None
            },
            NodeKind::Element => {
                &&& self.children is Some
                &&& self.attributes is Some
                &&& self.string_value is None
                &&& self.node_name is Some
                &&& self.parent is Some
            },
            NodeKind::Attribute | NodeKind::ProcessingInstruction => {
                &&& self.children is None
                &&& self.attributes is None
                &&& self.string_value is Some
                &&& self.node_name is Some
                &&& self.parent is Some
            },
            NodeKind::Text | NodeKind::Comment => {
                &&& self.children is None
                &&& self.attributes is None
                &&& self.string_value is Some
                &&& self.node_name is None
                &&& self.parent is Some
            },
        }
    }
}

impl Node {
    pub fn document() -> (node: Node)
        ensures
            node@ == NodeView::document(),
    {
        Node {
            node_kind: NodeKind::Document,
            children: Some(Vec::new()),
            string_value: None,
            attributes: None,
            level: 0,
            node_name: None,
            parent: None,
        }
    }

    pub fn element(parent: NodeId, name: QName, level: u16, attributes: Vec<NodeId>) -> (node: Node)
        ensures
            node@ == NodeView::element(parent, name, level, attributes@),
    {
        Node {
            node_kind: NodeKind::Element,
            children: Some(Vec::new()),
            string_value: None,
            attributes: Some(attributes),
            level,
            node_name: Some(name),
            parent: Some(parent),
        }
    }

    pub fn attribute(parent: NodeId, name: QName, level: u16, string_value: String) -> (node: Node)
        ensures
            node@ == NodeView::attribute(parent, name, level, string_value@),
    {
        Node {
            node_kind: NodeKind::Attribute,
            children: None,
            string_value: Some(string_value),
            attributes: None,
            level,
            node_name: Some(name),
            parent: Some(parent),
        }
    }

    pub fn text(parent: NodeId, level: u16, string_value: String) -> (node: Node)
        ensures
            node@ == NodeView::text(parent, level, string_value@),
    {
        Node {
            node_kind: NodeKind::Text,
            children: None,
            string_value: Some(string_value),
            attributes: None,
            level,
            node_name: None,
            parent: Some(parent),
        }
    }

    pub fn comment(parent: NodeId, level: u16, string_value: String) -> (node: Node)
        ensures
            node@ == NodeView::comment(parent, level, string_value@),
    {
        Node {
            node_kind: NodeKind::Comment,
            children: None,
            string_value: Some(string_value),
            attributes: None,
            level,
            node_name: None,
            parent: Some(parent),
        }
    }

    pub fn processing_instruction(
        parent: NodeId,
        level: u16,
        name: QName,
        string_value: String,
    ) -> (node: Node)
        ensures
            node@ == NodeView::processing_instruction(parent, level, name, string_value@),
    {
        Node {
            node_kind: NodeKind::ProcessingInstruction,
            children: None,
            string_value: Some(string_value),
            attributes: None,
            level,
            node_name: Some(name),
            parent: Some(parent),
        }
    }

    /// Appends `child_id` to the children list of a node that has one.
    pub fn add_child(&mut self, child_id: NodeId)
        requires
            old(self).children is Some,
        ensures
            final(self)@ == (NodeView {
                children: Some(old(self)@.child_ids().push(child_id)),
                ..old(self)@
            }),
    {
        match &mut self.children {
            Some(list) => list.push(child_id),
            None => {},
        }
    }

    pub fn node_kind(&self) -> (name: String)
        ensures
            name@ == kind_name(self.node_kind),
    {
        match &self.node_kind {
            NodeKind::Comment => "comment".to_string(),
            NodeKind::Element => "element".to_string(),
            NodeKind::Document => "document".to_string(),
            NodeKind::Attribute => "attribute".to_string(),
            NodeKind::Text => "text".to_string(),
            NodeKind::ProcessingInstruction => "processing-instruction".to_string(),
        }
    }

    pub fn children(&self) -> (list: Option<&Vec<NodeId>>)
        ensures
            list is Some <==> self.children is Some,
            list is Some ==> *list->0 == self.children->0,
    {
        self.children.as_ref()
    }

    pub fn attributes(&self) -> (list: Option<&Vec<NodeId>>)
        ensures
            list is Some <==> self.attributes is Some,
            list is Some ==> *list->0 == self.attributes->0,
    {
        self.attributes.as_ref()
    }

    /// The stored text of a text or comment node; nothing for the other kinds.
    pub fn string_value(&self) -> (text: Option<&String>)
        ensures
            text is Some <==> (self.node_kind == NodeKind::Comment || self.node_kind
                == NodeKind::Text) && self.string_value is Some,
            text is Some ==> *text->0 == self.string_value->0,
    {
        match &self.node_kind {
            NodeKind::Comment => self.string_value.as_ref(),
            NodeKind::Text => self.string_value.as_ref(),
            _ => None,
        }
    }

    pub fn node_name(&self) -> (name: Option<&QName>)
        ensures
            name is Some <==> self.node_name is Some,
            name is Some ==> *name->0 == self.node_name->0,
    {
        self.node_name.as_ref()
    }
}

} // verus!
