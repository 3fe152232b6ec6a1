//! What a query engine asks of a parsed document: a document is parsed into
//! a resource, and nodes of a resource are handed out in the form in which
//! the engine holds them.

use vstd::prelude::*;
use crate::collection_builder::{built, BuildError};
use crate::node_collection::{
    lemma_finalized_resolves, text_or_empty, CollectionView, NodeCollection, NodeTup,
};
use crate::nodes::{NodeId, NodeKind};
use crate::tree::{in_range, lemma_axis_in_range, well_formed};
use crate::xmerl_sax::{decoded_terms, unicode_term, SaxTerm};
use crate::xml_rs_bridge::{parsed, XmlItem};
use crate::xpath::XPathAxis;

verus! {

/// A finished document: a collection that was built from the events of a
/// document and then finalized. Its tree is sound, every name in it is
/// interned, and the reverse maps are filled.
pub struct NodeResource(NodeCollection);

impl View for NodeResource {
    type V = CollectionView;

    closed spec fn view(&self) -> CollectionView {
        self.0@
    }
}

/// What is handed out of a node besides its id. Attributes and processing
/// instructions are not handed out.
#[derive(Debug, PartialEq, Eq)]
pub enum Payload {
    /// The name of an element, as namespace, prefix and local name.
    Element(Option<(String, String, String)>),
    /// The text of a comment.
    Comment(String),
    /// The uri of a document.
    Document(String),
    /// The text of a text node.
    Text(String),
}

pub enum PayloadView {
    Element(Option<(Seq<char>, Seq<char>, Seq<char>)>),
    Comment(Seq<char>),
    Document(Seq<char>),
    Text(Seq<char>),
}

impl View for Payload {
    type V = PayloadView;

    open spec fn view(&self) -> PayloadView {
        match *self {
            Payload::Element(name) => PayloadView::Element(
                match name {
                    Some(parts) => Some((parts.0@, parts.1@, parts.2@)),
                    None => None,
                },
            ),
            Payload::Comment(text) => PayloadView::Comment(text@),
            Payload::Document(uri) => PayloadView::Document(uri@),
            Payload::Text(text) => PayloadView::Text(text@),
        }
    }
}

/// A node as it is handed out: the resource and the id by which it is found
/// again, and what it holds.
pub struct XqerlNode<'a> {
    pub resource: &'a NodeResource,
    pub id: NodeId,
    pub payload: Payload,
}

/// What is handed out of the node `id`, if the node is handed out.
pub open spec fn payload_of(c: CollectionView, id: NodeId) -> Option<PayloadView> {
    let node = c.nodes[id as int];
    match node.node_kind {
        NodeKind::Element => Some(
            PayloadView::Element(
                match node.node_name {
                    Some(name) => Some(
                        (c.nsp_inv[name.uri], c.nsp_inv[name.prefix], c.names_inv[name.local]),
                    ),
                    None => None,
                },
            ),
        ),
        NodeKind::Comment => Some(PayloadView::Comment(text_or_empty(node.string_value))),
        NodeKind::Document => Some(PayloadView::Document(text_or_empty(c.doc_uri))),
        NodeKind::Text => Some(PayloadView::Text(text_or_empty(node.string_value))),
        NodeKind::ProcessingInstruction | NodeKind::Attribute => None,
    }
}

/// The nodes `ids` of a resource as they are handed out, in their order and
/// without those that are not handed out: each with the resource, its id and
/// what it holds.
pub open spec fn handed_out<'a>(resource: &'a NodeResource, ids: Seq<NodeId>) -> Seq<
    (&'a NodeResource, NodeId, PayloadView),
>
    decreases ids.len(),
{
    if ids.len() == 0 {
        Seq::empty()
    } else {
        let front = handed_out(resource, ids.drop_last());
        match payload_of(resource@, ids.last()) {
            Some(payload) => front.push((resource, ids.last(), payload)),
            None => front,
        }
    }
}

/// The resources, ids and payloads of a list of nodes.
pub open spec fn nodes_view<'a>(list: Seq<XqerlNode<'a>>) -> Seq<
    (&'a NodeResource, NodeId, PayloadView),
> {
    Seq::new(list.len(), |i: int| (list[i].resource, list[i].id, list[i].payload@))
}

impl NodeResource {
    #[verifier::type_invariant]
    spec fn ready(self) -> bool {
        &&& well_formed(self.0@.nodes)
        &&& self.0@.names_known()
        &&& self.0@.finalized()
    }

    /// The collection of the resource.
    pub fn collection(&self) -> (collection: &NodeCollection)
        ensures
            collection@ == self@,
            well_formed(collection@.nodes),
            collection@.names_known(),
            collection@.finalized(),
    {
        proof {
            use_type_invariant(self);
        }
        &self.0
    }

    /// Finalizes a collection that was built and makes a resource of it.
    pub fn new(collection: NodeCollection) -> (resource: NodeResource)
        requires
            well_formed(collection@.nodes),
            collection@.names_known(),
        ensures
            resource@ == collection@.after_finalize(),
    {
        let mut collection = collection;
        collection.finalize();
        NodeResource(collection)
    }
}

/// Hands out the nodes of `ids`, which are nodes of `resource`.
fn xqerl_nodes<'a, 'b>(
    ids: &Vec<NodeTup<'b>>,
    resource: &'a NodeResource,
    Ghost(list): Ghost<Seq<NodeId>>,
) -> (nodes: Vec<XqerlNode<'a>>)
    requires
        ids@ == resource.0.tuples(list),
        in_range(resource@.nodes, list),
    ensures
        nodes_view(nodes@) == handed_out(resource, list),
{
    let container = &resource.0;
    proof {
        use_type_invariant(resource);
    }
    let mut nodes: Vec<XqerlNode<'a>> = Vec::new();
    let mut i: usize = 0;
    assert(nodes_view(nodes@) =~= handed_out(resource, list.take(0)));
    while i < ids.len()
        invariant
            i <= ids@.len(),
            container@ == resource@,
            container@.names_known(),
            container@.finalized(),
            ids@ == container.tuples(list),
            in_range(container@.nodes, list),
            nodes_view(nodes@) == handed_out(resource, list.take(i as int)),
        decreases ids@.len() - i,
    {
        let (id, node) = ids[i];
        proof {
            assert(list.take(i + 1).drop_last() =~= list.take(i as int));
            assert(list.take(i + 1).last() == list[i as int]);
            assert(*id == list[i as int]);
            assert(node@ == container@.nodes[list[i as int] as int]);
            if let Some(name) = node.node_name {
                lemma_finalized_resolves(container@, name);
            }
        }
        let ghost before = nodes_view(nodes@);
        match node.node_kind {
            NodeKind::Element => {
                let name = match container.get_qname(node.node_name()) {
                    Some((u, p, l)) => Some((u.clone(), p.clone(), l.clone())),
                    None => None,
                };
                nodes.push(XqerlNode { resource, id: *id, payload: Payload::Element(name) });
            },
            NodeKind::Comment => {
                let text = match node.string_value() {
                    Some(text) => text.clone(),
                    None => String::new(),
                };
                nodes.push(XqerlNode { resource, id: *id, payload: Payload::Comment(text) });
            },
            NodeKind::Document => {
                let uri = match container.get_uri() {
                    Some(uri) => uri.clone(),
                    None => String::new(),
                };
                nodes.push(XqerlNode { resource, id: *id, payload: Payload::Document(uri) });
            },
            NodeKind::Text => {
                let text = match node.string_value() {
                    Some(text) => text.clone(),
                    None => String::new(),
                };
                nodes.push(XqerlNode { resource, id: *id, payload: Payload::Text(text) });
            },
            NodeKind::ProcessingInstruction => {},
            NodeKind::Attribute => {},
        }
        proof {
            match payload_of(resource@, list[i as int]) {
                Some(payload) => {
                    assert(nodes_view(nodes@) =~= before.push((resource, list[i as int], payload)));
                },
                None => {
                    assert(nodes_view(nodes@) =~= before);
                },
            }
        }
        i = i + 1;
    }
    assert(list.take(i as int) =~= list);
    nodes
}

/// The number of nodes of a resource.
pub fn size(resource: &NodeResource) -> (size: u32)
    requires
        resource@.nodes.len() <= u32::MAX,
    ensures
        size == resource@.nodes.len(),
{
    let n = resource.0.nodes.len();
    assert(n == resource@.nodes.len());
    n as u32
}

/// The string value of a node of a resource.
pub fn string_value(resource: &NodeResource, node_id: NodeId) -> (text: String)
    requires
        node_id < resource@.nodes.len(),
    ensures
        text@ == crate::tree::string_value(resource@.nodes, node_id),
{
    proof {
        use_type_invariant(resource);
    }
    let coll = &resource.0;
    let node = coll.node(node_id);
    coll.string_value(&(&node_id, node))
}

/// The nodes that an axis reaches from a node of a resource, as they are
/// handed out.
fn along<'a>(resource: &'a NodeResource, axis: XPathAxis, node_id: NodeId) -> (nodes: Vec<
    XqerlNode<'a>,
>)
    requires
        node_id < resource@.nodes.len(),
    ensures
        nodes_view(nodes@) == handed_out(
            resource,
            crate::tree::axis_nodes(resource@.nodes, axis, node_id),
        ),
{
    proof {
        use_type_invariant(resource);
        lemma_axis_in_range(resource@.nodes, axis, node_id);
    }
    let coll = &resource.0;
    let node = coll.node(node_id);
    let mut buf: Vec<NodeTup> = Vec::new();
    coll.axis(axis, &(&node_id, node), &mut buf);
    assert(buf@ =~= coll.tuples(crate::tree::axis_nodes(resource@.nodes, axis, node_id)));
    xqerl_nodes(&buf, resource, Ghost(crate::tree::axis_nodes(resource@.nodes, axis, node_id)))
}

/// The ancestors of a node of a resource, nearest first.
pub fn ancestors<'a>(resource: &'a NodeResource, node_id: NodeId) -> (nodes: Vec<XqerlNode<'a>>)
    requires
        node_id < resource@.nodes.len(),
    ensures
        nodes_view(nodes@) == handed_out(
            resource,
            crate::tree::ancestors(resource@.nodes, node_id),
        ),
{
    along(resource, XPathAxis::Ancestor, node_id)
}

/// The descendants of a node of a resource, in document order.
pub fn descendants<'a>(resource: &'a NodeResource, node_id: NodeId) -> (nodes: Vec<XqerlNode<'a>>)
    requires
        node_id < resource@.nodes.len(),
    ensures
        nodes_view(nodes@) == handed_out(
            resource,
            crate::tree::descendants(resource@.nodes, node_id),
        ),
{
    along(resource, XPathAxis::Descendant, node_id)
}

/// The children of a node of a resource, in document order.
pub fn children<'a>(resource: &'a NodeResource, node_id: NodeId) -> (nodes: Vec<XqerlNode<'a>>)
    requires
        node_id < resource@.nodes.len(),
    ensures
        nodes_view(nodes@) == handed_out(resource, resource@.nodes[node_id as int].child_ids()),
{
    along(resource, XPathAxis::Child, node_id)
}

/// A node of some resource: the resource, and the id of the node in it.
pub type NodeRef<'a> = (&'a NodeResource, NodeId);

/// The children of one node as they are handed out.
pub open spec fn children_handed_out<'a>(source: NodeRef<'a>) -> Seq<
    (&'a NodeResource, NodeId, PayloadView),
> {
    handed_out(source.0, source.0@.nodes[source.1 as int].child_ids())
}

/// The children of each of `sources` as they are handed out, one list after
/// the other.
pub open spec fn children_of_all<'a>(sources: Seq<NodeRef<'a>>) -> Seq<
    (&'a NodeResource, NodeId, PayloadView),
>
    decreases sources.len(),
{
    if sources.len() == 0 {
        Seq::empty()
    } else {
        children_of_all(sources.drop_last()) + children_handed_out(sources.last())
    }
}

/// The children of each of the given nodes, which may be nodes of several
/// resources: for each node in turn its children in document order.
pub fn children_of<'a>(sources: &Vec<NodeRef<'a>>) -> (nodes: Vec<XqerlNode<'a>>)
    requires
        forall|i: int|
            0 <= i < sources@.len() ==> (#[trigger] sources@[i]).1 < sources@[i].0@.nodes.len(),
    ensures
        nodes_view(nodes@) == children_of_all(sources@),
{
    let mut outbuf: Vec<XqerlNode<'a>> = Vec::new();
    let mut i: usize = 0;
    assert(nodes_view(outbuf@) =~= children_of_all(sources@.take(0)));
    while i < sources.len()
        invariant
            i <= sources@.len(),
            forall|i: int|
                0 <= i < sources@.len() ==> (#[trigger] sources@[i]).1
                    < sources@[i].0@.nodes.len(),
            nodes_view(outbuf@) == children_of_all(sources@.take(i as int)),
        decreases sources@.len() - i,
    {
        let (resource, node_id) = sources[i];
        assert(sources@[i as int].1 < sources@[i as int].0@.nodes.len());
        let mut found = children(resource, node_id);
        proof {
            assert(sources@.take(i + 1).drop_last() =~= sources@.take(i as int));
            assert(sources@.take(i + 1).last() == sources@[i as int]);
            assert(nodes_view(found@) == children_handed_out(sources@[i as int]));
        }
        let ghost before = nodes_view(outbuf@);
        let ghost added = nodes_view(found@);
        outbuf.append(&mut found);
        assert(nodes_view(outbuf@) =~= before + added);
        i = i + 1;
    }
    assert(sources@.take(i as int) =~= sources@);
    outbuf
}

/// Builds a resource from what the parser has made of a text.
pub fn parse_binary(items: Vec<XmlItem>, base_uri: String) -> (result: Result<
    NodeResource,
    BuildError,
>)
    ensures
        match result {
            Ok(resource) => parsed(items@, base_uri@) is Ok && resource@ == parsed(
                items@,
                base_uri@,
            )->Ok_0.after_finalize(),
            Err(e) => parsed(items@, base_uri@) == Err::<CollectionView, BuildError>(e),
        },
{
    match crate::xml_rs_bridge::parse_string(items, base_uri) {
        Ok(container) => Ok(NodeResource::new(container)),
        Err(e) => Err(e),
    }
}

/// Builds a resource from the event terms of one document.
pub fn parse_list(terms: Vec<SaxTerm>, base_uri: String) -> (result: Result<
    NodeResource,
    BuildError,
>)
    requires
        forall|i: int| 0 <= i < terms@.len() ==> unicode_term(#[trigger] terms@[i]),
    ensures
        match result {
            Ok(resource) => built(decoded_terms(terms@), base_uri@) is Ok && resource@ == built(
                decoded_terms(terms@),
                base_uri@,
            )->Ok_0.after_finalize(),
            Err(e) => built(decoded_terms(terms@), base_uri@) == Err::<CollectionView, BuildError>(
                e,
            ),
        },
{
    match crate::xmerl_sax::parse_list(terms, base_uri) {
        Ok(container) => Ok(NodeResource::new(container)),
        Err(e) => Err(e),
    }
}

} // verus!
