//! The tree builder: it takes the events of a document one by one and grows
//! the arena, with the stack of the nodes that are still open.

use vstd::prelude::*;
use crate::event::{attributes_view, events_view, Attribute, AttributeView, Event, EventView};
use crate::node_collection::{lemma_qname_known, with_child, CollectionView, NodeCollection};
use crate::nodes::{Namespace, NamespaceView, Node, NodeId, NodeKind, NodeView};
use crate::tree::{level_ok, levels_sound, well_formed};

verus! {

/// Why a build was given up.
#[derive(Debug, PartialEq, Eq, Clone, Copy, Structural)]
pub enum BuildError {
    /// The events do not form a document: an end without its start, content
    /// outside of every open node, or a start that is never closed.
    InvalidDocument,
    /// The document needs more local names, namespace strings, nesting levels
    /// or nodes than a collection can hold.
    LimitExceeded,
}

/// The state of a build: the next free id, the ids of the open nodes from the
/// outermost to the innermost, their number, and the arena.
pub type BuildState = (NodeId, Vec<NodeId>, u16, NodeCollection);

pub struct StateView {
    pub next_id: NodeId,
    pub stack: Seq<NodeId>,
    pub depth: u16,
    pub arena: CollectionView,
}

pub open spec fn state_view(state: BuildState) -> StateView {
    StateView { next_id: state.0, stack: state.1@, depth: state.2, arena: state.3@ }
}

/// What holds of the state between two events: the tree is sound, every
/// node is one level below its parent, every name is interned, the next free
/// id is the number of nodes, `depth` counts the open nodes, and each open
/// node is in the arena, can take children and is no deeper than the open
/// nodes before it are many.
pub open spec fn state_ok(s: StateView) -> bool {
    &&& well_formed(s.arena.nodes)
    &&& levels_sound(s.arena.nodes)
    &&& s.arena.names_known()
    &&& s.next_id == s.arena.nodes.len()
    &&& s.depth == s.stack.len()
    &&& forall|i: int|
        0 <= i < s.stack.len() ==> (#[trigger] s.stack[i]) < s.arena.nodes.len()
            && s.arena.nodes[s.stack[i] as int].children is Some
            && s.arena.nodes[s.stack[i] as int].level <= i
}

/// The level of a node that is appended below the innermost open node: one
/// below that node's level. A document is at level 0, so that the level of a
/// node is its nesting depth from the root of its document.
pub open spec fn child_level(s: StateView) -> u16 {
    (s.arena.nodes[s.stack.last() as int].level + 1) as u16
}

/// The state before the first event of a build on the collection `arena`.
pub open spec fn initial_state(arena: CollectionView) -> StateView {
    StateView { next_id: 0, stack: Seq::empty(), depth: 0, arena }
}

/// The state after `node` was appended and linked below the innermost open
/// node.
pub open spec fn with_leaf(s: StateView, node: NodeView) -> StateView {
    StateView {
        next_id: (s.next_id + 1) as NodeId,
        arena: CollectionView {
            nodes: with_child(s.arena.nodes.push(node), s.stack.last(), s.next_id),
            ..s.arena
        },
        ..s
    }
}

/// The step for a node without children: it needs an open node to stand
/// below, and a free id.
pub open spec fn leaf(s: StateView, node: NodeView) -> Result<StateView, BuildError> {
    if s.stack.len() == 0 {
        Err(BuildError::InvalidDocument)
    } else if s.next_id == usize::MAX {
        Err(BuildError::LimitExceeded)
    } else {
        Ok(with_leaf(s, node))
    }
}

/// The state after the innermost open node was closed.
pub open spec fn popped(s: StateView) -> StateView {
    StateView { stack: s.stack.drop_last(), depth: (s.depth - 1) as u16, ..s }
}

/// Whether the innermost open node is there and of the given kind.
pub open spec fn closes(s: StateView, kind: NodeKind) -> bool {
    s.stack.len() > 0 && s.arena.nodes[s.stack.last() as int].node_kind == kind
}

/// The collection after the first `n` of `attributes` were added as nodes of
/// the element `owner`: for each in turn its name is interned and its node
/// appended.
pub open spec fn with_attributes(
    arena: CollectionView,
    attributes: Seq<AttributeView>,
    n: nat,
    owner: NodeId,
    level: u16,
) -> CollectionView
    decreases n,
{
    if n == 0 {
        arena
    } else {
        let before = with_attributes(arena, attributes, (n - 1) as nat, owner, level);
        let a = attributes[n - 1];
        let named = before.with_qname(a.local_name, a.prefix, a.uri);
        let name = before.qname_of(a.local_name, a.prefix, a.uri);
        CollectionView {
            nodes: named.nodes.push(NodeView::attribute(owner, name, level, a.value)),
            ..named
        }
    }
}

/// Whether the names of the first `n` of `attributes` can be interned one
/// after the other.
pub open spec fn attributes_fit(
    arena: CollectionView,
    attributes: Seq<AttributeView>,
    n: nat,
    owner: NodeId,
    level: u16,
) -> bool
    decreases n,
{
    if n == 0 {
        true
    } else {
        let before = with_attributes(arena, attributes, (n - 1) as nat, owner, level);
        let a = attributes[n - 1];
        attributes_fit(arena, attributes, (n - 1) as nat, owner, level) && before.qname_fits(
            a.local_name,
            a.prefix,
            a.uri,
        )
    }
}

/// The step for the start of an element. Its attributes become nodes first,
/// with ids from the next free one on, then the element itself, which is
/// linked below the innermost open node and becomes the innermost open node.
/// The element is one level below the node that it is linked to, and its
/// attributes one level below the element.
pub open spec fn start_element(
    s: StateView,
    uri: Seq<char>,
    local_name: Seq<char>,
    prefix: Seq<char>,
    attributes: Seq<AttributeView>,
) -> Result<StateView, BuildError> {
    let owner = s.next_id + attributes.len();
    let level = (child_level(s) + 1) as u16;
    if s.stack.len() == 0 {
        Err(BuildError::InvalidDocument)
    } else if s.depth == u16::MAX || owner >= usize::MAX {
        Err(BuildError::LimitExceeded)
    } else if !attributes_fit(s.arena, attributes, attributes.len(), owner as NodeId, level) {
        Err(BuildError::LimitExceeded)
    } else {
        let filled = with_attributes(s.arena, attributes, attributes.len(), owner as NodeId, level);
        if !filled.qname_fits(local_name, prefix, uri) {
            Err(BuildError::LimitExceeded)
        } else {
            let named = filled.with_qname(local_name, prefix, uri);
            let element = NodeView::element(
                s.stack.last(),
                filled.qname_of(local_name, prefix, uri),
                child_level(s),
                Seq::new(attributes.len(), |i: int| (s.next_id + i) as NodeId),
            );
            Ok(
                StateView {
                    next_id: (owner + 1) as NodeId,
                    stack: s.stack.push(owner as NodeId),
                    depth: (s.depth + 1) as u16,
                    arena: CollectionView {
                        nodes: with_child(named.nodes.push(element), s.stack.last(), owner as NodeId),
                        ..named
                    },
                },
            )
        }
    }
}

/// The state after one event, or why the build ends with it.
pub open spec fn step(event: EventView, s: StateView) -> Result<StateView, BuildError> {
    match event {
        EventView::StartDocument => if s.depth == u16::MAX || s.next_id == usize::MAX {
            Err(BuildError::LimitExceeded)
        } else {
            Ok(
                StateView {
                    next_id: (s.next_id + 1) as NodeId,
                    stack: s.stack.push(s.next_id),
                    depth: (s.depth + 1) as u16,
                    arena: CollectionView {
                        nodes: s.arena.nodes.push(NodeView::document()),
                        ..s.arena
                    },
                },
            )
        },
        EventView::EndDocument => if closes(s, NodeKind::Document) {
            Ok(popped(s))
        } else {
            Err(BuildError::InvalidDocument)
        },
        EventView::StartPrefixMapping { prefix, uri } => Ok(
            StateView {
                arena: CollectionView {
                    namespaces: s.arena.namespaces.push(
                        NamespaceView { pos: s.next_id, uri, prefix },
                    ),
                    ..s.arena
                },
                ..s
            },
        ),
        EventView::EndPrefixMapping => Ok(s),
        EventView::StartElement { uri, local_name, prefix, attributes } => start_element(
            s,
            uri,
            local_name,
            prefix,
            attributes,
        ),
        EventView::EndElement => if closes(s, NodeKind::Element) {
            Ok(popped(s))
        } else {
            Err(BuildError::InvalidDocument)
        },
        EventView::Characters { text } => leaf(
            s,
            NodeView::text(s.stack.last(), child_level(s), text),
        ),
        EventView::IgnorableWhitespace { text } => leaf(
            s,
            NodeView::text(s.stack.last(), child_level(s), text),
        ),
        EventView::ProcessingInstruction { target, data } => if s.stack.len() == 0 {
            Err(BuildError::InvalidDocument)
        } else if !s.arena.qname_fits(target, Seq::empty(), Seq::empty()) {
            Err(BuildError::LimitExceeded)
        } else {
            leaf(
                StateView { arena: s.arena.with_qname(target, Seq::empty(), Seq::empty()), ..s },
                NodeView::processing_instruction(
                    s.stack.last(),
                    child_level(s),
                    s.arena.qname_of(target, Seq::empty(), Seq::empty()),
                    data,
                ),
            )
        },
        EventView::Comment { text } => leaf(
            s,
            NodeView::comment(s.stack.last(), child_level(s), text),
        ),
        EventView::Unkown => Ok(s),
    }
}

/// Whether a result is the given one, its state taken by its view.
pub open spec fn agrees(
    result: Result<BuildState, BuildError>,
    expected: Result<StateView, BuildError>,
) -> bool {
    match result {
        Ok(next) => expected == Ok::<StateView, BuildError>(state_view(next)),
        Err(e) => expected == Err::<StateView, BuildError>(e),
    }
}

/// The level of a node that is appended below the innermost open node.
fn level_below_top(state: &BuildState) -> (level: u16)
    requires
        state_ok(state_view(*state)),
        state.1@.len() > 0,
    ensures
        level == child_level(state_view(*state)),
{
    let top = state.1[state.1.len() - 1];
    state.3.node(top).level + 1
}

/// Appends `node` and links it below the innermost open node.
fn add_leaf(state: BuildState, node: Node) -> (result: Result<BuildState, BuildError>)
    requires
        state_ok(state_view(state)),
    ensures
        agrees(result, leaf(state_view(state), node@)),
{
    let (curr_id, parent_stack, depth, mut container) = state;
    if parent_stack.len() == 0 {
        return Err(BuildError::InvalidDocument);
    }
    if curr_id == usize::MAX {
        return Err(BuildError::LimitExceeded);
    }
    let parent_id = parent_stack[parent_stack.len() - 1];
    container.add_node(node);
    container.add_child_node(parent_id, curr_id);
    Ok((curr_id + 1, parent_stack, depth, container))
}

/// Closes the innermost open node, which must be of the given kind.
fn close_node(state: BuildState, kind: NodeKind) -> (result: Result<BuildState, BuildError>)
    requires
        state_ok(state_view(state)),
    ensures
        agrees(
            result,
            if closes(state_view(state), kind) {
                Ok(popped(state_view(state)))
            } else {
                Err(BuildError::InvalidDocument)
            },
        ),
{
    let (curr_id, mut parent_stack, depth, container) = state;
    if parent_stack.len() == 0 {
        return Err(BuildError::InvalidDocument);
    }
    let top = parent_stack[parent_stack.len() - 1];
    if container.node(top).node_kind != kind {
        return Err(BuildError::InvalidDocument);
    }
    parent_stack.pop();
    assert(parent_stack@ =~= state.1@.drop_last());
    Ok((curr_id, parent_stack, depth - 1, container))
}

/// Appends a node for each of `attributes`, all owned by the element that
/// will get the id `owner`, and returns their ids.
fn add_attributes(
    container: &mut NodeCollection,
    attributes: &Vec<Attribute>,
    owner: NodeId,
    level: u16,
) -> (ids: Option<Vec<NodeId>>)
    requires
        old(container)@.nodes.len() + attributes@.len() == owner,
    ensures
        ids is Some <==> attributes_fit(
            old(container)@,
            attributes_view(attributes@),
            attributes@.len(),
            owner,
            level,
        ),
        ids is Some ==> final(container)@ == with_attributes(
            old(container)@,
            attributes_view(attributes@),
            attributes@.len(),
            owner,
            level,
        ) && ids->0@ == Seq::new(
            attributes@.len(),
            |j: int| (old(container)@.nodes.len() + j) as NodeId,
        ),
{
    let ghost before = container@;
    let ghost atts = attributes_view(attributes@);
    let count = attributes.len();
    let first = container.nodes.len();
    assert(first == before.nodes.len());
    let mut ids: Vec<NodeId> = Vec::new();
    let mut i: usize = 0;
    while i < count
        invariant
            i <= count,
            count == attributes@.len(),
            atts == attributes_view(attributes@),
            first + count == owner,
            first == before.nodes.len(),
            before == old(container)@,
            attributes_fit(before, atts, i as nat, owner, level),
            container@ == with_attributes(before, atts, i as nat, owner, level),
            ids@ =~= Seq::new(i as nat, |j: int| (first + j) as NodeId),
        decreases count - i,
    {
        let attribute = &attributes[i];
        assert(atts[i as int] == crate::event::attribute_view(*attribute));
        let ghost filled = container@;
        let name = match container.try_qname(
            attribute.2.clone(),
            attribute.1.clone(),
            attribute.0.clone(),
        ) {
            Some(name) => name,
            None => {
                proof {
                    assert(!filled.qname_fits(attribute.2@, attribute.1@, attribute.0@));
                    assert(filled == with_attributes(before, atts, i as nat, owner, level));
                    assert(!attributes_fit(before, atts, (i + 1) as nat, owner, level));
                    if attributes_fit(before, atts, count as nat, owner, level) {
                        lemma_attributes_fit_prefix(
                            before,
                            atts,
                            (i + 1) as nat,
                            count as nat,
                            owner,
                            level,
                        );
                    }
                }
                return None;
            },
        };
        let node = Node::attribute(owner, name, level, attribute.3.clone());
        container.add_node(node);
        ids.push(first + i);
        i = i + 1;
    }
    Some(ids)
}

/// The start of an element.
fn open_element(
    state: BuildState,
    uri: String,
    local_name: String,
    prefix: String,
    attributes: Vec<Attribute>,
) -> (result: Result<BuildState, BuildError>)
    requires
        state_ok(state_view(state)),
    ensures
        agrees(
            result,
            start_element(
                state_view(state),
                uri@,
                local_name@,
                prefix@,
                attributes_view(attributes@),
            ),
        ),
{
    let ghost s = state_view(state);
    let ghost atts = attributes_view(attributes@);
    if state.1.len() == 0 {
        return Err(BuildError::InvalidDocument);
    }
    let level = level_below_top(&state);
    let (curr_id, mut parent_stack, depth, mut container) = state;
    let parent_id = parent_stack[parent_stack.len() - 1];
    let count = attributes.len();
    if depth == u16::MAX || count >= usize::MAX - curr_id {
        return Err(BuildError::LimitExceeded);
    }
    let owner = curr_id + count;
    let ids = match add_attributes(&mut container, &attributes, owner, level + 1) {
        Some(ids) => ids,
        None => {
            return Err(BuildError::LimitExceeded);
        },
    };
    let name = match container.try_qname(local_name, prefix, uri) {
        Some(name) => name,
        None => {
            return Err(BuildError::LimitExceeded);
        },
    };
    proof {
        lemma_with_attributes_nodes(s.arena, atts, count as nat, owner, (level + 1) as u16);
    }
    let node = Node::element(parent_id, name, level, ids);
    container.add_node(node);
    container.add_child_node(parent_id, owner);
    parent_stack.push(owner);
    Ok((owner + 1, parent_stack, depth + 1, container))
}

/// Applies one event to the state of a build.
pub fn handle_event(event: Event, state: BuildState) -> (result: Result<BuildState, BuildError>)
    requires
        state_ok(state_view(state)),
    ensures
        agrees(result, step(event@, state_view(state))),
        result is Ok ==> state_ok(state_view(result->Ok_0)),
{
    proof {
        if step(event@, state_view(state)) is Ok {
            lemma_step_keeps_order(event@, state_view(state));
        }
    }
    match event {
        Event::StartDocument => {
            let (curr_id, mut parent_stack, depth, mut container) = state;
            if depth == u16::MAX || curr_id == usize::MAX {
                return Err(BuildError::LimitExceeded);
            }
            container.add_node(Node::document());
            parent_stack.push(curr_id);
            Ok((curr_id + 1, parent_stack, depth + 1, container))
        },
        Event::EndDocument => close_node(state, NodeKind::Document),
        Event::StartPrefixMapping { prefix, uri } => {
            let (curr_id, parent_stack, depth, mut container) = state;
            let ns = Namespace { pos: curr_id, prefix, uri };
            let ghost binding = ns@;
            container.namespaces.push(ns);
            assert(container@.namespaces =~= state.3@.namespaces.push(binding));
            Ok((curr_id, parent_stack, depth, container))
        },
        Event::EndPrefixMapping => Ok(state),
        Event::StartElement { uri, local_name, prefix, attributes } => open_element(
            state,
            uri,
            local_name,
            prefix,
            attributes,
        ),
        Event::EndElement => close_node(state, NodeKind::Element),
        Event::Characters { text } => {
            if state.1.len() == 0 {
                return Err(BuildError::InvalidDocument);
            }
            let node = Node::text(state.1[state.1.len() - 1], level_below_top(&state), text);
            add_leaf(state, node)
        },
        Event::IgnorableWhitespace { text } => {
            if state.1.len() == 0 {
                return Err(BuildError::InvalidDocument);
            }
            let node = Node::text(state.1[state.1.len() - 1], level_below_top(&state), text);
            add_leaf(state, node)
        },
        Event::ProcessingInstruction { target, data } => {
            if state.1.len() == 0 {
                return Err(BuildError::InvalidDocument);
            }
            let level = level_below_top(&state);
            let (curr_id, parent_stack, depth, mut container) = state;
            let name = match container.try_qname(target, String::new(), String::new()) {
                Some(name) => name,
                None => {
                    return Err(BuildError::LimitExceeded);
                },
            };
            let node = Node::processing_instruction(
                parent_stack[parent_stack.len() - 1],
                level,
                name,
                data,
            );
            add_leaf((curr_id, parent_stack, depth, container), node)
        },
        Event::Comment { text } => {
            if state.1.len() == 0 {
                return Err(BuildError::InvalidDocument);
            }
            let node = Node::comment(state.1[state.1.len() - 1], level_below_top(&state), text);
            add_leaf(state, node)
        },
        Event::Unkown => Ok(state),
    }
}

/// Adding attributes leaves the nodes that were there as they are, appends
/// one attribute node of `owner` for each attribute, and touches nothing but
/// the nodes and the two symbol tables.
pub proof fn lemma_with_attributes_nodes(
    arena: CollectionView,
    attributes: Seq<AttributeView>,
    n: nat,
    owner: NodeId,
    level: u16,
)
    requires
        n <= attributes.len(),
    ensures
        ({
            let filled = with_attributes(arena, attributes, n, owner, level);
            &&& filled.nodes.len() == arena.nodes.len() + n
            &&& forall|i: int| 0 <= i < arena.nodes.len() ==> filled.nodes[i] == arena.nodes[i]
            &&& forall|j: int|
                0 <= j < n ==> {
                    let node = #[trigger] filled.nodes[arena.nodes.len() + j];
                    &&& node.node_kind == NodeKind::Attribute
                    &&& node.shape_ok()
                    &&& node.parent == Some(owner)
                    &&& node.level == level
                    &&& node.string_value == Some(attributes[j].value)
                }
            &&& filled == (CollectionView {
                names: filled.names,
                nsp: filled.nsp,
                nodes: filled.nodes,
                ..arena
            })
        }),
    decreases n,
{
    if n > 0 {
        lemma_with_attributes_nodes(arena, attributes, (n - 1) as nat, owner, level);
    }
}

/// Where the first `n` attributes do not fit, no longer prefix of them does.
pub proof fn lemma_attributes_fit_prefix(
    arena: CollectionView,
    attributes: Seq<AttributeView>,
    n: nat,
    m: nat,
    owner: NodeId,
    level: u16,
)
    requires
        n <= m,
        attributes_fit(arena, attributes, m, owner, level),
    ensures
        attributes_fit(arena, attributes, n, owner, level),
    decreases m,
{
    if n < m {
        lemma_attributes_fit_prefix(arena, attributes, n, (m - 1) as nat, owner, level);
    }
}

/// Where the names of the attributes fit, adding the attributes leaves every
/// name in the collection one of ids of the symbol tables.
pub proof fn lemma_with_attributes_names(
    arena: CollectionView,
    attributes: Seq<AttributeView>,
    n: nat,
    owner: NodeId,
    level: u16,
)
    requires
        n <= attributes.len(),
        arena.names_known(),
        attributes_fit(arena, attributes, n, owner, level),
    ensures
        with_attributes(arena, attributes, n, owner, level).names_known(),
    decreases n,
{
    if n > 0 {
        lemma_with_attributes_names(arena, attributes, (n - 1) as nat, owner, level);
        let before = with_attributes(arena, attributes, (n - 1) as nat, owner, level);
        let a = attributes[n - 1];
        lemma_qname_known(before, a.local_name, a.prefix, a.uri);
        let named = before.with_qname(a.local_name, a.prefix, a.uri);
        let filled = with_attributes(arena, attributes, n, owner, level);
        assert forall|i: int| 0 <= i < filled.nodes.len() implies match (#[trigger] filled.nodes[i]).node_name {
            Some(name) => filled.name_known(name),
            None => true,
        } by {
            if i < named.nodes.len() {
                assert(filled.nodes[i] == named.nodes[i]);
            }
        }
    }
}

/// A step that succeeds leaves the state of a build in order: the tree is
/// sound, the ids are those from 0 to the next free one, and every open node
/// can take children.
pub proof fn lemma_step_keeps_order(event: EventView, s: StateView)
    requires
        state_ok(s),
        step(event, s) is Ok,
    ensures
        state_ok(step(event, s)->Ok_0),
{
    let next = step(event, s)->Ok_0;
    match event {
        EventView::StartDocument => {
            crate::tree::lemma_root_appended(s.arena.nodes, NodeView::document());
            assert forall|i: int| 0 <= i < next.arena.nodes.len() implies level_ok(
                next.arena.nodes,
                i,
            ) by {
                if i < s.arena.nodes.len() {
                    assert(level_ok(s.arena.nodes, i));
                    crate::tree::lemma_parent_lower(s.arena.nodes, i);
                }
            }
            assert forall|i: int| 0 <= i < next.arena.nodes.len() implies match (
            #[trigger] next.arena.nodes[i]).node_name {
                Some(name) => next.arena.name_known(name),
                None => true,
            } by {
                if i < s.arena.nodes.len() {
                    assert(next.arena.nodes[i] == s.arena.nodes[i]);
                }
            }
        },
        EventView::StartElement { uri, local_name, prefix, attributes } => {
            let count = attributes.len();
            let owner = (s.next_id + count) as NodeId;
            let level = (child_level(s) + 1) as u16;
            let filled = with_attributes(s.arena, attributes, count, owner, level);
            lemma_with_attributes_nodes(s.arena, attributes, count, owner, level);
            lemma_with_attributes_names(s.arena, attributes, count, owner, level);
            lemma_qname_known(filled, local_name, prefix, uri);
            crate::tree::lemma_owner_appended(s.arena.nodes, next.arena.nodes, s.stack.last(), count);
            let named = filled.with_qname(local_name, prefix, uri);
            assert(s.stack[s.stack.len() - 1] < s.arena.nodes.len());
            assert forall|i: int| 0 <= i < next.arena.nodes.len() implies level_ok(
                next.arena.nodes,
                i,
            ) by {
                if i < s.arena.nodes.len() {
                    assert(level_ok(s.arena.nodes, i));
                    crate::tree::lemma_parent_lower(s.arena.nodes, i);
                } else if i < owner {
                    assert(next.arena.nodes[i] == filled.nodes[s.arena.nodes.len() + (i
                        - s.arena.nodes.len())]);
                }
            }
            assert forall|i: int| 0 <= i < next.arena.nodes.len() implies match (
            #[trigger] next.arena.nodes[i]).node_name {
                Some(name) => next.arena.name_known(name),
                None => true,
            } by {
                if i < named.nodes.len() {
                    assert(next.arena.nodes[i].node_name == named.nodes[i].node_name);
                }
            }
        },
        EventView::Characters { text } => {
            lemma_leaf_keeps_order(s, NodeView::text(s.stack.last(), child_level(s), text));
        },
        EventView::IgnorableWhitespace { text } => {
            lemma_leaf_keeps_order(s, NodeView::text(s.stack.last(), child_level(s), text));
        },
        EventView::ProcessingInstruction { target, data } => {
            lemma_qname_known(s.arena, target, Seq::empty(), Seq::empty());
            lemma_leaf_keeps_order(
                StateView { arena: s.arena.with_qname(target, Seq::empty(), Seq::empty()), ..s },
                NodeView::processing_instruction(
                    s.stack.last(),
                    child_level(s),
                    s.arena.qname_of(target, Seq::empty(), Seq::empty()),
                    data,
                ),
            );
        },
        EventView::Comment { text } => {
            lemma_leaf_keeps_order(s, NodeView::comment(s.stack.last(), child_level(s), text));
        },
        _ => {},
    }
}

/// A node without children that is appended below the innermost open node
/// leaves the state in order.
pub proof fn lemma_leaf_keeps_order(s: StateView, node: NodeView)
    requires
        state_ok(s),
        leaf(s, node) is Ok,
        node.shape_ok(),
        node.node_kind != NodeKind::Attribute,
        node.parent == Some(s.stack.last()),
        node.children is None,
        node.attributes is None,
        node.level == child_level(s),
        node.node_name is Some ==> s.arena.name_known(node.node_name->0),
    ensures
        state_ok(leaf(s, node)->Ok_0),
{
    let next = with_leaf(s, node);
    assert(s.stack[s.stack.len() - 1] < s.arena.nodes.len());
    assert forall|i: int| 0 <= i < next.arena.nodes.len() implies level_ok(next.arena.nodes, i) by {
        if i < s.arena.nodes.len() {
            assert(level_ok(s.arena.nodes, i));
            crate::tree::lemma_parent_lower(s.arena.nodes, i);
        }
    }
    crate::tree::lemma_owner_appended(s.arena.nodes, next.arena.nodes, s.stack.last(), 0);
    assert forall|i: int| 0 <= i < next.arena.nodes.len() implies match (
    #[trigger] next.arena.nodes[i]).node_name {
        Some(name) => next.arena.name_known(name),
        None => true,
    } by {
        if i < s.arena.nodes.len() {
            assert(next.arena.nodes[i].node_name == s.arena.nodes[i].node_name);
        }
    }
}

/// The state after all of `events`, from the state `s` on, or the error of
/// the first event that fails.
pub open spec fn run(events: Seq<EventView>, s: StateView) -> Result<StateView, BuildError>
    decreases events.len(),
{
    if events.len() == 0 {
        Ok(s)
    } else {
        match run(events.drop_last(), s) {
            Ok(before) => step(events.last(), before),
            Err(e) => Err(e),
        }
    }
}

/// Every state that a build reaches from a state in order is in order.
pub proof fn lemma_run_keeps_order(events: Seq<EventView>, s: StateView)
    requires
        state_ok(s),
        run(events, s) is Ok,
    ensures
        state_ok(run(events, s)->Ok_0),
    decreases events.len(),
{
    if events.len() > 0 {
        lemma_run_keeps_order(events.drop_last(), s);
        lemma_step_keeps_order(events.last(), run(events.drop_last(), s)->Ok_0);
    }
}

/// A step gives no id a second time and takes none away: the nodes that were
/// there keep their ids and all they hold, but that a children list may have
/// grown at its end.
pub proof fn lemma_step_keeps_ids(event: EventView, s: StateView)
    requires
        state_ok(s),
        step(event, s) is Ok,
    ensures
        ({
            let next = step(event, s)->Ok_0;
            &&& s.next_id <= next.next_id
            &&& next.next_id == next.arena.nodes.len()
            &&& forall|id: int|
                0 <= id < s.next_id ==> {
                    let before = s.arena.nodes[id];
                    let after = #[trigger] next.arena.nodes[id];
                    &&& after == (NodeView { children: after.children, ..before })
                    &&& before.child_ids().is_prefix_of(after.child_ids())
                }
        }),
{
    lemma_step_keeps_order(event, s);
    if let EventView::StartElement { uri, local_name, prefix, attributes } = event {
        let count = attributes.len();
        let owner = (s.next_id + count) as NodeId;
        let level = (child_level(s) + 1) as u16;
        lemma_with_attributes_nodes(s.arena, attributes, count, owner, level);
    }
    let next = step(event, s)->Ok_0;
    assert forall|id: int| 0 <= id < s.next_id implies {
        let before = s.arena.nodes[id];
        let after = #[trigger] next.arena.nodes[id];
        &&& after == (NodeView { children: after.children, ..before })
        &&& before.child_ids().is_prefix_of(after.child_ids())
    } by {
        let before = s.arena.nodes[id];
        let after = next.arena.nodes[id];
        assert(after.child_ids().take(before.child_ids().len() as int) =~= before.child_ids());
    }
}

/// The start of an element gives its attributes the ids from the next free
/// one on, in their order, and the element the id after the last of them;
/// each attribute node names the element as its parent.
pub proof fn lemma_attributes_before_element(
    s: StateView,
    uri: Seq<char>,
    local_name: Seq<char>,
    prefix: Seq<char>,
    attributes: Seq<AttributeView>,
)
    requires
        state_ok(s),
        start_element(s, uri, local_name, prefix, attributes) is Ok,
    ensures
        ({
            let next = start_element(s, uri, local_name, prefix, attributes)->Ok_0;
            let element = s.next_id + attributes.len();
            &&& next.next_id == element + 1
            &&& next.stack.last() == element
            &&& next.arena.nodes[element].node_kind == NodeKind::Element
            &&& next.arena.nodes[element].parent == Some(s.stack.last())
            &&& next.arena.nodes[element].attribute_ids().len() == attributes.len()
            &&& forall|j: int|
                0 <= j < attributes.len() ==> {
                    let id = #[trigger] next.arena.nodes[element].attribute_ids()[j];
                    &&& id == s.next_id + j
                    &&& next.arena.nodes[id as int].node_kind == NodeKind::Attribute
                    &&& next.arena.nodes[id as int].parent == Some(element as NodeId)
                    &&& next.arena.nodes[id as int].string_value == Some(attributes[j].value)
                }
        }),
{
    let count = attributes.len();
    let owner = (s.next_id + count) as NodeId;
    let level = (child_level(s) + 1) as u16;
    lemma_with_attributes_nodes(s.arena, attributes, count, owner, level);
    let next = start_element(s, uri, local_name, prefix, attributes)->Ok_0;
    let filled = with_attributes(s.arena, attributes, count, owner, level);
    assert forall|j: int| 0 <= j < attributes.len() implies {
        let id = #[trigger] next.arena.nodes[owner as int].attribute_ids()[j];
        &&& id == s.next_id + j
        &&& next.arena.nodes[id as int].node_kind == NodeKind::Attribute
        &&& next.arena.nodes[id as int].parent == Some(owner)
        &&& next.arena.nodes[id as int].string_value == Some(attributes[j].value)
    } by {
        let node = filled.nodes[s.arena.nodes.len() + j];
        assert(next.arena.nodes[s.next_id + j] == node);
    }
}

/// An element that is still open when its document ends makes the document
/// invalid.
pub proof fn lemma_open_element_rejected(s: StateView)
    requires
        closes(s, NodeKind::Element),
    ensures
        step(EventView::EndDocument, s) == Err::<StateView, BuildError>(
            BuildError::InvalidDocument,
        ),
{
}

/// The id of the node that an event appends below the innermost open node:
/// the next free id, but for an element, whose attributes come first.
pub open spec fn appended_id(event: EventView, s: StateView) -> int {
    match event {
        EventView::StartElement { attributes, .. } => s.next_id + attributes.len(),
        _ => s.next_id as int,
    }
}

/// Whether an event appends a node below the innermost open node.
pub open spec fn appends_child(event: EventView) -> bool {
    event is StartElement || event is Characters || event is IgnorableWhitespace || event is Comment
        || event is ProcessingInstruction
}

/// Whatever its kind, a node that is appended below the innermost open node
/// is one level below that node, and an attribute one level below its
/// element.
pub proof fn lemma_child_one_level_below(event: EventView, s: StateView)
    requires
        state_ok(s),
        appends_child(event),
        step(event, s) is Ok,
    ensures
        ({
            let next = step(event, s)->Ok_0;
            let parent = s.stack.last();
            let child = appended_id(event, s);
            &&& s.stack.len() > 0
            &&& parent < s.next_id <= child < next.arena.nodes.len()
            &&& next.arena.nodes[child].parent == Some(parent)
            &&& next.arena.nodes[child].level == next.arena.nodes[parent as int].level + 1
            &&& next.arena.nodes[parent as int].level == s.arena.nodes[parent as int].level
            &&& forall|a: int|
                s.next_id <= a < child ==> (#[trigger] next.arena.nodes[a]).node_kind
                    == NodeKind::Attribute && next.arena.nodes[a].level
                    == next.arena.nodes[child].level + 1
        }),
{
    lemma_step_keeps_order(event, s);
    let next = step(event, s)->Ok_0;
    let child = appended_id(event, s);
    assert(s.stack[s.stack.len() - 1] < s.arena.nodes.len());
    assert(level_ok(next.arena.nodes, child));
    if let EventView::StartElement { uri, local_name, prefix, attributes } = event {
        let count = attributes.len();
        let level = (child_level(s) + 1) as u16;
        lemma_with_attributes_nodes(s.arena, attributes, count, child as NodeId, level);
        let filled = with_attributes(s.arena, attributes, count, child as NodeId, level);
        assert forall|a: int| s.next_id <= a < child implies (#[trigger] next.arena.nodes[a]).node_kind
            == NodeKind::Attribute && next.arena.nodes[a].level == next.arena.nodes[child].level
            + 1 by {
            assert(next.arena.nodes[a] == filled.nodes[s.arena.nodes.len() + (a - s.next_id)]);
        }
    }
}

/// Whether the open nodes are nested in one document: each is as deep as the
/// open nodes before it are many.
pub open spec fn one_document_open(s: StateView) -> bool {
    forall|i: int| 0 <= i < s.stack.len() ==> s.arena.nodes[(#[trigger] s.stack[i]) as int].level == i
}

/// While the open nodes are nested in one document, `depth` is the level of
/// the node that the next event appends, and it stays so with every event but
/// the start of a document inside an open node.
pub proof fn lemma_level_is_depth(event: EventView, s: StateView)
    requires
        state_ok(s),
        one_document_open(s),
        step(event, s) is Ok,
        event is StartDocument ==> s.stack.len() == 0,
    ensures
        one_document_open(step(event, s)->Ok_0),
        appends_child(event) ==> step(event, s)->Ok_0.arena.nodes[appended_id(event, s)].level
            == s.depth,
{
    lemma_step_keeps_order(event, s);
    let next = step(event, s)->Ok_0;
    if appends_child(event) {
        lemma_child_one_level_below(event, s);
        assert(s.arena.nodes[s.stack[s.stack.len() - 1] as int].level == s.stack.len() - 1);
    }
    assert forall|i: int| 0 <= i < next.stack.len() implies next.arena.nodes[(
    #[trigger] next.stack[i]) as int].level == i by {
        if i < s.stack.len() {
            assert(next.stack[i] == s.stack[i]);
            assert(s.arena.nodes[s.stack[i] as int].level == i);
            lemma_step_keeps_ids(event, s);
            assert(next.arena.nodes[s.stack[i] as int].level == s.arena.nodes[s.stack[i] as int].level);
        }
    }
}

/// A build starts from a state in order.
pub proof fn lemma_initial_state_in_order(base_uri: Seq<char>)
    ensures
        state_ok(initial_state(empty_collection(base_uri))),
{
}

/// Events in which a document ends while an element is still open build
/// nothing: where the `n`-th event is the end of the document and the
/// innermost open node is an element then, the build is rejected as invalid.
pub proof fn lemma_unclosed_element_rejected(events: Seq<EventView>, base_uri: Seq<char>, n: int)
    requires
        0 <= n < events.len(),
        events[n] == EventView::EndDocument,
        run(events.take(n), initial_state(empty_collection(base_uri))) is Ok,
        closes(
            run(events.take(n), initial_state(empty_collection(base_uri)))->Ok_0,
            NodeKind::Element,
        ),
    ensures
        built(events, base_uri) == Err::<CollectionView, BuildError>(BuildError::InvalidDocument),
{
    let first = initial_state(empty_collection(base_uri));
    assert(events.take(n + 1).drop_last() =~= events.take(n));
    assert(events.take(n + 1).last() == events[n]);
    lemma_run_fails_for_good(events, n + 1, first);
}

/// What was built is a sound tree, with every node one level below its
/// parent and every name interned.
pub proof fn lemma_built_well_formed(events: Seq<EventView>, base_uri: Seq<char>)
    requires
        built(events, base_uri) is Ok,
    ensures
        well_formed(built(events, base_uri)->Ok_0.nodes),
        levels_sound(built(events, base_uri)->Ok_0.nodes),
        built(events, base_uri)->Ok_0.names_known(),
{
    lemma_run_keeps_order(events, initial_state(empty_collection(base_uri)));
}

/// The collection that `events` build, or why they build none. At the end
/// no node may be left open.
pub open spec fn built(events: Seq<EventView>, base_uri: Seq<char>) -> Result<
    CollectionView,
    BuildError,
> {
    match run(events, initial_state(empty_collection(base_uri))) {
        Ok(s) => if s.stack.len() == 0 {
            Ok(s.arena)
        } else {
            Err(BuildError::InvalidDocument)
        },
        Err(e) => Err(e),
    }
}

/// A collection without nodes and names, with the given base uri and an
/// empty document uri.
pub open spec fn empty_collection(base_uri: Seq<char>) -> CollectionView {
    CollectionView {
        base_uri: Some(base_uri),
        doc_uri: Some(Seq::empty()),
        names: Seq::empty(),
        nsp: Seq::empty(),
        names_inv: Map::empty(),
        nsp_inv: Map::empty(),
        namespaces: Seq::empty(),
        nodes: Seq::empty(),
    }
}

/// Once an event has failed, the events after it change nothing.
pub proof fn lemma_run_fails_for_good(events: Seq<EventView>, n: int, s: StateView)
    requires
        0 <= n <= events.len(),
        run(events.take(n), s) is Err,
    ensures
        run(events, s) == run(events.take(n), s),
    decreases events.len(),
{
    if n == events.len() {
        assert(events.take(n) =~= events);
    } else {
        assert(events.drop_last().take(n) =~= events.take(n));
        lemma_run_fails_for_good(events.drop_last(), n, s);
    }
}

/// Whether the outcome of a build is the given one: the collection by its
/// view, a sound tree with its levels and names in order, or the error.
pub open spec fn build_agrees(
    result: Result<NodeCollection, BuildError>,
    expected: Result<CollectionView, BuildError>,
) -> bool {
    match result {
        Ok(collection) => {
            &&& expected == Ok::<CollectionView, BuildError>(collection@)
            &&& well_formed(collection@.nodes)
            &&& levels_sound(collection@.nodes)
            &&& collection@.names_known()
        },
        Err(e) => expected == Err::<CollectionView, BuildError>(e),
    }
}

/// Builds a collection from the events of one document.
pub fn build_collection(events: Vec<Event>, base_uri: String) -> (result: Result<
    NodeCollection,
    BuildError,
>)
    ensures
        build_agrees(result, built(events_view(events@), base_uri@)),
{
    let ghost all = events_view(events@);
    let container = NodeCollection::new(base_uri, String::new());
    let ghost first = initial_state(container@);
    let mut state: BuildState = (0, Vec::new(), 0, container);
    assert(state_view(state).stack =~= Seq::empty());
    assert(all.take(0) =~= Seq::empty());
    for event in iter: events
        invariant
            iter.seq() == events@,
            all == events_view(events@),
            first == initial_state(empty_collection(base_uri@)),
            state_ok(state_view(state)),
            run(all.take(iter.index() as int), first) == Ok::<StateView, BuildError>(
                state_view(state),
            ),
    {
        proof {
            let n = iter.index() as int;
            assert(all.take(n + 1).drop_last() =~= all.take(n));
            assert(all.take(n + 1).last() == event@);
        }
        state = match handle_event(event, state) {
            Ok(next) => next,
            Err(e) => {
                proof {
                    lemma_run_fails_for_good(all, iter.index() + 1, first);
                }
                return Err(e);
            },
        };
    }
    assert(all.take(all.len() as int) =~= all);
    if state.1.len() == 0 {
        Ok(state.3)
    } else {
        Err(BuildError::InvalidDocument)
    }
}

} // verus!
