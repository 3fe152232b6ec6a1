//! Document order in a collection that was built from events: the ids of the
//! nodes below a node rise along the document.

use vstd::prelude::*;
use crate::collection_builder::{
    built, child_level, empty_collection, initial_state, lemma_run_keeps_order, lemma_step_keeps_order,
    lemma_with_attributes_nodes, run, state_ok, step, with_attributes, StateView,
};
use crate::event::EventView;
use crate::nodes::{NodeId, NodeKind, NodeView};
use crate::tree::{
    chain, child_ok, descendants, forest, height, lemma_forest_in_range, lemma_parent_lower,
    node_ok, strictly_increasing, well_formed,
};

verus! {

/// Below every node the ids rise in document order.
pub open spec fn ordered(tree: Seq<NodeView>) -> bool {
    forall|id: NodeId, k: nat|
        id < tree.len() ==> strictly_increasing(#[trigger] forest(tree, id, k))
}

/// Whether `id` is the last child of its parent, if it has one.
pub open spec fn is_last_child(tree: Seq<NodeView>, id: NodeId) -> bool {
    match tree[id as int].parent {
        Some(p) => tree[p as int].child_ids().len() > 0 && tree[p as int].child_ids().last() == id,
        None => true,
    }
}

/// Whether `from` and each of its ancestors is the last child of its parent.
pub open spec fn last_all_the_way(tree: Seq<NodeView>, from: NodeId) -> bool {
    forall|i: int|
        0 <= i < chain(tree, Some(from)).len() ==> is_last_child(
            tree,
            #[trigger] chain(tree, Some(from))[i],
        )
}

/// In a sound tree the chain of parents from a node that is no attribute
/// starts with the node, goes from each to its parent and ends at a node
/// without a parent; no attribute is in it, and no id above the first.
pub proof fn lemma_chain_links(tree: Seq<NodeView>, from: NodeId)
    requires
        well_formed(tree),
        from < tree.len(),
        tree[from as int].node_kind != NodeKind::Attribute,
    ensures
        ({
            let c = chain(tree, Some(from));
            &&& c.len() > 0
            &&& c[0] == from
            &&& tree[c.last() as int].parent is None
            &&& forall|i: int|
                0 <= i < c.len() ==> (#[trigger] c[i]) <= from && tree[c[i] as int].node_kind
                    != NodeKind::Attribute
            &&& forall|i: int|
                0 <= i < c.len() - 1 ==> tree[(#[trigger] c[i]) as int].parent == Some(c[i + 1])
            &&& forall|i: int, j: int| 0 <= i < j < c.len() ==> c[j] < c[i]
        }),
    decreases height(tree, Some(from)),
{
    lemma_parent_lower(tree, from as int);
    let c = chain(tree, Some(from));
    match tree[from as int].parent {
        None => {
            assert(chain(tree, None) =~= Seq::<NodeId>::empty());
            assert(c =~= seq![from]);
        },
        Some(p) => {
            assert(node_ok(tree, from as int));
            assert(node_ok(tree, p as int));
            assert(tree[p as int].shape_ok());
            let k = choose|k: int|
                0 <= k < tree[p as int].child_ids().len() && tree[p as int].child_ids()[k] == from;
            assert(child_ok(tree, p as int, tree[p as int].child_ids()[k]));
            lemma_chain_links(tree, p);
            let rest = chain(tree, Some(p));
            assert(c == seq![from] + rest);
            assert(c.last() == rest.last());
            assert forall|i: int| 0 <= i < c.len() implies (#[trigger] c[i]) <= from
                && tree[c[i] as int].node_kind != NodeKind::Attribute by {
                if i > 0 {
                    assert(c[i] == rest[i - 1]);
                }
            }
            assert forall|i: int| 0 <= i < c.len() - 1 implies tree[(#[trigger] c[i]) as int].parent
                == Some(c[i + 1]) by {
                if i > 0 {
                    assert(c[i] == rest[i - 1]);
                    assert(c[i + 1] == rest[i]);
                } else {
                    assert(c[1] == rest[0]);
                }
            }
            assert forall|i: int, j: int| 0 <= i < j < c.len() implies c[j] < c[i] by {
                assert(c[j] == rest[j - 1]);
                if i > 0 {
                    assert(c[i] == rest[i - 1]);
                } else {
                    assert(rest[j - 1] <= p);
                }
            }
        },
    }
}

/// Two sound trees in which the nodes of the first have the same parents and
/// kinds have the same chains of parents from these nodes.
pub proof fn lemma_chain_kept(tree: Seq<NodeView>, grown: Seq<NodeView>, from: NodeId)
    requires
        well_formed(tree),
        well_formed(grown),
        tree.len() <= grown.len(),
        from < tree.len(),
        forall|i: int|
            0 <= i < tree.len() ==> (#[trigger] grown[i]).parent == tree[i].parent
                && grown[i].node_kind == tree[i].node_kind,
    ensures
        chain(grown, Some(from)) == chain(tree, Some(from)),
    decreases height(tree, Some(from)),
{
    lemma_parent_lower(tree, from as int);
    lemma_parent_lower(grown, from as int);
    assert(grown[from as int].parent == tree[from as int].parent);
    match tree[from as int].parent {
        None => {
            assert(chain(tree, None) =~= Seq::<NodeId>::empty());
            assert(chain(grown, None) =~= Seq::<NodeId>::empty());
        },
        Some(p) => {
            lemma_chain_kept(tree, grown, p);
        },
    }
}

/// Where the children lists of the nodes of a sound tree stay as they are,
/// so does all that is below these nodes.
pub proof fn lemma_forest_kept(tree: Seq<NodeView>, grown: Seq<NodeView>, id: NodeId, k: nat)
    requires
        well_formed(tree),
        tree.len() <= grown.len(),
        id < tree.len(),
        forall|i: int|
            0 <= i < tree.len() ==> (#[trigger] grown[i]).child_ids() == tree[i].child_ids(),
    ensures
        forest(grown, id, k) == forest(tree, id, k),
    decreases tree.len() - id, tree[id as int].child_ids().len() - k,
{
    let children = tree[id as int].child_ids();
    assert(grown[id as int].child_ids() == children);
    if k < children.len() {
        let child = children[k as int];
        assert(node_ok(tree, id as int));
        assert(child_ok(tree, id as int, child));
        lemma_forest_kept(tree, grown, child, 0);
        lemma_forest_kept(tree, grown, id, k + 1);
    }
}

/// `grown` is `tree` after the node `owner` was appended, with or without
/// attributes before it, and linked below `top` as its last child.
pub open spec fn appended_below(
    tree: Seq<NodeView>,
    grown: Seq<NodeView>,
    top: NodeId,
    owner: NodeId,
) -> bool {
    &&& top < tree.len() <= owner < grown.len()
    &&& forall|i: int|
        0 <= i < tree.len() ==> (#[trigger] grown[i]).parent == tree[i].parent
            && grown[i].node_kind == tree[i].node_kind
    &&& forall|i: int|
        0 <= i < tree.len() && i != top ==> (#[trigger] grown[i]).child_ids()
            == tree[i].child_ids()
    &&& grown[top as int].child_ids() == tree[top as int].child_ids().push(owner)
    &&& forall|i: int| tree.len() <= i < grown.len() ==> (#[trigger] grown[i]).child_ids().len() == 0
}

/// Whether the list `forest(tree, id, k)` gains the node that is appended
/// below `top`: the lists of `top` do, and those of its ancestors that still
/// hold the child through which they reach `top`.
pub open spec fn gains(tree: Seq<NodeView>, top: NodeId, id: NodeId, k: nat) -> bool {
    if id == top {
        k <= tree[top as int].child_ids().len()
    } else {
        chain(tree, Some(top)).contains(id) && k < tree[id as int].child_ids().len()
    }
}

/// A node that is appended below the innermost of the open nodes comes last
/// in every list of nodes below a node that it enters, and enters no other.
pub proof fn lemma_forest_grown(
    tree: Seq<NodeView>,
    grown: Seq<NodeView>,
    top: NodeId,
    owner: NodeId,
    id: NodeId,
    k: nat,
)
    requires
        well_formed(tree),
        appended_below(tree, grown, top, owner),
        tree[top as int].node_kind != NodeKind::Attribute,
        last_all_the_way(tree, top),
        id < tree.len(),
    ensures
        forest(grown, id, k) == if gains(tree, top, id, k) {
            forest(tree, id, k).push(owner)
        } else {
            forest(tree, id, k)
        },
    decreases tree.len() - id, tree[id as int].child_ids().len() + 1 - k,
{
    let c = chain(tree, Some(top));
    lemma_chain_links(tree, top);
    let children = tree[id as int].child_ids();
    assert(node_ok(tree, id as int));
    if id == top {
        if k < children.len() {
            let child = children[k as int];
            assert(grown[id as int].child_ids()[k as int] == child);
            assert(child_ok(tree, id as int, child));
            // a child of `top` is neither `top` nor above it
            assert(!c.contains(child)) by {
                if c.contains(child) {
                    let j = choose|j: int| 0 <= j < c.len() && c[j] == child;
                    assert(c[j] <= top);
                }
            }
            lemma_forest_grown(tree, grown, top, owner, child, 0);
            lemma_forest_grown(tree, grown, top, owner, id, k + 1);
            assert(forest(grown, id, k) =~= forest(tree, id, k).push(owner));
        } else if k == children.len() {
            assert(grown[id as int].child_ids()[k as int] == owner);
            assert(grown[owner as int].child_ids().len() == 0);
            assert(forest(grown, owner, 0) =~= Seq::<NodeId>::empty());
            assert(forest(grown, id, k + 1) =~= Seq::<NodeId>::empty());
            assert(forest(tree, id, k) =~= Seq::<NodeId>::empty());
            assert(forest(grown, id, k) =~= forest(tree, id, k).push(owner));
        } else {
            assert(forest(grown, id, k) =~= forest(tree, id, k));
        }
    } else {
        assert(grown[id as int].child_ids() == children);
        if k < children.len() {
            let child = children[k as int];
            assert(child_ok(tree, id as int, child));
            lemma_forest_grown(tree, grown, top, owner, child, 0);
            lemma_forest_grown(tree, grown, top, owner, id, k + 1);
            if c.contains(id) {
                let i = choose|i: int| 0 <= i < c.len() && c[i] == id;
                // the child through which `id` reaches `top` is its last
                assert(tree[c[i - 1] as int].parent == Some(c[i]));
                assert(is_last_child(tree, c[i - 1]));
                if k == children.len() - 1 {
                    assert(child == c[i - 1]);
                    if child != top {
                        assert(tree[c[i - 2] as int].parent == Some(c[i - 1]));
                        assert(is_last_child(tree, c[i - 2]));
                    }
                    assert(gains(tree, top, child, 0));
                    assert(!gains(tree, top, id, k + 1));
                    assert(forest(grown, id, k) =~= forest(tree, id, k).push(owner));
                } else {
                    assert(child < children[children.len() - 1]);
                    assert(!c.contains(child)) by {
                        if c.contains(child) {
                            let j = choose|j: int| 0 <= j < c.len() && c[j] == child;
                            assert(tree[c[j] as int].parent == Some(c[j + 1]));
                            if j + 1 < i {
                                assert(c[i] < c[j + 1]);
                            } else if i < j + 1 {
                                assert(c[j + 1] < c[i]);
                            }
                        }
                    }
                    assert(child != top);
                    assert(forest(grown, id, k) =~= forest(tree, id, k).push(owner));
                }
            } else {
                assert(!c.contains(child)) by {
                    if c.contains(child) {
                        let j = choose|j: int| 0 <= j < c.len() && c[j] == child;
                        assert(tree[c[j] as int].parent == Some(c[j + 1]));
                        assert(c[j + 1] == id);
                    }
                }
                assert(child != top);
                assert(forest(grown, id, k) =~= forest(tree, id, k));
            }
        } else {
            assert(forest(grown, id, k) =~= forest(tree, id, k));
        }
    }
}

/// What holds of the open nodes and of the tree between two events, besides
/// `state_ok`: the open nodes were opened one after the other, each of them
/// and of its ancestors is the last child of its parent, and the tree is in
/// document order.
pub open spec fn path_ok(s: StateView) -> bool {
    &&& strictly_increasing(s.stack)
    &&& forall|i: int|
        0 <= i < s.stack.len() ==> last_all_the_way(s.arena.nodes, #[trigger] s.stack[i])
    &&& ordered(s.arena.nodes)
}

/// The open nodes stay last children all the way up when the tree grows
/// below the innermost of them or beside them.
proof fn lemma_path_kept(tree: Seq<NodeView>, grown: Seq<NodeView>, stack: Seq<NodeId>, i: int)
    requires
        well_formed(tree),
        well_formed(grown),
        tree.len() <= grown.len(),
        strictly_increasing(stack),
        0 <= i < stack.len(),
        forall|j: int|
            0 <= j < stack.len() ==> (#[trigger] stack[j]) < tree.len()
                && tree[stack[j] as int].children is Some,
        forall|j: int|
            0 <= j < tree.len() ==> (#[trigger] grown[j]).parent == tree[j].parent
                && grown[j].node_kind == tree[j].node_kind,
        forall|j: int|
            0 <= j < tree.len() && j != stack.last() ==> (#[trigger] grown[j]).child_ids()
                == tree[j].child_ids(),
        last_all_the_way(tree, stack[i]),
    ensures
        last_all_the_way(grown, stack[i]),
{
    let from = stack[i];
    assert(node_ok(tree, from as int));
    assert(tree[from as int].shape_ok());
    lemma_chain_kept(tree, grown, from);
    lemma_chain_links(tree, from);
    let c = chain(tree, Some(from));
    assert forall|j: int| 0 <= j < c.len() implies is_last_child(grown, #[trigger] c[j]) by {
        let a = c[j];
        assert(is_last_child(tree, a));
        assert(a <= from);
        assert(from <= stack.last()) by {
            if i < stack.len() - 1 {
                assert(stack[i] < stack[stack.len() - 1]);
            }
        }
        assert(node_ok(tree, a as int));
        if let Some(p) = tree[a as int].parent {
            lemma_parent_lower(tree, a as int);
            assert(p < a);
        }
    }
}

/// A tree in document order stays so when a node is appended below the
/// innermost open node.
proof fn lemma_order_kept(tree: Seq<NodeView>, grown: Seq<NodeView>, top: NodeId, owner: NodeId)
    requires
        well_formed(tree),
        appended_below(tree, grown, top, owner),
        tree[top as int].node_kind != NodeKind::Attribute,
        last_all_the_way(tree, top),
        ordered(tree),
    ensures
        ordered(grown),
{
    assert forall|id: NodeId, k: nat| id < grown.len() implies strictly_increasing(
        #[trigger] forest(grown, id, k),
    ) by {
        if id < tree.len() {
            lemma_forest_grown(tree, grown, top, owner, id, k);
            lemma_forest_in_range(tree, id, k);
            let before = forest(tree, id, k);
            assert(strictly_increasing(before));
            if gains(tree, top, id, k) {
                let after = before.push(owner);
                assert forall|i: int, j: int| 0 <= i < j < after.len() implies after[i]
                    < after[j] by {
                    if j < before.len() {
                        assert(before[i] < before[j]);
                    } else {
                        assert(before[i] < tree.len());
                    }
                }
            }
        } else {
            assert(grown[id as int].child_ids().len() == 0);
            assert(forest(grown, id, k) =~= Seq::<NodeId>::empty());
        }
    }
}

/// After a node was appended below the innermost open node and opened, the
/// open nodes are as `path_ok` asks.
proof fn lemma_append_keeps_path(s: StateView, next: StateView, owner: NodeId, opens: bool)
    requires
        state_ok(s),
        state_ok(next),
        path_ok(s),
        s.stack.len() > 0,
        appended_below(s.arena.nodes, next.arena.nodes, s.stack.last(), owner),
        next.arena.nodes[owner as int].parent == Some(s.stack.last()),
        next.arena.nodes[owner as int].node_kind != NodeKind::Attribute,
        next.stack == if opens {
            s.stack.push(owner)
        } else {
            s.stack
        },
    ensures
        path_ok(next),
{
    let tree = s.arena.nodes;
    let grown = next.arena.nodes;
    let top = s.stack.last();
    assert(s.stack[s.stack.len() - 1] < tree.len());
    assert(node_ok(tree, top as int));
    assert(tree[top as int].shape_ok());
    lemma_order_kept(tree, grown, top, owner);
    assert forall|i: int| 0 <= i < s.stack.len() implies last_all_the_way(
        grown,
        #[trigger] s.stack[i],
    ) by {
        lemma_path_kept(tree, grown, s.stack, i);
    }
    if opens {
        lemma_parent_lower(grown, owner as int);
        let up = chain(grown, Some(top));
        let all = chain(grown, Some(owner));
        assert(all == seq![owner] + up);
        assert(last_all_the_way(grown, top));
        assert forall|i: int| 0 <= i < all.len() implies is_last_child(grown, #[trigger] all[i]) by {
            if i > 0 {
                assert(all[i] == up[i - 1]);
            }
        }
        assert forall|i: int, j: int| 0 <= i < j < next.stack.len() implies next.stack[i]
            < next.stack[j] by {
            if j < s.stack.len() {
                assert(s.stack[i] < s.stack[j]);
            } else {
                assert(s.stack[i] < tree.len());
            }
        }
        assert forall|i: int| 0 <= i < next.stack.len() implies last_all_the_way(
            grown,
            #[trigger] next.stack[i],
        ) by {
            if i < s.stack.len() {
                assert(next.stack[i] == s.stack[i]);
            }
        }
    }
}

/// A step that succeeds keeps the tree in document order.
pub proof fn lemma_step_keeps_document_order(event: EventView, s: StateView)
    requires
        state_ok(s),
        path_ok(s),
        step(event, s) is Ok,
    ensures
        path_ok(step(event, s)->Ok_0),
{
    let next = step(event, s)->Ok_0;
    lemma_step_keeps_order(event, s);
    let tree = s.arena.nodes;
    let grown = next.arena.nodes;
    match event {
        EventView::StartDocument => {
            assert forall|id: NodeId, k: nat| id < grown.len() implies strictly_increasing(
                #[trigger] forest(grown, id, k),
            ) by {
                if id < tree.len() {
                    lemma_forest_kept(tree, grown, id, k);
                } else {
                    assert(forest(grown, id, k) =~= Seq::<NodeId>::empty());
                }
            }
            assert forall|i: int| 0 <= i < next.stack.len() implies last_all_the_way(
                grown,
                #[trigger] next.stack[i],
            ) by {
                if i < s.stack.len() {
                    assert(next.stack[i] == s.stack[i]);
                    if s.stack.len() > 0 {
                        lemma_path_kept(tree, grown, s.stack, i);
                    }
                } else {
                    let from = next.stack[i];
                    lemma_parent_lower(grown, from as int);
                    assert(chain(grown, None) =~= Seq::<NodeId>::empty());
                    assert(chain(grown, Some(from)) =~= seq![from]);
                }
            }
            assert forall|i: int, j: int| 0 <= i < j < next.stack.len() implies next.stack[i]
                < next.stack[j] by {
                if j < s.stack.len() {
                    assert(s.stack[i] < s.stack[j]);
                } else {
                    assert(s.stack[i] < tree.len());
                }
            }
        },
        EventView::EndDocument => {
            lemma_popped_keeps_path(s);
        },
        EventView::EndElement => {
            lemma_popped_keeps_path(s);
        },
        EventView::StartElement { uri, local_name, prefix, attributes } => {
            let count = attributes.len();
            let owner = (s.next_id + count) as NodeId;
            let level = (child_level(s) + 1) as u16;
            lemma_with_attributes_nodes(s.arena, attributes, count, owner, level);
            let filled = with_attributes(s.arena, attributes, count, owner, level);
            assert forall|i: int| tree.len() <= i < grown.len() implies (#[trigger] grown[i]).child_ids().len()
                == 0 by {
                if i < owner {
                    assert(grown[i] == filled.nodes[tree.len() + (i - tree.len())]);
                }
            }
            lemma_append_keeps_path(s, next, owner, true);
        },
        EventView::Characters { text } => {
            lemma_append_keeps_path(s, next, s.next_id, false);
        },
        EventView::IgnorableWhitespace { text } => {
            lemma_append_keeps_path(s, next, s.next_id, false);
        },
        EventView::ProcessingInstruction { target, data } => {
            lemma_append_keeps_path(
                StateView { arena: s.arena.with_qname(target, Seq::empty(), Seq::empty()), ..s },
                next,
                s.next_id,
                false,
            );
        },
        EventView::Comment { text } => {
            lemma_append_keeps_path(s, next, s.next_id, false);
        },
        _ => {},
    }
}

/// Closing the innermost open node leaves the others as `path_ok` asks.
proof fn lemma_popped_keeps_path(s: StateView)
    requires
        path_ok(s),
        s.stack.len() > 0,
    ensures
        strictly_increasing(s.stack.drop_last()),
        forall|i: int|
            0 <= i < s.stack.drop_last().len() ==> last_all_the_way(
                s.arena.nodes,
                #[trigger] s.stack.drop_last()[i],
            ),
{
    let rest = s.stack.drop_last();
    assert forall|i: int, j: int| 0 <= i < j < rest.len() implies rest[i] < rest[j] by {
        assert(s.stack[i] < s.stack[j]);
    }
    assert forall|i: int| 0 <= i < rest.len() implies last_all_the_way(
        s.arena.nodes,
        #[trigger] rest[i],
    ) by {
        assert(rest[i] == s.stack[i]);
    }
}

/// Every state that a build reaches keeps the tree in document order.
pub proof fn lemma_run_keeps_document_order(events: Seq<EventView>, s: StateView)
    requires
        state_ok(s),
        path_ok(s),
        run(events, s) is Ok,
    ensures
        path_ok(run(events, s)->Ok_0),
    decreases events.len(),
{
    if events.len() > 0 {
        lemma_run_keeps_order(events.drop_last(), s);
        lemma_run_keeps_document_order(events.drop_last(), s);
        lemma_step_keeps_document_order(events.last(), run(events.drop_last(), s)->Ok_0);
    }
}

/// In a collection that was built from events the ids rise along the
/// document: the descendants of every node come in rising order of their
/// ids, all after the node itself.
pub proof fn lemma_built_in_document_order(events: Seq<EventView>, base_uri: Seq<char>)
    requires
        built(events, base_uri) is Ok,
    ensures
        ordered(built(events, base_uri)->Ok_0.nodes),
        forall|id: NodeId|
            id < built(events, base_uri)->Ok_0.nodes.len() ==> strictly_increasing(
                #[trigger] descendants(built(events, base_uri)->Ok_0.nodes, id),
            ),
{
    let first = initial_state(empty_collection(base_uri));
    assert(ordered(first.arena.nodes));
    lemma_run_keeps_document_order(events, first);
    let tree = built(events, base_uri)->Ok_0.nodes;
    assert forall|id: NodeId| id < tree.len() implies strictly_increasing(
        #[trigger] descendants(tree, id),
    ) by {
        assert(strictly_increasing(forest(tree, id, 0)));
    }
}

} // verus!
