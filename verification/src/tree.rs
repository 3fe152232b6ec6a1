//! The tree that the nodes of an arena form: when the links between the nodes
//! are sound, and what the navigation over them yields.

use vstd::prelude::*;
use crate::nodes::{NodeId, NodeKind, NodeView};
use crate::symbols::{lemma_position, position};
use crate::xpath::XPathAxis;

verus! {

pub open spec fn strictly_increasing(ids: Seq<NodeId>) -> bool {
    forall|i: int, j: int| 0 <= i < j < ids.len() ==> ids[i] < ids[j]
}

/// `child` may stand in the children list of `parent`: it comes later in the
/// arena, names `parent` as its parent and is no attribute.
pub open spec fn child_ok(tree: Seq<NodeView>, parent: int, child: NodeId) -> bool {
    &&& parent < child < tree.len()
    &&& tree[child as int].parent == Some(parent as NodeId)
    &&& tree[child as int].node_kind != NodeKind::Attribute
}

/// `attribute` may stand in the attribute list of `owner`: it comes earlier in
/// the arena, names `owner` as its parent and is an attribute.
pub open spec fn attribute_ok(tree: Seq<NodeView>, owner: int, attribute: NodeId) -> bool {
    &&& attribute < owner
    &&& tree[attribute as int].parent == Some(owner as NodeId)
    &&& tree[attribute as int].node_kind == NodeKind::Attribute
}

/// The parent of node `id`, if it has one, lists `id`: among its attributes
/// if `id` is an attribute, else among its children.
pub open spec fn parent_ok(tree: Seq<NodeView>, id: int) -> bool {
    match tree[id].parent {
        None => true,
        Some(p) => {
            &&& p < tree.len()
            &&& if tree[id].node_kind == NodeKind::Attribute {
                tree[p as int].attribute_ids().contains(id as NodeId)
            } else {
                tree[p as int].child_ids().contains(id as NodeId)
            }
        },
    }
}

pub open spec fn node_ok(tree: Seq<NodeView>, id: int) -> bool {
    let node = tree[id];
    &&& node.shape_ok()
    &&& strictly_increasing(node.child_ids())
    &&& strictly_increasing(node.attribute_ids())
    &&& forall|k: int|
        0 <= k < node.child_ids().len() ==> child_ok(tree, id, #[trigger] node.child_ids()[k])
    &&& forall|k: int|
        0 <= k < node.attribute_ids().len() ==> attribute_ok(
            tree,
            id,
            #[trigger] node.attribute_ids()[k],
        )
    &&& parent_ok(tree, id)
}

/// The links of every node are sound.
pub open spec fn well_formed(tree: Seq<NodeView>) -> bool {
    forall|id: int| 0 <= id < tree.len() ==> node_ok(tree, id)
}

/// The node `id` is one level below its parent, or at level 0 if it has none.
pub open spec fn level_ok(tree: Seq<NodeView>, id: int) -> bool {
    match tree[id].parent {
        Some(p) => tree[id].level == tree[p as int].level + 1,
        None => tree[id].level == 0,
    }
}

/// The level of every node is its nesting depth from the root of its tree:
/// 0 for a document, and for every other node one more than its parent's. An
/// attribute is one level below its element.
pub open spec fn levels_sound(tree: Seq<NodeView>) -> bool {
    forall|id: int| 0 <= id < tree.len() ==> level_ok(tree, id)
}

/// The nodes below the children of `id` from the `k`-th on, in document
/// order: each child, then what is below it, then the next child. A child id
/// that is not above `id` and within the arena is listed and not entered.
pub open spec fn forest(tree: Seq<NodeView>, id: NodeId, k: nat) -> Seq<NodeId>
    decreases tree.len() - id, tree[id as int].child_ids().len() - k,
{
    let children = tree[id as int].child_ids();
    if k >= children.len() {
        Seq::empty()
    } else {
        let child = children[k as int];
        let below = if id < child < tree.len() {
            forest(tree, child, 0)
        } else {
            Seq::empty()
        };
        seq![child] + below + forest(tree, id, k + 1)
    }
}

/// The descendants of `id` in document order.
pub open spec fn descendants(tree: Seq<NodeView>, id: NodeId) -> Seq<NodeId> {
    forest(tree, id, 0)
}

/// A measure that falls along the parent links of a sound tree: an attribute
/// stands above every other node, and any other node above those before it.
pub open spec fn height(tree: Seq<NodeView>, from: Option<NodeId>) -> int {
    match from {
        None => 0,
        Some(id) => if tree[id as int].node_kind == NodeKind::Attribute {
            tree.len() as int + 1
        } else {
            id as int + 1
        },
    }
}

/// The chain of parents that starts with `from`, nearest first. The chain
/// ends at a node without a parent; it also ends where a parent link does
/// not lead downwards in `height`.
pub open spec fn chain(tree: Seq<NodeView>, from: Option<NodeId>) -> Seq<NodeId>
    decreases height(tree, from),
{
    match from {
        None => Seq::empty(),
        Some(id) => {
            let next = tree[id as int].parent;
            if height(tree, next) < height(tree, from) {
                seq![id] + chain(tree, next)
            } else {
                seq![id]
            }
        },
    }
}

/// The ancestors of `id`, nearest first.
pub open spec fn ancestors(tree: Seq<NodeView>, id: NodeId) -> Seq<NodeId> {
    chain(tree, tree[id as int].parent)
}

/// The results of `f` on each of `ids`, one after the other.
pub open spec fn flat_map(ids: Seq<NodeId>, f: spec_fn(NodeId) -> Seq<NodeId>) -> Seq<NodeId>
    decreases ids.len(),
{
    if ids.len() == 0 {
        Seq::empty()
    } else {
        flat_map(ids.drop_last(), f) + f(ids.last())
    }
}

/// The ancestors of each of `ids`, one chain after the other; a node that is
/// an ancestor of several of them is listed once for each.
pub open spec fn ancestors_of(tree: Seq<NodeView>, ids: Seq<NodeId>) -> Seq<NodeId> {
    flat_map(ids, |id: NodeId| ancestors(tree, id))
}

/// A node and its descendants, in document order.
pub open spec fn subtree(tree: Seq<NodeView>, id: NodeId) -> Seq<NodeId> {
    seq![id] + descendants(tree, id)
}

/// The parent of `id`, if it has one.
pub open spec fn parent_of(tree: Seq<NodeView>, id: NodeId) -> Seq<NodeId> {
    match tree[id as int].parent {
        Some(p) => seq![p],
        None => Seq::empty(),
    }
}

/// The children of the parent of `id`: the list in which `id` has its place
/// among its siblings. An attribute and a node without parent have no such
/// list; theirs is empty.
pub open spec fn sibling_list(tree: Seq<NodeView>, id: NodeId) -> Seq<NodeId> {
    match tree[id as int].parent {
        Some(p) => tree[p as int].child_ids(),
        None => Seq::empty(),
    }
}

/// The siblings that come after `id`, in document order.
pub open spec fn following_siblings(tree: Seq<NodeView>, id: NodeId) -> Seq<NodeId> {
    let list = sibling_list(tree, id);
    match position(list, id) {
        Some(k) => list.skip(k + 1),
        None => Seq::empty(),
    }
}

/// The siblings that come before `id`, the nearest first.
pub open spec fn preceding_siblings(tree: Seq<NodeView>, id: NodeId) -> Seq<NodeId> {
    let list = sibling_list(tree, id);
    match position(list, id) {
        Some(k) => list.take(k).reverse(),
        None => Seq::empty(),
    }
}

/// The nodes after `id` in document order that are neither below it nor
/// attributes: for `id` and then each of its ancestors, the nearest first,
/// the siblings after it with all that is below them. For an attribute the
/// nodes below its element come first.
pub open spec fn following(tree: Seq<NodeView>, id: NodeId) -> Seq<NodeId> {
    let inner = match tree[id as int].parent {
        Some(p) if tree[id as int].node_kind == NodeKind::Attribute => descendants(tree, p),
        _ => Seq::empty(),
    };
    inner + flat_map(
        seq![id] + ancestors(tree, id),
        |a: NodeId| flat_map(following_siblings(tree, a), |s: NodeId| subtree(tree, s)),
    )
}

/// The nodes before `id` in document order that are neither its ancestors
/// nor attributes, the nearest first: for `id` and then each of its
/// ancestors, the nearest first, the siblings before it, each with all that
/// is below it, from its end to its start.
pub open spec fn preceding(tree: Seq<NodeView>, id: NodeId) -> Seq<NodeId> {
    flat_map(
        seq![id] + ancestors(tree, id),
        |a: NodeId| flat_map(preceding_siblings(tree, a), |s: NodeId| subtree(tree, s).reverse()),
    )
}

/// The nodes that an axis reaches from `id`. The forward axes give them in
/// document order, the reverse axes (ancestor, preceding and their kin) the
/// nearest first.
pub open spec fn axis_nodes(tree: Seq<NodeView>, axis: XPathAxis, id: NodeId) -> Seq<NodeId> {
    match axis {
        XPathAxis::Ancestor => ancestors(tree, id),
        XPathAxis::AncestorOrSelf => seq![id] + ancestors(tree, id),
        XPathAxis::Attribute => tree[id as int].attribute_ids(),
        XPathAxis::Child => tree[id as int].child_ids(),
        XPathAxis::Descendant => descendants(tree, id),
        XPathAxis::DescendantOrSelf => subtree(tree, id),
        XPathAxis::Following => following(tree, id),
        XPathAxis::FollowingSibling => following_siblings(tree, id),
        XPathAxis::Parent => parent_of(tree, id),
        XPathAxis::Preceding => preceding(tree, id),
        XPathAxis::PrecedingSibling => preceding_siblings(tree, id),
        XPathAxis::SelfAxis => seq![id],
    }
}

/// The nodes that an axis reaches from each of `ids`, one result after the
/// other, with nothing taken out.
pub open spec fn on_axis(tree: Seq<NodeView>, axis: XPathAxis, ids: Seq<NodeId>) -> Seq<NodeId> {
    flat_map(ids, |id: NodeId| axis_nodes(tree, axis, id))
}

/// Whether all of `ids` are ids of nodes of the arena.
pub open spec fn in_range(tree: Seq<NodeView>, ids: Seq<NodeId>) -> bool {
    forall|i: int| 0 <= i < ids.len() ==> #[trigger] ids[i] < tree.len()
}

/// `flat_map` on one more id.
pub proof fn lemma_flat_map_next(ids: Seq<NodeId>, f: spec_fn(NodeId) -> Seq<NodeId>, i: int)
    requires
        0 <= i < ids.len(),
    ensures
        flat_map(ids.take(i + 1), f) == flat_map(ids.take(i), f) + f(ids[i]),
        flat_map(ids.take(0), f) == Seq::<NodeId>::empty(),
        flat_map(ids.take(ids.len() as int), f) == flat_map(ids, f),
{
    assert(ids.take(i + 1).drop_last() =~= ids.take(i));
    assert(ids.take(ids.len() as int) =~= ids);
}

/// `flat_map` on one list after another, and on a single id.
pub proof fn lemma_flat_map_add(a: Seq<NodeId>, b: Seq<NodeId>, f: spec_fn(NodeId) -> Seq<NodeId>)
    ensures
        flat_map(a + b, f) == flat_map(a, f) + flat_map(b, f),
        forall|id: NodeId| #[trigger] flat_map(seq![id], f) == f(id),
    decreases b.len(),
{
    if b.len() == 0 {
        assert(a + b =~= a);
        assert(flat_map(a, f) + flat_map(b, f) =~= flat_map(a, f));
    } else {
        assert((a + b).drop_last() =~= a + b.drop_last());
        lemma_flat_map_add(a, b.drop_last(), f);
        assert(flat_map(a + b, f) =~= flat_map(a, f) + flat_map(b, f));
    }
    assert forall|id: NodeId| #[trigger] flat_map(seq![id], f) == f(id) by {
        assert(seq![id].drop_last() =~= Seq::<NodeId>::empty());
        assert(flat_map(seq![id].drop_last(), f) =~= Seq::<NodeId>::empty());
        assert(flat_map(seq![id], f) =~= f(id));
    }
}

/// `flat_map` with two functions that agree on all of `ids`.
pub proof fn lemma_flat_map_same(
    ids: Seq<NodeId>,
    f: spec_fn(NodeId) -> Seq<NodeId>,
    g: spec_fn(NodeId) -> Seq<NodeId>,
)
    requires
        forall|i: int| 0 <= i < ids.len() ==> f(#[trigger] ids[i]) == g(ids[i]),
    ensures
        flat_map(ids, f) == flat_map(ids, g),
    decreases ids.len(),
{
    if ids.len() > 0 {
        lemma_flat_map_same(ids.drop_last(), f, g);
        assert(f(ids[ids.len() - 1]) == g(ids[ids.len() - 1]));
    }
}

/// In a sound tree the chain of parents stays within the arena.
pub proof fn lemma_chain_in_range(tree: Seq<NodeView>, from: Option<NodeId>)
    requires
        well_formed(tree),
        from is Some ==> from->0 < tree.len(),
    ensures
        in_range(tree, chain(tree, from)),
    decreases height(tree, from),
{
    if let Some(id) = from {
        lemma_parent_lower(tree, id as int);
        lemma_chain_in_range(tree, tree[id as int].parent);
        let rest = chain(tree, tree[id as int].parent);
        let all = chain(tree, from);
        assert(all == seq![id] + rest);
        assert forall|i: int| 0 <= i < all.len() implies #[trigger] all[i] < tree.len() by {
            if i > 0 {
                assert(all[i] == rest[i - 1]);
            }
        }
    }
}

/// In a sound tree the children and the attributes of a node are in the arena.
pub proof fn lemma_lists_in_range(tree: Seq<NodeView>, id: NodeId)
    requires
        well_formed(tree),
        id < tree.len(),
    ensures
        in_range(tree, tree[id as int].child_ids()),
        in_range(tree, tree[id as int].attribute_ids()),
        in_range(tree, sibling_list(tree, id)),
        in_range(tree, parent_of(tree, id)),
        tree[id as int].parent is Some ==> tree[id as int].parent->0 < tree.len(),
{
    assert(node_ok(tree, id as int));
    let node = tree[id as int];
    assert forall|i: int| 0 <= i < node.child_ids().len() implies #[trigger] node.child_ids()[i]
        < tree.len() by {
        assert(child_ok(tree, id as int, node.child_ids()[i]));
    }
    assert forall|i: int| 0 <= i < node.attribute_ids().len() implies #[trigger] node.attribute_ids()[i]
        < tree.len() by {
        assert(attribute_ok(tree, id as int, node.attribute_ids()[i]));
    }
    if let Some(p) = node.parent {
        assert(node_ok(tree, p as int));
        let list = tree[p as int].child_ids();
        assert forall|i: int| 0 <= i < list.len() implies #[trigger] list[i] < tree.len() by {
            assert(child_ok(tree, p as int, list[i]));
        }
    }
}

/// Where `f` stays within the arena on each of `ids`, so does `flat_map`.
pub proof fn lemma_flat_map_in_range(
    tree: Seq<NodeView>,
    ids: Seq<NodeId>,
    f: spec_fn(NodeId) -> Seq<NodeId>,
)
    requires
        forall|i: int| 0 <= i < ids.len() ==> in_range(tree, f(#[trigger] ids[i])),
    ensures
        in_range(tree, flat_map(ids, f)),
    decreases ids.len(),
{
    if ids.len() > 0 {
        lemma_flat_map_in_range(tree, ids.drop_last(), f);
        let front = flat_map(ids.drop_last(), f);
        let back = f(ids[ids.len() - 1]);
        let all = flat_map(ids, f);
        assert(in_range(tree, back));
        assert forall|i: int| 0 <= i < all.len() implies #[trigger] all[i] < tree.len() by {
            if i < front.len() {
                assert(all[i] == front[i]);
            } else {
                assert(all[i] == back[i - front.len()]);
            }
        }
    }
}

/// In a sound tree a node and what is below it are in the arena.
pub proof fn lemma_subtree_in_range(tree: Seq<NodeView>, id: NodeId)
    requires
        well_formed(tree),
        id < tree.len(),
    ensures
        in_range(tree, subtree(tree, id)),
        in_range(tree, subtree(tree, id).reverse()),
{
    lemma_forest_in_range(tree, id, 0);
    let below = descendants(tree, id);
    let all = subtree(tree, id);
    assert forall|i: int| 0 <= i < all.len() implies #[trigger] all[i] < tree.len() by {
        if i > 0 {
            assert(all[i] == below[i - 1]);
        }
    }
    assert forall|i: int| 0 <= i < all.reverse().len() implies #[trigger] all.reverse()[i]
        < tree.len() by {
        assert(all.reverse()[i] == all[all.len() - 1 - i]);
    }
}

/// In a sound tree the siblings of a node are in the arena.
pub proof fn lemma_siblings_in_range(tree: Seq<NodeView>, id: NodeId)
    requires
        well_formed(tree),
        id < tree.len(),
    ensures
        in_range(tree, following_siblings(tree, id)),
        in_range(tree, preceding_siblings(tree, id)),
{
    lemma_lists_in_range(tree, id);
    let list = sibling_list(tree, id);
    lemma_position(list, id);
    if let Some(k) = position(list, id) {
        let after = list.skip(k + 1);
        assert forall|i: int| 0 <= i < after.len() implies #[trigger] after[i] < tree.len() by {
            assert(after[i] == list[k + 1 + i]);
        }
        let before = list.take(k).reverse();
        assert forall|i: int| 0 <= i < before.len() implies #[trigger] before[i] < tree.len() by {
            assert(before[i] == list[k - 1 - i]);
        }
    }
}

/// In a sound tree an axis leads from a node of the arena to nodes of the
/// arena.
pub proof fn lemma_axis_in_range(tree: Seq<NodeView>, axis: XPathAxis, id: NodeId)
    requires
        well_formed(tree),
        id < tree.len(),
    ensures
        in_range(tree, axis_nodes(tree, axis, id)),
{
    lemma_lists_in_range(tree, id);
    lemma_chain_in_range(tree, tree[id as int].parent);
    lemma_subtree_in_range(tree, id);
    lemma_forest_in_range(tree, id, 0);
    lemma_siblings_in_range(tree, id);
    let up = seq![id] + ancestors(tree, id);
    assert forall|i: int| 0 <= i < up.len() implies #[trigger] up[i] < tree.len() by {
        if i > 0 {
            assert(up[i] == ancestors(tree, id)[i - 1]);
        }
    }
    match axis {
        XPathAxis::Following => {
            let each = |s: NodeId| subtree(tree, s);
            let at = |a: NodeId| flat_map(following_siblings(tree, a), each);
            assert forall|i: int| 0 <= i < up.len() implies in_range(tree, at(#[trigger] up[i])) by {
                let a = up[i];
                lemma_siblings_in_range(tree, a);
                let list = following_siblings(tree, a);
                assert forall|j: int| 0 <= j < list.len() implies in_range(
                    tree,
                    each(#[trigger] list[j]),
                ) by {
                    lemma_subtree_in_range(tree, list[j]);
                }
                lemma_flat_map_in_range(tree, list, each);
            }
            lemma_flat_map_in_range(tree, up, at);
            let inner = match tree[id as int].parent {
                Some(p) if tree[id as int].node_kind == NodeKind::Attribute => descendants(tree, p),
                _ => Seq::empty(),
            };
            if let Some(p) = tree[id as int].parent {
                lemma_forest_in_range(tree, p, 0);
            }
            let outer = flat_map(up, at);
            let all = following(tree, id);
            assert(all == inner + outer);
            assert forall|i: int| 0 <= i < all.len() implies #[trigger] all[i] < tree.len() by {
                if i < inner.len() {
                    assert(all[i] == inner[i]);
                } else {
                    assert(all[i] == outer[i - inner.len()]);
                }
            }
        },
        XPathAxis::Preceding => {
            let each = |s: NodeId| subtree(tree, s).reverse();
            let at = |a: NodeId| flat_map(preceding_siblings(tree, a), each);
            assert forall|i: int| 0 <= i < up.len() implies in_range(tree, at(#[trigger] up[i])) by {
                let a = up[i];
                lemma_siblings_in_range(tree, a);
                let list = preceding_siblings(tree, a);
                assert forall|j: int| 0 <= j < list.len() implies in_range(
                    tree,
                    each(#[trigger] list[j]),
                ) by {
                    lemma_subtree_in_range(tree, list[j]);
                }
                lemma_flat_map_in_range(tree, list, each);
            }
            lemma_flat_map_in_range(tree, up, at);
        },
        _ => {},
    }
}

/// Those of `ids` whose node is of the given kind.
pub open spec fn of_kind(tree: Seq<NodeView>, ids: Seq<NodeId>, kind: NodeKind) -> Seq<NodeId> {
    ids.filter(|id: NodeId| tree[id as int].node_kind == kind)
}

/// The stored texts of the nodes `ids`, one after the other.
pub open spec fn texts(tree: Seq<NodeView>, ids: Seq<NodeId>) -> Seq<char>
    decreases ids.len(),
{
    if ids.len() == 0 {
        Seq::empty()
    } else {
        texts(tree, ids.drop_last()) + match tree[ids.last() as int].string_value {
            Some(text) => text,
            None => Seq::empty(),
        }
    }
}

/// The string value of a node: its own text for a text or a comment node,
/// the texts of its text descendants in document order for an element or a
/// document, and nothing for the other kinds.
pub open spec fn string_value(tree: Seq<NodeView>, id: NodeId) -> Seq<char> {
    match tree[id as int].node_kind {
        NodeKind::Text | NodeKind::Comment => match tree[id as int].string_value {
            Some(text) => text,
            None => Seq::empty(),
        },
        NodeKind::Element | NodeKind::Document => texts(
            tree,
            of_kind(tree, descendants(tree, id), NodeKind::Text),
        ),
        _ => Seq::empty(),
    }
}

/// A sound tree stays sound when a node without parent, children and
/// attributes is appended.
pub proof fn lemma_root_appended(tree: Seq<NodeView>, node: NodeView)
    requires
        well_formed(tree),
        node.shape_ok(),
        node.parent is None,
        node.child_ids().len() == 0,
        node.attribute_ids().len() == 0,
    ensures
        well_formed(tree.push(node)),
{
    let grown = tree.push(node);
    assert forall|id: int| 0 <= id < grown.len() implies node_ok(grown, id) by {
        if id < tree.len() {
            assert(node_ok(tree, id));
            assert(grown[id] == tree[id]);
            assert forall|k: int| 0 <= k < grown[id].child_ids().len() implies child_ok(
                grown,
                id,
                #[trigger] grown[id].child_ids()[k],
            ) by {
                assert(child_ok(tree, id, tree[id].child_ids()[k]));
            }
            assert forall|k: int| 0 <= k < grown[id].attribute_ids().len() implies attribute_ok(
                grown,
                id,
                #[trigger] grown[id].attribute_ids()[k],
            ) by {
                assert(attribute_ok(tree, id, tree[id].attribute_ids()[k]));
            }
            assert(parent_ok(tree, id));
            if let Some(p) = tree[id].parent {
                assert(grown[p as int] == tree[p as int]);
            }
        }
    }
}

/// A sound tree stays sound when `count` attributes and then their owner are
/// appended and the owner is linked below `parent`: `grown` is `tree` with
/// these nodes at its end and the owner's id at the end of the children of
/// `parent`.
pub proof fn lemma_owner_appended(
    tree: Seq<NodeView>,
    grown: Seq<NodeView>,
    parent: NodeId,
    count: nat,
)
    requires
        well_formed(tree),
        parent < tree.len(),
        tree[parent as int].children is Some,
        tree.len() + count < usize::MAX,
        grown.len() == tree.len() + count + 1,
        forall|i: int| 0 <= i < tree.len() && i != parent ==> grown[i] == tree[i],
        grown[parent as int] == (NodeView {
            children: Some(tree[parent as int].child_ids().push((tree.len() + count) as NodeId)),
            ..tree[parent as int]
        }),
        forall|j: int|
            0 <= j < count ==> {
                let a = #[trigger] grown[tree.len() + j];
                &&& a.node_kind == NodeKind::Attribute
                &&& a.shape_ok()
                &&& a.parent == Some((tree.len() + count) as NodeId)
            },
        ({
            let owner = grown[tree.len() as int + count];
            &&& owner.shape_ok()
            &&& owner.node_kind != NodeKind::Attribute
            &&& owner.parent == Some(parent)
            &&& owner.child_ids().len() == 0
            &&& owner.attribute_ids() =~= Seq::new(count, |j: int| (tree.len() + j) as NodeId)
        }),
    ensures
        well_formed(grown),
{
    let n = tree.len() as int;
    let owner = n + count;
    assert forall|id: int| 0 <= id < grown.len() implies node_ok(grown, id) by {
        if id < n {
            assert(node_ok(tree, id));
            assert(node_ok(tree, parent as int));
            let node = grown[id];
            assert(node.attribute_ids() == tree[id].attribute_ids());
            assert(node.parent == tree[id].parent);
            assert(node.node_kind == tree[id].node_kind);
            assert forall|k: int| 0 <= k < node.child_ids().len() implies child_ok(
                grown,
                id,
                #[trigger] node.child_ids()[k],
            ) by {
                if k < tree[id].child_ids().len() {
                    let c = tree[id].child_ids()[k];
                    assert(child_ok(tree, id, c));
                    assert(node.child_ids()[k] == c);
                    assert(grown[c as int].parent == tree[c as int].parent);
                    assert(grown[c as int].node_kind == tree[c as int].node_kind);
                }
            }
            assert forall|k: int| 0 <= k < node.attribute_ids().len() implies attribute_ok(
                grown,
                id,
                #[trigger] node.attribute_ids()[k],
            ) by {
                let a = tree[id].attribute_ids()[k];
                assert(attribute_ok(tree, id, a));
                assert(grown[a as int].parent == tree[a as int].parent);
                assert(grown[a as int].node_kind == tree[a as int].node_kind);
            }
            assert(strictly_increasing(node.child_ids())) by {
                assert forall|i: int, j: int| 0 <= i < j < node.child_ids().len() implies node.child_ids()[i]
                    < node.child_ids()[j] by {
                    if j < tree[id].child_ids().len() {
                        assert(tree[id].child_ids()[i] < tree[id].child_ids()[j]);
                    } else {
                        assert(child_ok(tree, id, tree[id].child_ids()[i]));
                    }
                }
            }
            assert(parent_ok(grown, id)) by {
                assert(parent_ok(tree, id));
                if let Some(p) = tree[id].parent {
                    if tree[id].node_kind == NodeKind::Attribute {
                        let k = choose|k: int|
                            0 <= k < tree[p as int].attribute_ids().len()
                                && tree[p as int].attribute_ids()[k] == id as NodeId;
                        assert(grown[p as int].attribute_ids()[k] == id as NodeId);
                    } else {
                        let k = choose|k: int|
                            0 <= k < tree[p as int].child_ids().len() && tree[p as int].child_ids()[k]
                                == id as NodeId;
                        assert(grown[p as int].child_ids()[k] == id as NodeId);
                    }
                }
            }
        } else if id < owner {
            let a = grown[n + (id - n)];
            assert(a.shape_ok());
            assert(grown[owner].attribute_ids()[id - n] == id as NodeId);
        } else {
            let node = grown[owner];
            assert forall|k: int| 0 <= k < node.attribute_ids().len() implies attribute_ok(
                grown,
                id,
                #[trigger] node.attribute_ids()[k],
            ) by {
                let a = grown[n + k];
                assert(a.parent == Some(owner as NodeId));
            }
            assert(grown[parent as int].child_ids().last() == owner as NodeId);
        }
    }
}

/// In a sound tree a node that has a parent and is no attribute stands in
/// the children list of its parent, at one place only, and its parent comes
/// before it in the arena.
pub proof fn lemma_child_listed_once(tree: Seq<NodeView>, child: NodeId)
    requires
        well_formed(tree),
        child < tree.len(),
        tree[child as int].parent is Some,
        tree[child as int].node_kind != NodeKind::Attribute,
    ensures
        tree[child as int].parent->0 < child,
        ({
            let siblings = tree[tree[child as int].parent->0 as int].child_ids();
            &&& exists|k: int| 0 <= k < siblings.len() && siblings[k] == child
            &&& forall|k: int, l: int|
                0 <= k < siblings.len() && 0 <= l < siblings.len() && siblings[k] == child
                    && siblings[l] == child ==> k == l
        }),
{
    let parent = tree[child as int].parent->0;
    let siblings = tree[parent as int].child_ids();
    assert(node_ok(tree, child as int));
    assert(node_ok(tree, parent as int));
    assert forall|k: int, l: int|
        0 <= k < siblings.len() && 0 <= l < siblings.len() && siblings[k] == child && siblings[l]
            == child implies k == l by {
        if k < l {
            assert(siblings[k] < siblings[l]);
        } else if l < k {
            assert(siblings[l] < siblings[k]);
        }
    }
}

/// In a sound tree an attribute stands in the attribute list of its parent,
/// at one place only, and not among its children; its parent is an element
/// that comes after it in the arena.
pub proof fn lemma_attribute_listed_once(tree: Seq<NodeView>, attribute: NodeId)
    requires
        well_formed(tree),
        attribute < tree.len(),
        tree[attribute as int].node_kind == NodeKind::Attribute,
    ensures
        tree[attribute as int].parent is Some,
        attribute < tree[attribute as int].parent->0 < tree.len(),
        tree[tree[attribute as int].parent->0 as int].node_kind == NodeKind::Element,
        ({
            let owner = tree[tree[attribute as int].parent->0 as int];
            &&& exists|k: int|
                0 <= k < owner.attribute_ids().len() && owner.attribute_ids()[k] == attribute
            &&& forall|k: int, l: int|
                0 <= k < owner.attribute_ids().len() && 0 <= l < owner.attribute_ids().len()
                    && owner.attribute_ids()[k] == attribute && owner.attribute_ids()[l]
                    == attribute ==> k == l
            &&& !owner.child_ids().contains(attribute)
        }),
{
    assert(node_ok(tree, attribute as int));
    let parent = tree[attribute as int].parent->0;
    let owner = tree[parent as int];
    assert(node_ok(tree, parent as int));
    assert forall|k: int, l: int|
        0 <= k < owner.attribute_ids().len() && 0 <= l < owner.attribute_ids().len()
            && owner.attribute_ids()[k] == attribute && owner.attribute_ids()[l]
            == attribute implies k == l by {
        if k < l {
            assert(owner.attribute_ids()[k] < owner.attribute_ids()[l]);
        } else if l < k {
            assert(owner.attribute_ids()[l] < owner.attribute_ids()[k]);
        }
    }
    if owner.child_ids().contains(attribute) {
        let k = choose|k: int| 0 <= k < owner.child_ids().len() && owner.child_ids()[k] == attribute;
        assert(child_ok(tree, parent as int, owner.child_ids()[k]));
    }
}

/// In a sound tree every id in a children list names the node that holds the
/// list as its parent.
pub proof fn lemma_children_name_parent(tree: Seq<NodeView>, parent: NodeId, k: int)
    requires
        well_formed(tree),
        parent < tree.len(),
        0 <= k < tree[parent as int].child_ids().len(),
    ensures
        tree[parent as int].child_ids()[k] < tree.len(),
        tree[tree[parent as int].child_ids()[k] as int].parent == Some(parent),
{
    assert(node_ok(tree, parent as int));
    assert(child_ok(tree, parent as int, tree[parent as int].child_ids()[k]));
}

/// In a sound tree the chain of parents of every node ends at a document: a
/// node without a parent is a document, and it is the last of the chain.
pub proof fn lemma_chain_ends_at_document(tree: Seq<NodeView>, id: NodeId)
    requires
        well_formed(tree),
        id < tree.len(),
    ensures
        tree[id as int].parent is None <==> tree[id as int].node_kind == NodeKind::Document,
        chain(tree, Some(id)).len() > 0,
        chain(tree, Some(id)).last() < tree.len(),
        tree[chain(tree, Some(id)).last() as int].node_kind == NodeKind::Document,
    decreases height(tree, Some(id)),
{
    assert(node_ok(tree, id as int));
    lemma_parent_lower(tree, id as int);
    if let Some(p) = tree[id as int].parent {
        lemma_chain_ends_at_document(tree, p);
        assert(chain(tree, Some(id)) == seq![id] + chain(tree, Some(p)));
        assert(chain(tree, Some(id)).last() == chain(tree, Some(p)).last());
    } else {
        assert(chain(tree, None) =~= Seq::<NodeId>::empty());
        assert(chain(tree, Some(id)) =~= seq![id]);
    }
}

/// In a sound tree every node below `id` comes after it in the arena.
pub proof fn lemma_forest_in_range(tree: Seq<NodeView>, id: NodeId, k: nat)
    requires
        well_formed(tree),
        id < tree.len(),
    ensures
        forall|j: int|
            0 <= j < forest(tree, id, k).len() ==> id < #[trigger] forest(tree, id, k)[j]
                < tree.len(),
    decreases tree.len() - id, tree[id as int].child_ids().len() - k,
{
    let children = tree[id as int].child_ids();
    if k < children.len() {
        let child = children[k as int];
        assert(node_ok(tree, id as int));
        assert(child_ok(tree, id as int, child));
        lemma_forest_in_range(tree, child, 0);
        lemma_forest_in_range(tree, id, k + 1);
        let below = forest(tree, child, 0);
        let rest = forest(tree, id, k + 1);
        let all = forest(tree, id, k);
        assert(all == seq![child] + below + rest);
        assert forall|j: int| 0 <= j < all.len() implies id < #[trigger] all[j] < tree.len() by {
            if j < 1 {
            } else if j < 1 + below.len() {
                assert(all[j] == below[j - 1]);
            } else {
                assert(all[j] == rest[j - 1 - below.len()]);
            }
        }
    }
}

/// The texts of two lists of nodes, one after the other.
pub proof fn lemma_texts_add(tree: Seq<NodeView>, a: Seq<NodeId>, b: Seq<NodeId>)
    ensures
        texts(tree, a + b) == texts(tree, a) + texts(tree, b),
    decreases b.len(),
{
    if b.len() == 0 {
        assert(a + b =~= a);
        assert(texts(tree, a) + texts(tree, b) =~= texts(tree, a));
    } else {
        assert((a + b).drop_last() =~= a + b.drop_last());
        lemma_texts_add(tree, a, b.drop_last());
        assert(texts(tree, a + b) =~= texts(tree, a) + texts(tree, b));
    }
}

/// What a child adds to the string value of its parent: a text its own text,
/// an element its string value, a comment or a processing instruction
/// nothing.
pub open spec fn child_text(tree: Seq<NodeView>, child: NodeId) -> Seq<char> {
    match tree[child as int].node_kind {
        NodeKind::Text => match tree[child as int].string_value {
            Some(text) => text,
            None => Seq::empty(),
        },
        NodeKind::Element | NodeKind::Document => string_value(tree, child),
        _ => Seq::empty(),
    }
}

/// What the children of `id` from the `k`-th on add to its string value.
pub open spec fn joined_from(tree: Seq<NodeView>, id: NodeId, k: nat) -> Seq<char>
    decreases tree[id as int].child_ids().len() - k,
{
    let children = tree[id as int].child_ids();
    if k >= children.len() {
        Seq::empty()
    } else {
        child_text(tree, children[k as int]) + joined_from(tree, id, k + 1)
    }
}

/// The texts of the text nodes below the children of `id` from the `k`-th on
/// are what these children add to the string value, child by child.
pub proof fn lemma_texts_by_children(tree: Seq<NodeView>, id: NodeId, k: nat)
    requires
        well_formed(tree),
        id < tree.len(),
    ensures
        texts(tree, of_kind(tree, forest(tree, id, k), NodeKind::Text)) == joined_from(tree, id, k),
    decreases tree[id as int].child_ids().len() - k,
{
    broadcast use Seq::filter_distributes_over_add;

    let is_text = |x: NodeId| tree[x as int].node_kind == NodeKind::Text;
    let children = tree[id as int].child_ids();
    if k < children.len() {
        let child = children[k as int];
        assert(node_ok(tree, id as int));
        assert(child_ok(tree, id as int, child));
        assert(node_ok(tree, child as int));
        assert(tree[child as int].shape_ok());
        lemma_texts_by_children(tree, id, k + 1);
        let below = forest(tree, child, 0);
        let rest = forest(tree, id, k + 1);
        assert(forest(tree, id, k) == seq![child] + below + rest);
        assert((seq![child] + below + rest).filter(is_text) == seq![child].filter(is_text)
            + below.filter(is_text) + rest.filter(is_text));
        lemma_texts_add(
            tree,
            seq![child].filter(is_text) + below.filter(is_text),
            rest.filter(is_text),
        );
        lemma_texts_add(tree, seq![child].filter(is_text), below.filter(is_text));
        assert(seq![child].drop_last() =~= Seq::<NodeId>::empty());
        assert(seq![child].filter(is_text) =~= if is_text(child) {
            seq![child]
        } else {
            Seq::<NodeId>::empty()
        }) by {
            reveal_with_fuel(Seq::filter, 2);
        }
        if is_text(child) {
            assert(texts(tree, seq![child]) =~= child_text(tree, child)) by {
                reveal_with_fuel(texts, 2);
            }
        }
        if tree[child as int].node_kind != NodeKind::Element {
            // only an element has children
            assert(below =~= Seq::<NodeId>::empty());
            assert(below.filter(is_text) =~= Seq::<NodeId>::empty());
        }
        assert(texts(tree, seq![child].filter(is_text)) + texts(tree, below.filter(is_text))
            =~= child_text(tree, child));
    } else {
        assert(forest(tree, id, k) =~= Seq::<NodeId>::empty());
        assert(forest(tree, id, k).filter(is_text) =~= Seq::<NodeId>::empty());
    }
}

/// The string value of an element or a document is made of its children, in
/// their order: each text with its own text, each element with its string
/// value, and nothing for a comment or a processing instruction.
pub proof fn lemma_string_value_by_children(tree: Seq<NodeView>, id: NodeId)
    requires
        well_formed(tree),
        id < tree.len(),
        tree[id as int].node_kind == NodeKind::Element || tree[id as int].node_kind
            == NodeKind::Document,
    ensures
        string_value(tree, id) == joined_from(tree, id, 0),
{
    lemma_texts_by_children(tree, id, 0);
}

/// In a sound tree a parent link leads downwards in `height`, to a node of
/// the arena.
pub proof fn lemma_parent_lower(tree: Seq<NodeView>, id: int)
    requires
        well_formed(tree),
        0 <= id < tree.len(),
    ensures
        height(tree, tree[id].parent) < height(tree, Some(id as NodeId)),
        tree[id].parent is Some ==> tree[id].parent->0 < tree.len(),
{
    assert(node_ok(tree, id));
    match tree[id].parent {
        None => {},
        Some(p) => {
            assert(node_ok(tree, p as int));
            if tree[id].node_kind == NodeKind::Attribute {
                let k = choose|k: int|
                    0 <= k < tree[p as int].attribute_ids().len() && tree[p as int].attribute_ids()[k]
                        == id as NodeId;
                assert(attribute_ok(tree, p as int, tree[p as int].attribute_ids()[k]));
                assert(tree[p as int].shape_ok());
            } else {
                let k = choose|k: int|
                    0 <= k < tree[p as int].child_ids().len() && tree[p as int].child_ids()[k]
                        == id as NodeId;
                assert(child_ok(tree, p as int, tree[p as int].child_ids()[k]));
                assert(tree[p as int].shape_ok());
            }
        },
    }
}

} // verus!
