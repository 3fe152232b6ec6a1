//! The axis stepper: from a set of nodes along an axis, and from what the
//! axis reaches to what passes the tests of the step.

use vstd::prelude::*;
use crate::node_collection::{ids_of, text_view, CollectionView, NodeCollection, NodeTup};
use crate::nodes::{Node, NodeId, NodeKind, NodeView};
use crate::symbols::{find_id, lemma_position, position};
use crate::tree::{
    ancestors, ancestors_of, axis_nodes, descendants, flat_map, following, following_siblings,
    in_range, lemma_axis_in_range, lemma_flat_map_in_range,
    lemma_flat_map_next, lemma_flat_map_same, lemma_lists_in_range, lemma_siblings_in_range,
    on_axis, preceding, preceding_siblings, sibling_list, subtree, well_formed,
};
use crate::xpath::{step_allowed, XPathAxis, XPathStep};

verus! {

impl CollectionView {
    /// Whether the node `id` passes the tests of a step: it is of the kind
    /// asked for, if one is, and its name passes the name test.
    pub open spec fn selects(
        self,
        id: NodeId,
        kind: Option<NodeKind>,
        local: Option<Seq<char>>,
        namespace: Option<Seq<char>>,
    ) -> bool {
        &&& kind matches Some(k) ==> self.nodes[id as int].node_kind == k
        &&& self.name_matches(self.nodes[id as int], local, namespace)
    }

    /// Those of `ids` that pass the tests of a step, in their order.
    pub open spec fn selected(
        self,
        ids: Seq<NodeId>,
        kind: Option<NodeKind>,
        local: Option<Seq<char>>,
        namespace: Option<Seq<char>>,
    ) -> Seq<NodeId> {
        ids.filter(|id: NodeId| self.selects(id, kind, local, namespace))
    }

    /// The result of a step from the nodes `ids`: what the axis reaches from
    /// each of them, in the order of `ids`, and of that what passes the tests.
    pub open spec fn step_result(
        self,
        axis: XPathAxis,
        kind: Option<NodeKind>,
        local: Option<Seq<char>>,
        namespace: Option<Seq<char>>,
        ids: Seq<NodeId>,
    ) -> Seq<NodeId> {
        self.selected(on_axis(self.nodes, axis, ids), kind, local, namespace)
    }
}

/// The tests of a step on one node, with the names of the name test as the
/// ids that they are interned under.
pub open spec fn resolved_test(
    node: NodeView,
    kind: Option<NodeKind>,
    local: Option<u16>,
    namespace: Option<u8>,
) -> bool {
    &&& kind matches Some(k) ==> node.node_kind == k
    &&& local matches Some(l) ==> node.node_name matches Some(name) && name.local == l
    &&& namespace matches Some(u) ==> node.node_name matches Some(name) && name.uri == u
}

/// A name test with a string that was never interned lets no node pass, so
/// that a step with such a test yields nothing.
pub proof fn lemma_unknown_name_selects_nothing(
    c: CollectionView,
    kind: Option<NodeKind>,
    local: Option<Seq<char>>,
    namespace: Option<Seq<char>>,
    ids: Seq<NodeId>,
)
    requires
        (local is Some && c.name_id(local->0) is None) || (namespace is Some && c.nsp_id(
            namespace->0,
        ) is None),
    ensures
        c.selected(ids, kind, local, namespace) == Seq::<NodeId>::empty(),
        forall|axis: XPathAxis| #[trigger]
            c.step_result(axis, kind, local, namespace, ids) == Seq::<NodeId>::empty(),
{
    broadcast use vstd::seq_lib::group_filter_ensures;

    let test = |id: NodeId| c.selects(id, kind, local, namespace);
    assert forall|list: Seq<NodeId>| #[trigger] list.filter(test) == Seq::<NodeId>::empty() by {
        if list.filter(test).len() > 0 {
            assert(test(list.filter(test)[0]));
        }
        assert(list.filter(test) =~= Seq::<NodeId>::empty());
    }
    assert forall|axis: XPathAxis| #[trigger]
        c.step_result(axis, kind, local, namespace, ids) == Seq::<NodeId>::empty() by {
        assert(on_axis(c.nodes, axis, ids).filter(test) == Seq::<NodeId>::empty());
    }
}

/// A step from several nodes yields what it yields from each of them, one
/// result after the other; from one node it yields what the axis reaches
/// from that node, as far as it passes the tests.
pub proof fn lemma_step_node_by_node(
    c: CollectionView,
    axis: XPathAxis,
    kind: Option<NodeKind>,
    local: Option<Seq<char>>,
    namespace: Option<Seq<char>>,
    first: Seq<NodeId>,
    second: Seq<NodeId>,
)
    ensures
        c.step_result(axis, kind, local, namespace, first + second) == c.step_result(
            axis,
            kind,
            local,
            namespace,
            first,
        ) + c.step_result(axis, kind, local, namespace, second),
        forall|id: NodeId| #[trigger]
            c.step_result(axis, kind, local, namespace, seq![id]) == c.selected(
                axis_nodes(c.nodes, axis, id),
                kind,
                local,
                namespace,
            ),
{
    broadcast use Seq::filter_distributes_over_add;

    let reach = |id: NodeId| axis_nodes(c.nodes, axis, id);
    crate::tree::lemma_flat_map_add(first, second, reach);
    assert forall|id: NodeId| #[trigger]
        c.step_result(axis, kind, local, namespace, seq![id]) == c.selected(
            axis_nodes(c.nodes, axis, id),
            kind,
            local,
            namespace,
        ) by {
        assert(flat_map(seq![id], reach) == reach(id));
    }
}

/// Whether a node passes the tests of a step whose names were resolved.
fn passes(node: &Node, kind: Option<NodeKind>, local: Option<u16>, namespace: Option<u8>) -> (ok:
    bool)
    ensures
        ok == resolved_test(node@, kind, local, namespace),
{
    let kind_ok = match kind {
        Some(k) => node.node_kind == k,
        None => true,
    };
    let local_ok = match local {
        Some(l) => match &node.node_name {
            Some(name) => name.local == l,
            None => false,
        },
        None => true,
    };
    let namespace_ok = match namespace {
        Some(u) => match &node.node_name {
            Some(name) => name.uri == u,
            None => false,
        },
        None => true,
    };
    kind_ok && local_ok && namespace_ok
}

impl NodeCollection {
    /// Appends the node with the given id.
    fn append_node<'a>(&'a self, id: &'a NodeId, buf: &mut Vec<NodeTup<'a>>)
        requires
            *id < self@.nodes.len(),
        ensures
            final(buf)@ == old(buf)@ + self.tuples(seq![*id]),
    {
        buf.push((id, self.node(*id)));
        assert(buf@ =~= old(buf)@ + self.tuples(seq![*id]));
    }

    /// Appends the nodes with the ids `list[from..to]`, in that order.
    fn append_ids<'a>(
        &'a self,
        list: &'a Vec<NodeId>,
        from: usize,
        to: usize,
        buf: &mut Vec<NodeTup<'a>>,
    )
        requires
            from <= to <= list@.len(),
            in_range(self@.nodes, list@),
        ensures
            final(buf)@ == old(buf)@ + self.tuples(list@.subrange(from as int, to as int)),
    {
        let mut i: usize = from;
        assert(buf@ =~= old(buf)@ + self.tuples(list@.subrange(from as int, i as int)));
        while i < to
            invariant
                from <= i <= to <= list@.len(),
                in_range(self@.nodes, list@),
                buf@ == old(buf)@ + self.tuples(list@.subrange(from as int, i as int)),
            decreases to - i,
        {
            buf.push((&list[i], self.node(list[i])));
            assert(buf@ =~= old(buf)@ + self.tuples(list@.subrange(from as int, i + 1)));
            i = i + 1;
        }
    }

    /// Appends the nodes with the ids `list[..to]`, the last first.
    fn append_ids_reversed<'a>(&'a self, list: &'a Vec<NodeId>, to: usize, buf: &mut Vec<NodeTup<'a>>)
        requires
            to <= list@.len(),
            in_range(self@.nodes, list@),
        ensures
            final(buf)@ == old(buf)@ + self.tuples(list@.take(to as int).reverse()),
    {
        let ghost wanted = list@.take(to as int).reverse();
        let mut i: usize = to;
        assert(buf@ =~= old(buf)@ + self.tuples(wanted.take(0)));
        while i > 0
            invariant
                i <= to <= list@.len(),
                wanted == list@.take(to as int).reverse(),
                in_range(self@.nodes, list@),
                buf@ == old(buf)@ + self.tuples(wanted.take(to - i)),
            decreases i,
        {
            i = i - 1;
            assert(wanted[to - i - 1] == list@[i as int]);
            buf.push((&list[i], self.node(list[i])));
            assert(buf@ =~= old(buf)@ + self.tuples(wanted.take(to - i)));
        }
        assert(wanted.take(to as int) =~= wanted);
    }

    /// Appends a node and its descendants, in document order.
    fn append_subtree<'a>(&'a self, id: &'a NodeId, buf: &mut Vec<NodeTup<'a>>)
        requires
            well_formed(self@.nodes),
            *id < self@.nodes.len(),
        ensures
            final(buf)@ == old(buf)@ + self.tuples(subtree(self@.nodes, *id)),
    {
        let node = (id, self.node(*id));
        self.append_node(id, buf);
        self.descendants(&node, buf);
        proof {
            self.lemma_tuples_add(seq![*id], descendants(self@.nodes, *id));
            assert(buf@ =~= old(buf)@ + self.tuples(subtree(self@.nodes, *id)));
        }
    }

    /// The children list in which `node` stands, and its place there.
    fn place_among_siblings<'a>(&'a self, node: &NodeTup<'a>) -> (place: Option<
        (&'a Vec<NodeId>, usize),
    >)
        requires
            well_formed(self@.nodes),
            self.holds(*node),
        ensures
            match place {
                Some((list, k)) => {
                    &&& list@ == sibling_list(self@.nodes, *node.0)
                    &&& position(list@, *node.0) == Some(k as int)
                    &&& k < list@.len()
                    &&& in_range(self@.nodes, list@)
                },
                None => position(sibling_list(self@.nodes, *node.0), *node.0) is None,
            },
    {
        proof {
            lemma_lists_in_range(self@.nodes, *node.0);
            lemma_position(sibling_list(self@.nodes, *node.0), *node.0);
        }
        match &node.1.parent {
            Some(p) => match self.node(*p).children() {
                Some(list) => match find_id(list, *node.0) {
                    Some(k) => Some((list, k)),
                    None => None,
                },
                None => None,
            },
            None => None,
        }
    }

    /// Appends the siblings that come after `node`, in document order.
    fn append_following_siblings<'a>(&'a self, node: &NodeTup<'a>, buf: &mut Vec<NodeTup<'a>>)
        requires
            well_formed(self@.nodes),
            self.holds(*node),
        ensures
            final(buf)@ == old(buf)@ + self.tuples(following_siblings(self@.nodes, *node.0)),
    {
        match self.place_among_siblings(node) {
            Some((list, k)) => {
                let end = list.len();
                self.append_ids(list, k + 1, end, buf);
                assert(list@.subrange(k + 1, list@.len() as int) =~= list@.skip(k + 1));
            },
            None => {
                assert(buf@ =~= old(buf)@ + self.tuples(Seq::empty()));
            },
        }
    }

    /// Appends the siblings that come before `node`, the nearest first.
    fn append_preceding_siblings<'a>(&'a self, node: &NodeTup<'a>, buf: &mut Vec<NodeTup<'a>>)
        requires
            well_formed(self@.nodes),
            self.holds(*node),
        ensures
            final(buf)@ == old(buf)@ + self.tuples(preceding_siblings(self@.nodes, *node.0)),
    {
        match self.place_among_siblings(node) {
            Some((list, k)) => {
                self.append_ids_reversed(list, k, buf);
            },
            None => {
                assert(buf@ =~= old(buf)@ + self.tuples(Seq::empty()));
            },
        }
    }

    /// Appends a node and its descendants, from the last of them to the node
    /// itself.
    fn append_subtree_reversed<'a>(&'a self, id: &'a NodeId, buf: &mut Vec<NodeTup<'a>>)
        requires
            well_formed(self@.nodes),
            *id < self@.nodes.len(),
        ensures
            final(buf)@ == old(buf)@ + self.tuples(subtree(self@.nodes, *id).reverse()),
    {
        let ghost all = subtree(self@.nodes, *id);
        let mut forward: Vec<NodeTup<'a>> = Vec::new();
        self.append_subtree(id, &mut forward);
        assert(forward@ =~= self.tuples(all));
        let count = forward.len();
        let mut i: usize = count;
        assert(buf@ =~= old(buf)@ + self.tuples(all.reverse().take(0)));
        while i > 0
            invariant
                i <= count,
                count == all.len(),
                forward@ == self.tuples(all),
                buf@ == old(buf)@ + self.tuples(all.reverse().take(count - i)),
            decreases i,
        {
            i = i - 1;
            assert(all.reverse()[count - i - 1] == all[i as int]);
            buf.push(forward[i]);
            assert(buf@ =~= old(buf)@ + self.tuples(all.reverse().take(count - i)));
        }
        assert(all.reverse().take(count as int) =~= all.reverse());
    }

    /// Appends the siblings after `node`, each with what is below it.
    fn append_following_at<'a>(&'a self, node: &NodeTup<'a>, buf: &mut Vec<NodeTup<'a>>)
        requires
            well_formed(self@.nodes),
            self.holds(*node),
        ensures
            final(buf)@ == old(buf)@ + self.tuples(
                flat_map(
                    following_siblings(self@.nodes, *node.0),
                    |s: NodeId| subtree(self@.nodes, s),
                ),
            ),
    {
        let ghost tree = self@.nodes;
        let ghost each = |s: NodeId| subtree(tree, s);
        let ghost list = following_siblings(tree, *node.0);
        let mut found: Vec<NodeTup<'a>> = Vec::new();
        self.append_following_siblings(node, &mut found);
        assert(found@ =~= self.tuples(list));
        proof {
            lemma_siblings_in_range(tree, *node.0);
        }
        let mut i: usize = 0;
        assert(buf@ =~= old(buf)@ + self.tuples(flat_map(list.take(0), each)));
        while i < found.len()
            invariant
                i <= found@.len(),
                tree == self@.nodes,
                well_formed(tree),
                each == |s: NodeId| subtree(tree, s),
                found@ == self.tuples(list),
                in_range(tree, list),
                buf@ == old(buf)@ + self.tuples(flat_map(list.take(i as int), each)),
            decreases found@.len() - i,
        {
            proof {
                lemma_flat_map_next(list, each, i as int);
                self.lemma_tuples_add(flat_map(list.take(i as int), each), each(list[i as int]));
            }
            self.append_subtree(found[i].0, buf);
            assert(buf@ =~= old(buf)@ + self.tuples(flat_map(list.take(i + 1), each)));
            i = i + 1;
        }
        proof {
            if list.len() > 0 {
                lemma_flat_map_next(list, each, 0);
            }
            assert(list.take(i as int) =~= list);
        }
    }

    /// Appends the siblings before `node`, the nearest first, each with what
    /// is below it from its end to its start.
    fn append_preceding_at<'a>(&'a self, node: &NodeTup<'a>, buf: &mut Vec<NodeTup<'a>>)
        requires
            well_formed(self@.nodes),
            self.holds(*node),
        ensures
            final(buf)@ == old(buf)@ + self.tuples(
                flat_map(
                    preceding_siblings(self@.nodes, *node.0),
                    |s: NodeId| subtree(self@.nodes, s).reverse(),
                ),
            ),
    {
        let ghost tree = self@.nodes;
        let ghost each = |s: NodeId| subtree(tree, s).reverse();
        let ghost list = preceding_siblings(tree, *node.0);
        let mut found: Vec<NodeTup<'a>> = Vec::new();
        self.append_preceding_siblings(node, &mut found);
        assert(found@ =~= self.tuples(list));
        proof {
            lemma_siblings_in_range(tree, *node.0);
        }
        let mut i: usize = 0;
        assert(buf@ =~= old(buf)@ + self.tuples(flat_map(list.take(0), each)));
        while i < found.len()
            invariant
                i <= found@.len(),
                tree == self@.nodes,
                well_formed(tree),
                each == |s: NodeId| subtree(tree, s).reverse(),
                found@ == self.tuples(list),
                in_range(tree, list),
                buf@ == old(buf)@ + self.tuples(flat_map(list.take(i as int), each)),
            decreases found@.len() - i,
        {
            proof {
                lemma_flat_map_next(list, each, i as int);
                self.lemma_tuples_add(flat_map(list.take(i as int), each), each(list[i as int]));
            }
            self.append_subtree_reversed(found[i].0, buf);
            assert(buf@ =~= old(buf)@ + self.tuples(flat_map(list.take(i + 1), each)));
            i = i + 1;
        }
        assert(list.take(i as int) =~= list);
    }

    /// Appends `node` and then its ancestors, the nearest first.
    fn append_self_and_ancestors<'a>(&'a self, node: &NodeTup<'a>, buf: &mut Vec<NodeTup<'a>>)
        requires
            well_formed(self@.nodes),
            self.holds(*node),
        ensures
            final(buf)@ == old(buf)@ + self.tuples(seq![*node.0] + ancestors(self@.nodes, *node.0)),
    {
        self.append_node(node.0, buf);
        self.ancestors(node, buf);
        proof {
            self.lemma_tuples_add(seq![*node.0], ancestors(self@.nodes, *node.0));
            assert(buf@ =~= old(buf)@ + self.tuples(
                seq![*node.0] + ancestors(self@.nodes, *node.0),
            ));
        }
    }

    /// Appends the nodes that follow `node` in document order and are not
    /// below it.
    fn append_following<'a>(&'a self, node: &NodeTup<'a>, buf: &mut Vec<NodeTup<'a>>)
        requires
            well_formed(self@.nodes),
            self.holds(*node),
        ensures
            final(buf)@ == old(buf)@ + self.tuples(following(self@.nodes, *node.0)),
    {
        let ghost tree = self@.nodes;
        let ghost up = seq![*node.0] + ancestors(tree, *node.0);
        let ghost at = |a: NodeId| flat_map(following_siblings(tree, a), |s: NodeId| subtree(tree, s));
        let ghost inner = match tree[*node.0 as int].parent {
            Some(p) if tree[*node.0 as int].node_kind == NodeKind::Attribute => descendants(tree, p),
            _ => Seq::empty(),
        };
        proof {
            lemma_lists_in_range(tree, *node.0);
            lemma_axis_in_range(tree, XPathAxis::AncestorOrSelf, *node.0);
        }
        match &node.1.parent {
            Some(p) => {
                if node.1.node_kind == NodeKind::Attribute {
                    let owner = (p, self.node(*p));
                    self.descendants(&owner, buf);
                } else {
                    assert(buf@ =~= old(buf)@ + self.tuples(inner));
                }
            },
            None => {
                assert(buf@ =~= old(buf)@ + self.tuples(inner));
            },
        }
        let mut chain: Vec<NodeTup<'a>> = Vec::new();
        self.append_self_and_ancestors(node, &mut chain);
        assert(chain@ =~= self.tuples(up));
        let mut i: usize = 0;
        assert(buf@ =~= old(buf)@ + self.tuples(inner + flat_map(up.take(0), at)));
        while i < chain.len()
            invariant
                i <= chain@.len(),
                tree == self@.nodes,
                well_formed(tree),
                at == |a: NodeId| flat_map(following_siblings(tree, a), |s: NodeId| subtree(tree, s)),
                chain@ == self.tuples(up),
                in_range(tree, up),
                buf@ == old(buf)@ + self.tuples(inner + flat_map(up.take(i as int), at)),
            decreases chain@.len() - i,
        {
            proof {
                lemma_flat_map_next(up, at, i as int);
                self.lemma_tuples_add(inner + flat_map(up.take(i as int), at), at(up[i as int]));
            }
            let link = chain[i];
            self.append_following_at(&link, buf);
            assert(buf@ =~= old(buf)@ + self.tuples(inner + flat_map(up.take(i + 1), at)));
            i = i + 1;
        }
        assert(up.take(i as int) =~= up);
    }

    /// Appends the nodes that precede `node` in document order and are not
    /// its ancestors, the nearest first.
    fn append_preceding<'a>(&'a self, node: &NodeTup<'a>, buf: &mut Vec<NodeTup<'a>>)
        requires
            well_formed(self@.nodes),
            self.holds(*node),
        ensures
            final(buf)@ == old(buf)@ + self.tuples(preceding(self@.nodes, *node.0)),
    {
        let ghost tree = self@.nodes;
        let ghost up = seq![*node.0] + ancestors(tree, *node.0);
        let ghost at = |a: NodeId|
            flat_map(preceding_siblings(tree, a), |s: NodeId| subtree(tree, s).reverse());
        proof {
            lemma_axis_in_range(tree, XPathAxis::AncestorOrSelf, *node.0);
        }
        let mut chain: Vec<NodeTup<'a>> = Vec::new();
        self.append_self_and_ancestors(node, &mut chain);
        assert(chain@ =~= self.tuples(up));
        let mut i: usize = 0;
        assert(buf@ =~= old(buf)@ + self.tuples(flat_map(up.take(0), at)));
        while i < chain.len()
            invariant
                i <= chain@.len(),
                tree == self@.nodes,
                well_formed(tree),
                at == |a: NodeId|
                    flat_map(preceding_siblings(tree, a), |s: NodeId| subtree(tree, s).reverse()),
                chain@ == self.tuples(up),
                in_range(tree, up),
                buf@ == old(buf)@ + self.tuples(flat_map(up.take(i as int), at)),
            decreases chain@.len() - i,
        {
            proof {
                lemma_flat_map_next(up, at, i as int);
                self.lemma_tuples_add(flat_map(up.take(i as int), at), at(up[i as int]));
            }
            let link = chain[i];
            self.append_preceding_at(&link, buf);
            assert(buf@ =~= old(buf)@ + self.tuples(flat_map(up.take(i + 1), at)));
            i = i + 1;
        }
        assert(up.take(i as int) =~= up);
    }

    /// Appends to `buf` the nodes that `axis` reaches from `node`.
    pub fn axis<'a>(&'a self, axis: XPathAxis, node: &NodeTup<'a>, buf: &mut Vec<NodeTup<'a>>)
        requires
            well_formed(self@.nodes),
            self.holds(*node),
        ensures
            final(buf)@ == old(buf)@ + self.tuples(axis_nodes(self@.nodes, axis, *node.0)),
    {
        let ghost tree = self@.nodes;
        proof {
            lemma_lists_in_range(tree, *node.0);
        }
        match axis {
            XPathAxis::Ancestor => self.ancestors(node, buf),
            XPathAxis::AncestorOrSelf => self.append_self_and_ancestors(node, buf),
            XPathAxis::Attribute => match node.1.attributes() {
                Some(list) => {
                    let end = list.len();
                    self.append_ids(list, 0, end, buf);
                    assert(list@.subrange(0, end as int) =~= list@);
                },
                None => {
                    assert(buf@ =~= old(buf)@ + self.tuples(Seq::empty()));
                },
            },
            XPathAxis::Child => self.children(node, buf),
            XPathAxis::Descendant => self.descendants(node, buf),
            XPathAxis::DescendantOrSelf => self.append_subtree(node.0, buf),
            XPathAxis::Following => self.append_following(node, buf),
            XPathAxis::FollowingSibling => self.append_following_siblings(node, buf),
            XPathAxis::Parent => match &node.1.parent {
                Some(p) => self.append_node(p, buf),
                None => {
                    assert(buf@ =~= old(buf)@ + self.tuples(Seq::empty()));
                },
            },
            XPathAxis::Preceding => self.append_preceding(node, buf),
            XPathAxis::PrecedingSibling => self.append_preceding_siblings(node, buf),
            XPathAxis::SelfAxis => self.append_node(node.0, buf),
        }
    }

    /// Appends to `buffer` those of `found` that pass the tests of a step,
    /// of which `local_id` and `namespace_id` are the ids of the names in the
    /// name test.
    fn select<'a>(
        &'a self,
        found: &Vec<NodeTup<'a>>,
        Ghost(ids): Ghost<Seq<NodeId>>,
        kind: Option<NodeKind>,
        local_id: Option<u16>,
        namespace_id: Option<u8>,
        Ghost(local): Ghost<Option<Seq<char>>>,
        Ghost(namespace): Ghost<Option<Seq<char>>>,
        buffer: &mut Vec<NodeTup<'a>>,
    )
        requires
            found@ == self.tuples(ids),
            in_range(self@.nodes, ids),
            local is Some ==> local_id is Some && local_id == self@.name_id(local->0),
            local is None ==> local_id is None,
            namespace is Some ==> namespace_id is Some && namespace_id == self@.nsp_id(
                namespace->0,
            ),
            namespace is None ==> namespace_id is None,
        ensures
            final(buffer)@ == old(buffer)@ + self.tuples(
                self@.selected(ids, kind, local, namespace),
            ),
    {
        let ghost arena = self@;
        let ghost test = |id: NodeId| arena.selects(id, kind, local, namespace);
        let mut i: usize = 0;
        assert(ids.take(0).filter(test) =~= Seq::empty()) by {
            reveal(Seq::filter);
        }
        assert(buffer@ =~= old(buffer)@ + self.tuples(ids.take(0).filter(test)));
        while i < found.len()
            invariant
                i <= found@.len(),
                arena == self@,
                local is Some ==> local_id is Some && local_id == arena.name_id(local->0),
                local is None ==> local_id is None,
                namespace is Some ==> namespace_id is Some && namespace_id == arena.nsp_id(
                    namespace->0,
                ),
                namespace is None ==> namespace_id is None,
                test == |id: NodeId| arena.selects(id, kind, local, namespace),
                found@ == self.tuples(ids),
                in_range(arena.nodes, ids),
                buffer@ == old(buffer)@ + self.tuples(ids.take(i as int).filter(test)),
            decreases found@.len() - i,
        {
            let tup = found[i];
            proof {
                reveal(Seq::filter);
                assert(ids.take(i + 1).drop_last() =~= ids.take(i as int));
                assert(ids.take(i + 1).last() == ids[i as int]);
                assert(*tup.0 == ids[i as int]);
                assert(tup.1@ == arena.nodes[ids[i as int] as int]);
                assert(test(ids[i as int]) == resolved_test(tup.1@, kind, local_id, namespace_id));
                if test(ids[i as int]) {
                    assert(ids.take(i + 1).filter(test) == ids.take(i as int).filter(test).push(
                        ids[i as int],
                    ));
                    assert(self.tuples(ids.take(i + 1).filter(test)) =~= self.tuples(
                        ids.take(i as int).filter(test),
                    ).push(tup));
                } else {
                    assert(ids.take(i + 1).filter(test) == ids.take(i as int).filter(test));
                }
            }
            if passes(tup.1, kind, local_id, namespace_id) {
                buffer.push(tup);
            }
            i = i + 1;
        }
        assert(ids.take(i as int) =~= ids);
    }

    /// Takes one step from `nodes` and appends what it yields to `buffer`:
    /// for each of `nodes` in turn the nodes that the axis reaches from it,
    /// as far as they pass the kind test and the name test of the step. A
    /// node that is reached from several of `nodes` is appended for each.
    /// The names of the name test are looked up once; where one of them was
    /// never interned the step yields nothing, and no node is looked at.
    pub fn do_steps<'a>(
        &'a self,
        step: XPathStep,
        nodes: Vec<&NodeTup<'a>>,
        buffer: &mut Vec<NodeTup<'a>>,
    )
        requires
            well_formed(self@.nodes),
            forall|i: int| 0 <= i < nodes@.len() ==> self.holds(*#[trigger] nodes@[i]),
            step_allowed(step.axis, step.kind),
        ensures
            final(buffer)@ == old(buffer)@ + self.tuples(
                self@.step_result(
                    step.axis,
                    step.kind,
                    text_view(step.name.0),
                    text_view(step.name.1),
                    ids_of(nodes@),
                ),
            ),
    {
        let ghost tree = self@.nodes;
        let ghost ids = ids_of(nodes@);
        let XPathStep { axis, kind, name } = step;
        let ghost local = text_view(name.0);
        let ghost namespace = text_view(name.1);
        let local_id = match &name.0 {
            Some(s) => self.name_id_stat(s.clone()),
            None => None,
        };
        let namespace_id = match &name.1 {
            Some(s) => self.nsp_id_stat(s.clone()),
            None => None,
        };
        if (name.0.is_some() && local_id.is_none()) || (name.1.is_some() && namespace_id.is_none()) {
            // a name that was never interned names no node
            proof {
                lemma_unknown_name_selects_nothing(self@, kind, local, namespace, ids);
                assert(buffer@ =~= old(buffer)@ + self.tuples(Seq::empty()));
            }
            return ;
        }
        let ghost reach = |id: NodeId| axis_nodes(tree, axis, id);
        let mut nds: Vec<NodeTup<'a>> = Vec::new();
        proof {
            assert forall|i: int| 0 <= i < ids.len() implies in_range(
                tree,
                reach(#[trigger] ids[i]),
            ) by {
                assert(self.holds(*nodes@[i]));
                lemma_axis_in_range(tree, axis, ids[i]);
            }
            lemma_flat_map_in_range(tree, ids, reach);
        }
        match axis {
            XPathAxis::Ancestor => {
                self.ancestors_of(nodes, &mut nds);
                proof {
                    lemma_flat_map_same(ids, |id: NodeId| ancestors(tree, id), reach);
                }
                assert(nds@ =~= self.tuples(on_axis(tree, axis, ids)));
            },
            _ => {
                let mut i: usize = 0;
                assert(nds@ =~= self.tuples(flat_map(ids.take(0), reach)));
                while i < nodes.len()
                    invariant
                        i <= nodes@.len(),
                        tree == self@.nodes,
                        well_formed(tree),
                        ids == ids_of(nodes@),
                        reach == |id: NodeId| axis_nodes(tree, axis, id),
                        forall|i: int| 0 <= i < nodes@.len() ==> self.holds(*#[trigger] nodes@[i]),
                        nds@ == self.tuples(flat_map(ids.take(i as int), reach)),
                    decreases nodes@.len() - i,
                {
                    proof {
                        lemma_flat_map_next(ids, reach, i as int);
                        self.lemma_tuples_add(flat_map(ids.take(i as int), reach), reach(ids[i as int]));
                    }
                    self.axis(axis, nodes[i], &mut nds);
                    assert(nds@ =~= self.tuples(flat_map(ids.take(i + 1), reach)));
                    i = i + 1;
                }
                assert(ids.take(i as int) =~= ids);
            },
        }
        self.select(
            &nds,
            Ghost(on_axis(tree, axis, ids)),
            kind,
            local_id,
            namespace_id,
            Ghost(local),
            Ghost(namespace),
            buffer,
        );
    }
}

} // verus!
