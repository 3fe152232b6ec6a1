//! The arena of nodes with its two symbol tables, and the navigation over it.

use vstd::prelude::*;
use std::collections::HashMap;
use crate::nodes::{Namespace, NamespaceView, Node, NodeId, NodeKind, NodeView, QName};
use crate::tree::{
    ancestors, ancestors_of, chain, child_ok, descendants, flat_map, forest, height,
    lemma_forest_in_range, lemma_parent_lower, node_ok, of_kind, string_value, texts, well_formed,
};
use crate::symbols::{find, intern, intern_in, position, strings_view};
use vstd::string::StringExecFns;

verus! {

/// A node together with its id.
pub type NodeTup<'a> = (&'a NodeId, &'a Node);

/// The number of local names that one collection can intern.
pub const MAX_NAMES: usize = 65536;

/// The number of namespace strings that one collection can intern.
pub const MAX_NAMESPACES: usize = 256;

#[derive(Debug)]
pub struct NodeCollection {
    pub base_uri: Option<String>,
    pub doc_uri: Option<String>,
    /// The local names in the order of their first use: a name's id is its
    /// position.
    pub names: Vec<String>,
    /// The namespace uris and prefixes in the order of their first use.
    pub nsp: Vec<String>,
    /// From id to local name; filled by `finalize`.
    pub names_inv: HashMap<u16, String>,
    /// From id to namespace string; filled by `finalize`.
    pub nsp_inv: HashMap<u8, String>,
    pub namespaces: Vec<Namespace>,
    pub nodes: Vec<Node>,
}

pub struct CollectionView {
    pub base_uri: Option<Seq<char>>,
    pub doc_uri: Option<Seq<char>>,
    pub names: Seq<Seq<char>>,
    pub nsp: Seq<Seq<char>>,
    pub names_inv: Map<u16, Seq<char>>,
    pub nsp_inv: Map<u8, Seq<char>>,
    pub namespaces: Seq<NamespaceView>,
    pub nodes: Seq<NodeView>,
}

/// The views of the nodes of an arena.
pub open spec fn nodes_view(nodes: Seq<Node>) -> Seq<NodeView> {
    Seq::new(nodes.len(), |i: int| nodes[i]@)
}

/// The views of a list of namespace bindings.
pub open spec fn namespaces_view(list: Seq<Namespace>) -> Seq<NamespaceView> {
    Seq::new(list.len(), |i: int| list[i]@)
}

pub open spec fn text_view(text: Option<String>) -> Option<Seq<char>> {
    match text {
        Some(s) => Some(s@),
        None => None,
    }
}

/// The text, or the empty text where there is none.
pub open spec fn text_or_empty(text: Option<Seq<char>>) -> Seq<char> {
    match text {
        Some(s) => s,
        None => Seq::empty(),
    }
}

/// A reverse map after `finalize`: every id of `table` leads to its string,
/// and the other entries stay.
pub open spec fn filled_names(inv: Map<u16, Seq<char>>, table: Seq<Seq<char>>) -> Map<
    u16,
    Seq<char>,
> {
    Map::new(
        |k: u16| k < table.len() || inv.contains_key(k),
        |k: u16|
            if k < table.len() {
                table[k as int]
            } else {
                inv[k]
            },
    )
}

/// As `filled_names`, for the namespace table.
pub open spec fn filled_namespaces(inv: Map<u8, Seq<char>>, table: Seq<Seq<char>>) -> Map<
    u8,
    Seq<char>,
> {
    Map::new(
        |k: u8| k < table.len() || inv.contains_key(k),
        |k: u8|
            if k < table.len() {
                table[k as int]
            } else {
                inv[k]
            },
    )
}

impl View for NodeCollection {
    type V = CollectionView;

    open spec fn view(&self) -> CollectionView {
        CollectionView {
            base_uri: text_view(self.base_uri),
            doc_uri: text_view(self.doc_uri),
            names: strings_view(self.names@),
            nsp: strings_view(self.nsp@),
            names_inv: self.names_inv@.map_values(|s: String| s@),
            nsp_inv: self.nsp_inv@.map_values(|s: String| s@),
            namespaces: namespaces_view(self.namespaces@),
            nodes: nodes_view(self.nodes@),
        }
    }
}

/// The nodes after `child` was appended to the children of `parent`.
pub open spec fn with_child(nodes: Seq<NodeView>, parent: NodeId, child: NodeId) -> Seq<NodeView> {
    nodes.update(
        parent as int,
        NodeView {
            children: Some(nodes[parent as int].child_ids().push(child)),
            ..nodes[parent as int]
        },
    )
}

/// The ids of a list of nodes.
pub open spec fn ids_of(nodes: Seq<&NodeTup>) -> Seq<NodeId> {
    Seq::new(nodes.len(), |i: int| *nodes[i].0)
}

impl CollectionView {
    /// The id of a local name that was interned.
    pub open spec fn name_id(self, name: Seq<char>) -> Option<u16> {
        match position(self.names, name) {
            Some(i) => if i < MAX_NAMES {
                Some(i as u16)
            } else {
                None
            },
            None => None,
        }
    }

    /// The id of a namespace uri or prefix that was interned.
    pub open spec fn nsp_id(self, name: Seq<char>) -> Option<u8> {
        match position(self.nsp, name) {
            Some(i) => if i < MAX_NAMESPACES {
                Some(i as u8)
            } else {
                None
            },
            None => None,
        }
    }

    /// The name test of a step on one node. A test on the local name passes
    /// where that string is interned and the node has a name with its id; a
    /// test on the namespace likewise, on the uri of the node's name. Where
    /// both are given both must pass; where none is, every node passes.
    pub open spec fn name_matches(
        self,
        node: NodeView,
        local: Option<Seq<char>>,
        namespace: Option<Seq<char>>,
    ) -> bool {
        &&& local matches Some(l) ==> self.name_id(l) matches Some(id) && node.node_name matches Some(
            name,
        ) && name.local == id
        &&& namespace matches Some(u) ==> self.nsp_id(u) matches Some(id)
            && node.node_name matches Some(name) && name.uri == id
    }

    /// Whether the three ids of `name` are ids of the symbol tables.
    pub open spec fn name_known(self, name: QName) -> bool {
        name.local < self.names.len() && name.prefix < self.nsp.len() && name.uri < self.nsp.len()
    }

    /// Whether the name of every node is made of ids of the symbol tables.
    pub open spec fn names_known(self) -> bool {
        forall|i: int|
            0 <= i < self.nodes.len() ==> match (#[trigger] self.nodes[i]).node_name {
                Some(name) => self.name_known(name),
                None => true,
            }
    }

    /// Whether the reverse maps lead from every id of the symbol tables to
    /// its string.
    pub open spec fn finalized(self) -> bool {
        &&& forall|k: u16|
            k < self.names.len() ==> #[trigger] self.names_inv.contains_key(k) && self.names_inv[k]
                == self.names[k as int]
        &&& forall|k: u8|
            k < self.nsp.len() ==> #[trigger] self.nsp_inv.contains_key(k) && self.nsp_inv[k]
                == self.nsp[k as int]
    }

    /// The collection after `finalize`.
    pub open spec fn after_finalize(self) -> CollectionView {
        CollectionView {
            names_inv: filled_names(self.names_inv, self.names),
            nsp_inv: filled_namespaces(self.nsp_inv, self.nsp),
            ..self
        }
    }

    /// Whether the reverse maps hold the three ids of `name`.
    pub open spec fn resolves(self, name: QName) -> bool {
        &&& self.names_inv.contains_key(name.local)
        &&& self.nsp_inv.contains_key(name.prefix)
        &&& self.nsp_inv.contains_key(name.uri)
    }

    /// The ids that `qname` gives to a local name, a prefix and a namespace,
    /// in the order local, prefix, uri.
    pub open spec fn qname_ids(self, local: Seq<char>, prefix: Seq<char>, uri: Seq<char>) -> (
        int,
        int,
        int,
    ) {
        (
            intern(self.names, local).1,
            intern(self.nsp, prefix).1,
            intern(intern(self.nsp, prefix).0, uri).1,
        )
    }

    /// Whether the three ids are within the widths of a `QName`.
    pub open spec fn qname_fits(self, local: Seq<char>, prefix: Seq<char>, uri: Seq<char>) -> bool {
        let (l, p, u) = self.qname_ids(local, prefix, uri);
        l < MAX_NAMES && p < MAX_NAMESPACES && u < MAX_NAMESPACES
    }

    /// The qualified name that `qname` returns.
    pub open spec fn qname_of(self, local: Seq<char>, prefix: Seq<char>, uri: Seq<char>) -> QName {
        let (l, p, u) = self.qname_ids(local, prefix, uri);
        QName { uri: u as u8, prefix: p as u8, local: l as u16 }
    }

    /// The collection after `try_qname`: as after `qname` where the three
    /// strings fit, else with those interned that come before the first that
    /// does not.
    pub open spec fn with_qname_tried(
        self,
        local: Seq<char>,
        prefix: Seq<char>,
        uri: Seq<char>,
    ) -> CollectionView {
        let (l, p, u) = self.qname_ids(local, prefix, uri);
        if l >= MAX_NAMES {
            self
        } else if p >= MAX_NAMESPACES {
            CollectionView { names: intern(self.names, local).0, ..self }
        } else if u >= MAX_NAMESPACES {
            CollectionView {
                names: intern(self.names, local).0,
                nsp: intern(self.nsp, prefix).0,
                ..self
            }
        } else {
            self.with_qname(local, prefix, uri)
        }
    }

    /// The collection after `qname` has interned the three strings.
    pub open spec fn with_qname(
        self,
        local: Seq<char>,
        prefix: Seq<char>,
        uri: Seq<char>,
    ) -> CollectionView {
        CollectionView {
            names: intern(self.names, local).0,
            nsp: intern(intern(self.nsp, prefix).0, uri).0,
            ..self
        }
    }
}

impl NodeCollection {
    pub fn new(base_uri: String, doc_uri: String) -> (collection: NodeCollection)
        ensures
            collection@ == (CollectionView {
                base_uri: Some(base_uri@),
                doc_uri: Some(doc_uri@),
                names: Seq::empty(),
                nsp: Seq::empty(),
                names_inv: Map::empty(),
                nsp_inv: Map::empty(),
                namespaces: Seq::empty(),
                nodes: Seq::empty(),
            }),
    {
        let collection = NodeCollection {
            base_uri: Some(base_uri),
            doc_uri: Some(doc_uri),
            names: Vec::new(),
            nsp: Vec::new(),
            names_inv: HashMap::new(),
            nsp_inv: HashMap::new(),
            namespaces: Vec::new(),
            nodes: Vec::new(),
        };
        proof {
            assert(collection@.names =~= Seq::empty());
            assert(collection@.nsp =~= Seq::empty());
            assert(collection@.names_inv =~= Map::empty());
            assert(collection@.nsp_inv =~= Map::empty());
            assert(collection@.namespaces =~= Seq::empty());
            assert(collection@.nodes =~= Seq::empty());
        }
        collection
    }

    /// Fills the two reverse maps from the symbol tables.
    pub fn finalize(&mut self)
        ensures
            final(self)@ == old(self)@.after_finalize(),
            final(self)@.finalized(),
    {
        broadcast use vstd::std_specs::hash::group_hash_axioms;

        let mut i: usize = 0;
        while i < self.nsp.len() && i < MAX_NAMESPACES
            invariant
                i <= self.nsp@.len(),
                i <= MAX_NAMESPACES,
                self.nsp_inv@.map_values(|s: String| s@) =~= Map::new(
                    |k: u8| k < i || old(self)@.nsp_inv.contains_key(k),
                    |k: u8|
                        if k < i {
                            old(self)@.nsp[k as int]
                        } else {
                            old(self)@.nsp_inv[k]
                        },
                ),
                self.nsp == old(self).nsp,
                self.names == old(self).names,
                self.names_inv == old(self).names_inv,
                self.base_uri == old(self).base_uri,
                self.doc_uri == old(self).doc_uri,
                self.namespaces == old(self).namespaces,
                self.nodes == old(self).nodes,
            decreases self.nsp@.len() - i,
        {
            let text = self.nsp[i].clone();
            let ghost before = self.nsp_inv@;
            self.nsp_inv.insert(i as u8, text);
            proof {
                assert(old(self)@.nsp[i as int] == text@);
                assert(self.nsp_inv@.map_values(|s: String| s@) =~= before.map_values(
                    |s: String| s@,
                ).insert(i as u8, text@));
            }
            i = i + 1;
        }
        let mut j: usize = 0;
        while j < self.names.len() && j < MAX_NAMES
            invariant
                j <= self.names@.len(),
                j <= MAX_NAMES,
                self.names_inv@.map_values(|s: String| s@) =~= Map::new(
                    |k: u16| k < j || old(self)@.names_inv.contains_key(k),
                    |k: u16|
                        if k < j {
                            old(self)@.names[k as int]
                        } else {
                            old(self)@.names_inv[k]
                        },
                ),
                self.nsp == old(self).nsp,
                self.names == old(self).names,
                self@.nsp_inv == filled_namespaces(old(self)@.nsp_inv, old(self)@.nsp),
                self.base_uri == old(self).base_uri,
                self.doc_uri == old(self).doc_uri,
                self.namespaces == old(self).namespaces,
                self.nodes == old(self).nodes,
            decreases self.names@.len() - j,
        {
            let text = self.names[j].clone();
            let ghost before = self.names_inv@;
            self.names_inv.insert(j as u16, text);
            proof {
                assert(old(self)@.names[j as int] == text@);
                assert(self.names_inv@.map_values(|s: String| s@) =~= before.map_values(
                    |s: String| s@,
                ).insert(j as u16, text@));
            }
            j = j + 1;
        }
        assert(self@.names_inv =~= filled_names(old(self)@.names_inv, old(self)@.names));
    }

    /// Interns a local name and returns its id.
    pub fn name_id(&mut self, name: String) -> (id: u16)
        requires
            intern(old(self)@.names, name@).1 < MAX_NAMES,
        ensures
            id == intern(old(self)@.names, name@).1,
            final(self)@ == (CollectionView {
                names: intern(old(self)@.names, name@).0,
                ..old(self)@
            }),
    {
        match intern_in(&mut self.names, name, MAX_NAMES) {
            Some(i) => i as u16,
            None => 0,
        }
    }

    /// Interns a namespace uri or a prefix and returns its id.
    pub fn nsp_id(&mut self, name: String) -> (id: u8)
        requires
            intern(old(self)@.nsp, name@).1 < MAX_NAMESPACES,
        ensures
            id == intern(old(self)@.nsp, name@).1,
            final(self)@ == (CollectionView {
                nsp: intern(old(self)@.nsp, name@).0,
                ..old(self)@
            }),
    {
        match intern_in(&mut self.nsp, name, MAX_NAMESPACES) {
            Some(i) => i as u8,
            None => 0,
        }
    }

    /// The id of a local name, if it was interned.
    pub fn name_id_stat(&self, name: String) -> (id: Option<u16>)
        ensures
            id == self@.name_id(name@),
    {
        match find(&self.names, &name) {
            Some(i) => if i < MAX_NAMES {
                Some(i as u16)
            } else {
                None
            },
            None => None,
        }
    }

    /// The id of a namespace uri or prefix, if it was interned.
    pub fn nsp_id_stat(&self, name: String) -> (id: Option<u8>)
        ensures
            id == self@.nsp_id(name@),
    {
        match find(&self.nsp, &name) {
            Some(i) => if i < MAX_NAMESPACES {
                Some(i as u8)
            } else {
                None
            },
            None => None,
        }
    }

    /// Interns the three parts of a qualified name: the local name, then the
    /// prefix, then the namespace.
    pub fn qname(&mut self, local_name: String, prefix: String, namespace: String) -> (name: QName)
        requires
            old(self)@.qname_fits(local_name@, prefix@, namespace@),
        ensures
            name == old(self)@.qname_of(local_name@, prefix@, namespace@),
            final(self)@ == old(self)@.with_qname(local_name@, prefix@, namespace@),
    {
        let local = self.name_id(local_name);
        let prefix = self.nsp_id(prefix);
        let uri = self.nsp_id(namespace);
        QName { uri, prefix, local }
    }

    /// As `qname`, where the tables may be full: the three strings are
    /// interned one after the other, and with the first that finds its table
    /// full the call ends without a name.
    pub fn try_qname(&mut self, local_name: String, prefix: String, namespace: String) -> (name:
        Option<QName>)
        ensures
            name == (if old(self)@.qname_fits(local_name@, prefix@, namespace@) {
                Some(old(self)@.qname_of(local_name@, prefix@, namespace@))
            } else {
                None
            }),
            final(self)@ == old(self)@.with_qname_tried(local_name@, prefix@, namespace@),
    {
        let local = match intern_in(&mut self.names, local_name, MAX_NAMES) {
            Some(i) => i as u16,
            None => {
                return None;
            },
        };
        let prefix = match intern_in(&mut self.nsp, prefix, MAX_NAMESPACES) {
            Some(i) => i as u8,
            None => {
                return None;
            },
        };
        let uri = match intern_in(&mut self.nsp, namespace, MAX_NAMESPACES) {
            Some(i) => i as u8,
            None => {
                return None;
            },
        };
        Some(QName { uri, prefix, local })
    }

    /// The three strings of a qualified name, as (namespace, prefix, local
    /// name), from the reverse maps.
    pub fn get_qname(&self, qname: Option<&QName>) -> (parts: Option<(&String, &String, &String)>)
        requires
            qname is Some ==> self@.resolves(*qname->0),
        ensures
            parts is Some <==> qname is Some,
            parts is Some ==> {
                let (uri, prefix, local) = parts->0;
                &&& uri@ == self@.nsp_inv[qname->0.uri]
                &&& prefix@ == self@.nsp_inv[qname->0.prefix]
                &&& local@ == self@.names_inv[qname->0.local]
            },
    {
        broadcast use vstd::std_specs::hash::group_hash_axioms;

        match qname {
            Some(name) => {
                let l = match self.names_inv.get(&name.local) {
                    Some(l) => l,
                    None => {
                        return None;
                    },
                };
                let p = match self.nsp_inv.get(&name.prefix) {
                    Some(p) => p,
                    None => {
                        return None;
                    },
                };
                let u = match self.nsp_inv.get(&name.uri) {
                    Some(u) => u,
                    None => {
                        return None;
                    },
                };
                Some((u, p, l))
            },
            None => None,
        }
    }

    pub fn get_uri(&self) -> (uri: Option<&String>)
        ensures
            uri is Some <==> self.doc_uri is Some,
            uri is Some ==> *uri->0 == self.doc_uri->0,
    {
        self.doc_uri.as_ref()
    }

    /// Appends a node; its id is the number of nodes that were there before.
    pub fn add_node(&mut self, node: Node) -> (id: NodeId)
        ensures
            id == old(self)@.nodes.len(),
            final(self)@ == (CollectionView { nodes: old(self)@.nodes.push(node@), ..old(self)@ }),
    {
        let id = self.nodes.len();
        self.nodes.push(node);
        assert(self@.nodes =~= old(self)@.nodes.push(node@));
        id
    }

    /// Puts a node at `node_id` and moves the nodes from there on one place up.
    pub fn insert_node(&mut self, node_id: NodeId, node: Node)
        requires
            node_id <= old(self)@.nodes.len(),
        ensures
            final(self)@ == (CollectionView {
                nodes: old(self)@.nodes.insert(node_id as int, node@),
                ..old(self)@
            }),
    {
        self.nodes.insert(node_id, node);
        assert(self@.nodes =~= old(self)@.nodes.insert(node_id as int, node@));
    }

    /// Appends `child` to the children list of the node `parent`.
    pub fn add_child_node(&mut self, parent: NodeId, child: NodeId)
        requires
            parent < old(self)@.nodes.len(),
            old(self)@.nodes[parent as int].children is Some,
        ensures
            final(self)@ == (CollectionView {
                nodes: with_child(old(self)@.nodes, parent, child),
                ..old(self)@
            }),
    {
        let par = self.mut_node(parent);
        par.add_child(child);
        assert(self@.nodes =~= with_child(old(self)@.nodes, parent, child));
    }

    /// Whether `node` is a node of this collection under its id.
    pub open spec fn holds(&self, node: NodeTup) -> bool {
        *node.0 < self.nodes@.len() && node.1@ == self@.nodes[*node.0 as int]
    }

    /// The nodes with the given ids, each with its id.
    pub open spec fn tuples<'a>(&'a self, ids: Seq<NodeId>) -> Seq<NodeTup<'a>> {
        Seq::new(ids.len(), |i: int| (&ids[i], &self.nodes@[ids[i] as int]))
    }

    /// Appends the children of `node` to `buf`, in document order.
    pub fn children<'a>(&'a self, node: &NodeTup<'a>, buf: &mut Vec<NodeTup<'a>>)
        requires
            well_formed(self@.nodes),
            self.holds(*node),
        ensures
            final(buf)@ == old(buf)@ + self.tuples(self@.nodes[*node.0 as int].child_ids()),
    {
        match node.1.children() {
            None => {
                assert(buf@ =~= old(buf)@ + self.tuples(Seq::empty()));
            },
            Some(ch) => {
                let mut i: usize = 0;
                while i < ch.len()
                    invariant
                        i <= ch@.len(),
                        ch@ == self@.nodes[*node.0 as int].child_ids(),
                        well_formed(self@.nodes),
                        *node.0 < self.nodes@.len(),
                        buf@ == old(buf)@ + self.tuples(ch@.take(i as int)),
                    decreases ch@.len() - i,
                {
                    let c = &ch[i];
                    assert(crate::tree::node_ok(self@.nodes, *node.0 as int));
                    assert(crate::tree::child_ok(self@.nodes, *node.0 as int, ch@[i as int]));
                    buf.push((c, self.node(*c)));
                    assert(buf@ =~= old(buf)@ + self.tuples(ch@.take(i + 1)));
                    i = i + 1;
                }
                assert(ch@.take(i as int) =~= ch@);
            },
        }
    }

    /// `tuples` goes through a concatenation.
    pub proof fn lemma_tuples_add(&self, a: Seq<NodeId>, b: Seq<NodeId>)
        ensures
            self.tuples(a + b) == self.tuples(a) + self.tuples(b),
    {
        assert(self.tuples(a + b) =~= self.tuples(a) + self.tuples(b));
    }

    /// Appends the descendants of `node` to `buf`, in document order.
    pub fn descendants<'a>(&'a self, node: &NodeTup<'a>, buf: &mut Vec<NodeTup<'a>>)
        requires
            well_formed(self@.nodes),
            self.holds(*node),
        ensures
            final(buf)@ == old(buf)@ + self.tuples(descendants(self@.nodes, *node.0)),
        decreases self@.nodes.len() - *node.0,
    {
        let ghost id = *node.0;
        let ghost tree = self@.nodes;
        let mut vec: Vec<NodeTup<'a>> = Vec::new();
        self.children(node, &mut vec);
        assert(vec@ =~= self.tuples(tree[id as int].child_ids()));
        let mut i: usize = 0;
        while i < vec.len()
            invariant
                i <= vec@.len(),
                tree == self@.nodes,
                well_formed(tree),
                id < tree.len(),
                id == *node.0,
                vec@ == self.tuples(tree[id as int].child_ids()),
                buf@ + self.tuples(forest(tree, id, i as nat)) == old(buf)@ + self.tuples(
                    forest(tree, id, 0),
                ),
            decreases vec@.len() - i,
        {
            let chld = vec[i];
            let ghost before = buf@;
            proof {
                let child = tree[id as int].child_ids()[i as int];
                assert(node_ok(tree, id as int));
                assert(child_ok(tree, id as int, child));
                assert(*chld.0 == child);
                assert(forest(tree, id, i as nat) == seq![child] + forest(tree, child, 0) + forest(
                    tree,
                    id,
                    (i + 1) as nat,
                ));
                self.lemma_tuples_add(
                    seq![child] + forest(tree, child, 0),
                    forest(tree, id, (i + 1) as nat),
                );
                self.lemma_tuples_add(seq![child], forest(tree, child, 0));
                assert(self.tuples(seq![child]) =~= seq![chld]);
            }
            buf.push(chld);
            self.descendants(&chld, buf);
            proof {
                let child = tree[id as int].child_ids()[i as int];
                assert(buf@ =~= before + seq![chld] + self.tuples(forest(tree, child, 0)));
                assert(buf@ + self.tuples(forest(tree, id, (i + 1) as nat)) =~= before
                    + self.tuples(forest(tree, id, i as nat)));
            }
            i = i + 1;
        }
        assert(forest(tree, id, i as nat) =~= Seq::empty());
        assert(buf@ =~= buf@ + self.tuples(forest(tree, id, i as nat)));
    }

    /// Appends to `acc` the descendants of `node` that are of the given kind,
    /// in document order.
    pub fn get_typed_descendants<'a>(
        &'a self,
        node_kind: NodeKind,
        node: &NodeTup<'a>,
        acc: &mut Vec<NodeTup<'a>>,
    )
        requires
            well_formed(self@.nodes),
            self.holds(*node),
        ensures
            final(acc)@ == old(acc)@ + self.tuples(
                of_kind(self@.nodes, descendants(self@.nodes, *node.0), node_kind),
            ),
    {
        let ghost tree = self@.nodes;
        let ghost all = descendants(tree, *node.0);
        proof {
            lemma_forest_in_range(tree, *node.0, 0);
        }
        let mut vec: Vec<NodeTup<'a>> = Vec::new();
        self.descendants(node, &mut vec);
        assert(vec@ =~= self.tuples(all));
        let mut i: usize = 0;
        while i < vec.len()
            invariant
                i <= vec@.len(),
                tree == self@.nodes,
                vec@ == self.tuples(all),
                forall|j: int| 0 <= j < all.len() ==> #[trigger] all[j] < tree.len(),
                acc@ == old(acc)@ + self.tuples(of_kind(tree, all.take(i as int), node_kind)),
            decreases vec@.len() - i,
        {
            let tup = vec[i];
            proof {
                let pred = |id: NodeId| tree[id as int].node_kind == node_kind;
                reveal(Seq::filter);
                assert(all.take(i + 1).drop_last() =~= all.take(i as int));
                assert(all.take(i + 1).last() == all[i as int]);
                assert(*tup.0 == all[i as int]);
                assert(tup.1@ == tree[all[i as int] as int]);
                if pred(all[i as int]) {
                    assert(of_kind(tree, all.take(i + 1), node_kind) == of_kind(
                        tree,
                        all.take(i as int),
                        node_kind,
                    ).push(all[i as int]));
                    assert(self.tuples(of_kind(tree, all.take(i + 1), node_kind)) =~= self.tuples(
                        of_kind(tree, all.take(i as int), node_kind),
                    ).push(tup));
                } else {
                    assert(of_kind(tree, all.take(i + 1), node_kind) == of_kind(
                        tree,
                        all.take(i as int),
                        node_kind,
                    ));
                }
            }
            if tup.1.node_kind == node_kind {
                acc.push(tup);
            }
            i = i + 1;
        }
        assert(all.take(i as int) =~= all);
    }

    /// Appends the ancestors of `node` to `buf`, nearest first.
    pub fn ancestors<'a>(&'a self, node: &NodeTup<'a>, buf: &mut Vec<NodeTup<'a>>)
        requires
            well_formed(self@.nodes),
            self.holds(*node),
        ensures
            final(buf)@ == old(buf)@ + self.tuples(ancestors(self@.nodes, *node.0)),
    {
        let ghost tree = self@.nodes;
        proof {
            lemma_parent_lower(tree, *node.0 as int);
        }
        let mut curr_parent: &Option<NodeId> = &node.1.parent;
        assert(buf@ =~= old(buf)@ + self.tuples(Seq::empty()));
        loop
            invariant
                tree == self@.nodes,
                well_formed(tree),
                *curr_parent is Some ==> curr_parent->0 < tree.len(),
                buf@ + self.tuples(chain(tree, *curr_parent)) == old(buf)@ + self.tuples(
                    ancestors(tree, *node.0),
                ),
            ensures
                *curr_parent is None,
            decreases height(tree, *curr_parent),
        {
            match curr_parent {
                None => {
                    break ;
                },
                Some(p) => {
                    let parent = self.node(*p);
                    proof {
                        lemma_parent_lower(tree, *p as int);
                        self.lemma_tuples_add(seq![*p], chain(tree, parent.parent));
                        assert(self.tuples(seq![*p]) =~= seq![(p, parent)]);
                        assert((buf@.push((p, parent))) + self.tuples(chain(tree, parent.parent))
                            =~= buf@ + self.tuples(chain(tree, *curr_parent)));
                    }
                    buf.push((p, parent));
                    curr_parent = &parent.parent;
                },
            }
        }
        assert(buf@ =~= buf@ + self.tuples(chain(tree, *curr_parent)));
    }

    /// Appends to `buf` the ancestors of each of `nodes`, chain after chain,
    /// each chain nearest first. A node that is an ancestor of several of
    /// `nodes` is appended once for each of them.
    pub fn ancestors_of<'a>(&'a self, nodes: Vec<&NodeTup<'a>>, buf: &mut Vec<NodeTup<'a>>)
        requires
            well_formed(self@.nodes),
            forall|i: int| 0 <= i < nodes@.len() ==> self.holds(*#[trigger] nodes@[i]),
        ensures
            final(buf)@ == old(buf)@ + self.tuples(ancestors_of(self@.nodes, ids_of(nodes@))),
    {
        let ghost tree = self@.nodes;
        let ghost ids = ids_of(nodes@);
        let ghost f = |id: NodeId| ancestors(tree, id);
        let mut i: usize = 0;
        assert(buf@ =~= old(buf)@ + self.tuples(flat_map(ids.take(0), f)));
        while i < nodes.len()
            invariant
                i <= nodes@.len(),
                tree == self@.nodes,
                ids == ids_of(nodes@),
                f == |id: NodeId| ancestors(tree, id),
                well_formed(tree),
                forall|i: int| 0 <= i < nodes@.len() ==> self.holds(*#[trigger] nodes@[i]),
                buf@ == old(buf)@ + self.tuples(flat_map(ids.take(i as int), f)),
            decreases nodes@.len() - i,
        {
            self.ancestors(nodes[i], buf);
            proof {
                assert(ids.take(i + 1).drop_last() =~= ids.take(i as int));
                assert(ids.take(i + 1).last() == *nodes@[i as int].0);
                self.lemma_tuples_add(flat_map(ids.take(i as int), f), f(ids[i as int]));
                assert(buf@ =~= old(buf)@ + self.tuples(flat_map(ids.take(i + 1), f)));
            }
            i = i + 1;
        }
        assert(ids.take(i as int) =~= ids);
    }

    /// The string value of `node`.
    pub fn string_value<'a>(&'a self, node: &NodeTup<'a>) -> (text: String)
        requires
            well_formed(self@.nodes),
            self.holds(*node),
        ensures
            text@ == string_value(self@.nodes, *node.0),
    {
        let ghost tree = self@.nodes;
        match node.1.node_kind {
            NodeKind::Text | NodeKind::Comment => match &node.1.string_value {
                Some(text) => text.clone(),
                None => String::new(),
            },
            NodeKind::Element | NodeKind::Document => {
                let ghost found = of_kind(tree, descendants(tree, *node.0), NodeKind::Text);
                let mut s = String::new();
                let mut vec: Vec<NodeTup<'a>> = Vec::new();
                self.get_typed_descendants(NodeKind::Text, node, &mut vec);
                assert(vec@ =~= self.tuples(found));
                proof {
                    lemma_forest_in_range(tree, *node.0, 0);
                    let all = descendants(tree, *node.0);
                    assert forall|j: int| 0 <= j < found.len() implies #[trigger] found[j]
                        < tree.len() by {
                        all.lemma_filter_contains_rev(
                            |id: NodeId| tree[id as int].node_kind == NodeKind::Text,
                            found[j],
                        );
                    }
                }
                let mut i: usize = 0;
                while i < vec.len()
                    invariant
                        i <= vec@.len(),
                        tree == self@.nodes,
                        vec@ == self.tuples(found),
                        forall|j: int| 0 <= j < found.len() ==> #[trigger] found[j] < tree.len(),
                        s@ == texts(tree, found.take(i as int)),
                    decreases vec@.len() - i,
                {
                    let tup = vec[i];
                    proof {
                        assert(found.take(i + 1).drop_last() =~= found.take(i as int));
                        assert(found.take(i + 1).last() == found[i as int]);
                        assert(tup.1@ == tree[found[i as int] as int]);
                    }
                    match &tup.1.string_value {
                        Some(sv) => {
                            s.append(sv.as_str());
                        },
                        None => {
                            assert(s@ + Seq::<char>::empty() =~= s@);
                        },
                    }
                    i = i + 1;
                }
                assert(found.take(i as int) =~= found);
                s
            },
            _ => String::new(),
        }
    }

    /// Whether the name of `node` passes the name test: each of the two
    /// strings that is given must be interned, and the node must have a name
    /// that holds its id.
    pub fn name_match<'a>(
        &self,
        node: &NodeTup<'a>,
        local_name: &Option<String>,
        namespace: &Option<String>,
    ) -> (matched: bool)
        ensures
            matched == self@.name_matches(node.1@, text_view(*local_name), text_view(*namespace)),
    {
        let ln = match local_name {
            Some(s) => match self.name_id_stat(s.clone()) {
                None => {
                    return false;
                },
                o => o,
            },
            None => None,
        };
        let ns = match namespace {
            Some(s) => match self.nsp_id_stat(s.clone()) {
                None => {
                    return false;
                },
                o => o,
            },
            None => None,
        };
        match (ln, ns) {
            (None, None) => true,
            (Some(ln), None) => match &node.1.node_name {
                Some(name) => name.local == ln,
                None => false,
            },
            (None, Some(ns)) => match &node.1.node_name {
                Some(name) => name.uri == ns,
                None => false,
            },
            (Some(ln), Some(ns)) => match &node.1.node_name {
                Some(name) => name.uri == ns && name.local == ln,
                None => false,
            },
        }
    }

    /// Whether `node` is of the given kind.
    pub fn type_match<'a>(&self, node: &NodeTup<'a>, match_node_kind: NodeKind) -> (matched: bool)
        ensures
            matched == (node.1.node_kind == match_node_kind),
    {
        node.1.node_kind == match_node_kind
    }

    /// Whether `node` is of the given kind and its name passes the name test.
    pub fn type_name_match<'a>(
        &self,
        node: &NodeTup<'a>,
        local_name: &Option<String>,
        namespace: &Option<String>,
        match_node_kind: NodeKind,
    ) -> (matched: bool)
        ensures
            matched == (node.1.node_kind == match_node_kind && self@.name_matches(
                node.1@,
                text_view(*local_name),
                text_view(*namespace),
            )),
    {
        self.type_match(node, match_node_kind) && self.name_match(node, local_name, namespace)
    }

    pub fn node(&self, id: NodeId) -> (node: &Node)
        requires
            id < self@.nodes.len(),
        ensures
            *node == self.nodes@[id as int],
    {
        &self.nodes[id]
    }

    fn mut_node(&mut self, id: NodeId) -> (node: &mut Node)
        requires
            id < old(self)@.nodes.len(),
        ensures
            *node == old(self).nodes@[id as int],
            final(self).nodes@ == old(self).nodes@.update(id as int, *final(node)),
            final(self).base_uri == old(self).base_uri,
            final(self).doc_uri == old(self).doc_uri,
            final(self).names == old(self).names,
            final(self).nsp == old(self).nsp,
            final(self).names_inv == old(self).names_inv,
            final(self).nsp_inv == old(self).nsp_inv,
            final(self).namespaces == old(self).namespaces,
    {
        &mut self.nodes[id]
    }
}

/// Interning a qualified name that fits gives a name of ids of the tables,
/// and leaves every such name one.
pub proof fn lemma_qname_known(
    c: CollectionView,
    local: Seq<char>,
    prefix: Seq<char>,
    uri: Seq<char>,
)
    requires
        c.qname_fits(local, prefix, uri),
    ensures
        c.with_qname(local, prefix, uri).name_known(c.qname_of(local, prefix, uri)),
        c.names.len() <= c.with_qname(local, prefix, uri).names.len(),
        c.nsp.len() <= c.with_qname(local, prefix, uri).nsp.len(),
        c.with_qname(local, prefix, uri).nodes == c.nodes,
        c.names_known() ==> c.with_qname(local, prefix, uri).names_known(),
{
    crate::symbols::lemma_intern_grows(c.names, local);
    crate::symbols::lemma_intern_grows(c.nsp, prefix);
    crate::symbols::lemma_intern_grows(intern(c.nsp, prefix).0, uri);
}

/// To finalize a second time changes nothing.
pub proof fn lemma_finalize_twice(c: CollectionView)
    ensures
        c.after_finalize().after_finalize() == c.after_finalize(),
        c.after_finalize().finalized(),
{
    let once = c.after_finalize();
    assert(filled_names(once.names_inv, once.names) =~= once.names_inv);
    assert(filled_namespaces(once.nsp_inv, once.nsp) =~= once.nsp_inv);
}

/// After `finalize` the reverse maps hold every name of ids of the tables.
pub proof fn lemma_finalized_resolves(c: CollectionView, name: QName)
    requires
        c.finalized(),
        c.name_known(name),
    ensures
        c.resolves(name),
        c.names_inv[name.local] == c.names[name.local as int],
        c.nsp_inv[name.prefix] == c.nsp[name.prefix as int],
        c.nsp_inv[name.uri] == c.nsp[name.uri as int],
{
    assert(c.names_inv.contains_key(name.local));
    assert(c.nsp_inv.contains_key(name.prefix));
    assert(c.nsp_inv.contains_key(name.uri));
}

} // verus!
