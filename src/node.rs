use vstd::prelude::*;
use vstd::string::StringExecFns;
use vstd::string::StrSliceExecFns;
use crate::json::JsonNode;
use crate::json::display_of;
use crate::json::root_name_of;

verus! {

/// The text `prefix . name`: a materialized path extended by one segment.
pub open spec fn join_segment(prefix: Seq<char>, name: Seq<char>) -> Seq<char> {
    prefix + seq!['.'] + name
}

/// A materialized dotted path together with the number of segments it holds.
pub struct GodsnodePath {
    path: String,
    depth: usize,
}

impl View for GodsnodePath {
    type V = (Seq<char>, nat);

    closed spec fn view(&self) -> (Seq<char>, nat) {
        (self.path@, self.depth as nat)
    }
}

impl GodsnodePath {
    /// The unset path: no text, depth zero.
    pub fn new_path() -> (r: GodsnodePath)
        ensures
            r@ == (Seq::<char>::empty(), 0nat),
    {
        GodsnodePath { path: String::new(), depth: 0 }
    }

    /// Extends the path in place by `.name`, one level deeper.
    pub fn append(&mut self, name: &String)
        requires
            old(self)@.1 < usize::MAX,
        ensures
            final(self)@ == (join_segment(old(self)@.0, name@), old(self)@.1 + 1),
    {
        proof {
            reveal_strlit(".");
        }
        self.path.append(".");
        self.path.append(name.as_str());
        self.depth = self.depth + 1;
        proof {
            assert(self.path@ =~= join_segment(old(self)@.0, name@));
        }
    }

    /// A copy of this path extended by `.name`; the path itself is kept.
    pub fn appended(&self, name: &String) -> (r: GodsnodePath)
        requires
            self@.1 < usize::MAX,
        ensures
            r@ == (join_segment(self@.0, name@), self@.1 + 1),
    {
        let mut r = GodsnodePath { path: self.path.clone(), depth: self.depth };
        r.append(name);
        r
    }

    /// A path that starts at `root`, at depth one.
    pub fn new(root: String) -> (r: GodsnodePath)
        ensures
            r@ == (root@, 1nat),
    {
        GodsnodePath { path: root, depth: 1 }
    }

    /// The dotted text of the path.
    pub fn read(&self) -> (r: String)
        ensures
            r@ == self@.0,
    {
        self.path.clone()
    }

    /// The number of segments below the empty path.
    pub fn read_depth(&self) -> (r: usize)
        ensures
            r as nat == self@.1,
    {
        self.depth
    }
}

/// `t` is the first segment of the dotted path `s`: `s` starts with a dot,
/// and `t` is the non-empty text between that dot and the next one (or the end).
pub open spec fn is_app_name(s: Seq<char>, t: Seq<char>) -> bool {
    &&& s.len() > 0
    &&& s[0] == '.'
    &&& t.len() > 0
    &&& 1 + t.len() <= s.len()
    &&& s.subrange(1, 1 + t.len() as int) == t
    &&& forall|i: int| 0 <= i < t.len() ==> t[i] != '.'
    &&& (1 + t.len() == s.len() || s[1 + t.len() as int] == '.')
}

/// The work of one breadth-first step: the path of a parent below the tree
/// being indexed, and the ids of that parent's children.
pub struct InitNodeQ {
    pub app_meta: GodswoodMeta,
    pub nodes: Vec<u64>,
}

/// Per-tree metadata of a node: its materialized path below that tree's root.
pub struct GodswoodMeta {
    pub path: GodsnodePath,
}

impl GodswoodMeta {
    /// Metadata holding the unset path.
    pub fn new() -> (r: GodswoodMeta)
        ensures
            r.path@ == (Seq::<char>::empty(), 0nat),
    {
        GodswoodMeta { path: GodsnodePath::new_path() }
    }

    /// The name of the tree that a materialized path belongs to: its first
    /// segment, when the path starts with a dot and that segment is not empty.
    pub fn parse_app_name(path: &String) -> (r: Option<String>)
        ensures
            match r {
                Some(t) => is_app_name(path@, t@),
                None => forall|t: Seq<char>| !is_app_name(path@, t),
            },
    {
        let s = path.as_str();
        let n = s.unicode_len();
        if n == 0 || s.get_char(0) != '.' {
            return None;
        }
        let mut i: usize = 1;
        while i < n && s.get_char(i) != '.'
            invariant
                1 <= i <= n,
                n == s@.len(),
                s@ == path@,
                forall|j: int| 1 <= j < i ==> s@[j] != '.',
            decreases n - i,
        {
            i = i + 1;
        }
        if i == 1 {
            proof {
                assert forall|t: Seq<char>| !is_app_name(path@, t) by {
                    if is_app_name(path@, t) {
                        assert(path@.subrange(1, 1 + t.len() as int)[0] == t[0]);
                    }
                }
            }
            return None;
        }
        let seg = s.substring_char(1, i);
        let r = String::from_str(seg);
        proof {
            assert(r@ =~= path@.subrange(1, i as int));
            assert(path@.subrange(1, 1 + r@.len() as int) =~= r@);
        }
        Some(r)
    }
}

/// The role of a node in its tree.
#[derive(PartialEq, Eq, Structural, Clone, Copy, Debug)]
pub enum GodsnodeType {
    Root,
    Node,
    Leaf,
}

/// The service class of a node.
#[derive(PartialEq, Eq, Structural, Clone, Copy, Debug)]
pub enum GodsnodeClass {
    General,
}

/// Operations that the store needs of the nodes it keeps.
pub trait GodsnodeProto: Sized {
    /// Ids of the node's children, in linking order.
    spec fn spec_children(&self) -> Seq<u64>;

    /// Ids of the node's parents, in linking order.
    spec fn spec_parents(&self) -> Seq<u64>;

    fn new() -> (r: Self)
        ensures
            r.spec_children() == Seq::<u64>::empty(),
            r.spec_parents() == Seq::<u64>::empty(),
    ;

    fn get_children(&self) -> (r: &Vec<u64>)
        ensures
            r@ == self.spec_children(),
    ;

    fn get_parents(&self) -> (r: &Vec<u64>)
        ensures
            r@ == self.spec_parents(),
    ;

    fn add_parent(&mut self, node: u64)
        ensures
            final(self).spec_parents() == old(self).spec_parents().push(node),
            final(self).spec_children() == old(self).spec_children(),
    ;

    fn add_child(&mut self, node: u64)
        ensures
            final(self).spec_children() == old(self).spec_children().push(node),
            final(self).spec_parents() == old(self).spec_parents(),
    ;
}

/// What a node is apart from its per-tree metadata.
pub struct NodeView {
    pub id: u64,
    pub name: Seq<char>,
    pub display_name: Seq<char>,
    pub node_type: GodsnodeType,
    pub parents: Seq<u64>,
    pub children: Seq<u64>,
}

/// A vertex of the graph. Links to parents and children are ids into the
/// store that owns every node.
pub struct NodeProto {
    pub id: u64,
    pub name: String,
    pub display_name: String,
    pub node_type: GodsnodeType,
    pub parents: Vec<u64>,
    pub children: Vec<u64>,
    pub service_type: GodsnodeClass,
    /// Path of this node below each tree root that indexed it, keyed by the
    /// root's name; keys are unique.
    pub app_meta_map: Vec<(String, GodswoodMeta)>,
}

impl View for NodeProto {
    type V = NodeView;

    open spec fn view(&self) -> NodeView {
        NodeView {
            id: self.id,
            name: self.name@,
            display_name: self.display_name@,
            node_type: self.node_type,
            parents: self.parents@,
            children: self.children@,
        }
    }
}

/// Keys of an association list are pairwise distinct.
pub open spec fn keys_unique<V>(s: Seq<(Seq<char>, V)>) -> bool {
    forall|i: int, j: int| 0 <= i < j < s.len() ==> s[i].0 != s[j].0
}

/// The value stored under `k` in an association list, if any.
pub open spec fn assoc_get<V>(s: Seq<(Seq<char>, V)>, k: Seq<char>) -> Option<V> {
    if exists|i: int| 0 <= i < s.len() && s[i].0 == k {
        Some(s[choose|i: int| 0 <= i < s.len() && s[i].0 == k].1)
    } else {
        None
    }
}

/// The per-tree paths of a node, as (root name, (path, depth)).
pub open spec fn meta_view(n: NodeProto) -> Seq<(Seq<char>, (Seq<char>, nat))> {
    n.app_meta_map@.map_values(|e: (String, GodswoodMeta)| (e.0@, e.1.path@))
}

/// The path of node `n` below the tree rooted at the node named `app`.
pub open spec fn meta_of(n: NodeProto, app: Seq<char>) -> Option<(Seq<char>, nat)> {
    assoc_get(meta_view(n), app)
}

impl NodeProto {
    /// A blank node: id zero, empty names, kind `Node`, no links, no paths.
    pub fn blank() -> (r: NodeProto)
        ensures
            r@ == fresh_node(0, Seq::empty(), Seq::empty(), GodsnodeType::Node),
            meta_view(r).len() == 0,
    {
        let r = NodeProto {
            id: 0,
            name: String::new(),
            display_name: String::new(),
            node_type: GodsnodeType::Node,
            parents: Vec::new(),
            children: Vec::new(),
            service_type: GodsnodeClass::General,
            app_meta_map: Vec::new(),
        };
        proof {
            assert(r@ =~= fresh_node(0, Seq::empty(), Seq::empty(), GodsnodeType::Node));
        }
        r
    }

    /// Records `meta` as this node's path below the tree named `app`,
    /// replacing an earlier record for that tree.
    pub fn set_meta(&mut self, app: &String, meta: GodswoodMeta)
        requires
            keys_unique(meta_view(*old(self))),
        ensures
            final(self)@ == old(self)@,
            keys_unique(meta_view(*final(self))),
            meta_of(*final(self), app@) == Some(meta.path@),
            forall|k: Seq<char>| k != app@ ==> meta_of(*final(self), k) == meta_of(*old(self), k),
    {
        let ghost before = meta_view(*self);
        let mut i: usize = 0;
        while i < self.app_meta_map.len()
            invariant
                i <= self.app_meta_map.len(),
                meta_view(*self) == before,
                *self == *old(self),
                forall|j: int| 0 <= j < i ==> before[j].0 != app@,
            ensures
                i <= self.app_meta_map.len(),
                meta_view(*self) == before,
                *self == *old(self),
                forall|j: int| 0 <= j < i ==> before[j].0 != app@,
                i < self.app_meta_map.len() ==> before[i as int].0 == app@,
            decreases self.app_meta_map.len() - i,
        {
            if self.app_meta_map[i].0 == *app {
                break;
            }
            i = i + 1;
        }
        let ghost v = meta.path@;
        if i < self.app_meta_map.len() {
            assert(before[i as int].0 == app@);
            self.app_meta_map[i] = (app.clone(), meta);
            proof {
                let after = meta_view(*self);
                assert(after =~= before.update(i as int, (app@, v)));
                assert(after[i as int].0 == app@);
                assert forall|k: Seq<char>| k != app@ implies assoc_get(after, k) == assoc_get(before, k) by {
                    if exists|j: int| 0 <= j < before.len() && before[j].0 == k {
                        let j = choose|j: int| 0 <= j < before.len() && before[j].0 == k;
                        assert(after[j].0 == k);
                    }
                    if exists|j: int| 0 <= j < after.len() && after[j].0 == k {
                        let j = choose|j: int| 0 <= j < after.len() && after[j].0 == k;
                        assert(before[j].0 == k);
                    }
                }
            }
        } else {
            self.app_meta_map.push((app.clone(), meta));
            proof {
                let after = meta_view(*self);
                assert(after =~= before.push((app@, v)));
                assert(after[before.len() as int].0 == app@);
                assert forall|k: Seq<char>| k != app@ implies assoc_get(after, k) == assoc_get(before, k) by {
                    if exists|j: int| 0 <= j < before.len() && before[j].0 == k {
                        let j = choose|j: int| 0 <= j < before.len() && before[j].0 == k;
                        assert(after[j].0 == k);
                    }
                    if exists|j: int| 0 <= j < after.len() && after[j].0 == k {
                        let j = choose|j: int| 0 <= j < after.len() && after[j].0 == k;
                        assert(before[j].0 == k);
                    }
                }
            }
        }
    }
}

impl GodsnodeProto for NodeProto {
    open spec fn spec_children(&self) -> Seq<u64> {
        self.children@
    }

    open spec fn spec_parents(&self) -> Seq<u64> {
        self.parents@
    }

    fn new() -> (r: Self) {
        NodeProto::blank()
    }

    fn get_children(&self) -> (r: &Vec<u64>) {
        &self.children
    }

    fn get_parents(&self) -> (r: &Vec<u64>) {
        &self.parents
    }

    fn add_parent(&mut self, node: u64) {
        self.parents.push(node);
    }

    fn add_child(&mut self, node: u64) {
        self.children.push(node);
    }
}

/// What a store holds: the counter for the next id, every node (node `i`
/// has id `i`), and the index from materialized path to node id.
pub struct StoreView {
    pub next_id: u64,
    pub nodes: Seq<NodeProto>,
    pub index: Seq<(Seq<char>, u64)>,
}

/// Owner of every node: allocates ids in increasing order and indexes nodes
/// by materialized path. Links between nodes are ids into this store.
pub struct GodsstoreProto {
    id: u64,
    store: Vec<NodeProto>,
    index: Vec<(String, u64)>,
}

impl View for GodsstoreProto {
    type V = StoreView;

    closed spec fn view(&self) -> StoreView {
        StoreView {
            next_id: self.id,
            nodes: self.store@,
            index: self.index@.map_values(|e: (String, u64)| (e.0@, e.1)),
        }
    }
}

/// The nodes of a store keep their ids and are linked downwards only:
/// every child has a larger id than its parent and lies in the store.
pub open spec fn nodes_wf(nodes: Seq<NodeProto>) -> bool {
    &&& forall|i: int| 0 <= i < nodes.len() ==> (#[trigger] nodes[i]).id == i
    &&& forall|i: int| 0 <= i < nodes.len() ==> keys_unique(meta_view(#[trigger] nodes[i]))
    &&& forall|i: int, k: int|
        0 <= i < nodes.len() && 0 <= k < nodes[i].children@.len() ==> i < (
        #[trigger] nodes[i].children@[k]) < nodes.len()
    &&& forall|i: int, k: int|
        0 <= i < nodes.len() && 0 <= k < nodes[i].parents@.len() ==> (
        #[trigger] nodes[i].parents@[k]) < i
    &&& tree_shaped(nodes)
}

/// Every child names the node that lists it as its one parent, no node has
/// two parents, and no child is listed twice.
pub open spec fn tree_shaped(nodes: Seq<NodeProto>) -> bool {
    &&& forall|i: int, k: int|
        0 <= i < nodes.len() && 0 <= k < nodes[i].children@.len()
        ==> nodes[#[trigger] nodes[i].children@[k] as int].parents@ == seq![i as u64]
    &&& forall|i: int| 0 <= i < nodes.len() ==> (#[trigger] nodes[i]).parents@.len() <= 1
    &&& forall|i: int, k1: int, k2: int|
        0 <= i < nodes.len() && 0 <= k1 < k2 < nodes[i].children@.len()
        ==> #[trigger] nodes[i].children@[k1] != #[trigger] nodes[i].children@[k2]
}

/// A node added to the store's end: `v` with no recorded paths.
pub open spec fn is_appended(before: StoreView, after: StoreView, v: NodeView) -> bool {
    &&& after.next_id == before.next_id + 1
    &&& after.nodes.len() == before.nodes.len() + 1
    &&& after.nodes.subrange(0, before.nodes.len() as int) == before.nodes
    &&& after.nodes[before.nodes.len() as int]@ == v
    &&& meta_view(after.nodes[before.nodes.len() as int]).len() == 0
    &&& after.index == before.index
}

/// A node with no links yet.
pub open spec fn fresh_node(id: u64, name: Seq<char>, display_name: Seq<char>, t: GodsnodeType) -> NodeView {
    NodeView { id, name, display_name, node_type: t, parents: Seq::empty(), children: Seq::empty() }
}

impl GodsstoreProto {
    /// Well-formed: ids are positions, links point downwards inside the store,
    /// every indexed id exists, and index paths are unique.
    pub open spec fn wf(&self) -> bool {
        &&& self@.next_id == self@.nodes.len()
        &&& nodes_wf(self@.nodes)
        &&& forall|k: int| 0 <= k < self@.index.len() ==> (#[trigger] self@.index[k]).1 < self@.nodes.len()
        &&& keys_unique(self@.index)
    }

    /// An empty store whose first id is zero.
    pub fn new() -> (r: GodsstoreProto)
        ensures
            r.wf(),
            r@.next_id == 0,
            r@.nodes.len() == 0,
            r@.index.len() == 0,
    {
        let r = GodsstoreProto { id: 0, store: Vec::new(), index: Vec::new() };
        proof {
            assert(r@.index =~= Seq::<(Seq<char>, u64)>::empty());
        }
        r
    }

    /// Number of nodes the store owns.
    pub fn len(&self) -> (r: usize)
        ensures
            r == self@.nodes.len(),
    {
        self.store.len()
    }

    /// Resolves an id to the node it names, if the store has it.
    pub fn resolve(&self, id: u64) -> (r: Option<&NodeProto>)
        ensures
            match r {
                Some(n) => id < self@.nodes.len() && *n == self@.nodes[id as int],
                None => id >= self@.nodes.len(),
            },
    {
        let n = self.store.len();
        if id <= usize::MAX as u64 && (id as usize) < n {
            Some(&self.store[id as usize])
        } else {
            None
        }
    }

    /// Allocates the next id and stores a blank node under it.
    pub fn new_node(&mut self) -> (r: u64)
        requires
            old(self).wf(),
            old(self)@.next_id < u64::MAX,
        ensures
            final(self).wf(),
            r == old(self)@.next_id,
            is_appended(old(self)@, final(self)@, fresh_node(r, Seq::empty(), Seq::empty(), GodsnodeType::Node)),
    {
        let mut node = NodeProto::blank();
        let id = self.id;
        node.id = id;
        self.id = self.id + 1;
        self.store.push(node);
        proof {
            assert(self@.index =~= old(self)@.index);
            assert(self@.nodes.subrange(0, old(self)@.nodes.len() as int) =~= old(self)@.nodes);
            assert(meta_view(self@.nodes[id as int]) =~= Seq::empty());
            assert(self@.nodes[id as int]@ =~= fresh_node(id, Seq::empty(), Seq::empty(), GodsnodeType::Node));
            let ns = self@.nodes;
            assert forall|i: int, k: int|
                0 <= i < ns.len() && 0 <= k < ns[i].children@.len() implies i < (
                #[trigger] ns[i].children@[k]) < ns.len() by {
                if i < id {
                    assert(ns[i] == old(self)@.nodes[i]);
                }
            }
            assert forall|i: int, k: int|
                0 <= i < ns.len() && 0 <= k < ns[i].parents@.len() implies (
                #[trigger] ns[i].parents@[k]) < i by {
                if i < id {
                    assert(ns[i] == old(self)@.nodes[i]);
                }
            }
        }
        id
    }

    /// Stores a node of kind `Node` named `name`, whose display name comes
    /// from `raw` (`new node` when absent).
    pub fn add_node(&mut self, raw: &JsonNode, name: String) -> (r: u64)
        requires
            old(self).wf(),
            old(self)@.next_id < u64::MAX,
        ensures
            final(self).wf(),
            r == old(self)@.next_id,
            is_appended(old(self)@, final(self)@, fresh_node(r, name@, display_of(*raw), GodsnodeType::Node)),
    {
        let id = self.new_node();
        let display = raw.display_name_or_default();
        self.set_fields(id, name, display, GodsnodeType::Node);
        id
    }

    /// Stores a node of kind `Leaf` named `name`.
    pub fn add_leaf_node(&mut self, name: &String, raw: &JsonNode) -> (r: u64)
        requires
            old(self).wf(),
            old(self)@.next_id < u64::MAX,
        ensures
            final(self).wf(),
            r == old(self)@.next_id,
            is_appended(old(self)@, final(self)@, fresh_node(r, name@, display_of(*raw), GodsnodeType::Leaf)),
    {
        let id = self.add_node(raw, name.clone());
        let display = raw.display_name_or_default();
        self.set_fields(id, name.clone(), display, GodsnodeType::Leaf);
        id
    }

    /// Stores the root node of a tree: kind `Root`, named after `raw`'s
    /// `name` (`new_application` when absent).
    pub fn add_app_node(&mut self, raw: &JsonNode) -> (r: u64)
        requires
            old(self).wf(),
            old(self)@.next_id < u64::MAX,
        ensures
            final(self).wf(),
            r == old(self)@.next_id,
            is_appended(old(self)@, final(self)@, fresh_node(r, root_name_of(*raw), display_of(*raw), GodsnodeType::Root)),
    {
        let name = raw.root_name_or_default();
        let id = self.add_node(raw, name);
        let name = raw.root_name_or_default();
        let display = raw.display_name_or_default();
        self.set_fields(id, name, display, GodsnodeType::Root);
        id
    }

    /// Sets the name, display name and kind of the last node, which has no links.
    fn set_fields(&mut self, id: u64, name: String, display: String, t: GodsnodeType)
        requires
            old(self).wf(),
            id + 1 == old(self)@.nodes.len(),
            old(self)@.nodes[id as int].parents@.len() == 0,
            old(self)@.nodes[id as int].children@.len() == 0,
        ensures
            final(self).wf(),
            final(self)@.next_id == old(self)@.next_id,
            final(self)@.index == old(self)@.index,
            final(self)@.nodes.len() == old(self)@.nodes.len(),
            final(self)@.nodes.subrange(0, id as int) == old(self)@.nodes.subrange(0, id as int),
            final(self)@.nodes[id as int]@ == fresh_node(id, name@, display@, t),
            final(self)@.nodes[id as int].app_meta_map == old(self)@.nodes[id as int].app_meta_map,
    {
        assert(self.store.len() == self@.nodes.len());
        let i = id as usize;
        self.store[i].name = name;
        self.store[i].display_name = display;
        self.store[i].node_type = t;
        proof {
            assert(self@.index =~= old(self)@.index);
            assert(self@.nodes.subrange(0, id as int) =~= old(self)@.nodes.subrange(0, id as int));
            assert(self@.nodes[id as int].parents@ =~= Seq::<u64>::empty());
            assert(self@.nodes[id as int].children@ =~= Seq::<u64>::empty());
            assert(self@.nodes[id as int]@ =~= fresh_node(id, name@, display@, t));
            let ns = self@.nodes;
            let os = old(self)@.nodes;
            assert forall|j: int| 0 <= j < ns.len() && j != id implies ns[j] == os[j] by {}
        }
    }

    /// Links `child` below `parent`: each is appended to the other's list.
    pub(crate) fn link(&mut self, parent: u64, child: u64)
        requires
            old(self).wf(),
            parent < child < old(self)@.nodes.len(),
            old(self)@.nodes[child as int].parents@.len() == 0,
        ensures
            final(self).wf(),
            final(self)@.next_id == old(self)@.next_id,
            final(self)@.index == old(self)@.index,
            final(self)@.nodes.len() == old(self)@.nodes.len(),
            forall|j: int| 0 <= j < old(self)@.nodes.len() && j != parent && j != child
                ==> final(self)@.nodes[j] == old(self)@.nodes[j],
            final(self)@.nodes[parent as int]@ == (NodeView {
                children: old(self)@.nodes[parent as int]@.children.push(child),
                ..old(self)@.nodes[parent as int]@
            }),
            final(self)@.nodes[child as int]@ == (NodeView {
                parents: old(self)@.nodes[child as int]@.parents.push(parent),
                ..old(self)@.nodes[child as int]@
            }),
            final(self)@.nodes[parent as int].app_meta_map == old(self)@.nodes[parent as int].app_meta_map,
            final(self)@.nodes[child as int].app_meta_map == old(self)@.nodes[child as int].app_meta_map,
    {
        assert(self.store.len() == self@.nodes.len());
        let ghost p0 = self.store@[parent as int];
        let ghost c0 = self.store@[child as int];
        self.store[parent as usize].children.push(child);
        assert(self.store@[parent as int].children@ == p0.children@.push(child));
        assert(self.store@[parent as int].parents@ == p0.parents@);
        self.store[child as usize].parents.push(parent);
        assert(self.store@[child as int].parents@ == c0.parents@.push(parent));
        assert(self.store@[child as int].children@ == c0.children@);
        proof {
            assert(self@.index =~= old(self)@.index);
            assert(self@.nodes[parent as int]@ =~= (NodeView {
                children: old(self)@.nodes[parent as int]@.children.push(child),
                ..old(self)@.nodes[parent as int]@
            }));
            assert(self@.nodes[child as int]@ =~= (NodeView {
                parents: old(self)@.nodes[child as int]@.parents.push(parent),
                ..old(self)@.nodes[child as int]@
            }));
            let ns = self@.nodes;
            let os = old(self)@.nodes;
            assert forall|i: int, k: int|
                0 <= i < ns.len() && 0 <= k < ns[i].children@.len() implies i < (
                #[trigger] ns[i].children@[k]) < ns.len() by {
                if i == parent && k == os[i].children@.len() {
                } else {
                    assert(ns[i].children@[k] == os[i].children@[k]);
                }
            }
            assert forall|i: int, k: int|
                0 <= i < ns.len() && 0 <= k < ns[i].parents@.len() implies (
                #[trigger] ns[i].parents@[k]) < i by {
                if i == child && k == os[i].parents@.len() {
                } else {
                    assert(ns[i].parents@[k] == os[i].parents@[k]);
                }
            }
            assert forall|i: int, k: int| 0 <= i < os.len() && 0 <= k < os[i].children@.len()
                implies (#[trigger] os[i].children@[k]) != child by {
                let y = os[i].children@[k];
                assert(os[y as int].parents@ == seq![i as u64]);
            }
            assert forall|i: int, k: int|
                0 <= i < ns.len() && 0 <= k < ns[i].children@.len()
                implies ns[#[trigger] ns[i].children@[k] as int].parents@ == seq![i as u64] by {
                if i == parent && k == os[i].children@.len() {
                    assert(ns[i].children@[k] == child);
                    assert(ns[child as int].parents@ =~= seq![parent]);
                } else {
                    let y = os[i].children@[k];
                    assert(ns[i].children@[k] == y);
                    assert(y != child);
                    assert(os[y as int].parents@ == seq![i as u64]);
                }
            }
            assert forall|i: int| 0 <= i < ns.len() implies (#[trigger] ns[i]).parents@.len() <= 1 by {
                if i != child {
                    assert(ns[i].parents@ == os[i].parents@);
                }
            }
            assert forall|i: int, k1: int, k2: int|
                0 <= i < ns.len() && 0 <= k1 < k2 < ns[i].children@.len()
                implies #[trigger] ns[i].children@[k1] != #[trigger] ns[i].children@[k2] by {
                if i == parent && k2 == os[i].children@.len() {
                    assert(ns[i].children@[k1] == os[i].children@[k1]);
                } else {
                    assert(ns[i].children@[k1] == os[i].children@[k1]);
                    assert(ns[i].children@[k2] == os[i].children@[k2]);
                }
            }
        }
    }

    /// Records `meta` as the path of node `id` below the tree named `app`.
    pub fn set_node_meta(&mut self, id: u64, app: &String, meta: GodswoodMeta)
        requires
            old(self).wf(),
            id < old(self)@.nodes.len(),
        ensures
            final(self).wf(),
            final(self)@.next_id == old(self)@.next_id,
            final(self)@.index == old(self)@.index,
            final(self)@.nodes.len() == old(self)@.nodes.len(),
            forall|j: int| 0 <= j < old(self)@.nodes.len() ==> (#[trigger] final(self)@.nodes[j])@ == old(self)@.nodes[j]@,
            forall|j: int| 0 <= j < old(self)@.nodes.len() && j != id
                ==> final(self)@.nodes[j] == old(self)@.nodes[j],
            meta_of(final(self)@.nodes[id as int], app@) == Some(meta.path@),
            forall|k: Seq<char>| k != app@ ==> meta_of(final(self)@.nodes[id as int], k) == meta_of(old(self)@.nodes[id as int], k),
    {
        assert(self.store.len() == self@.nodes.len());
        self.store[id as usize].set_meta(app, meta);
        proof {
            assert(self@.index =~= old(self)@.index);
            let ns = self@.nodes;
            let os = old(self)@.nodes;
            assert forall|i: int| 0 <= i < ns.len() implies (#[trigger] ns[i])@ == os[i]@ by {
                if i == id {
                } else {
                    assert(ns[i] == os[i]);
                }
            }
            assert forall|i: int, k: int|
                0 <= i < ns.len() && 0 <= k < ns[i].children@.len() implies i < (
                #[trigger] ns[i].children@[k]) < ns.len() by {
                assert(ns[i]@ == os[i]@);
            }
            assert forall|i: int, k: int|
                0 <= i < ns.len() && 0 <= k < ns[i].parents@.len() implies (
                #[trigger] ns[i].parents@[k]) < i by {
                assert(ns[i]@ == os[i]@);
            }
        }
    }

    /// Maps the materialized path `name` to node `index`, replacing an
    /// earlier mapping of that path.
    pub fn update_index(&mut self, name: &String, index: u64)
        requires
            old(self).wf(),
            index < old(self)@.nodes.len(),
        ensures
            final(self).wf(),
            final(self)@.next_id == old(self)@.next_id,
            final(self)@.nodes == old(self)@.nodes,
            assoc_get(final(self)@.index, name@) == Some(index),
            forall|k: Seq<char>| k != name@ ==> assoc_get(final(self)@.index, k) == assoc_get(old(self)@.index, k),
    {
        let ghost before = self@.index;
        let mut i: usize = 0;
        while i < self.index.len()
            invariant
                i <= self.index.len(),
                self@.index == before,
                *self == *old(self),
                forall|j: int| 0 <= j < i ==> before[j].0 != name@,
            ensures
                i <= self.index.len(),
                self@.index == before,
                *self == *old(self),
                forall|j: int| 0 <= j < i ==> before[j].0 != name@,
                i < self.index.len() ==> before[i as int].0 == name@,
            decreases self.index.len() - i,
        {
            if self.index[i].0 == *name {
                break;
            }
            i = i + 1;
        }
        if i < self.index.len() {
            self.index[i] = (name.clone(), index);
            proof {
                let after = self@.index;
                assert(after =~= before.update(i as int, (name@, index)));
                assert(after[i as int].0 == name@);
                assert forall|k: Seq<char>| k != name@ implies assoc_get(after, k) == assoc_get(before, k) by {
                    if exists|j: int| 0 <= j < before.len() && before[j].0 == k {
                        let j = choose|j: int| 0 <= j < before.len() && before[j].0 == k;
                        assert(after[j].0 == k);
                    }
                    if exists|j: int| 0 <= j < after.len() && after[j].0 == k {
                        let j = choose|j: int| 0 <= j < after.len() && after[j].0 == k;
                        assert(before[j].0 == k);
                    }
                }
            }
        } else {
            self.index.push((name.clone(), index));
            proof {
                let after = self@.index;
                assert(after =~= before.push((name@, index)));
                assert(after[before.len() as int].0 == name@);
                assert forall|k: Seq<char>| k != name@ implies assoc_get(after, k) == assoc_get(before, k) by {
                    if exists|j: int| 0 <= j < before.len() && before[j].0 == k {
                        let j = choose|j: int| 0 <= j < before.len() && before[j].0 == k;
                        assert(after[j].0 == k);
                    }
                    if exists|j: int| 0 <= j < after.len() && after[j].0 == k {
                        let j = choose|j: int| 0 <= j < after.len() && after[j].0 == k;
                        assert(before[j].0 == k);
                    }
                }
            }
        }
    }

    /// The id indexed under the materialized path `path`, if any.
    pub fn get_weak_node(&self, path: &String) -> (r: Option<u64>)
        requires
            self.wf(),
        ensures
            r == assoc_get(self@.index, path@),
            r matches Some(id) ==> id < self@.nodes.len(),
    {
        let ghost idx = self@.index;
        let mut i: usize = 0;
        while i < self.index.len()
            invariant
                i <= self.index.len(),
                idx == self@.index,
                self.wf(),
                forall|j: int| 0 <= j < i ==> idx[j].0 != path@,
            decreases self.index.len() - i,
        {
            if self.index[i].0 == *path {
                let id = self.index[i].1;
                proof {
                    assert(idx[i as int].0 == path@);
                    let c = choose|j: int| 0 <= j < idx.len() && idx[j].0 == path@;
                    assert(c == i);
                    assert(idx[i as int].1 < self@.nodes.len());
                }
                return Some(id);
            }
            i = i + 1;
        }
        None
    }
}

} // verus!
