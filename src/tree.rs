use vstd::prelude::*;
use crate::json::JsonNode;
use crate::json::display_of;
use crate::json::root_name_of;
use crate::json::entries_upto;
use crate::json::total_entries;
use crate::json::lemma_entries_monotone;
use crate::node::GodsstoreProto;
use crate::node::GodsnodeType;
use crate::node::NodeProto;
use crate::node::NodeView;
use crate::node::fresh_node;
use crate::node::join_segment;
use crate::node::meta_of;
use crate::node::assoc_get;
use crate::node::StoreView;
use crate::node::GodswoodMeta;
use crate::node::GodsnodePath;
use crate::node::InitNodeQ;
use crate::node::keys_unique;
use crate::node::nodes_wf;

verus! {

/// The link-structure of a store's nodes, without per-tree paths.
pub open spec fn shapes(nodes: Seq<NodeProto>) -> Seq<NodeView> {
    nodes.map_values(|n: NodeProto| n@)
}

/// `child` appended to the children of `parent`, and `parent` to the parents of `child`.
pub open spec fn link_shapes(s: Seq<NodeView>, parent: u64, child: u64) -> Seq<NodeView> {
    let s1 = s.update(parent as int, NodeView { children: s[parent as int].children.push(child), ..s[parent as int] });
    s1.update(child as int, NodeView { parents: s1[child as int].parents.push(parent), ..s1[child as int] })
}

/// The nodes after the first `k` entries of `kids` are built below `parent`:
/// each entry becomes a new node of kind `Node`, its own entries are built
/// below it, and then it is linked to `parent`.
pub open spec fn build_children(s: Seq<NodeView>, parent: u64, kids: Seq<(String, JsonNode)>, k: int) -> Seq<NodeView>
    decreases kids, k,
{
    if k <= 0 || k > kids.len() {
        s
    } else {
        let s1 = build_children(s, parent, kids, k - 1);
        let name = kids[k - 1].0;
        let raw = kids[k - 1].1;
        let id = s1.len() as u64;
        let s2 = s1.push(fresh_node(id, name@, display_of(raw), GodsnodeType::Node));
        let s3 = build_children(s2, id, raw.children@, raw.children@.len() as int);
        link_shapes(s3, parent, id)
    }
}

/// Building entries keeps every existing node's id, names and kind, and
/// only adds nodes.
proof fn lemma_build_keeps(s: Seq<NodeView>, parent: u64, kids: Seq<(String, JsonNode)>, k: int)
    requires
        parent < s.len(),
    ensures
        build_children(s, parent, kids, k).len() >= s.len(),
        forall|i: int| 0 <= i < s.len() ==> {
            let a = #[trigger] build_children(s, parent, kids, k)[i];
            a.id == s[i].id && a.name == s[i].name && a.display_name == s[i].display_name
                && a.node_type == s[i].node_type
        },
    decreases kids, k,
{
    if k <= 0 || k > kids.len() {
    } else {
        lemma_build_keeps(s, parent, kids, k - 1);
        let s1 = build_children(s, parent, kids, k - 1);
        let name = kids[k - 1].0;
        let raw = kids[k - 1].1;
        let id = s1.len() as u64;
        let s2 = s1.push(fresh_node(id, name@, display_of(raw), GodsnodeType::Node));
        assert(decreases_to!(kids => kids[k - 1]));
        lemma_build_keeps(s2, id, raw.children@, raw.children@.len() as int);
        let s3 = build_children(s2, id, raw.children@, raw.children@.len() as int);
        assert forall|i: int| 0 <= i < s.len() implies {
            let a = #[trigger] build_children(s, parent, kids, k)[i];
            a.id == s[i].id && a.name == s[i].name && a.display_name == s[i].display_name
                && a.node_type == s[i].node_type
        } by {
            assert(s2[i] == s1[i]);
            assert(link_shapes(s3, parent, id)[i].name == s3[i].name);
        }
    }
}

/// The root of a tree built from `j` is named and shown as `j` says, and
/// has kind `Root`.
pub proof fn lemma_build_tree_root(s: Seq<NodeView>, j: JsonNode)
    ensures
        build_tree(s, j).len() > s.len(),
        build_tree(s, j)[s.len() as int].name == root_name_of(j),
        build_tree(s, j)[s.len() as int].display_name == display_of(j),
        build_tree(s, j)[s.len() as int].node_type == GodsnodeType::Root,
{
    let id = s.len() as u64;
    let s1 = s.push(fresh_node(id, root_name_of(j), display_of(j), GodsnodeType::Root));
    lemma_build_keeps(s1, id, j.children@, j.children@.len() as int);
    assert(build_tree(s, j)[s.len() as int] == build_children(s1, id, j.children@, j.children@.len() as int)[s.len() as int]);
}

/// The nodes after the document `j` is built as a new tree: its root of kind
/// `Root` first, then its entries below it.
pub open spec fn build_tree(s: Seq<NodeView>, j: JsonNode) -> Seq<NodeView> {
    let id = s.len() as u64;
    let s1 = s.push(fresh_node(id, root_name_of(j), display_of(j), GodsnodeType::Root));
    build_children(s1, id, j.children@, j.children@.len() as int)
}

/// A node reached by the breadth-first pass: its materialized path and id.
pub type Entry = (Seq<char>, u64);

/// The entries of the children of the node of entry `e`, each with `e`'s
/// path extended by the child's name.
pub open spec fn child_entries(s: Seq<NodeView>, e: Entry) -> Seq<Entry> {
    s[e.1 as int].children.map_values(|c: u64| (join_segment(e.0, s[c as int].name), c))
}

/// The child entries of the first `k` entries of `lvl`, in order.
pub open spec fn next_upto(s: Seq<NodeView>, lvl: Seq<Entry>, k: int) -> Seq<Entry>
    decreases k,
{
    if k <= 0 {
        Seq::empty()
    } else {
        next_upto(s, lvl, k - 1) + child_entries(s, lvl[k - 1])
    }
}

/// The entries one level below `lvl`, in breadth-first order.
pub open spec fn next_level(s: Seq<NodeView>, lvl: Seq<Entry>) -> Seq<Entry> {
    next_upto(s, lvl, lvl.len() as int)
}

/// The entries at depth `d` of the tree rooted at `root`: the root alone at
/// depth one, with path `.name`; below it, level after level.
pub open spec fn level(s: Seq<NodeView>, root: u64, d: nat) -> Seq<Entry>
    decreases d,
{
    if d == 0 {
        Seq::empty()
    } else if d == 1 {
        seq![(join_segment(Seq::empty(), s[root as int].name), root)]
    } else {
        next_level(s, level(s, root, (d - 1) as nat))
    }
}

/// The ids of a level.
pub open spec fn level_ids(lvl: Seq<Entry>) -> Seq<u64> {
    lvl.map_values(|e: Entry| e.1)
}

/// `(p, id)` is an entry at depth `dd` of the tree rooted at `r`, for a
/// depth from one to `maxd`.
pub open spec fn on_level(s: Seq<NodeView>, r: u64, maxd: nat, p: Seq<char>, id: u64, dd: nat) -> bool {
    &&& 1 <= dd <= maxd
    &&& exists|k: int| 0 <= k < level(s, r, dd).len() && #[trigger] level(s, r, dd)[k] == (p, id)
}

/// `m` is the path and depth of an entry of node `id`.
pub open spec fn meta_on_level(s: Seq<NodeView>, r: u64, maxd: nat, m: Option<(Seq<char>, nat)>, id: u64) -> bool {
    match m {
        Some(pd) => on_level(s, r, maxd, pd.0, id, pd.1),
        None => false,
    }
}

/// The pass has recorded entry `e` of the tree rooted at `r`, named `app`:
/// its node's path below `app` is the path and depth of an entry of that
/// node, and `e`'s path is indexed to a node that has an entry with it.
#[verifier::opaque]
pub open spec fn recorded(st: StoreView, app: Seq<char>, e: Entry, s: Seq<NodeView>, r: u64, maxd: nat) -> bool {
    &&& e.1 < st.nodes.len()
    &&& meta_on_level(s, r, maxd, meta_of(st.nodes[e.1 as int], app), e.1)
    &&& assoc_get(st.index, e.0) is Some
    &&& exists|dd: nat| #[trigger] on_level(s, r, maxd, e.0, assoc_get(st.index, e.0)->0, dd)
}

/// Recording an entry is kept when another node's path is recorded: nodes
/// other than `c` are unchanged, and `c` gets a path of one of its entries;
/// paths other than `key` keep their ids, and `key` is indexed to a node
/// with an entry of that path.
proof fn lemma_recorded_kept(
    a: StoreView,
    b: StoreView,
    app: Seq<char>,
    e: Entry,
    c: u64,
    key: Seq<char>,
    s: Seq<NodeView>,
    r: u64,
    maxd: nat,
    maxd2: nat,
    dc: nat,
    dk: nat,
)
    requires
        recorded(a, app, e, s, r, maxd),
        maxd <= maxd2,
        0 <= e.1 < a.nodes.len(),
        b.nodes.len() == a.nodes.len(),
        forall|j: int| 0 <= j < a.nodes.len() && j != c ==> b.nodes[j] == a.nodes[j],
        meta_on_level(s, r, maxd2, meta_of(b.nodes[c as int], app), c),
        forall|k: Seq<char>| k != key ==> assoc_get(b.index, k) == assoc_get(a.index, k),
        assoc_get(b.index, key) is Some,
        on_level(s, r, maxd2, key, assoc_get(b.index, key)->0, dk),
    ensures
        recorded(b, app, e, s, r, maxd2),
{
    reveal(recorded);
    if e.1 != c {
        assert(b.nodes[e.1 as int] == a.nodes[e.1 as int]);
        let m = meta_of(a.nodes[e.1 as int], app)->0;
        assert(on_level(s, r, maxd, m.0, e.1, m.1));
        assert(on_level(s, r, maxd2, m.0, e.1, m.1));
        assert(meta_on_level(s, r, maxd2, meta_of(b.nodes[e.1 as int], app), e.1));
    }
    if e.0 != key {
        assert(assoc_get(b.index, e.0) == assoc_get(a.index, e.0));
        let id = assoc_get(a.index, e.0)->0;
        let dd = choose|dd: nat| #[trigger] on_level(s, r, maxd, e.0, id, dd);
        assert(on_level(s, r, maxd2, e.0, id, dd));
    }
}

/// Once the level below `maxd` is known empty, what was recorded up to it
/// was recorded up to `maxd`.
proof fn lemma_recorded_shrink(st: StoreView, app: Seq<char>, e: Entry, s: Seq<NodeView>, r: u64, maxd: nat)
    requires
        recorded(st, app, e, s, r, maxd + 1),
        level(s, r, maxd + 1).len() == 0,
    ensures
        recorded(st, app, e, s, r, maxd),
{
    reveal(recorded);
    let m = meta_of(st.nodes[e.1 as int], app)->0;
    assert(on_level(s, r, maxd + 1, m.0, e.1, m.1));
    assert(on_level(s, r, maxd, m.0, e.1, m.1));
    let id = assoc_get(st.index, e.0)->0;
    let dd = choose|dd: nat| #[trigger] on_level(s, r, maxd + 1, e.0, id, dd);
    assert(on_level(s, r, maxd, e.0, id, dd));
}

/// The child entries of the first `k` entries start the child entries of
/// the first `k2`.
proof fn lemma_next_upto_prefix(s: Seq<NodeView>, lvl: Seq<Entry>, k: int, k2: int, i: int)
    requires
        0 <= k <= k2 <= lvl.len(),
        0 <= i < next_upto(s, lvl, k).len(),
    ensures
        next_upto(s, lvl, k).len() <= next_upto(s, lvl, k2).len(),
        next_upto(s, lvl, k2)[i] == next_upto(s, lvl, k)[i],
    decreases k2 - k,
{
    if k < k2 {
        lemma_next_upto_prefix(s, lvl, k, k2 - 1, i);
    }
}

/// The result of indexing a tree breadth-first, from the tree `t0` over
/// nodes of shapes `s` to the tree `t1` and store `st1`. With a root in the store:
/// level `d` of the tree holds the ids of `level(.., d)` for every depth
/// from one to the tree's depth, each of those levels is non-empty and the
/// next one is empty; the root's path is `.name` at depth one; every entry
/// reached has, below the tree, the path and depth of one of its entries,
/// and its path is indexed to a node with an entry of that path.
/// Without one, the tree is unchanged.
pub open spec fn indexed(t0: TreeView, s: Seq<NodeView>, t1: TreeView, st1: StoreView) -> bool {
    if t0.root is Some && (t0.root->0 as int) < s.len() {
        let r = t0.root->0;
        let app = s[r as int].name;
        &&& t1.root == Some(r)
        &&& t1.depth >= 1
        &&& t1.levels.len() == t1.depth + 1
        &&& t1.levels[0].len() == 0
        &&& forall|d: nat| 1 <= d <= t1.depth ==> t1.levels[d as int] == level_ids(#[trigger] level(s, r, d))
        &&& forall|d: nat| 1 <= d <= t1.depth ==> (#[trigger] level(s, r, d)).len() > 0
        &&& level(s, r, t1.depth + 1).len() == 0
        &&& meta_of(st1.nodes[r as int], app) == Some((join_segment(Seq::empty(), app), 1nat))
        &&& all_recorded(st1, app, s, r, t1.depth, t1.depth)
    } else {
        t1 == t0
    }
}

/// The largest number of children among the nodes `ids` (a node that the
/// store lacks counts as none).
pub open spec fn max_children(s: Seq<NodeView>, ids: Seq<u64>) -> nat
    decreases ids.len(),
{
    if ids.len() == 0 {
        0
    } else {
        let m = max_children(s, ids.drop_last());
        let id = ids.last();
        let c = if (id as int) < s.len() { s[id as int].children.len() } else { 0 };
        if c > m { c } else { m }
    }
}

/// Work items match the entries `lvl` at depth `d`: one per entry, with
/// the entry's path and the children of its node.
spec fn tasks_match(tasks: Seq<InitNodeQ>, s: Seq<NodeView>, lvl: Seq<Entry>, d: nat) -> bool {
    &&& tasks.len() == lvl.len()
    &&& forall|k: int| 0 <= k < tasks.len() ==> (#[trigger] tasks[k]).app_meta.path@ == (lvl[k].0, d)
        && tasks[k].nodes@ == s[lvl[k].1 as int].children
}

/// Every id of `es` lies in `lo .. hi`.
spec fn ids_within(es: Seq<Entry>, lo: int, hi: int) -> bool {
    forall|j: int| 0 <= j < es.len() ==> lo <= (#[trigger] es[j]).1 < hi
}

/// Every entry of `es` is recorded.
#[verifier::opaque]
spec fn entries_recorded(st: StoreView, app: Seq<char>, es: Seq<Entry>, s: Seq<NodeView>, r: u64, maxd: nat) -> bool {
    forall|j: int| 0 <= j < es.len() ==> recorded(st, app, #[trigger] es[j], s, r, maxd)
}

/// Every entry of depth one to `upto` of the tree rooted at `r`, named
/// `app`, is recorded, with entries up to depth `maxd` as witnesses.
#[verifier::opaque]
pub open spec fn all_recorded(st: StoreView, app: Seq<char>, s: Seq<NodeView>, r: u64, upto: nat, maxd: nat) -> bool {
    forall|dd: nat, k: int| 1 <= dd <= upto && 0 <= k < level(s, r, dd).len()
        ==> recorded(st, app, #[trigger] level(s, r, dd)[k], s, r, maxd)
}

proof fn lemma_all_recorded_grow(st: StoreView, app: Seq<char>, s: Seq<NodeView>, r: u64, d: nat)
    requires
        all_recorded(st, app, s, r, d, d),
    ensures
        all_recorded(st, app, s, r, d, d + 1),
{
    reveal(recorded);
    reveal(all_recorded);
    assert forall|dd: nat, k: int| 1 <= dd <= d && 0 <= k < level(s, r, dd).len()
        implies recorded(st, app, #[trigger] level(s, r, dd)[k], s, r, d + 1) by {
        let e = level(s, r, dd)[k];
        let m = meta_of(st.nodes[e.1 as int], app)->0;
        assert(on_level(s, r, d, m.0, e.1, m.1));
        assert(on_level(s, r, d + 1, m.0, e.1, m.1));
        let id = assoc_get(st.index, e.0)->0;
        let w = choose|w: nat| #[trigger] on_level(s, r, d, e.0, id, w);
        assert(on_level(s, r, d + 1, e.0, id, w));
    }
}

proof fn lemma_all_recorded_shrink(st: StoreView, app: Seq<char>, s: Seq<NodeView>, r: u64, d: nat)
    requires
        all_recorded(st, app, s, r, d + 1, d + 1),
        level(s, r, d + 1).len() == 0,
    ensures
        all_recorded(st, app, s, r, d, d),
{
    reveal(all_recorded);
    assert forall|dd: nat, k: int| 1 <= dd <= d && 0 <= k < level(s, r, dd).len()
        implies recorded(st, app, #[trigger] level(s, r, dd)[k], s, r, d) by {
        lemma_recorded_shrink(st, app, level(s, r, dd)[k], s, r, d);
    }
}

/// Recording entry `ent` at depth `d + 1` for node `c` (its path written
/// below `app`, its path `key` indexed to `c`) keeps what was recorded and
/// adds `ent`.
proof fn lemma_write_keeps(
    before: StoreView,
    after: StoreView,
    app: Seq<char>,
    es: Seq<Entry>,
    ent: Entry,
    s: Seq<NodeView>,
    r: u64,
    d: nat,
)
    requires
        entries_recorded(before, app, es, s, r, d + 1),
        all_recorded(before, app, s, r, d, d + 1),
        ent.1 < before.nodes.len(),
        after.nodes.len() == before.nodes.len(),
        forall|j: int| 0 <= j < before.nodes.len() && j != ent.1 ==> after.nodes[j] == before.nodes[j],
        meta_of(after.nodes[ent.1 as int], app) == Some((ent.0, d + 1)),
        on_level(s, r, d + 1, ent.0, ent.1, d + 1),
        forall|k: Seq<char>| k != ent.0 ==> assoc_get(after.index, k) == assoc_get(before.index, k),
        assoc_get(after.index, ent.0) == Some(ent.1),
    ensures
        entries_recorded(after, app, es.push(ent), s, r, d + 1),
        all_recorded(after, app, s, r, d, d + 1),
{
    reveal(entries_recorded);
    reveal(all_recorded);
    assert(meta_on_level(s, r, d + 1, meta_of(after.nodes[ent.1 as int], app), ent.1));
    assert forall|dd: nat, kk: int| 1 <= dd <= d && 0 <= kk < level(s, r, dd).len()
        implies recorded(after, app, #[trigger] level(s, r, dd)[kk], s, r, d + 1) by {
        reveal(recorded);
        lemma_recorded_kept(before, after, app, level(s, r, dd)[kk], ent.1, ent.0, s, r, d + 1, d + 1, d + 1, d + 1);
    }
    let nb = es.push(ent);
    assert forall|j: int| 0 <= j < nb.len() implies recorded(after, app, #[trigger] nb[j], s, r, d + 1) by {
        reveal(recorded);
        if j < es.len() {
            assert(nb[j] == es[j]);
            lemma_recorded_kept(before, after, app, nb[j], ent.1, ent.0, s, r, d + 1, d + 1, d + 1, d + 1);
        } else {
            assert(nb[j] == ent);
            assert(on_level(s, r, d + 1, ent.0, assoc_get(after.index, ent.0)->0, d + 1));
        }
    }
}

/// Once the level below `d` is recorded, everything to depth `d + 1` is.
proof fn lemma_all_recorded_extend(st: StoreView, app: Seq<char>, s: Seq<NodeView>, r: u64, d: nat)
    requires
        d >= 1,
        entries_recorded(st, app, level(s, r, d + 1), s, r, d + 1),
        all_recorded(st, app, s, r, d, d + 1),
    ensures
        all_recorded(st, app, s, r, d + 1, d + 1),
{
    reveal(entries_recorded);
    reveal(all_recorded);
    assert forall|dd: nat, kk: int| 1 <= dd <= d + 1 && 0 <= kk < level(s, r, dd).len()
        implies recorded(st, app, #[trigger] level(s, r, dd)[kk], s, r, d + 1) by {
        if dd == d + 1 {
            let l = level(s, r, d + 1);
            assert(recorded(st, app, l[kk], s, r, d + 1));
        }
    }
}

/// What a tree holds: the depth of its deepest level, the ids of each level
/// by depth (position zero unused), and its root.
pub struct TreeView {
    pub depth: nat,
    pub levels: Seq<Seq<u64>>,
    pub root: Option<u64>,
}

/// A tree of the forest: its root, and its nodes grouped by depth.
pub struct TreeProto {
    depth: usize,
    nodes_by_depth: Vec<Vec<u64>>,
    root: Option<u64>,
}

impl View for TreeProto {
    type V = TreeView;

    closed spec fn view(&self) -> TreeView {
        TreeView {
            depth: self.depth as nat,
            levels: self.nodes_by_depth@.map_values(|v: Vec<u64>| v@),
            root: self.root,
        }
    }
}

impl TreeProto {
    /// A tree with no root yet.
    pub fn new_tree() -> (r: TreeProto)
        ensures
            r@.depth == 0,
            r@.levels.len() == 0,
            r@.root is None,
    {
        let r = TreeProto { depth: 0, nodes_by_depth: Vec::new(), root: None };
        proof {
            assert(r@.levels =~= Seq::<Seq<u64>>::empty());
        }
        r
    }

    /// The depth of the deepest level.
    pub fn get_depth(&self) -> (r: usize)
        ensures
            r == self@.depth,
    {
        self.depth
    }

    /// The largest number of children among the nodes at depth `d`; zero for
    /// a depth the tree lacks.
    pub fn level_fan_out(&self, store: &GodsstoreProto, d: usize) -> (r: usize)
        ensures
            d < self@.levels.len() ==> r == max_children(shapes(store@.nodes), self@.levels[d as int]),
            d >= self@.levels.len() ==> r == 0,
    {
        if d >= self.nodes_by_depth.len() {
            return 0;
        }
        let items = &self.nodes_by_depth[d];
        let ghost s = shapes(store@.nodes);
        let mut kids_max: usize = 0;
        let mut i: usize = 0;
        while i < items.len()
            invariant
                i <= items@.len(),
                items@ == self@.levels[d as int],
                s == shapes(store@.nodes),
                kids_max == max_children(s, items@.take(i as int)),
            decreases items@.len() - i,
        {
            let id = items[i];
            proof {
                assert(items@.take(i as int + 1).drop_last() =~= items@.take(i as int));
            }
            match store.resolve(id) {
                Some(node) => {
                    if node.children.len() > kids_max {
                        kids_max = node.children.len();
                    }
                },
                None => {},
            }
            i = i + 1;
        }
        proof {
            assert(items@.take(i as int) =~= items@);
        }
        kids_max
    }

    /// The fan-out of every depth, position zero unused: what the radial
    /// layout needs to keep siblings apart.
    pub fn fan_outs(&self, store: &GodsstoreProto) -> (r: Vec<usize>)
        ensures
            r@.len() == self@.levels.len(),
            forall|d: int| 0 <= d < r@.len() ==> r@[d] == max_children(shapes(store@.nodes), #[trigger] self@.levels[d]),
    {
        let mut r: Vec<usize> = Vec::new();
        let mut d: usize = 0;
        while d < self.nodes_by_depth.len()
            invariant
                d <= self@.levels.len(),
                r@.len() == d,
                forall|j: int| 0 <= j < d ==> r@[j] == max_children(shapes(store@.nodes), #[trigger] self@.levels[j]),
            decreases self@.levels.len() - d,
        {
            let k = self.level_fan_out(store, d);
            r.push(k);
            d = d + 1;
        }
        r
    }

    /// The name of the tree's root, when the root is in `store`.
    pub fn read_name(&self, store: &GodsstoreProto) -> (r: Option<String>)
        ensures
            match r {
                Some(n) => self@.root is Some && (self@.root->0 as int) < store@.nodes.len()
                    && n@ == store@.nodes[self@.root->0 as int].name@,
                None => !(self@.root is Some && (self@.root->0 as int) < store@.nodes.len()),
            },
    {
        match self.root {
            Some(r) => match store.resolve(r) {
                Some(node) => Some(node.name.clone()),
                None => None,
            },
            None => None,
        }
    }

    /// The root's id, once the tree is parsed.
    pub fn get_root(&self) -> (r: Option<u64>)
        ensures
            r == self@.root,
    {
        self.root
    }

    /// The ids of the nodes at depth `d`, in breadth-first order.
    pub fn get_nodes_by_depth(&self, d: usize) -> (r: Option<&Vec<u64>>)
        ensures
            match r {
                Some(v) => d < self@.levels.len() && v@ == self@.levels[d as int],
                None => d >= self@.levels.len(),
            },
    {
        if d < self.nodes_by_depth.len() {
            Some(&self.nodes_by_depth[d])
        } else {
            None
        }
    }

    /// Indexes the children of one parent entry `cur[k]` one level below it,
    /// appending their entries to `next` and their ids to `ids`.
    fn index_task(
        store: &mut GodsstoreProto,
        task: &InitNodeQ,
        app_name: &String,
        d: usize,
        next: &mut Vec<InitNodeQ>,
        ids: &mut Vec<u64>,
        Ghost(s): Ghost<Seq<NodeView>>,
        Ghost(r): Ghost<u64>,
        Ghost(k): Ghost<int>,
    )
        requires
            old(store).wf(),
            shapes(old(store)@.nodes) == s,
            app_name@ == s[r as int].name,
            r < old(store)@.nodes.len(),
            1 <= d,
            0 <= k < level(s, r, d as nat).len(),
            task.app_meta.path@ == (level(s, r, d as nat)[k].0, d as nat),
            task.nodes@ == s[level(s, r, d as nat)[k].1 as int].children,
            r + d - 1 <= level(s, r, d as nat)[k].1 < old(store)@.nodes.len(),
            tasks_match(old(next)@, s, next_upto(s, level(s, r, d as nat), k), d as nat + 1),
            old(ids)@ == level_ids(next_upto(s, level(s, r, d as nat), k)),
            entries_recorded(old(store)@, app_name@, next_upto(s, level(s, r, d as nat), k), s, r, d as nat + 1),
            ids_within(next_upto(s, level(s, r, d as nat), k), r + d, old(store)@.nodes.len() as int),
            all_recorded(old(store)@, app_name@, s, r, d as nat, d as nat + 1),
            meta_of(old(store)@.nodes[r as int], app_name@) == Some((join_segment(Seq::empty(), app_name@), 1nat)),
        ensures
            final(store).wf(),
            shapes(final(store)@.nodes) == s,
            final(store)@.nodes.len() == old(store)@.nodes.len(),
            final(store)@.next_id == old(store)@.next_id,
            tasks_match(final(next)@, s, next_upto(s, level(s, r, d as nat), k + 1), d as nat + 1),
            final(ids)@ == level_ids(next_upto(s, level(s, r, d as nat), k + 1)),
            entries_recorded(final(store)@, app_name@, next_upto(s, level(s, r, d as nat), k + 1), s, r, d as nat + 1),
            ids_within(next_upto(s, level(s, r, d as nat), k + 1), r + d, old(store)@.nodes.len() as int),
            all_recorded(final(store)@, app_name@, s, r, d as nat, d as nat + 1),
            meta_of(final(store)@.nodes[r as int], app_name@) == Some((join_segment(Seq::empty(), app_name@), 1nat)),
    {
        let ghost app = app_name@;
        let n0u = store.len();
        let ghost n0 = store@.nodes.len();
        let ghost cur = level(s, r, d as nat);
        let ghost e = cur[k];
        let ghost kids = child_entries(s, e);
        let ghost base = next_upto(s, cur, k);
        proof {
            assert(next_upto(s, cur, k + 1) == base + kids);
            assert(level(s, r, d as nat + 1) == next_upto(s, cur, cur.len() as int));
            assert((base + kids.take(0)) =~= base);
            assert(n0u == n0);
        }
        let mut m: usize = 0;
        while m < task.nodes.len()
            invariant
                store.wf(),
                store@.nodes.len() == n0,
                store@.next_id == old(store)@.next_id,
                shapes(store@.nodes) == s,
                app == s[r as int].name,
                app_name@ == app,
                r < n0,
                n0 <= usize::MAX,
                1 <= d,
                cur == level(s, r, d as nat),
                0 <= k < cur.len(),
                e == cur[k],
                r + d - 1 <= e.1 < n0,
                task.app_meta.path@ == (e.0, d as nat),
                task.nodes@ == s[e.1 as int].children,
                kids == child_entries(s, e),
                base == next_upto(s, cur, k),
                next_upto(s, cur, k + 1) == base + kids,
                level(s, r, d as nat + 1) == next_upto(s, cur, cur.len() as int),
                m <= task.nodes@.len(),
                tasks_match(next@, s, base + kids.take(m as int), d as nat + 1),
                ids@ == level_ids(base + kids.take(m as int)),
                entries_recorded(store@, app, base + kids.take(m as int), s, r, d as nat + 1),
                ids_within(base + kids.take(m as int), r + d, n0 as int),
                all_recorded(store@, app, s, r, d as nat, d as nat + 1),
                meta_of(store@.nodes[r as int], app) == Some((join_segment(Seq::empty(), app), 1nat)),
            decreases task.nodes@.len() - m,
        {
            let c = task.nodes[m];
            proof {
                assert(s[e.1 as int].children[m as int] == c);
                assert(store@.nodes[e.1 as int].children@[m as int] == c);
            }
            match store.resolve(c) {
                Some(kid) => {
                    let kid_name = kid.name.clone();
                    let kid_children = kid.children.clone();
                    proof {
                        assert(kid_children@ =~= kid.children@);
                        assert(kid_name@ == s[c as int].name);
                    }
                    let kid_path = task.app_meta.path.appended(&kid_name);
                    let kid_text = kid_path.read();
                    let ghost before = store@;
                    store.set_node_meta(c, app_name, GodswoodMeta { path: kid_path });
                    store.update_index(&kid_text, c);
                    let ghost after = store@;
                    let ghost ent = kids[m as int];
                    let ghost old_es = base + kids.take(m as int);
                    let ghost nb = base + kids.take(m as int + 1);
                    proof {
                        assert(ent == (join_segment(e.0, s[c as int].name), c));
                        let pos = base.len() + m;
                        assert((base + kids)[pos] == ent);
                        lemma_next_upto_prefix(s, cur, k + 1, cur.len() as int, pos);
                        assert(level(s, r, d as nat + 1)[pos] == ent);
                        assert(on_level(s, r, d as nat + 1, ent.0, c, d as nat + 1));
                        assert(kid_text@ == ent.0);
                        assert(shapes(store@.nodes) =~= s) by {
                            assert forall|j: int| 0 <= j < n0 implies shapes(store@.nodes)[j] == s[j] by {
                                assert(store@.nodes[j]@ == before.nodes[j]@);
                            }
                        }
                        lemma_write_keeps(before, after, app, old_es, ent, s, r, d as nat);
                        assert(nb =~= old_es.push(ent));
                        assert(ids_within(nb, r + d, n0 as int)) by {
                            assert forall|j: int| 0 <= j < nb.len() implies r + d <= (#[trigger] nb[j]).1 < n0 by {
                                if j < old_es.len() {
                                    assert(nb[j] == old_es[j]);
                                }
                            }
                        }
                    }
                    ids.push(c);
                    next.push(
                        InitNodeQ {
                            app_meta: GodswoodMeta { path: task.app_meta.path.appended(&kid_name) },
                            nodes: kid_children,
                        },
                    );
                    proof {
                        assert(ids@ =~= level_ids(nb));
                        assert forall|j: int| 0 <= j < next@.len() implies (#[trigger] next@[j]).app_meta.path@ == (
                            nb[j].0, d as nat + 1) && next@[j].nodes@ == s[nb[j].1 as int].children by {
                            if j < old_es.len() {
                                assert(nb[j] == old_es[j]);
                            }
                        }
                    }
                },
                None => {
                    proof {
                        assert(false);
                    }
                },
            }
            m = m + 1;
        }
        proof {
            assert(kids.take(m as int) =~= kids);
        }
    }

    /// Indexes the level below depth `d`: every child of every entry of
    /// `level(.., d)`, whose work `tasks` holds. Returns the work of that
    /// level and its ids.
    fn index_level(
        store: &mut GodsstoreProto,
        tasks: &Vec<InitNodeQ>,
        app_name: &String,
        d: usize,
        Ghost(s): Ghost<Seq<NodeView>>,
        Ghost(r): Ghost<u64>,
    ) -> (res: (Vec<InitNodeQ>, Vec<u64>))
        requires
            old(store).wf(),
            shapes(old(store)@.nodes) == s,
            app_name@ == s[r as int].name,
            r < old(store)@.nodes.len(),
            1 <= d,
            tasks_match(tasks@, s, level(s, r, d as nat), d as nat),
            ids_within(level(s, r, d as nat), r + d - 1, old(store)@.nodes.len() as int),
            all_recorded(old(store)@, app_name@, s, r, d as nat, d as nat),
            meta_of(old(store)@.nodes[r as int], app_name@) == Some((join_segment(Seq::empty(), app_name@), 1nat)),
        ensures
            final(store).wf(),
            shapes(final(store)@.nodes) == s,
            final(store)@.nodes.len() == old(store)@.nodes.len(),
            final(store)@.next_id == old(store)@.next_id,
            tasks_match(res.0@, s, level(s, r, d as nat + 1), d as nat + 1),
            res.1@ == level_ids(level(s, r, d as nat + 1)),
            ids_within(level(s, r, d as nat + 1), r + d, old(store)@.nodes.len() as int),
            all_recorded(final(store)@, app_name@, s, r, d as nat + 1, d as nat + 1),
            meta_of(final(store)@.nodes[r as int], app_name@) == Some((join_segment(Seq::empty(), app_name@), 1nat)),
    {
        let ghost app = app_name@;
        let ghost n0 = store@.nodes.len();
        let ghost cur = level(s, r, d as nat);
        let mut next: Vec<InitNodeQ> = Vec::new();
        let mut ids: Vec<u64> = Vec::new();
        proof {
            lemma_all_recorded_grow(store@, app, s, r, d as nat);
            assert(next_upto(s, cur, 0) =~= Seq::<Entry>::empty());
            assert(ids@ =~= level_ids(next_upto(s, cur, 0)));
            reveal(entries_recorded);
        }
        let mut k: usize = 0;
        while k < tasks.len()
            invariant
                store.wf(),
                store@.nodes.len() == n0,
                store@.next_id == old(store)@.next_id,
                shapes(store@.nodes) == s,
                app == s[r as int].name,
                app_name@ == app,
                r < n0,
                1 <= d,
                cur == level(s, r, d as nat),
                tasks_match(tasks@, s, cur, d as nat),
                ids_within(cur, r + d - 1, n0 as int),
                k <= tasks@.len(),
                tasks_match(next@, s, next_upto(s, cur, k as int), d as nat + 1),
                ids@ == level_ids(next_upto(s, cur, k as int)),
                entries_recorded(store@, app, next_upto(s, cur, k as int), s, r, d as nat + 1),
                ids_within(next_upto(s, cur, k as int), r + d, n0 as int),
                all_recorded(store@, app, s, r, d as nat, d as nat + 1),
                meta_of(store@.nodes[r as int], app) == Some((join_segment(Seq::empty(), app), 1nat)),
            decreases tasks@.len() - k,
        {
            proof {
                assert(tasks@[k as int].app_meta.path@ == (cur[k as int].0, d as nat));
                assert(r + d - 1 <= cur[k as int].1 < n0);
            }
            TreeProto::index_task(store, &tasks[k], app_name, d, &mut next, &mut ids, Ghost(s), Ghost(r), Ghost(k as int));
            k = k + 1;
        }
        proof {
            assert(level(s, r, d as nat + 1) == next_upto(s, cur, k as int));
            lemma_all_recorded_extend(store@, app, s, r, d as nat);
        }
        (next, ids)
    }

    /// Indexes the tree breadth-first from its root: groups the ids by
    /// depth, records each node's path below this tree (named after its
    /// root) and indexes each path in the store. Node links are unchanged.
    /// The work of each level is a list, not a call stack, so deep trees
    /// need no recursion.
    pub fn init_nodes(&mut self, store: &mut GodsstoreProto)
        requires
            old(store).wf(),
        ensures
            final(store).wf(),
            final(store)@.nodes.len() == old(store)@.nodes.len(),
            final(store)@.next_id == old(store)@.next_id,
            shapes(final(store)@.nodes) == shapes(old(store)@.nodes),
            indexed(old(self)@, shapes(old(store)@.nodes), final(self)@, final(store)@),
            !(old(self)@.root is Some && (old(self)@.root->0 as int) < old(store)@.nodes.len())
                ==> final(store)@ == old(store)@,
    {
        let r = match self.root {
            Some(r) => r,
            None => return ,
        };
        let node = match store.resolve(r) {
            Some(n) => n,
            None => return ,
        };
        let n0 = store.len();
        let ghost s = shapes(store@.nodes);
        let ghost app = s[r as int].name;
        let app_name = node.name.clone();
        let root_children = node.children.clone();
        proof {
            assert(root_children@ =~= node.children@);
        }
        let mut app_meta = GodswoodMeta::new();
        app_meta.path.append(&app_name);
        let root_path = app_meta.path.read();
        let task_path = GodsnodePath::new_path().appended(&app_name);
        store.set_node_meta(r, &app_name, app_meta);
        store.update_index(&root_path, r);
        let mut nodes_by_depth: Vec<Vec<u64>> = Vec::new();
        nodes_by_depth.push(Vec::new());
        let mut first: Vec<u64> = Vec::new();
        first.push(r);
        nodes_by_depth.push(first);
        let mut tasks: Vec<InitNodeQ> = Vec::new();
        tasks.push(InitNodeQ { app_meta: GodswoodMeta { path: task_path }, nodes: root_children });
        let mut d: usize = 1;
        proof {
            assert(shapes(store@.nodes) =~= s);
            let l1 = level(s, r, 1);
            assert(l1[0] == (join_segment(Seq::empty(), app), r));
            assert(nodes_by_depth@[1]@ =~= level_ids(l1));
            assert(l1[0] == (root_path@, r));
            assert(on_level(s, r, 1, root_path@, r, 1));
            assert(recorded(store@, app, l1[0], s, r, 1)) by {
                reveal(recorded);
            }
            assert(all_recorded(store@, app, s, r, 1, 1)) by {
                reveal(all_recorded);
            }
            assert(tasks_match(tasks@, s, l1, 1));
        }
        loop
            invariant
                store.wf(),
                store@.nodes.len() == n0,
                store@.next_id == old(store)@.next_id,
                shapes(store@.nodes) == s,
                s == shapes(old(store)@.nodes),
                app == s[r as int].name,
                app_name@ == app,
                r < n0,
                1 <= d,
                tasks_match(tasks@, s, level(s, r, d as nat), d as nat),
                tasks@.len() > 0,
                ids_within(level(s, r, d as nat), r + d - 1, n0 as int),
                nodes_by_depth@.len() == d + 1,
                nodes_by_depth@[0]@.len() == 0,
                forall|dd: nat| 1 <= dd <= d ==> nodes_by_depth@[dd as int]@ == level_ids(#[trigger] level(s, r, dd)),
                forall|dd: nat| 1 <= dd <= d ==> (#[trigger] level(s, r, dd)).len() > 0,
                meta_of(store@.nodes[r as int], app) == Some((join_segment(Seq::empty(), app), 1nat)),
                all_recorded(store@, app, s, r, d as nat, d as nat),
            ensures
                store.wf(),
                store@.nodes.len() == n0,
                store@.next_id == old(store)@.next_id,
                shapes(store@.nodes) == s,
                1 <= d,
                nodes_by_depth@.len() == d + 1,
                nodes_by_depth@[0]@.len() == 0,
                forall|dd: nat| 1 <= dd <= d ==> nodes_by_depth@[dd as int]@ == level_ids(#[trigger] level(s, r, dd)),
                forall|dd: nat| 1 <= dd <= d ==> (#[trigger] level(s, r, dd)).len() > 0,
                level(s, r, d as nat + 1).len() == 0,
                meta_of(store@.nodes[r as int], app) == Some((join_segment(Seq::empty(), app), 1nat)),
                all_recorded(store@, app, s, r, d as nat, d as nat),
            decreases n0 + 1 - d,
        {
            proof {
                assert(r + d - 1 <= level(s, r, d as nat)[0].1 < n0);
            }
            let (next, ids) = TreeProto::index_level(store, &tasks, &app_name, d, Ghost(s), Ghost(r));
            if next.len() == 0 {
                proof {
                    lemma_all_recorded_shrink(store@, app, s, r, d as nat);
                }
                break;
            }
            proof {
                assert(r + d <= level(s, r, d as nat + 1)[0].1 < n0);
            }
            nodes_by_depth.push(ids);
            d = d + 1;
            tasks = next;
        }
        self.nodes_by_depth = nodes_by_depth;
        self.depth = d;
        proof {
            assert(self@.levels.len() == d + 1);
        }
    }

    /// Builds the document `raw` into `store` as a new tree and makes its
    /// root this tree's root.
    pub fn parse(&mut self, raw: &JsonNode, store: &mut GodsstoreProto)
        requires
            old(store).wf(),
            old(store)@.nodes.len() + 1 + total_entries(*raw) <= u64::MAX,
        ensures
            final(store).wf(),
            shapes(final(store)@.nodes) == build_tree(shapes(old(store)@.nodes), *raw),
            final(store)@.nodes.len() == old(store)@.nodes.len() + 1 + total_entries(*raw),
            final(store)@.index == old(store)@.index,
            final(self)@.root == Some(old(store)@.nodes.len() as u64),
            final(self)@.depth == old(self)@.depth,
            final(self)@.levels == old(self)@.levels,
    {
        let ghost s0 = shapes(store@.nodes);
        let root = store.add_app_node(raw);
        proof {
            assert(shapes(store@.nodes) =~= s0.push(fresh_node(root, root_name_of(*raw), display_of(*raw), GodsnodeType::Root)));
        }
        self.root = Some(root);
        if raw.children.len() > 0 {
            TreeProto::parse_children(root, &raw.children, store);
        }
    }

    /// Builds the entries of `children` below node `parent`, in order.
    pub fn parse_children(parent: u64, children: &Vec<(String, JsonNode)>, store: &mut GodsstoreProto)
        requires
            old(store).wf(),
            parent < old(store)@.nodes.len(),
            old(store)@.nodes.len() + entries_upto(children@, children@.len() as int) <= u64::MAX,
        ensures
            final(store).wf(),
            shapes(final(store)@.nodes) == build_children(shapes(old(store)@.nodes), parent, children@, children@.len() as int),
            final(store)@.nodes.len() == old(store)@.nodes.len() + entries_upto(children@, children@.len() as int),
            final(store)@.index == old(store)@.index,
            forall|j: int| 0 <= j < old(store)@.nodes.len() && j != parent
                ==> (#[trigger] final(store)@.nodes[j])@ == old(store)@.nodes[j]@,
            final(store)@.nodes[parent as int]@.parents == old(store)@.nodes[parent as int]@.parents,
        decreases children@,
    {
        let ghost s0 = shapes(store@.nodes);
        let ghost kids = children@;
        let mut i: usize = 0;
        while i < children.len()
            invariant
                i <= children.len(),
                kids == children@,
                store.wf(),
                parent < store@.nodes.len(),
                old(store)@.nodes.len() + entries_upto(kids, kids.len() as int) <= u64::MAX,
                shapes(store@.nodes) == build_children(s0, parent, kids, i as int),
                store@.nodes.len() == old(store)@.nodes.len() + entries_upto(kids, i as int),
                store@.index == old(store)@.index,
                forall|j: int| 0 <= j < old(store)@.nodes.len() && j != parent
                    ==> (#[trigger] store@.nodes[j])@ == old(store)@.nodes[j]@,
                store@.nodes[parent as int]@.parents == old(store)@.nodes[parent as int]@.parents,
            decreases children.len() - i,
        {
            proof {
                lemma_entries_monotone(kids, i as int + 1, kids.len() as int);
            }
            let ghost before = store@;
            let raw = &children[i].1;
            let id = store.add_node(raw, children[i].0.clone());
            let ghost s2 = shapes(store@.nodes);
            let ghost after_add = store@;
            proof {
                assert forall|j: int| 0 <= j < before.nodes.len() implies (#[trigger] store@.nodes[j]) == before.nodes[j] by {
                    assert(store@.nodes.subrange(0, before.nodes.len() as int)[j] == store@.nodes[j]);
                }
                assert(s2 =~= shapes(before.nodes).push(fresh_node(id, kids[i as int].0@, display_of(*raw), GodsnodeType::Node)));
            }
            if raw.children.len() > 0 {
                proof {
                    assert(decreases_to!(kids => kids[i as int]));
                }
                TreeProto::parse_children(id, &raw.children, store);
            }
            let ghost s3 = shapes(store@.nodes);
            proof {
                assert(store@.nodes[id as int]@.parents == after_add.nodes[id as int]@.parents);
                assert(after_add.nodes[id as int]@.parents.len() == 0);
            }
            store.link(parent, id);
            proof {
                assert(shapes(store@.nodes) =~= link_shapes(s3, parent, id));
                let s1 = build_children(s0, parent, kids, i as int);
                assert(s1.len() == id);
                assert(s3 == build_children(s2, id, raw.children@, raw.children@.len() as int));
                assert(kids[i as int].1 == *raw);
                assert(build_children(s0, parent, kids, i as int + 1) == link_shapes(s3, parent, id));
                assert(entries_upto(kids, i as int + 1) == entries_upto(kids, i as int) + 1 + entries_upto(
                    raw.children@, raw.children@.len() as int));
            }
            i = i + 1;
        }
    }
}

/// Marker for a point of a rendered tree.
pub struct Godspoint {}

/// A tree that has a root and nothing indexed yet.
pub open spec fn fresh_root_tree(root: u64) -> TreeView {
    TreeView { depth: 0, levels: Seq::empty(), root: Some(root) }
}

/// What a forest holds: the shared store, and its trees keyed by name.
pub struct ForestView {
    pub store: StoreView,
    pub woods: Seq<(Seq<char>, TreeView)>,
}

/// Forest `f1` is `f0` with the document `raw` added: its nodes are built at
/// the end of the store, and the tree they form, indexed, stands under the
/// root's name in place of any earlier tree of that name.
pub open spec fn wood_added(f0: ForestView, raw: JsonNode, f1: ForestView) -> bool {
    let n = f0.store.nodes.len();
    let s1 = shapes(f1.store.nodes);
    &&& s1 == build_tree(shapes(f0.store.nodes), raw)
    &&& s1[n as int].name == root_name_of(raw)
    &&& s1[n as int].node_type == GodsnodeType::Root
    &&& f1.store.nodes.len() == n + 1 + total_entries(raw)
    &&& f1.store.next_id == f1.store.nodes.len()
    &&& nodes_wf(f1.store.nodes)
    &&& keys_unique(f1.woods)
    &&& assoc_get(f1.woods, root_name_of(raw)) is Some
    &&& indexed(fresh_root_tree(n as u64), s1, assoc_get(f1.woods, root_name_of(raw))->0, f1.store)
    &&& forall|k: Seq<char>| k != root_name_of(raw) ==> assoc_get(f1.woods, k) == assoc_get(f0.woods, k)
}

/// Independently built trees sharing one store, keyed by the names of their
/// roots.
pub struct Godswoods {
    woods: Vec<(String, TreeProto)>,
    store: GodsstoreProto,
}

impl View for Godswoods {
    type V = ForestView;

    closed spec fn view(&self) -> ForestView {
        ForestView {
            store: self.store@,
            woods: self.woods@.map_values(|e: (String, TreeProto)| (e.0@, e.1@)),
        }
    }
}

impl Godswoods {
    /// The store is well formed and tree names are unique.
    pub closed spec fn wf(&self) -> bool {
        &&& self.store.wf()
        &&& keys_unique(self@.woods)
    }

    /// An empty forest over an empty store.
    pub fn new() -> (r: Godswoods)
        ensures
            r.wf(),
            r@.store.nodes.len() == 0,
            r@.woods.len() == 0,
    {
        let r = Godswoods { woods: Vec::new(), store: GodsstoreProto::new() };
        proof {
            assert(r@.woods =~= Seq::<(Seq<char>, TreeView)>::empty());
        }
        r
    }

    /// The store shared by the trees.
    pub fn get_store(&self) -> (r: &GodsstoreProto)
        ensures
            r@ == self@.store,
            self.wf() ==> r.wf(),
    {
        &self.store
    }

    /// The tree named `name`, if the forest has one.
    pub fn get_wood(&self, name: &String) -> (r: Option<&TreeProto>)
        requires
            self.wf(),
        ensures
            match r {
                Some(t) => assoc_get(self@.woods, name@) == Some(t@),
                None => assoc_get(self@.woods, name@) is None,
            },
    {
        let ghost w = self@.woods;
        let mut i: usize = 0;
        while i < self.woods.len()
            invariant
                i <= self.woods.len(),
                w == self@.woods,
                keys_unique(w),
                forall|j: int| 0 <= j < i ==> w[j].0 != name@,
            decreases self.woods.len() - i,
        {
            if self.woods[i].0 == *name {
                proof {
                    assert(w[i as int].0 == name@);
                    let c = choose|j: int| 0 <= j < w.len() && w[j].0 == name@;
                    assert(c == i);
                }
                return Some(&self.woods[i].1);
            }
            i = i + 1;
        }
        None
    }

    /// Stores `tree` under `name`, replacing a tree of that name.
    fn put_wood(&mut self, name: String, tree: TreeProto)
        requires
            old(self).wf(),
        ensures
            final(self).wf(),
            final(self)@.store == old(self)@.store,
            assoc_get(final(self)@.woods, name@) == Some(tree@),
            forall|k: Seq<char>| k != name@ ==> assoc_get(final(self)@.woods, k) == assoc_get(old(self)@.woods, k),
    {
        let ghost before = self@.woods;
        let ghost tv = tree@;
        let mut i: usize = 0;
        while i < self.woods.len()
            invariant
                i <= self.woods.len(),
                self@.woods == before,
                *self == *old(self),
                forall|j: int| 0 <= j < i ==> before[j].0 != name@,
            ensures
                i <= self.woods.len(),
                self@.woods == before,
                *self == *old(self),
                forall|j: int| 0 <= j < i ==> before[j].0 != name@,
                i < self.woods.len() ==> before[i as int].0 == name@,
            decreases self.woods.len() - i,
        {
            if self.woods[i].0 == name {
                break;
            }
            i = i + 1;
        }
        let ghost nv = name@;
        if i < self.woods.len() {
            self.woods[i] = (name, tree);
            proof {
                let after = self@.woods;
                assert(after =~= before.update(i as int, (nv, tv)));
                assert(after[i as int].0 == nv);
                assert forall|k: Seq<char>| k != nv implies assoc_get(after, k) == assoc_get(before, k) by {
                    if exists|j: int| 0 <= j < before.len() && before[j].0 == k {
                        let j = choose|j: int| 0 <= j < before.len() && before[j].0 == k;
                        assert(after[j].0 == k);
                    }
                    if exists|j: int| 0 <= j < after.len() && after[j].0 == k {
                        let j = choose|j: int| 0 <= j < after.len() && after[j].0 == k;
                        assert(before[j].0 == k);
                    }
                }
            }
        } else {
            self.woods.push((name, tree));
            proof {
                let after = self@.woods;
                assert(after =~= before.push((nv, tv)));
                assert(after[before.len() as int].0 == nv);
                assert forall|k: Seq<char>| k != nv implies assoc_get(after, k) == assoc_get(before, k) by {
                    if exists|j: int| 0 <= j < before.len() && before[j].0 == k {
                        let j = choose|j: int| 0 <= j < before.len() && before[j].0 == k;
                        assert(after[j].0 == k);
                    }
                    if exists|j: int| 0 <= j < after.len() && after[j].0 == k {
                        let j = choose|j: int| 0 <= j < after.len() && after[j].0 == k;
                        assert(before[j].0 == k);
                    }
                }
            }
        }
    }

    /// Parses the document `raw` into the shared store, indexes the new tree
    /// breadth-first, and keeps it under its root's name.
    pub fn add_wood(&mut self, raw: &JsonNode)
        requires
            old(self).wf(),
            old(self)@.store.nodes.len() + 1 + total_entries(*raw) <= u64::MAX,
        ensures
            final(self).wf(),
            wood_added(old(self)@, *raw, final(self)@),
    {
        let ghost n = self@.store.nodes.len();
        let mut wood = TreeProto::new_tree();
        wood.parse(raw, &mut self.store);
        let ghost s1 = shapes(self@.store.nodes);
        wood.init_nodes(&mut self.store);
        let name = raw.root_name_or_default();
        self.put_wood(name, wood);
        proof {
            assert(s1.len() == n + 1 + total_entries(*raw));
            assert(nodes_wf(self@.store.nodes));
            lemma_build_tree_root(shapes(old(self)@.store.nodes), *raw);
        }
    }
}

/// Node ids never repeat within one store: every tree added to a forest
/// takes its ids from the same increasing counter.
pub proof fn lemma_ids_distinct(store: &GodsstoreProto)
    requires
        store.wf(),
    ensures
        forall|i: int, j: int| 0 <= i < j < store@.nodes.len() ==> (#[trigger] store@.nodes[i]).id != (#[trigger] store@.nodes[j]).id,
        store@.next_id == store@.nodes.len(),
{
}

/// Where each entry of the next level comes from: an entry of `lvl` whose
/// node has that child, with the child's name appended to its path.
proof fn lemma_next_upto_origin(s: Seq<NodeView>, lvl: Seq<Entry>, k: int, i: int)
    requires
        0 <= k <= lvl.len(),
        0 <= i < next_upto(s, lvl, k).len(),
    ensures
        exists|j: int, m: int| 0 <= j < k && 0 <= m < s[lvl[j].1 as int].children.len()
            && next_upto(s, lvl, k)[i].1 == s[lvl[j].1 as int].children[m]
            && next_upto(s, lvl, k)[i].0 == join_segment(lvl[j].0, s[next_upto(s, lvl, k)[i].1 as int].name),
    decreases k,
{
    let a = next_upto(s, lvl, k - 1);
    if i < a.len() {
        lemma_next_upto_origin(s, lvl, k - 1, i);
        let j = choose|j: int, m: int| 0 <= j < k - 1 && 0 <= m < s[lvl[j].1 as int].children.len()
            && a[i].1 == s[lvl[j].1 as int].children[m]
            && a[i].0 == join_segment(lvl[j].0, s[a[i].1 as int].name);
        assert(next_upto(s, lvl, k)[i] == a[i]);
    } else {
        let m = i - a.len();
        assert(next_upto(s, lvl, k)[i] == child_entries(s, lvl[k - 1])[m]);
        assert(next_upto(s, lvl, k)[i].1 == s[lvl[k - 1].1 as int].children[m]);
    }
}

/// Every node below the root sits one level below a parent that lists it
/// as a child, and its materialized path is that parent's path followed by
/// `.` and its own name.
pub proof fn lemma_child_path(s: Seq<NodeView>, root: u64, d: nat, k: int)
    requires
        1 <= d,
        0 <= k < level(s, root, d + 1).len(),
    ensures
        exists|j: int, m: int| 0 <= j < level(s, root, d).len()
            && 0 <= m < s[level(s, root, d)[j].1 as int].children.len()
            && level(s, root, d + 1)[k].1 == s[level(s, root, d)[j].1 as int].children[m]
            && level(s, root, d + 1)[k].0 == join_segment(level(s, root, d)[j].0, s[level(s, root, d + 1)[k].1 as int].name),
{
    let lvl = level(s, root, d);
    assert(level(s, root, d + 1) == next_upto(s, lvl, lvl.len() as int));
    lemma_next_upto_origin(s, lvl, lvl.len() as int, k);
}

/// Building the same document into two fresh forests gives the same nodes
/// (names, kinds, links, so the same paths and depths) and the same tree.
pub proof fn lemma_reparse_isomorphic(a0: ForestView, a1: ForestView, b0: ForestView, b1: ForestView, raw: JsonNode)
    requires
        a0.store.nodes.len() == 0,
        b0.store.nodes.len() == 0,
        wood_added(a0, raw, a1),
        wood_added(b0, raw, b1),
    ensures
        shapes(a1.store.nodes) == shapes(b1.store.nodes),
        assoc_get(a1.woods, root_name_of(raw)) == assoc_get(b1.woods, root_name_of(raw)),
{
    assert(shapes(a0.store.nodes) =~= shapes(b0.store.nodes));
    let s = shapes(a1.store.nodes);
    let ta = assoc_get(a1.woods, root_name_of(raw))->0;
    let tb = assoc_get(b1.woods, root_name_of(raw))->0;
    let r = 0u64;
    if ta.depth < tb.depth {
        assert(level(s, r, ta.depth + 1).len() > 0);
    }
    if tb.depth < ta.depth {
        assert(level(s, r, tb.depth + 1).len() > 0);
    }
    assert(ta.depth == tb.depth);
    assert forall|d: int| 0 <= d < ta.levels.len() implies ta.levels[d] == tb.levels[d] by {
        if d == 0 {
            assert(ta.levels[0] =~= tb.levels[0]);
        } else {
            assert(ta.levels[d] == level_ids(level(s, r, d as nat)));
        }
    }
    assert(ta.levels =~= tb.levels);
}

/// The links of `s` point downwards inside `s`, and every child names the
/// node that lists it as its one parent.
pub open spec fn shape_tree(s: Seq<NodeView>) -> bool {
    &&& forall|i: int, k: int| 0 <= i < s.len() && 0 <= k < s[i].children.len()
        ==> i < (#[trigger] s[i].children[k]) < s.len()
    &&& forall|i: int, k: int| 0 <= i < s.len() && 0 <= k < s[i].children.len()
        ==> s[#[trigger] s[i].children[k] as int].parents == seq![i as u64]
}

proof fn lemma_shape_tree(nodes: Seq<NodeProto>)
    requires
        nodes_wf(nodes),
    ensures
        shape_tree(shapes(nodes)),
{
    let s = shapes(nodes);
    assert forall|i: int, k: int| 0 <= i < s.len() && 0 <= k < s[i].children.len()
        implies i < (#[trigger] s[i].children[k]) < s.len() by {
        assert(s[i].children[k] == nodes[i].children@[k]);
    }
    assert forall|i: int, k: int| 0 <= i < s.len() && 0 <= k < s[i].children.len()
        implies s[#[trigger] s[i].children[k] as int].parents == seq![i as u64] by {
        assert(s[i].children[k] == nodes[i].children@[k]);
    }
}

/// Entries at depth `d` have ids from `r + d - 1` up to the store's size.
proof fn lemma_level_ids(s: Seq<NodeView>, r: u64, d: nat)
    requires
        shape_tree(s),
        r < s.len(),
        1 <= d,
    ensures
        forall|k: int| 0 <= k < level(s, r, d).len() ==> r + d - 1 <= (#[trigger] level(s, r, d)[k]).1 < s.len(),
    decreases d,
{
    if d > 1 {
        lemma_level_ids(s, r, (d - 1) as nat);
        let lvl = level(s, r, (d - 1) as nat);
        assert(level(s, r, d) == next_upto(s, lvl, lvl.len() as int));
        assert forall|k: int| 0 <= k < level(s, r, d).len() implies r + d - 1 <= (#[trigger] level(s, r, d)[k]).1 < s.len() by {
            lemma_next_upto_origin(s, lvl, lvl.len() as int, k);
        }
    }
}

/// An entry below depth one comes from the entry of its node's one parent.
proof fn lemma_level_parent(s: Seq<NodeView>, r: u64, d: nat, k: int)
    requires
        shape_tree(s),
        r < s.len(),
        1 <= d,
        0 <= k < level(s, r, d + 1).len(),
    ensures
        s[level(s, r, d + 1)[k].1 as int].parents.len() == 1,
        exists|j: int| 0 <= j < level(s, r, d).len()
            && (#[trigger] level(s, r, d)[j]).1 == s[level(s, r, d + 1)[k].1 as int].parents[0]
            && level(s, r, d + 1)[k].0 == join_segment(level(s, r, d)[j].0, s[level(s, r, d + 1)[k].1 as int].name),
{
    lemma_child_path(s, r, d, k);
    lemma_level_ids(s, r, d);
    let (j, m) = choose|j: int, m: int| 0 <= j < level(s, r, d).len()
        && 0 <= m < s[level(s, r, d)[j].1 as int].children.len()
        && level(s, r, d + 1)[k].1 == s[level(s, r, d)[j].1 as int].children[m]
        && level(s, r, d + 1)[k].0 == join_segment(level(s, r, d)[j].0, s[level(s, r, d + 1)[k].1 as int].name);
    let p = level(s, r, d)[j].1;
    assert(s[s[p as int].children[m] as int].parents == seq![p]);
}

/// In a tree-shaped store a node has one entry: two entries of one node
/// agree on depth and path.
proof fn lemma_level_unique(s: Seq<NodeView>, r: u64, d1: nat, k1: int, d2: nat, k2: int)
    requires
        shape_tree(s),
        r < s.len(),
        1 <= d1,
        1 <= d2,
        0 <= k1 < level(s, r, d1).len(),
        0 <= k2 < level(s, r, d2).len(),
        level(s, r, d1)[k1].1 == level(s, r, d2)[k2].1,
    ensures
        d1 == d2,
        level(s, r, d1)[k1].0 == level(s, r, d2)[k2].0,
    decreases d1,
{
    lemma_level_ids(s, r, d1);
    lemma_level_ids(s, r, d2);
    if d1 == 1 || d2 == 1 {
        assert(level(s, r, 1).len() == 1);
    } else {
        let c = level(s, r, d1)[k1].1;
        lemma_level_parent(s, r, (d1 - 1) as nat, k1);
        lemma_level_parent(s, r, (d2 - 1) as nat, k2);
        let p = s[c as int].parents[0];
        let j1 = choose|j: int| 0 <= j < level(s, r, (d1 - 1) as nat).len()
            && (#[trigger] level(s, r, (d1 - 1) as nat)[j]).1 == p
            && level(s, r, d1)[k1].0 == join_segment(level(s, r, (d1 - 1) as nat)[j].0, s[c as int].name);
        let j2 = choose|j: int| 0 <= j < level(s, r, (d2 - 1) as nat).len()
            && (#[trigger] level(s, r, (d2 - 1) as nat)[j]).1 == p
            && level(s, r, d2)[k2].0 == join_segment(level(s, r, (d2 - 1) as nat)[j].0, s[c as int].name);
        lemma_level_unique(s, r, (d1 - 1) as nat, j1, (d2 - 1) as nat, j2);
    }
}

/// `mc` is the path `mp` followed by `.` and `name`, one level deeper.
pub open spec fn extends_path(mc: Option<(Seq<char>, nat)>, mp: Option<(Seq<char>, nat)>, name: Seq<char>) -> bool {
    match (mc, mp) {
        (Some(a), Some(b)) => a.0 == join_segment(b.0, name) && a.1 == b.1 + 1,
        _ => false,
    }
}

/// After a document is added, every node of its tree below the root has,
/// recorded below the tree, its parent's recorded path followed by `.` and
/// its own name, one level deeper than its parent.
pub proof fn lemma_stored_child_path(f0: ForestView, raw: JsonNode, f1: ForestView, d: nat, k: int)
    requires
        wood_added(f0, raw, f1),
        1 <= d,
        d + 1 <= assoc_get(f1.woods, root_name_of(raw))->0.depth,
        0 <= k < assoc_get(f1.woods, root_name_of(raw))->0.levels[(d + 1) as int].len(),
    ensures
        ({
            let t = assoc_get(f1.woods, root_name_of(raw))->0;
            let nodes = f1.store.nodes;
            let app = root_name_of(raw);
            let c = t.levels[(d + 1) as int][k];
            &&& nodes[c as int].parents@.len() == 1
            &&& extends_path(
                meta_of(nodes[c as int], app),
                meta_of(nodes[nodes[c as int].parents@[0] as int], app),
                nodes[c as int].name@,
            )
        }),
{
    let t = assoc_get(f1.woods, root_name_of(raw))->0;
    let nodes = f1.store.nodes;
    let s = shapes(nodes);
    let r = f0.store.nodes.len() as u64;
    let app = s[r as int].name;
    lemma_shape_tree(nodes);
    assert(t.levels[(d + 1) as int] == level_ids(level(s, r, d + 1)));
    let ec = level(s, r, d + 1)[k];
    let c = ec.1;
    assert(t.levels[(d + 1) as int][k] == c);
    lemma_level_parent(s, r, d, k);
    let p = s[c as int].parents[0];
    let j = choose|j: int| 0 <= j < level(s, r, d).len()
        && (#[trigger] level(s, r, d)[j]).1 == p
        && ec.0 == join_segment(level(s, r, d)[j].0, s[c as int].name);
    let ep = level(s, r, d)[j];
    reveal(all_recorded);
    reveal(recorded);
    assert(recorded(f1.store, app, ec, s, r, t.depth));
    assert(recorded(f1.store, app, ep, s, r, t.depth));
    let mc = meta_of(nodes[c as int], app)->0;
    let mp = meta_of(nodes[p as int], app)->0;
    let kc = choose|kk: int| 0 <= kk < level(s, r, mc.1).len() && #[trigger] level(s, r, mc.1)[kk] == (mc.0, c);
    let kp = choose|kk: int| 0 <= kk < level(s, r, mp.1).len() && #[trigger] level(s, r, mp.1)[kk] == (mp.0, p);
    lemma_level_unique(s, r, mc.1, kc, d + 1, k);
    lemma_level_unique(s, r, mp.1, kp, d, j);
    assert(nodes[c as int].parents@ == s[c as int].parents);
    assert(nodes[c as int].name@ == s[c as int].name);
}

} // verus!
