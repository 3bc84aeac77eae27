use godswood::component::Godspoint;
use godswood::json::JsonNode;
use godswood::node::GodsnodePath;
use godswood::node::GodsnodeProto;
use godswood::node::GodsnodeType;
use godswood::node::GodsstoreProto;
use godswood::node::GodswoodMeta;
use godswood::node::NodeProto;
use godswood::tree::Godswoods;
use godswood::tree::TreeProto;

fn leaf() -> JsonNode {
    JsonNode::empty()
}

fn with_children(name: Option<&str>, kids: Vec<(&str, JsonNode)>) -> JsonNode {
    JsonNode {
        name: name.map(|s| s.to_string()),
        display_name: None,
        children: kids.into_iter().map(|(k, v)| (k.to_string(), v)).collect(),
    }
}

/// The document `{name: app1, children: {node1: {}, node2: {children: {node3: {}}}}}`.
fn sample() -> JsonNode {
    with_children(
        Some("app1"),
        vec![("node1", leaf()), ("node2", with_children(None, vec![("node3", leaf())]))],
    )
}

fn path_below(node: &NodeProto, app: &str) -> Option<(String, usize)> {
    node.app_meta_map
        .iter()
        .find(|(k, _)| k == app)
        .map(|(_, m)| (m.path.read(), m.path.read_depth()))
}

fn id_of(forest: &Godswoods, path: &str) -> u64 {
    forest.get_store().get_weak_node(&path.to_string()).expect("path is indexed")
}

#[test]
fn sample_document_builds_four_nodes() {
    let mut forest = Godswoods::new();
    forest.add_wood(&sample());
    assert_eq!(forest.get_store().len(), 4);
}

#[test]
fn sample_document_paths_and_depths() {
    let mut forest = Godswoods::new();
    forest.add_wood(&sample());
    let store = forest.get_store();
    let expect = [(".app1", 1usize), (".app1.node1", 2), (".app1.node2", 2), (".app1.node2.node3", 3)];
    for (path, depth) in expect.iter() {
        let id = id_of(&forest, path);
        let node = store.resolve(id).unwrap();
        assert_eq!(path_below(node, "app1"), Some((path.to_string(), *depth)));
    }
    let root = store.resolve(id_of(&forest, ".app1")).unwrap();
    assert_eq!(root.node_type, GodsnodeType::Root);
    assert_eq!(root.name, "app1");
    let node3 = store.resolve(id_of(&forest, ".app1.node2.node3")).unwrap();
    assert_eq!(node3.node_type, GodsnodeType::Node);
    assert_eq!(node3.display_name, "new node");
}

#[test]
fn sample_document_nodes_by_depth() {
    let mut forest = Godswoods::new();
    forest.add_wood(&sample());
    let tree = forest.get_wood(&"app1".to_string()).unwrap();
    let names = |d: usize| -> Vec<String> {
        tree.get_nodes_by_depth(d)
            .unwrap()
            .iter()
            .map(|id| forest.get_store().resolve(*id).unwrap().name.clone())
            .collect()
    };
    assert_eq!(tree.get_depth(), 3);
    assert_eq!(names(1), vec!["app1"]);
    assert_eq!(names(2), vec!["node1", "node2"]);
    assert_eq!(names(3), vec!["node3"]);
    assert!(tree.get_nodes_by_depth(4).is_none());
    assert_eq!(tree.read_name(forest.get_store()), Some("app1".to_string()));
}

#[test]
fn sample_document_fan_outs() {
    let mut forest = Godswoods::new();
    forest.add_wood(&sample());
    let tree = forest.get_wood(&"app1".to_string()).unwrap();
    assert_eq!(tree.fan_outs(forest.get_store()), vec![0, 2, 1, 0]);
    assert_eq!(tree.level_fan_out(forest.get_store(), 1), 2);
    assert_eq!(tree.level_fan_out(forest.get_store(), 9), 0);
}

#[test]
fn node_count_is_one_plus_all_entries() {
    let doc = with_children(
        Some("big"),
        vec![
            ("a", with_children(None, vec![("a1", leaf()), ("a2", with_children(None, vec![("x", leaf())]))])),
            ("b", leaf()),
            ("c", with_children(None, vec![("c1", leaf())])),
        ],
    );
    let mut forest = Godswoods::new();
    forest.add_wood(&doc);
    assert_eq!(forest.get_store().len(), 1 + 3 + 2 + 1 + 1);
}

#[test]
fn child_path_extends_parent_path() {
    let mut forest = Godswoods::new();
    forest.add_wood(&sample());
    let store = forest.get_store();
    for id in 0..store.len() as u64 {
        let node = store.resolve(id).unwrap();
        if let Some(&p) = node.parents.first() {
            let parent = store.resolve(p).unwrap();
            let (pp, pd) = path_below(parent, "app1").unwrap();
            let (cp, cd) = path_below(node, "app1").unwrap();
            assert_eq!(cp, format!("{}.{}", pp, node.name));
            assert_eq!(cd, pd + 1);
        }
    }
}

#[test]
fn root_depth_is_one() {
    let mut forest = Godswoods::new();
    forest.add_wood(&leaf());
    let tree = forest.get_wood(&"new_application".to_string()).unwrap();
    assert_eq!(tree.get_depth(), 1);
    let root = forest.get_store().resolve(tree.get_root().unwrap()).unwrap();
    assert_eq!(path_below(root, "new_application"), Some((".new_application".to_string(), 1)));
}

#[test]
fn ids_stay_distinct_across_trees() {
    let mut forest = Godswoods::new();
    forest.add_wood(&sample());
    forest.add_wood(&with_children(Some("other"), vec![("k", leaf())]));
    let store = forest.get_store();
    assert_eq!(store.len(), 6);
    let mut ids: Vec<u64> = (0..store.len() as u64).map(|i| store.resolve(i).unwrap().id).collect();
    ids.sort();
    ids.dedup();
    assert_eq!(ids.len(), 6);
    assert!(forest.get_wood(&"app1".to_string()).is_some());
    assert!(forest.get_wood(&"other".to_string()).is_some());
}

#[test]
fn reparse_gives_same_structure() {
    let mut a = Godswoods::new();
    let mut b = Godswoods::new();
    a.add_wood(&sample());
    b.add_wood(&sample());
    assert_eq!(a.get_store().len(), b.get_store().len());
    for id in 0..a.get_store().len() as u64 {
        let x = a.get_store().resolve(id).unwrap();
        let y = b.get_store().resolve(id).unwrap();
        assert_eq!(x.name, y.name);
        assert_eq!(x.children, y.children);
        assert_eq!(x.parents, y.parents);
        assert_eq!(path_below(x, "app1"), path_below(y, "app1"));
    }
    let ta = a.get_wood(&"app1".to_string()).unwrap();
    let tb = b.get_wood(&"app1".to_string()).unwrap();
    assert_eq!(ta.get_depth(), tb.get_depth());
}

#[test]
fn same_name_replaces_tree() {
    let mut forest = Godswoods::new();
    forest.add_wood(&sample());
    forest.add_wood(&with_children(Some("app1"), vec![]));
    let tree = forest.get_wood(&"app1".to_string()).unwrap();
    assert_eq!(tree.get_depth(), 1);
    assert_eq!(tree.get_root(), Some(4));
    assert_eq!(forest.get_store().len(), 5);
    assert_eq!(forest.get_store().get_weak_node(&".app1".to_string()), Some(4));
}

#[test]
fn empty_children_same_as_none() {
    let mut a = Godswoods::new();
    a.add_wood(&with_children(Some("solo"), vec![]));
    assert_eq!(a.get_store().len(), 1);
    assert!(a.get_wood(&"solo".to_string()).unwrap().get_nodes_by_depth(2).is_none());
}

#[test]
fn display_name_is_kept() {
    let mut doc = sample();
    doc.display_name = Some("Application One".to_string());
    let mut forest = Godswoods::new();
    forest.add_wood(&doc);
    let root = forest.get_store().resolve(0).unwrap();
    assert_eq!(root.display_name, "Application One");
}

#[test]
fn store_allocates_increasing_ids() {
    let mut store = GodsstoreProto::new();
    let a = store.new_node();
    let b = store.add_node(&leaf(), "n".to_string());
    let c = store.add_leaf_node(&"l".to_string(), &leaf());
    let d = store.add_app_node(&leaf());
    assert_eq!((a, b, c, d), (0, 1, 2, 3));
    assert_eq!(store.resolve(1).unwrap().node_type, GodsnodeType::Node);
    assert_eq!(store.resolve(1).unwrap().display_name, "new node");
    assert_eq!(store.resolve(2).unwrap().node_type, GodsnodeType::Leaf);
    assert_eq!(store.resolve(2).unwrap().name, "l");
    assert_eq!(store.resolve(3).unwrap().node_type, GodsnodeType::Root);
    assert_eq!(store.resolve(3).unwrap().name, "new_application");
    assert!(store.resolve(4).is_none());
}

#[test]
fn index_last_writer_wins() {
    let mut store = GodsstoreProto::new();
    store.new_node();
    store.new_node();
    let p = ".app.x".to_string();
    assert_eq!(store.get_weak_node(&p), None);
    store.update_index(&p, 0);
    assert_eq!(store.get_weak_node(&p), Some(0));
    store.update_index(&p, 1);
    assert_eq!(store.get_weak_node(&p), Some(1));
}

#[test]
fn parse_children_links_in_order() {
    let mut store = GodsstoreProto::new();
    let mut tree = TreeProto::new_tree();
    tree.parse(&sample(), &mut store);
    let root = store.resolve(0).unwrap();
    assert_eq!(root.children, vec![1, 2]);
    assert_eq!(store.resolve(2).unwrap().children, vec![3]);
    assert_eq!(store.resolve(3).unwrap().parents, vec![2]);
    assert_eq!(tree.get_root(), Some(0));
    assert_eq!(tree.get_depth(), 0);
}

#[test]
fn init_without_root_changes_nothing() {
    let mut store = GodsstoreProto::new();
    let mut tree = TreeProto::new_tree();
    tree.init_nodes(&mut store);
    assert_eq!(tree.get_depth(), 0);
    assert!(tree.get_nodes_by_depth(0).is_none());
}

#[test]
fn path_append_and_read() {
    let mut p = GodsnodePath::new_path();
    assert_eq!(p.read(), "");
    assert_eq!(p.read_depth(), 0);
    p.append(&"app".to_string());
    p.append(&"n".to_string());
    assert_eq!(p.read(), ".app.n");
    assert_eq!(p.read_depth(), 2);
    let q = p.appended(&"m".to_string());
    assert_eq!(q.read(), ".app.n.m");
    assert_eq!(q.read_depth(), 3);
    assert_eq!(p.read(), ".app.n");
    let r = GodsnodePath::new("root".to_string());
    assert_eq!(r.read(), "root");
    assert_eq!(r.read_depth(), 1);
    assert_eq!(GodswoodMeta::new().path.read_depth(), 0);
}

#[test]
fn app_name_from_path() {
    let f = |s: &str| GodswoodMeta::parse_app_name(&s.to_string());
    assert_eq!(f(".app1.node1"), Some("app1".to_string()));
    assert_eq!(f(".app1"), Some("app1".to_string()));
    assert_eq!(f("app1.node1"), None);
    assert_eq!(f("."), None);
    assert_eq!(f("..x"), None);
    assert_eq!(f(""), None);
}

#[test]
fn node_proto_links() {
    let mut n = <NodeProto as GodsnodeProto>::new();
    n.add_child(4);
    n.add_child(7);
    n.add_parent(1);
    assert_eq!(n.get_children(), &vec![4, 7]);
    assert_eq!(n.get_parents(), &vec![1]);
    let p = Godspoint::default();
    assert_eq!(p.node.id, 0);
    assert!(p.node.children.is_empty());
}

#[test]
fn counts_nested_entries() {
    assert_eq!(godswood::json::count_entries(&sample().children), Some(3));
    assert_eq!(godswood::json::count_entries(&leaf().children), Some(0));
}
