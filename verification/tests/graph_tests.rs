use opfs_project::dependency_graph::{
    build_dep_tree, DependencyGraphService, DependencyType, PackageNode,
};
use opfs_project::dep_tree::{DepTreeNode, ROOT_INDEX};

fn pkg(name: &str, version: &str, path: &str) -> PackageNode {
    PackageNode::new(name.to_string(), version.to_string(), path.to_string())
}

/// root -> a -> c, root -> b -> c, and a nested copy of c under b.
fn sample_graph() -> DependencyGraphService {
    let mut g = DependencyGraphService::new();
    assert_eq!(g.add_package(pkg("root", "1.0.0", "")), 0);
    assert_eq!(g.add_package(pkg("a", "1.0.0", "node_modules/a")), 1);
    assert_eq!(g.add_package(pkg("b", "2.0.0", "node_modules/b")), 2);
    assert_eq!(g.add_package(pkg("c", "3.0.0", "node_modules/c")), 3);
    assert_eq!(g.add_package(pkg("c", "4.0.0", "node_modules/b/node_modules/c")), 4);
    g
}

fn sorted(mut v: Vec<Vec<u32>>) -> Vec<Vec<u32>> {
    v.sort();
    v.dedup();
    v
}

#[test]
fn package_node_new_has_no_dependencies() {
    let n = pkg("lodash", "4.17.21", "node_modules/lodash");
    assert_eq!(n.name, "lodash");
    assert_eq!(n.version, "4.17.21");
    assert_eq!(n.path, "node_modules/lodash");
    assert_eq!(n.dependencies.len(), 0);
    assert_eq!(n.dev_dependencies.len(), 0);
    assert_eq!(n.optional_dependencies.len(), 0);
    assert_eq!(n.peer_dependencies.len(), 0);
}

#[test]
fn new_and_default_graphs_are_empty() {
    let g = DependencyGraphService::new();
    assert_eq!(g.graph.node_count(), 0);
    assert_eq!(g.graph.edge_count(), 0);
    let d = DependencyGraphService::default();
    assert_eq!(d.graph.node_count(), 0);
}

#[test]
fn add_package_appends_nodes() {
    let g = sample_graph();
    assert_eq!(g.graph.node_count(), 5);
    assert_eq!(g.graph.edge_count(), 0);
    let w = g.graph.node_weight(petgraph::graph::NodeIndex::new(4)).unwrap();
    assert_eq!(w.version, "4.0.0");
}

#[test]
fn resolution_prefers_own_node_modules() {
    let g = sample_graph();
    assert_eq!(g.find_dependency_node_index("node_modules/b", "c"), Some(4));
}

#[test]
fn resolution_walks_up_to_the_root() {
    let g = sample_graph();
    assert_eq!(g.find_dependency_node_index("node_modules/a", "c"), Some(3));
    assert_eq!(g.find_dependency_node_index("", "a"), Some(1));
    // a deeper path walks up through each ancestor
    assert_eq!(g.find_dependency_node_index("node_modules/b/node_modules/x", "c"), Some(4));
}

#[test]
fn resolution_falls_back_to_first_named_package() {
    let mut g = DependencyGraphService::new();
    g.add_package(pkg("root", "1.0.0", ""));
    g.add_package(pkg("d", "1.0.0", "vendor/d"));
    g.add_package(pkg("d", "2.0.0", "other/d"));
    assert_eq!(g.find_dependency_node_index("", "d"), Some(1));
}

#[test]
fn resolution_of_unknown_name_is_none() {
    let g = sample_graph();
    assert_eq!(g.find_dependency_node_index("node_modules/a", "zzz"), None);
}

#[test]
fn try_add_dependency_adds_edge_from_dependency() {
    let mut g = sample_graph();
    let r = g.try_add_dependency_with_path("node_modules/b", "b", "c", DependencyType::Production, "^4".to_string());
    assert_eq!(r, Ok(()));
    assert_eq!(g.graph.edge_count(), 1);
    let e = g.graph.raw_edges()[0].clone();
    assert_eq!(e.source().index(), 4);
    assert_eq!(e.target().index(), 2);
    assert_eq!(e.weight._dependency_type, DependencyType::Production);
    assert_eq!(e.weight._version_spec, "^4");
}

#[test]
fn try_add_dependency_reports_missing_package() {
    let mut g = sample_graph();
    let r = g.try_add_dependency_with_path("node_modules/q", "q", "c", DependencyType::Peer, "1".to_string());
    assert_eq!(r, Err("Package at path 'node_modules/q' not found in graph".to_string()));
    assert_eq!(g.graph.edge_count(), 0);
}

#[test]
fn try_add_dependency_reports_missing_dependency() {
    let mut g = sample_graph();
    let r = g.try_add_dependency_with_path("node_modules/a", "a", "nope", DependencyType::Optional, "1".to_string());
    assert_eq!(r, Err("Dependency package 'nope' not found for path 'node_modules/a'".to_string()));
    assert_eq!(g.graph.edge_count(), 0);
}

fn linked_graph() -> DependencyGraphService {
    let mut g = sample_graph();
    // root depends on a and b; a depends on c (3); b depends on c (4)
    g.try_add_dependency_with_path("", "root", "a", DependencyType::Production, "1".to_string()).unwrap();
    g.try_add_dependency_with_path("", "root", "b", DependencyType::Development, "2".to_string()).unwrap();
    g.try_add_dependency_with_path("node_modules/a", "a", "c", DependencyType::Production, "3".to_string()).unwrap();
    g.try_add_dependency_with_path("node_modules/b", "b", "c", DependencyType::Production, "4".to_string()).unwrap();
    g
}

#[test]
fn paths_to_root_are_all_simple_paths() {
    let g = linked_graph();
    let paths = sorted(g.find_paths_to_root("c"));
    assert_eq!(paths, vec![vec![3, 1, 0], vec![4, 2, 0]]);
    assert_eq!(sorted(g.find_paths_to_root("a")), vec![vec![1, 0]]);
    assert_eq!(sorted(g.find_paths_to_root("root")), vec![vec![0]]);
    assert!(g.find_paths_to_root("missing").is_empty());
}

#[test]
fn paths_to_root_need_a_root() {
    let mut g = DependencyGraphService::new();
    g.add_package(pkg("a", "1", "node_modules/a"));
    assert!(g.find_paths_to_root("a").is_empty());
}

#[test]
fn paths_to_root_skip_cycles() {
    let mut g = DependencyGraphService::new();
    g.add_package(pkg("root", "1", ""));
    g.add_package(pkg("x", "1", "node_modules/x"));
    g.add_package(pkg("y", "1", "node_modules/y"));
    // x and y depend on each other; root depends on x
    g.try_add_dependency_with_path("node_modules/x", "x", "y", DependencyType::Production, "1".to_string()).unwrap();
    g.try_add_dependency_with_path("node_modules/y", "y", "x", DependencyType::Production, "1".to_string()).unwrap();
    g.try_add_dependency_with_path("", "root", "x", DependencyType::Production, "1".to_string()).unwrap();
    assert_eq!(sorted(g.find_paths_to_root("y")), vec![vec![2, 1, 0]]);
    assert_eq!(sorted(g.find_paths_to_root("x")), vec![vec![1, 0]]);
}

#[test]
fn build_dep_tree_merges_shared_prefixes() {
    let t = build_dep_tree(&[vec![3, 1, 0], vec![4, 1, 0], vec![2, 0]]);
    assert_eq!(t.index, ROOT_INDEX);
    assert_eq!(t.children.len(), 1);
    let zero = &t.children[&0];
    assert_eq!(zero.index, 0);
    let idx: Vec<u32> = zero.children.values().map(|c| c.index).collect();
    assert_eq!(idx, vec![1, 2]);
    let one: &DepTreeNode = &zero.children[&1];
    let idx1: Vec<u32> = one.children.keys().copied().collect();
    assert_eq!(idx1, vec![3, 4]);
    assert!(zero.children[&2].children.is_empty());
}

#[test]
fn build_dep_tree_of_no_paths_is_a_bare_root() {
    let t = build_dep_tree(&[]);
    assert_eq!(t.index, u32::MAX);
    assert!(t.children.is_empty());
}

#[test]
fn build_dep_tree_ignores_path_order_and_repeats() {
    let a = build_dep_tree(&[vec![4, 2, 0], vec![3, 1, 0], vec![4, 2, 0]]);
    let b = build_dep_tree(&[vec![3, 1, 0], vec![4, 2, 0]]);
    assert_eq!(format!("{:?}", a), format!("{:?}", b));
}

#[test]
fn dependency_tree_of_package() {
    let g = linked_graph();
    let t = g.get_package_dependency_tree("c").unwrap();
    assert_eq!(t.index, ROOT_INDEX);
    assert_eq!(t.children.len(), 1);
    assert_eq!(t.children[&0].children.len(), 2);
    assert!(g.get_package_dependency_tree("missing").is_none());
}

#[test]
fn show_package_dependencies_draws_the_tree() {
    let g = linked_graph();
    let lines = g.show_package_dependencies("c").unwrap();
    assert_eq!(
        lines,
        vec![
            "└── root@1.0.0".to_string(),
            "    ├───┬ a@1.0.0 -> node_modules/a".to_string(),
            "    │   └── c@3.0.0 -> node_modules/c".to_string(),
            "    └── b@2.0.0 -> node_modules/b".to_string(),
            "        └── c@4.0.0 -> node_modules/b/node_modules/c".to_string(),
        ]
    );
    assert!(g.show_package_dependencies("missing").is_none());
}

#[test]
fn print_dep_tree_lines_appends_and_skips_unknown_nodes() {
    let g = linked_graph();
    let tree = DepTreeNode {
        index: 99,
        children: std::collections::BTreeMap::from([(1, DepTreeNode { index: 1, children: std::collections::BTreeMap::new() })]),
    };
    let mut lines = vec!["first".to_string()];
    g.print_dep_tree_lines(&tree, "> ", false, &["a"], &mut lines);
    assert_eq!(lines, vec!["first".to_string(), "> │   └── a@1.0.0 -> node_modules/a".to_string()]);
}

#[test]
fn paths_to_root_come_in_search_order() {
    let mut g = DependencyGraphService::new();
    g.add_package(pkg("root", "1", ""));
    g.add_package(pkg("a", "1", "node_modules/a"));
    g.add_package(pkg("b", "1", "node_modules/b"));
    g.add_package(pkg("c", "1", "node_modules/c"));
    g.try_add_dependency_with_path("", "root", "a", DependencyType::Production, "1".to_string()).unwrap();
    g.try_add_dependency_with_path("", "root", "b", DependencyType::Production, "1".to_string()).unwrap();
    g.try_add_dependency_with_path("node_modules/a", "a", "c", DependencyType::Production, "1".to_string()).unwrap();
    g.try_add_dependency_with_path("node_modules/b", "b", "c", DependencyType::Production, "1".to_string()).unwrap();
    // the search follows the edges that leave a node, latest first
    assert_eq!(g.find_paths_to_root("c"), vec![vec![3, 2, 0], vec![3, 1, 0]]);
    // a dependency declared twice yields its walk twice
    g.try_add_dependency_with_path("node_modules/a", "a", "c", DependencyType::Development, "1".to_string()).unwrap();
    assert_eq!(g.find_paths_to_root("c"), vec![vec![3, 1, 0], vec![3, 2, 0], vec![3, 1, 0]]);
}

#[test]
fn build_dep_tree_depends_on_the_walks_only() {
    let a = build_dep_tree(&[vec![3, 1, 0], vec![4, 1, 0], vec![2, 0]]);
    let b = build_dep_tree(&[vec![2, 0], vec![4, 1, 0], vec![3, 1, 0], vec![2, 0]]);
    assert_eq!(format!("{a:?}"), format!("{b:?}"));
}

fn check_subtree(g: &DependencyGraphService, node: &DepTreeNode, name: &str) {
    let idx = petgraph::graph::NodeIndex::new(node.index as usize);
    if node.children.is_empty() {
        assert_eq!(g.graph.node_weight(idx).unwrap().name, name);
    }
    for child in node.children.values() {
        let c = petgraph::graph::NodeIndex::new(child.index as usize);
        assert!(g.graph.find_edge(c, idx).is_some());
        check_subtree(g, child, name);
    }
}

#[test]
fn dependency_tree_has_the_root_on_top_and_the_package_at_the_leaves() {
    let g = linked_graph();
    let t = g.get_package_dependency_tree("c").unwrap();
    assert_eq!(t.children.len(), 1);
    assert_eq!(t.children[&0].index, 0);
    check_subtree(&g, &t.children[&0], "c");
}
