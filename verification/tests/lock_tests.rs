use opfs_project::dependency_graph::DependencyType;
use opfs_project::model::{LockPackage, PackageLock};
use opfs_project::str_map::StrMap;

fn empty_package() -> LockPackage {
    LockPackage {
        name: None,
        version: None,
        resolved: None,
        integrity: None,
        license: None,
        dependencies: None,
        dev_dependencies: None,
        peer_dependencies: None,
        optional_dependencies: None,
        requires: None,
        bin: None,
        engines: None,
        funding: None,
        peer: None,
        dev: None,
        optional: None,
        has_install_script: None,
        workspaces: None,
    }
}

fn deps(pairs: &[(&str, &str)]) -> StrMap<String> {
    let mut m = StrMap::new();
    for (k, v) in pairs {
        m.insert(k.to_string(), v.to_string());
    }
    m
}

#[test]
fn str_map_insert_replaces_in_place() {
    let mut m = deps(&[("a", "1"), ("b", "2")]);
    m.insert("a".to_string(), "3".to_string());
    assert_eq!(m.len(), 2);
    assert_eq!(m.key_at(0), "a");
    assert_eq!(m.value_at(0), "3");
    assert_eq!(m.get("a"), Some(&"3".to_string()));
    assert_eq!(m.get("b"), Some(&"2".to_string()));
    assert_eq!(m.get("c"), None);
    assert!(!m.is_empty());
    assert!(StrMap::<String>::new().is_empty());
    let d = m.duplicate();
    assert_eq!(d.len(), 2);
    assert_eq!(d.value_at(1), "2");
}

#[test]
fn get_name_prefers_own_name() {
    let mut p = empty_package();
    p.name = Some("own".to_string());
    assert_eq!(p.get_name("node_modules/other"), "own");
}

#[test]
fn get_name_infers_from_path() {
    let p = empty_package();
    assert_eq!(p.get_name(""), "root");
    assert_eq!(p.get_name("node_modules/lodash"), "lodash");
    assert_eq!(p.get_name("node_modules/@babel/core"), "@babel/core");
    assert_eq!(p.get_name("node_modules/a/node_modules/@s/b"), "@s/b");
    assert_eq!(p.get_name("@scope/pkg"), "@scope/pkg");
    assert_eq!(p.get_name("node_modules/a/node_modules/b"), "b");
    assert_eq!(p.get_name("plain"), "plain");
    assert_eq!(p.get_name("node_modules/x/"), "");
}

#[test]
fn get_version_defaults_to_unknown() {
    let mut p = empty_package();
    assert_eq!(p.get_version(), "unknown");
    p.version = Some("1.2.3".to_string());
    assert_eq!(p.get_version(), "1.2.3");
}

fn sample_lock() -> PackageLock {
    let mut packages = StrMap::new();
    let mut root = empty_package();
    root.name = Some("app".to_string());
    root.version = Some("0.1.0".to_string());
    root.dependencies = Some(deps(&[("a", "^1"), ("missing", "^9")]));
    root.dev_dependencies = Some(deps(&[("b", "^2")]));
    packages.insert("".to_string(), root);
    let mut a = empty_package();
    a.version = Some("1.0.0".to_string());
    a.dependencies = Some(deps(&[("c", "^3")]));
    a.peer_dependencies = Some(deps(&[("b", "*")]));
    packages.insert("node_modules/a".to_string(), a);
    let mut b = empty_package();
    b.version = Some("2.0.0".to_string());
    b.optional_dependencies = Some(deps(&[("c", "^4")]));
    packages.insert("node_modules/b".to_string(), b);
    let mut c3 = empty_package();
    c3.version = Some("3.0.0".to_string());
    packages.insert("node_modules/c".to_string(), c3);
    let mut c4 = empty_package();
    c4.version = Some("4.0.0".to_string());
    packages.insert("node_modules/b/node_modules/c".to_string(), c4);
    PackageLock {
        name: "app".to_string(),
        version: "0.1.0".to_string(),
        lockfile_version: 3,
        requires: true,
        packages,
        dependencies: None,
    }
}

#[test]
fn build_dependency_graph_nodes_follow_entries() {
    let g = sample_lock().build_dependency_graph();
    assert_eq!(g.graph.node_count(), 5);
    let names: Vec<String> = g.graph.node_weights().map(|n| n.name.clone()).collect();
    assert_eq!(names, vec!["app", "a", "b", "c", "c"]);
    let root = g.graph.node_weight(petgraph::graph::NodeIndex::new(0)).unwrap();
    assert_eq!(root.dependencies.len(), 2);
    assert_eq!(root.dev_dependencies.len(), 1);
    assert_eq!(root.version, "0.1.0");
}

#[test]
fn build_dependency_graph_edges_follow_dependencies() {
    let g = sample_lock().build_dependency_graph();
    let edges: Vec<(usize, usize, DependencyType, String)> = g
        .graph
        .raw_edges()
        .iter()
        .map(|e| (e.source().index(), e.target().index(), e.weight._dependency_type.clone(), e.weight._version_spec.clone()))
        .collect();
    assert_eq!(
        edges,
        vec![
            (1, 0, DependencyType::Production, "^1".to_string()),
            (2, 0, DependencyType::Development, "^2".to_string()),
            (3, 1, DependencyType::Production, "^3".to_string()),
            (2, 1, DependencyType::Peer, "*".to_string()),
            (4, 2, DependencyType::Optional, "^4".to_string()),
        ]
    );
}

#[test]
fn lock_graph_paths_and_tree() {
    let g = sample_lock().build_dependency_graph();
    let mut paths = g.find_paths_to_root("c");
    paths.sort();
    assert_eq!(paths, vec![vec![3, 1, 0], vec![4, 2, 0], vec![4, 2, 1, 0]]);
    let lines = g.show_package_dependencies("c").unwrap();
    assert_eq!(
        lines,
        vec![
            "└── app@0.1.0".to_string(),
            "    ├───┬ a@1.0.0 -> node_modules/a".to_string(),
            "    │   ├───┬ b@2.0.0 -> node_modules/b".to_string(),
            "    │   │   └── c@4.0.0 -> node_modules/b/node_modules/c".to_string(),
            "    │   └── c@3.0.0 -> node_modules/c".to_string(),
            "    └── b@2.0.0 -> node_modules/b".to_string(),
            "        └── c@4.0.0 -> node_modules/b/node_modules/c".to_string(),
        ]
    );
}
