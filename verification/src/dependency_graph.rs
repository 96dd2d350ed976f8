//! The dependency graph of the packages of a lock file.
use vstd::prelude::*;
use vstd::hash_map::StringHashMap;
use crate::str_map::StrMap;
pub use crate::dep_tree::{DepTreeNode, build_dep_tree};
use crate::dep_tree::{ROOT_INDEX, tree_has, tree_wf, walk_of_paths, tree_lines, head_lines, children_lines, child_prefix, package_line, lemma_lines_ext, lemma_single_child, key_order, is_key_order, lemma_key_order_single, lemma_increasing_key_order};
use vstd::std_specs::btree::increasing_seq;
use vstd::string::StringExecFns;
use crate::text::{has_prefix, starts_with_chars, rfind_char, lemma_rfind_char_facts, chars_of, string_of, sub_chars, rfind_char_in};
use crate::pkg_graph::{PackageGraph, graph_nodes, graph_edges, out_neighbors, graph_new, graph_add_node, graph_add_edge, graph_node_weight, graph_neighbors};

verus! {

/// A package: its name, version, path in the lock file, and its declared
/// dependencies by kind.
#[derive(Debug, Clone)]
pub struct PackageNode {
    pub name: String,
    pub version: String,
    pub path: String,
    pub dependencies: StrMap<String>,
    pub dev_dependencies: StrMap<String>,
    pub optional_dependencies: StrMap<String>,
    pub peer_dependencies: StrMap<String>,
}

impl PackageNode {
    /// A package with the given name, version and path, and no dependency.
    pub fn new(name: String, version: String, path: String) -> (n: Self)
        ensures
            n.name == name,
            n.version == version,
            n.path == path,
            n.dependencies.items().len() == 0,
            n.dev_dependencies.items().len() == 0,
            n.optional_dependencies.items().len() == 0,
            n.peer_dependencies.items().len() == 0,
    {
        PackageNode {
            name,
            version,
            path,
            dependencies: StrMap::new(),
            dev_dependencies: StrMap::new(),
            optional_dependencies: StrMap::new(),
            peer_dependencies: StrMap::new(),
        }
    }
}

/// The kind of a dependency.
#[derive(Debug, Clone, PartialEq, Eq, Structural)]
pub enum DependencyType {
    Production,
    Development,
    Optional,
    Peer,
}

/// The weight of a dependency edge.
#[derive(Debug, Clone)]
pub struct DependencyEdge {
    pub _dependency_type: DependencyType,
    pub _version_spec: String,
}

} // verus!

verus! {

// ---------------------------------------------------------------------------
// The model: node lookups by name and by path, and module resolution.
// ---------------------------------------------------------------------------
/// The indices of the nodes named `name`, in increasing order.
pub open spec fn indices_named(nodes: Seq<PackageNode>, name: Seq<char>) -> Seq<u32>
    decreases nodes.len(),
{
    if nodes.len() == 0 {
        seq![]
    } else {
        let rest = indices_named(nodes.drop_last(), name);
        if nodes.last().name@ == name {
            rest.push((nodes.len() - 1) as u32)
        } else {
            rest
        }
    }
}

/// The index of the last node whose path is `path`, or -1.
pub open spec fn index_at_path(nodes: Seq<PackageNode>, path: Seq<char>) -> int
    decreases nodes.len(),
{
    if nodes.len() == 0 {
        -1
    } else if nodes.last().path@ == path {
        nodes.len() - 1
    } else {
        index_at_path(nodes.drop_last(), path)
    }
}

/// The path at which a package named `dep` is installed for the directory
/// `dir`: `node_modules/dep`, under `dir` unless `dir` is the root.
pub open spec fn install_path(dir: Seq<char>, dep: Seq<char>) -> Seq<char> {
    if dir.len() == 0 {
        "node_modules/"@ + dep
    } else {
        dir + "/node_modules/"@ + dep
    }
}

/// The directory that contains `dir`: `dir` up to its last `/`, or the root.
pub open spec fn parent_dir(dir: Seq<char>) -> Seq<char> {
    let k = rfind_char(dir, '/');
    if k < 0 {
        seq![]
    } else {
        dir.take(k)
    }
}

/// The node installed at the nearest `node_modules/dep` found by walking
/// from `dir` up to the root, if any.
pub open spec fn resolve_up(nodes: Seq<PackageNode>, dir: Seq<char>, dep: Seq<char>) -> Option<u32>
    decreases dir.len(),
{
    let cand = index_at_path(nodes, install_path(dir, dep));
    if cand >= 0 {
        Some(cand as u32)
    } else if dir.len() == 0 {
        None
    } else {
        proof {
            lemma_rfind_char_facts(dir, '/');
        }
        resolve_up(nodes, parent_dir(dir), dep)
    }
}

/// The node that a dependency named `dep` of the package at `from` resolves
/// to: none when no package has that name; else the nearest installed
/// `node_modules/dep` walking up from `from`; else the first package with
/// that name.
pub open spec fn resolve_dependency(nodes: Seq<PackageNode>, from: Seq<char>, dep: Seq<char>) -> Option<u32> {
    let named = indices_named(nodes, dep);
    if named.len() == 0 {
        None
    } else {
        match resolve_up(nodes, from, dep) {
            Some(i) => Some(i),
            None => Some(named[0]),
        }
    }
}

pub proof fn lemma_indices_named(nodes: Seq<PackageNode>, name: Seq<char>)
    requires
        nodes.len() <= u32::MAX,
    ensures
        forall|j: int|
            0 <= j < indices_named(nodes, name).len() ==> {
                let i = #[trigger] indices_named(nodes, name)[j];
                &&& i < nodes.len()
                &&& nodes[i as int].name@ == name
            },
        forall|i: int|
            0 <= i < nodes.len() && nodes[i].name@ == name ==> indices_named(
                nodes,
                name,
            ).contains(i as u32),
    decreases nodes.len(),
{
    if nodes.len() > 0 {
        lemma_indices_named(nodes.drop_last(), name);
        let rest = indices_named(nodes.drop_last(), name);
        assert forall|i: int| 0 <= i < nodes.len() - 1 implies nodes.drop_last()[i] == nodes[i] by {}
        assert forall|i: int|
            0 <= i < nodes.len() && nodes[i].name@ == name implies indices_named(
            nodes,
            name,
        ).contains(i as u32) by {
            if i < nodes.len() - 1 {
                assert(nodes.drop_last()[i] == nodes[i]);
                let k = choose|k: int| 0 <= k < rest.len() && rest[k] == i as u32;
                assert(indices_named(nodes, name)[k] == i as u32);
            } else {
                assert(indices_named(nodes, name).last() == i as u32);
            }
        }
    }
}

pub proof fn lemma_index_at_path(nodes: Seq<PackageNode>, path: Seq<char>)
    ensures
        -1 <= index_at_path(nodes, path) < nodes.len(),
        index_at_path(nodes, path) >= 0 ==> nodes[index_at_path(nodes, path)].path@ == path,
        index_at_path(nodes, path) < 0 ==> forall|i: int|
            0 <= i < nodes.len() ==> nodes[i].path@ != path,
    decreases nodes.len(),
{
    if nodes.len() > 0 {
        lemma_index_at_path(nodes.drop_last(), path);
        assert forall|i: int| 0 <= i < nodes.len() - 1 implies nodes.drop_last()[i] == nodes[i] by {}
    }
}

/// A node at the nearest `node_modules/dep` exists and is a node.
pub proof fn lemma_resolve_up_bound(nodes: Seq<PackageNode>, dir: Seq<char>, dep: Seq<char>)
    ensures
        resolve_up(nodes, dir, dep) matches Some(i) ==> i < nodes.len(),
    decreases dir.len(),
{
    lemma_index_at_path(nodes, install_path(dir, dep));
    if index_at_path(nodes, install_path(dir, dep)) < 0 && dir.len() > 0 {
        lemma_rfind_char_facts(dir, '/');
        lemma_resolve_up_bound(nodes, parent_dir(dir), dep);
    }
}

// ---------------------------------------------------------------------------
// The service
// ---------------------------------------------------------------------------
/// A dependency graph: packages as nodes, an edge from each dependency to
/// the package that depends on it, and indices of the nodes by name and by
/// path.
pub struct DependencyGraphService {
    pub graph: PackageGraph,
    name_to_indices: StringHashMap<Vec<u32>>,
    path_to_index: StringHashMap<u32>,
}

impl DependencyGraphService {
    /// The packages, by node index.
    pub closed spec fn nodes(&self) -> Seq<PackageNode> {
        graph_nodes(self.graph)
    }

    /// The dependency edges (dependency, dependent, weight), in insertion order.
    pub closed spec fn edges(&self) -> Seq<(u32, u32, DependencyEdge)> {
        graph_edges(self.graph)
    }

    /// The indices agree with the nodes, and every edge joins two nodes.
    pub closed spec fn wf(&self) -> bool {
        &&& forall|name: Seq<char>|
            #[trigger] self.name_to_indices@.contains_key(name) <==> indices_named(
                self.nodes(),
                name,
            ).len() > 0
        &&& forall|name: Seq<char>|
            #[trigger] self.name_to_indices@.contains_key(name)
                ==> self.name_to_indices@[name]@ == indices_named(self.nodes(), name)
        &&& forall|path: Seq<char>|
            #[trigger] self.path_to_index@.contains_key(path) <==> index_at_path(
                self.nodes(),
                path,
            ) >= 0
        &&& forall|path: Seq<char>|
            #[trigger] self.path_to_index@.contains_key(path) ==> self.path_to_index@[path]
                == index_at_path(self.nodes(), path)
        &&& forall|k: int|
            0 <= k < self.edges().len() ==> (#[trigger] self.edges()[k]).0 < self.nodes().len()
                && self.edges()[k].1 < self.nodes().len()
        &&& self.nodes().len() <= u32::MAX
    }

    /// An empty graph.
    pub fn new() -> (s: Self)
        ensures
            s.wf(),
            s.nodes() == Seq::<PackageNode>::empty(),
            s.edges() == Seq::<(u32, u32, DependencyEdge)>::empty(),
    {
        let s = DependencyGraphService {
            graph: graph_new(),
            name_to_indices: StringHashMap::new(),
            path_to_index: StringHashMap::new(),
        };
        assert forall|name: Seq<char>|
            #[trigger] s.name_to_indices@.contains_key(name) <==> indices_named(
                s.nodes(),
                name,
            ).len() > 0 by {}
        assert forall|path: Seq<char>|
            #[trigger] s.path_to_index@.contains_key(path) <==> index_at_path(
                s.nodes(),
                path,
            ) >= 0 by {}
        s
    }

    /// Adds `package` as a new node and returns its index.
    pub fn add_package(&mut self, package: PackageNode) -> (idx: u32)
        requires
            old(self).wf(),
            old(self).nodes().len() < u32::MAX,
        ensures
            final(self).wf(),
            idx == old(self).nodes().len(),
            final(self).nodes() == old(self).nodes().push(package),
            final(self).edges() == old(self).edges(),
    {
        let ghost old_nodes = self.nodes();
        let ghost old_edges = self.edges();
        let package_name = package.name.clone();
        let package_path = package.path.clone();
        let ghost pkg = package;
        let idx = graph_add_node(&mut self.graph, package);
        let mut list: Vec<u32> = Vec::new();
        match self.name_to_indices.get(package_name.as_str()) {
            Some(existing) => {
                let mut i: usize = 0;
                while i < existing.len()
                    invariant
                        i <= existing@.len(),
                        list@ == existing@.take(i as int),
                    decreases existing@.len() - i,
                {
                    list.push(existing[i]);
                    assert(existing@.take(i + 1) == existing@.take(i as int).push(
                        existing@[i as int],
                    ));
                    i = i + 1;
                }
                assert(existing@.take(existing@.len() as int) == existing@);
            },
            None => {},
        }
        list.push(idx);
        let ghost new_nodes = self.nodes();
        assert(new_nodes.drop_last() == old_nodes);
        assert(new_nodes.last() == pkg);
        self.name_to_indices.insert(package_name, list);
        self.path_to_index.insert(package_path, idx);
        proof {
            assert forall|k: int| 0 <= k < self.edges().len() implies (#[trigger] self.edges()[k]).0
                < self.nodes().len() && self.edges()[k].1 < self.nodes().len() by {
                assert(old_edges[k] == self.edges()[k]);
            }
            assert forall|name: Seq<char>|
                #[trigger] self.name_to_indices@.contains_key(name) <==> indices_named(
                    self.nodes(),
                    name,
                ).len() > 0 by {
                if name != pkg.name@ {
                    assert(indices_named(new_nodes, name) == indices_named(old_nodes, name));
                }
            }
            assert forall|name: Seq<char>|
                #[trigger] self.name_to_indices@.contains_key(name)
                    implies self.name_to_indices@[name]@ == indices_named(self.nodes(), name) by {
                if name != pkg.name@ {
                    assert(indices_named(new_nodes, name) == indices_named(old_nodes, name));
                }
            }
            assert forall|path: Seq<char>|
                #[trigger] self.path_to_index@.contains_key(path) <==> index_at_path(
                    self.nodes(),
                    path,
                ) >= 0 by {
                if path != pkg.path@ {
                    assert(index_at_path(new_nodes, path) == index_at_path(old_nodes, path));
                }
            }
            assert forall|path: Seq<char>|
                #[trigger] self.path_to_index@.contains_key(path) implies self.path_to_index@[path]
                    == index_at_path(self.nodes(), path) by {
                if path != pkg.path@ {
                    assert(index_at_path(new_nodes, path) == index_at_path(old_nodes, path));
                }
            }
        }
        idx
    }

    /// The node that a dependency named `dependency_name` of the package at
    /// `current_path` resolves to: the nearest `node_modules/<name>` walking
    /// up from `current_path`, else the first package with that name; none
    /// when no package has that name.
    pub fn find_dependency_node_index(&self, current_path: &str, dependency_name: &str) -> (r:
        Option<u32>)
        requires
            self.wf(),
        ensures
            r == resolve_dependency(self.nodes(), current_path@, dependency_name@),
            r matches Some(i) ==> i < self.nodes().len(),
    {
        let ghost nodes = self.nodes();
        let ghost dep = dependency_name@;
        proof {
            lemma_indices_named(nodes, dep);
            lemma_resolve_up_bound(nodes, current_path@, dep);
        }
        let candidates = match self.name_to_indices.get(dependency_name) {
            Some(c) => c,
            None => {
                return None;
            },
        };
        if candidates.len() == 0 {
            return None;
        }
        let cur = chars_of(current_path);
        let preferred = install_path_of(&cur, dependency_name);
        if let Some(i) = self.path_to_index.get(preferred.as_str()) {
            proof {
                lemma_index_at_path(nodes, preferred@);
            }
            return Some(*i);
        }
        let mut search = cur;
        assert(candidates@[0] == indices_named(nodes, dep)[0]);
        loop
            invariant
                self.wf(),
                nodes == self.nodes(),
                dep == dependency_name@,
                candidates@ == indices_named(nodes, dep),
                candidates@.len() > 0,
                candidates@[0] < nodes.len(),
                resolve_up(nodes, current_path@, dep) == resolve_up(nodes, search@, dep),
            decreases search@.len(),
        {
            let cand = install_path_of(&search, dependency_name);
            if let Some(i) = self.path_to_index.get(cand.as_str()) {
                proof {
                    lemma_index_at_path(nodes, cand@);
                }
                return Some(*i);
            }
            if search.len() == 0 {
                return Some(candidates[0]);
            }
            proof {
                lemma_rfind_char_facts(search@, '/');
            }
            match rfind_char_in(&search, '/') {
                Some(k) => {
                    search = sub_chars(&search, 0, k);
                },
                None => {
                    search = Vec::new();
                },
            }
        }
    }

    /// Adds the edge from the dependency `to_package_name` of the package at
    /// `from_path` to that package; fails when no package is at `from_path`
    /// or the dependency resolves to no package.
    pub fn try_add_dependency_with_path(
        &mut self,
        from_path: &str,
        _from_package_name: &str,
        to_package_name: &str,
        dependency_type: DependencyType,
        version_spec: String,
    ) -> (r: Result<(), String>)
        requires
            old(self).wf(),
            index_at_path(old(self).nodes(), from_path@) >= 0 && resolve_dependency(
                old(self).nodes(),
                from_path@,
                to_package_name@,
            ) is Some ==> old(self).edges().len() < u32::MAX,
        ensures
            final(self).wf(),
            final(self).nodes() == old(self).nodes(),
            index_at_path(old(self).nodes(), from_path@) < 0 ==> {
                &&& final(self).edges() == old(self).edges()
                &&& r matches Err(msg) && msg@ == "Package at path '"@ + from_path@
                    + "' not found in graph"@
            },
            index_at_path(old(self).nodes(), from_path@) >= 0 && resolve_dependency(
                old(self).nodes(),
                from_path@,
                to_package_name@,
            ) is None ==> {
                &&& final(self).edges() == old(self).edges()
                &&& r matches Err(msg) && msg@ == "Dependency package '"@ + to_package_name@
                    + "' not found for path '"@ + from_path@ + "'"@
            },
            index_at_path(old(self).nodes(), from_path@) >= 0 && resolve_dependency(
                old(self).nodes(),
                from_path@,
                to_package_name@,
            ) is Some ==> {
                &&& r is Ok
                &&& final(self).edges() == old(self).edges().push(
                    (
                        resolve_dependency(old(self).nodes(), from_path@, to_package_name@)->0,
                        index_at_path(old(self).nodes(), from_path@) as u32,
                        DependencyEdge {
                            _dependency_type: dependency_type,
                            _version_spec: version_spec,
                        },
                    ),
                )
            },
    {
        proof {
            lemma_index_at_path(self.nodes(), from_path@);
        }
        let from_index = match self.path_to_index.get(from_path) {
            Some(i) => *i,
            None => {
                let mut msg = String::new();
                msg.append("Package at path '");
                msg.append(from_path);
                msg.append("' not found in graph");
                return Err(msg);
            },
        };
        let to_index = match self.find_dependency_node_index(from_path, to_package_name) {
            Some(i) => i,
            None => {
                let mut msg = String::new();
                msg.append("Dependency package '");
                msg.append(to_package_name);
                msg.append("' not found for path '");
                msg.append(from_path);
                msg.append("'");
                return Err(msg);
            },
        };
        let edge = DependencyEdge { _dependency_type: dependency_type, _version_spec: version_spec };
        let ghost old_edges = self.edges();
        graph_add_edge(&mut self.graph, to_index, from_index, edge);
        proof {
            assert forall|k: int| 0 <= k < self.edges().len() implies (#[trigger] self.edges()[k]).0
                < self.nodes().len() && self.edges()[k].1 < self.nodes().len() by {
                if k < old_edges.len() {
                    assert(old_edges[k] == self.edges()[k]);
                }
            }
        }
        Ok(())
    }
}

/// The path of `node_modules/<dep>` for the directory `dir`.
fn install_path_of(dir: &[char], dep: &str) -> (s: String)
    ensures
        s@ == install_path(dir@, dep@),
{
    if dir.len() == 0 {
        let mut s = String::new();
        s.append("node_modules/");
        s.append(dep);
        assert(Seq::<char>::empty() + "node_modules/"@ == "node_modules/"@);
        s
    } else {
        let mut s = string_of(dir);
        s.append("/node_modules/");
        s.append(dep);
        s
    }
}

} // verus!

verus! {

// ---------------------------------------------------------------------------
// Walks from a package to the root
// ---------------------------------------------------------------------------
/// The graph has an edge from `a` to `b`.
pub open spec fn has_edge(edges: Seq<(u32, u32, DependencyEdge)>, a: u32, b: u32) -> bool {
    exists|k: int| 0 <= k < edges.len() && (#[trigger] edges[k]).0 == a && edges[k].1 == b
}

/// `v` is the walk `prefix` continued by a walk along edges from `current`
/// that ends at `target`, and no node occurs twice in `v`.
pub open spec fn extends_to(
    edges: Seq<(u32, u32, DependencyEdge)>,
    prefix: Seq<u32>,
    current: u32,
    target: u32,
    v: Seq<u32>,
) -> bool {
    &&& v.len() > prefix.len()
    &&& v.take(prefix.len() as int) == prefix
    &&& v[prefix.len() as int] == current
    &&& v.last() == target
    &&& v.no_duplicates()
    &&& forall|j: int|
        prefix.len() <= j < v.len() - 1 ==> #[trigger] has_edge(edges, v[j], v[j + 1])
}

/// `v` is a walk along edges from `from` to `to` that visits no node twice.
pub open spec fn is_simple_path(
    edges: Seq<(u32, u32, DependencyEdge)>,
    v: Seq<u32>,
    from: u32,
    to: u32,
) -> bool {
    extends_to(edges, seq![], from, to, v)
}

/// Some entry of `all` at position `from` or later holds `v`.
pub open spec fn found_in(all: Seq<Vec<u32>>, from: int, v: Seq<u32>) -> bool {
    exists|k: int| from <= k < all.len() && (#[trigger] all[k])@ == v
}

/// The walks that a depth-first search appends when it reaches `current`
/// with the walk `path` behind it, in the order it finds them: none when
/// `current` is already on the walk, the walk itself when `current` is
/// `target`, else those through each successor of `current` in turn. `n`
/// is the number of nodes; no walk visiting no node twice is longer.
pub open spec fn walks_from(
    edges: Seq<(u32, u32, DependencyEdge)>,
    n: nat,
    path: Seq<u32>,
    current: u32,
    target: u32,
) -> Seq<Seq<u32>>
    decreases n - path.len(), 1int, 0int,
{
    if path.contains(current) || path.len() >= n {
        seq![]
    } else if current == target {
        seq![path.push(current)]
    } else {
        walks_via(edges, n, path.push(current), out_neighbors(edges, current), target)
    }
}

/// The walks that a depth-first search appends when it goes on from the
/// walk `path` through each of `nbs` in turn.
pub open spec fn walks_via(
    edges: Seq<(u32, u32, DependencyEdge)>,
    n: nat,
    path: Seq<u32>,
    nbs: Seq<u32>,
    target: u32,
) -> Seq<Seq<u32>>
    decreases n - path.len() + 1, 0int, nbs.len() as int,
{
    if nbs.len() == 0 || path.len() > n {
        seq![]
    } else {
        walks_via(edges, n, path, nbs.drop_last(), target) + walks_from(
            edges,
            n,
            path,
            nbs.last(),
            target,
        )
    }
}

/// The walks found from each of `starts` to `target`, in turn.
pub open spec fn walks_from_each(
    edges: Seq<(u32, u32, DependencyEdge)>,
    n: nat,
    starts: Seq<u32>,
    target: u32,
) -> Seq<Seq<u32>>
    decreases starts.len(),
{
    if starts.len() == 0 {
        seq![]
    } else {
        walks_from_each(edges, n, starts.drop_last(), target) + walks_from(
            edges,
            n,
            seq![],
            starts.last(),
            target,
        )
    }
}

/// The walks from the packages named `name` to the root package, in the
/// order of a depth-first search from each of those packages in turn; none
/// when there is no root package.
pub open spec fn root_walks(
    nodes: Seq<PackageNode>,
    edges: Seq<(u32, u32, DependencyEdge)>,
    name: Seq<char>,
) -> Seq<Seq<u32>> {
    let root = index_at_path(nodes, Seq::<char>::empty());
    if root < 0 {
        seq![]
    } else {
        walks_from_each(edges, nodes.len(), indices_named(nodes, name), root as u32)
    }
}

/// The views of the walks `all`.
pub open spec fn walk_views(all: Seq<Vec<u32>>) -> Seq<Seq<u32>> {
    all.map_values(|v: Vec<u32>| v@)
}

pub proof fn lemma_out_neighbors(edges: Seq<(u32, u32, DependencyEdge)>, a: u32, b: u32)
    ensures
        out_neighbors(edges, a).contains(b) <==> has_edge(edges, a, b),
    decreases edges.len(),
{
    if edges.len() > 0 {
        let init = edges.drop_last();
        lemma_out_neighbors(init, a, b);
        let rest = out_neighbors(init, a);
        if has_edge(init, a, b) {
            let k = choose|k: int| 0 <= k < init.len() && (#[trigger] init[k]).0 == a && init[k].1 == b;
            assert(edges[k] == init[k]);
        }
        if has_edge(edges, a, b) {
            let k = choose|k: int| 0 <= k < edges.len() && (#[trigger] edges[k]).0 == a && edges[k].1 == b;
            if k < init.len() {
                assert(init[k] == edges[k]);
            }
        }
        if edges.last().0 == a {
            let out = seq![edges.last().1] + rest;
            assert(out[0] == edges.last().1);
            if rest.contains(b) {
                let i = choose|i: int| 0 <= i < rest.len() && rest[i] == b;
                assert(out[i + 1] == b);
            }
            if out.contains(b) {
                let i = choose|i: int| 0 <= i < out.len() && out[i] == b;
                if i > 0 {
                    assert(rest[i - 1] == b);
                }
            }
        }
    }
}

/// A walk that visits no node twice, over nodes below `n`, has at most `n`
/// nodes.
pub proof fn lemma_distinct_bounded(s: Seq<u32>, n: int)
    requires
        0 <= n,
        s.no_duplicates(),
        forall|i: int| 0 <= i < s.len() ==> s[i] < n,
    ensures
        s.len() <= n,
    decreases n,
{
    if s.len() > 0 {
        let m = n - 1;
        assert(s[0] < n);
        if exists|k: int| 0 <= k < s.len() && s[k] == m {
            let k = choose|k: int| 0 <= k < s.len() && s[k] == m;
            let t = s.take(k) + s.skip(k + 1);
            assert forall|i: int| 0 <= i < t.len() implies t[i] < m by {
                if i < k {
                    assert(t[i] == s[i]);
                } else {
                    assert(t[i] == s[i + 1]);
                }
            }
            assert forall|i: int, j: int| 0 <= i < t.len() && 0 <= j < t.len() && i != j implies t[i]
                != t[j] by {
                let si = if i < k { i } else { i + 1 };
                let sj = if j < k { j } else { j + 1 };
                assert(t[i] == s[si]);
                assert(t[j] == s[sj]);
            }
            lemma_distinct_bounded(t, m);
            assert(t.len() == s.len() - 1);
        } else {
            assert forall|i: int| 0 <= i < s.len() implies s[i] < m by {
                assert(s[i] != m);
            }
            lemma_distinct_bounded(s, m);
        }
    }
}

proof fn lemma_found_in_split(old_all: Seq<Vec<u32>>, new_all: Seq<Vec<u32>>, from: int, v: Seq<u32>)
    requires
        0 <= from <= old_all.len() <= new_all.len(),
        new_all.take(old_all.len() as int) == old_all,
    ensures
        found_in(new_all, from, v) <==> found_in(old_all, from, v) || found_in(
            new_all,
            old_all.len() as int,
            v,
        ),
{
    if found_in(old_all, from, v) {
        let k = choose|k: int| from <= k < old_all.len() && (#[trigger] old_all[k])@ == v;
        assert(new_all[k] == old_all[k]);
    }
    if found_in(new_all, from, v) {
        let k = choose|k: int| from <= k < new_all.len() && (#[trigger] new_all[k])@ == v;
        if k < old_all.len() {
            assert(new_all[k] == old_all[k]);
        }
    }
}

/// The walks that continue `prefix` from `current` are the walks that
/// continue `prefix` and `current` from a successor of `current`.
proof fn lemma_extends_step(
    edges: Seq<(u32, u32, DependencyEdge)>,
    prefix: Seq<u32>,
    current: u32,
    target: u32,
    nbs: Seq<u32>,
    v: Seq<u32>,
)
    requires
        !prefix.contains(current),
        current != target,
        nbs == out_neighbors(edges, current),
    ensures
        extends_to(edges, prefix, current, target, v) <==> exists|j: int|
            0 <= j < nbs.len() && extends_to(edges, prefix.push(current), #[trigger] nbs[j], target, v),
{
    let p1 = prefix.push(current);
    let n = prefix.len() as int;
    if extends_to(edges, prefix, current, target, v) {
        assert(v.len() > n + 1) by {
            if v.len() == n + 1 {
                assert(v.last() == v[n]);
            }
        }
        let b = v[n + 1];
        assert(has_edge(edges, v[n], v[n + 1]));
        lemma_out_neighbors(edges, current, b);
        let j = choose|j: int| 0 <= j < nbs.len() && nbs[j] == b;
        assert(v.take(n + 1) == p1);
        assert(extends_to(edges, p1, nbs[j], target, v));
    }
    if exists|j: int|
        0 <= j < nbs.len() && extends_to(edges, p1, #[trigger] nbs[j], target, v) {
        let j = choose|j: int|
            0 <= j < nbs.len() && extends_to(edges, p1, #[trigger] nbs[j], target, v);
        assert(v.take(n + 1) == p1);
        assert(v.take(n) == v.take(n + 1).take(n));
        assert(p1.take(n) == prefix);
        assert(v[n] == p1[n]);
        assert(nbs.contains(nbs[j]));
        lemma_out_neighbors(edges, current, nbs[j]);
        assert forall|i: int| n <= i < v.len() - 1 implies #[trigger] has_edge(edges, v[i], v[i + 1]) by {
            if i == n {
                assert(v[n + 1] == nbs[j]);
            }
        }
    }
}

fn contains_index(v: &Vec<u32>, x: u32) -> (r: bool)
    ensures
        r == v@.contains(x),
{
    let mut i: usize = 0;
    while i < v.len()
        invariant
            i <= v@.len(),
            forall|j: int| 0 <= j < i ==> v@[j] != x,
        decreases v@.len() - i,
    {
        if v[i] == x {
            return true;
        }
        i = i + 1;
    }
    false
}

fn copy_indices(v: &Vec<u32>) -> (r: Vec<u32>)
    ensures
        r@ == v@,
{
    let mut r: Vec<u32> = Vec::new();
    let mut i: usize = 0;
    while i < v.len()
        invariant
            i <= v@.len(),
            r@ == v@.take(i as int),
        decreases v@.len() - i,
    {
        r.push(v[i]);
        assert(v@.take(i + 1) == v@.take(i as int).push(v@[i as int]));
        i = i + 1;
    }
    assert(v@.take(v@.len() as int) == v@);
    r
}

impl DependencyGraphService {
    /// Appends to `all_paths` every walk that continues `path` from
    /// `current` along edges to `target` without visiting a node twice.
    fn dfs_all_paths(
        &self,
        current: u32,
        target: u32,
        path: &mut Vec<u32>,
        all_paths: &mut Vec<Vec<u32>>,
    )
        requires
            self.wf(),
            current < self.nodes().len(),
            old(path)@.no_duplicates(),
            forall|i: int| 0 <= i < old(path)@.len() ==> old(path)@[i] < self.nodes().len(),
        ensures
            final(path)@ == old(path)@,
            walk_views(final(all_paths)@) == walk_views(old(all_paths)@) + walks_from(
                self.edges(),
                self.nodes().len(),
                old(path)@,
                current,
                target,
            ),
            final(all_paths)@.len() >= old(all_paths)@.len(),
            final(all_paths)@.take(old(all_paths)@.len() as int) == old(all_paths)@,
            forall|v: Seq<u32>|
                #![trigger found_in(final(all_paths)@, old(all_paths)@.len() as int, v)]
                #![trigger extends_to(self.edges(), old(path)@, current, target, v)]
                found_in(final(all_paths)@, old(all_paths)@.len() as int, v) <==> extends_to(
                    self.edges(),
                    old(path)@,
                    current,
                    target,
                    v,
                ),
        decreases self.nodes().len() - old(path)@.len(),
    {
        let ghost edges = self.edges();
        let ghost prefix = path@;
        let ghost all0 = all_paths@;
        let ghost l0 = all_paths@.len() as int;
        if contains_index(path, current) {
            proof {
                assert forall|v: Seq<u32>| !extends_to(edges, prefix, current, target, v) by {
                    if extends_to(edges, prefix, current, target, v) {
                        let k = choose|k: int| 0 <= k < prefix.len() && prefix[k] == current;
                        assert(v[k] == v.take(prefix.len() as int)[k]);
                    }
                }
                assert(all_paths@.take(l0) == all0);
                assert(walk_views(all_paths@) =~= walk_views(all0) + Seq::<Seq<u32>>::empty());
            }
            return;
        }
        path.push(current);
        let ghost p1 = path@;
        proof {
            assert(p1.no_duplicates());
            lemma_distinct_bounded(p1, self.nodes().len() as int);
        }
        if current == target {
            let found = copy_indices(path);
            all_paths.push(found);
            proof {
                assert(all_paths@.take(l0) == all0);
                assert(walk_views(all_paths@) =~= walk_views(all0) + seq![p1]);
                assert forall|v: Seq<u32>|
                    found_in(all_paths@, l0, v) <==> extends_to(edges, prefix, current, target, v) by {
                    if extends_to(edges, prefix, current, target, v) {
                        assert(v.len() == prefix.len() + 1) by {
                            if v.len() > prefix.len() + 1 {
                                assert(v[prefix.len() as int] == v[v.len() - 1]);
                            }
                        }
                        assert(v == v.take(prefix.len() as int).push(current));
                        assert(all_paths@[l0]@ == v);
                    }
                    if found_in(all_paths@, l0, v) {
                        assert(v == p1);
                        assert(v.take(prefix.len() as int) == prefix);
                    }
                }
            }
        } else {
            let nbs = graph_neighbors(&self.graph, current);
            let mut i: usize = 0;
            while i < nbs.len()
                invariant
                    self.wf(),
                    edges == self.edges(),
                    path@ == p1,
                    p1 == prefix.push(current),
                    prefix == old(path)@,
                    l0 == all0.len(),
                    p1.no_duplicates(),
                    p1.len() <= self.nodes().len(),
                    forall|j: int| 0 <= j < p1.len() ==> p1[j] < self.nodes().len(),
                    nbs@ == out_neighbors(edges, current),
                    i <= nbs@.len(),
                    all_paths@.len() >= l0,
                    all_paths@.take(l0) == all0,
                    walk_views(all_paths@) == walk_views(all0) + walks_via(
                        edges,
                        self.nodes().len(),
                        p1,
                        nbs@.take(i as int),
                        target,
                    ),
                    forall|v: Seq<u32>|
                        #![trigger found_in(all_paths@, l0, v)]
                        found_in(all_paths@, l0, v) <==> exists|j: int|
                            0 <= j < i && extends_to(edges, p1, #[trigger] nbs@[j], target, v),
                decreases nbs@.len() - i,
            {
                let nb = nbs[i];
                proof {
                    lemma_out_neighbors(edges, current, nb);
                    assert(out_neighbors(edges, current).contains(nb));
                    let k = choose|k: int|
                        0 <= k < edges.len() && (#[trigger] edges[k]).0 == current && edges[k].1 == nb;
                    assert(nb < self.nodes().len());
                }
                let ghost before = all_paths@;
                self.dfs_all_paths(nb, target, path, all_paths);
                proof {
                    assert forall|v: Seq<u32>|
                        #![trigger found_in(all_paths@, l0, v)]
                        found_in(all_paths@, l0, v) <==> exists|j: int|
                            0 <= j < i + 1 && extends_to(edges, p1, #[trigger] nbs@[j], target, v) by {
                        lemma_found_in_split(before, all_paths@, l0, v);
                        if extends_to(edges, p1, nbs@[i as int], target, v) {
                            assert(found_in(all_paths@, before.len() as int, v));
                        }
                        if found_in(all_paths@, before.len() as int, v) {
                            assert(extends_to(edges, p1, nbs@[i as int], target, v));
                        }
                    }
                    assert(all_paths@.take(l0) == all_paths@.take(before.len() as int).take(l0));
                    let n = self.nodes().len();
                    assert(nbs@.take(i + 1).drop_last() == nbs@.take(i as int));
                    assert(nbs@.take(i + 1).last() == nb);
                    assert(walks_via(edges, n, p1, nbs@.take(i + 1), target) == walks_via(
                        edges,
                        n,
                        p1,
                        nbs@.take(i as int),
                        target,
                    ) + walks_from(edges, n, p1, nb, target));
                    assert(walk_views(all_paths@) =~= walk_views(all0) + walks_via(
                        edges,
                        n,
                        p1,
                        nbs@.take(i + 1),
                        target,
                    ));
                }
                i = i + 1;
            }
            proof {
                assert(nbs@.take(nbs@.len() as int) == nbs@);
            }
            proof {
                assert forall|v: Seq<u32>|
                    found_in(all_paths@, l0, v) <==> extends_to(edges, prefix, current, target, v) by {
                    lemma_extends_step(edges, prefix, current, target, nbs@, v);
                }
            }
        }
        path.pop();
    }

    /// Every walk along dependency edges, visiting no node twice, from a
    /// package named `package_name` to the root package (the package whose
    /// path is empty). Empty when there is no root package.
    pub fn find_paths_to_root(&self, package_name: &str) -> (r: Vec<Vec<u32>>)
        requires
            self.wf(),
        ensures
            walk_views(r@) == root_walks(self.nodes(), self.edges(), package_name@),
            forall|v: Seq<u32>|
                #![trigger found_in(r@, 0, v)]
                found_in(r@, 0, v) <==> path_to_root(self.nodes(), self.edges(), package_name@, v),
    {
        let ghost nodes = self.nodes();
        let ghost edges = self.edges();
        let ghost named = indices_named(nodes, package_name@);
        proof {
            lemma_indices_named(nodes, package_name@);
            reveal_strlit("");
            lemma_index_at_path(nodes, Seq::<char>::empty());
            assert(""@ == Seq::<char>::empty());
        }
        let mut all_paths: Vec<Vec<u32>> = Vec::new();
        let package_indices = match self.name_to_indices.get(package_name) {
            Some(indices) => indices,
            None => {
                assert(walk_views(all_paths@) =~= Seq::<Seq<u32>>::empty());
                return all_paths;
            },
        };
        match self.path_to_index.get("") {
            Some(root) => {
                let root_index = *root;
                let mut i: usize = 0;
                while i < package_indices.len()
                    invariant
                        self.wf(),
                        nodes == self.nodes(),
                        edges == self.edges(),
                        package_indices@ == named,
                        named == indices_named(nodes, package_name@),
                        root_index == index_at_path(nodes, Seq::<char>::empty()),
                        index_at_path(nodes, Seq::<char>::empty()) >= 0,
                        forall|j: int| 0 <= j < named.len() ==> #[trigger] named[j] < nodes.len(),
                        i <= named.len(),
                        walk_views(all_paths@) == walks_from_each(
                            edges,
                            nodes.len(),
                            named.take(i as int),
                            root_index,
                        ),
                        forall|v: Seq<u32>|
                            #![trigger found_in(all_paths@, 0, v)]
                            found_in(all_paths@, 0, v) <==> exists|j: int|
                                0 <= j < i && is_simple_path(edges, v, #[trigger] named[j], root_index),
                    decreases named.len() - i,
                {
                    let start = package_indices[i];
                    let mut path: Vec<u32> = Vec::new();
                    let ghost before = all_paths@;
                    self.dfs_all_paths(start, root_index, &mut path, &mut all_paths);
                    proof {
                        assert forall|v: Seq<u32>|
                            #![trigger found_in(all_paths@, 0, v)]
                            found_in(all_paths@, 0, v) <==> exists|j: int|
                                0 <= j < i + 1 && is_simple_path(edges, v, #[trigger] named[j], root_index) by {
                            lemma_found_in_split(before, all_paths@, 0, v);
                            if is_simple_path(edges, v, named[i as int], root_index) {
                                assert(found_in(all_paths@, before.len() as int, v));
                            }
                            if found_in(all_paths@, before.len() as int, v) {
                                assert(extends_to(edges, Seq::<u32>::empty(), start, root_index, v));
                            }
                        }
                        assert(named.take(i + 1).drop_last() == named.take(i as int));
                        assert(named.take(i + 1).last() == start);
                        assert(path@ == Seq::<u32>::empty());
                        assert(walk_views(all_paths@) == walks_from_each(
                            edges,
                            nodes.len(),
                            named.take(i + 1),
                            root_index,
                        ));
                    }
                    i = i + 1;
                }
                assert(named.take(named.len() as int) == named);
            },
            None => {
                assert(walk_views(all_paths@) =~= Seq::<Seq<u32>>::empty());
            },
        }
        all_paths
    }
}

/// `v` is a walk along dependency edges, visiting no node twice, from a
/// package named `name` to the root package, the package whose path is
/// empty.
pub open spec fn path_to_root(
    nodes: Seq<PackageNode>,
    edges: Seq<(u32, u32, DependencyEdge)>,
    name: Seq<char>,
    v: Seq<u32>,
) -> bool {
    let root = index_at_path(nodes, Seq::<char>::empty());
    let named = indices_named(nodes, name);
    &&& root >= 0
    &&& exists|j: int| 0 <= j < named.len() && is_simple_path(edges, v, #[trigger] named[j], root as u32)
}

} // verus!

verus! {

/// `t` is the dependency tree of the packages named `name`: the walks from
/// those packages to the root, read from the root, merged into one ordered
/// tree whose root has the index `ROOT_INDEX`.
pub open spec fn is_dep_tree_of(
    nodes: Seq<PackageNode>,
    edges: Seq<(u32, u32, DependencyEdge)>,
    name: Seq<char>,
    t: DepTreeNode,
) -> bool {
    &&& t.index == ROOT_INDEX
    &&& tree_wf(t)
    &&& forall|s: Seq<u32>|
        #![trigger tree_has(t, s)]
        s.len() > 0 ==> (tree_has(t, s) <==> exists|v: Seq<u32>|
            #[trigger] path_to_root(nodes, edges, name, v) && s.is_prefix_of(v.reverse()))
}

/// The shape of a dependency tree: every walk down it begins at the root
/// package; under a package, each child is a package with a dependency
/// edge to it; and every leaf is a package named `name`.
pub proof fn lemma_dep_tree_shape(
    nodes: Seq<PackageNode>,
    edges: Seq<(u32, u32, DependencyEdge)>,
    name: Seq<char>,
    t: DepTreeNode,
)
    requires
        is_dep_tree_of(nodes, edges, name, t),
        nodes.len() <= u32::MAX,
    ensures
        forall|s: Seq<u32>|
            s.len() > 0 && #[trigger] tree_has(t, s) ==> s[0] == index_at_path(nodes, Seq::<char>::empty()),
        forall|s: Seq<u32>, x: u32|
            s.len() > 0 && #[trigger] tree_has(t, s.push(x)) ==> has_edge(edges, x, s.last()),
        forall|s: Seq<u32>|
            s.len() > 0 && #[trigger] tree_has(t, s) && (forall|x: u32| !tree_has(t, s.push(x)))
                ==> s.last() < nodes.len() && nodes[s.last() as int].name@ == name,
{
    let root = index_at_path(nodes, Seq::<char>::empty());
    lemma_indices_named(nodes, name);
    lemma_index_at_path(nodes, Seq::<char>::empty());
    assert forall|s: Seq<u32>| s.len() > 0 && #[trigger] tree_has(t, s) implies s[0] == root by {
        let v = choose|v: Seq<u32>| #[trigger] path_to_root(nodes, edges, name, v) && s.is_prefix_of(v.reverse());
        let j = choose|j: int| 0 <= j < indices_named(nodes, name).len() && is_simple_path(
            edges,
            v,
            #[trigger] indices_named(nodes, name)[j],
            root as u32,
        );
        assert(s[0] == v.reverse()[0]);
        assert(v.reverse()[0] == v[v.len() - 1]);
        assert(v.last() == root as u32);
    }
    assert forall|s: Seq<u32>, x: u32| s.len() > 0 && #[trigger] tree_has(t, s.push(x)) implies has_edge(
        edges,
        x,
        s.last(),
    ) by {
        let sx = s.push(x);
        assert(sx.len() > 0);
        let v = choose|v: Seq<u32>| #[trigger] path_to_root(nodes, edges, name, v) && sx.is_prefix_of(v.reverse());
        let j = choose|j: int| 0 <= j < indices_named(nodes, name).len() && is_simple_path(
            edges,
            v,
            #[trigger] indices_named(nodes, name)[j],
            root as u32,
        );
        let m = s.len() as int;
        let n = v.len() as int;
        assert(sx[m] == v.reverse()[m]);
        assert(sx[m - 1] == v.reverse()[m - 1]);
        assert(v.reverse()[m] == v[n - 1 - m]);
        assert(v.reverse()[m - 1] == v[n - m]);
        assert(has_edge(edges, v[n - 1 - m], v[n - 1 - m + 1]));
    }
    assert forall|s: Seq<u32>|
        s.len() > 0 && #[trigger] tree_has(t, s) && (forall|x: u32| !tree_has(t, s.push(x))) implies s.last()
        < nodes.len() && nodes[s.last() as int].name@ == name by {
        let v = choose|v: Seq<u32>| #[trigger] path_to_root(nodes, edges, name, v) && s.is_prefix_of(v.reverse());
        let j = choose|j: int| 0 <= j < indices_named(nodes, name).len() && is_simple_path(
            edges,
            v,
            #[trigger] indices_named(nodes, name)[j],
            root as u32,
        );
        let n = v.len() as int;
        if s.len() < n {
            let x = v.reverse()[s.len() as int];
            let sx = s.push(x);
            assert(sx.is_prefix_of(v.reverse())) by {
                assert(sx =~= v.reverse().take(s.len() as int + 1));
            }
            assert(tree_has(t, sx));
            assert(!tree_has(t, s.push(x)));
        }
        assert(s.len() == n);
        assert(s.last() == v.reverse()[n - 1]);
        assert(v.reverse()[n - 1] == v[0]);
    }
}

/// The views of the strings `v`.
pub open spec fn string_views(v: Seq<String>) -> Seq<Seq<char>> {
    v.map_values(|s: String| s@)
}

/// Whether `name` begins with one of `prefixes`.
fn has_any_prefix(name: &str, prefixes: &[&str]) -> (r: bool)
    ensures
        r == exists|i: int| 0 <= i < prefixes@.len() && has_prefix(name@, (#[trigger] prefixes@[i])@),
{
    let n = chars_of(name);
    let mut i: usize = 0;
    while i < prefixes.len()
        invariant
            n@ == name@,
            i <= prefixes@.len(),
            forall|j: int| 0 <= j < i ==> !has_prefix(name@, (#[trigger] prefixes@[j])@),
        decreases prefixes@.len() - i,
    {
        let p = chars_of(prefixes[i]);
        if starts_with_chars(&n, &p) {
            return true;
        }
        i = i + 1;
    }
    false
}

impl DependencyGraphService {
    /// The dependency tree of the packages named `package_name`, if any walk
    /// leads from one of them to the root.
    pub fn get_package_dependency_tree(&self, package_name: &str) -> (r: Option<DepTreeNode>)
        requires
            self.wf(),
        ensures
            r is None <==> forall|v: Seq<u32>| !path_to_root(self.nodes(), self.edges(), package_name@, v),
            r matches Some(t) ==> is_dep_tree_of(self.nodes(), self.edges(), package_name@, t),
            r matches Some(t) ==> t.children@.dom() == set![index_at_path(self.nodes(), Seq::<char>::empty()) as u32]
                && t.children@[index_at_path(self.nodes(), Seq::<char>::empty()) as u32].index == index_at_path(
                self.nodes(),
                Seq::<char>::empty(),
            ),
    {
        let node_paths = self.find_paths_to_root(package_name);
        if node_paths.len() == 0 {
            proof {
                assert forall|v: Seq<u32>| !path_to_root(self.nodes(), self.edges(), package_name@, v) by {
                    assert(!found_in(node_paths@, 0, v));
                }
            }
            return None;
        }
        proof {
            assert(found_in(node_paths@, 0, node_paths@[0]@));
        }
        let tree = build_dep_tree(node_paths.as_slice());
        proof {
            self.lemma_tree_of_paths(package_name@, node_paths@, tree);
            self.lemma_root_line(package_name@, tree);
        }
        Some(tree)
    }

    /// The tree that `build_dep_tree` merges from the walks that
    /// `find_paths_to_root` finds is the dependency tree of `name`.
    pub proof fn lemma_tree_of_paths(&self, name: Seq<char>, paths: Seq<Vec<u32>>, tree: DepTreeNode)
        requires
            forall|v: Seq<u32>|
                #![trigger found_in(paths, 0, v)]
                found_in(paths, 0, v) <==> path_to_root(self.nodes(), self.edges(), name, v),
            tree.index == ROOT_INDEX,
            tree_wf(tree),
            forall|s: Seq<u32>|
                #![trigger tree_has(tree, s)]
                s.len() > 0 ==> (tree_has(tree, s) <==> walk_of_paths(paths, s)),
        ensures
            is_dep_tree_of(self.nodes(), self.edges(), name, tree),
    {
        assert forall|s: Seq<u32>| s.len() > 0 implies (tree_has(tree, s) <==> exists|v: Seq<u32>|
            #[trigger] path_to_root(self.nodes(), self.edges(), name, v) && s.is_prefix_of(v.reverse())) by {
            if walk_of_paths(paths, s) {
                let k = choose|k: int| 0 <= k < paths.len() && s.is_prefix_of((#[trigger] paths[k])@.reverse());
                assert(found_in(paths, 0, paths[k]@));
            }
            if exists|v: Seq<u32>| #[trigger] path_to_root(self.nodes(), self.edges(), name, v) && s.is_prefix_of(v.reverse()) {
                let v = choose|v: Seq<u32>| #[trigger] path_to_root(self.nodes(), self.edges(), name, v) && s.is_prefix_of(v.reverse());
                assert(found_in(paths, 0, v));
                let k = choose|k: int| 0 <= k < paths.len() && (#[trigger] paths[k])@ == v;
                assert(walk_of_paths(paths, s));
            }
        }
    }

    /// A dependency tree of a package that has a walk to the root has one
    /// child, the root package, and its drawing begins with the root
    /// package's line.
    pub proof fn lemma_root_line(&self, name: Seq<char>, t: DepTreeNode)
        requires
            self.wf(),
            is_dep_tree_of(self.nodes(), self.edges(), name, t),
            exists|v: Seq<u32>| path_to_root(self.nodes(), self.edges(), name, v),
        ensures
            t.children@.dom() == set![index_at_path(self.nodes(), Seq::<char>::empty()) as u32],
            t.children@[index_at_path(self.nodes(), Seq::<char>::empty()) as u32].index == index_at_path(
                self.nodes(),
                Seq::<char>::empty(),
            ),
            tree_lines(self.nodes(), t, Seq::<char>::empty(), true).len() > 0,
            tree_lines(self.nodes(), t, Seq::<char>::empty(), true)[0] == package_line(
                self.nodes()[index_at_path(self.nodes(), Seq::<char>::empty())],
                Seq::<char>::empty(),
                true,
            ),
    {
        let nodes = self.nodes();
        let edges = self.edges();
        let root = index_at_path(nodes, Seq::<char>::empty());
        lemma_index_at_path(nodes, Seq::<char>::empty());
        lemma_indices_named(nodes, name);
        lemma_dep_tree_shape(nodes, edges, name, t);
        let v = choose|v: Seq<u32>| path_to_root(nodes, edges, name, v);
        let j = choose|j: int| 0 <= j < indices_named(nodes, name).len() && is_simple_path(
            edges,
            v,
            #[trigger] indices_named(nodes, name)[j],
            root as u32,
        );
        let r1 = seq![root as u32];
        assert(v.reverse()[0] == v[v.len() - 1]);
        assert(r1.is_prefix_of(v.reverse())) by {
            assert(r1 =~= v.reverse().take(1));
        }
        assert(tree_has(t, r1));
        lemma_single_child(t, root as u32);
        let r = root as u32;
        let cs = t.children;
        let e = Seq::<char>::empty();
        lemma_key_order_single(r);
        let ks = seq![r];
        assert(key_order(cs@.dom()) == ks);
        assert(cs@.dom().finite());
        let c = cs@[r];
        assert(child_prefix(t, e, true) == e);
        assert(head_lines(nodes, t, e, true) == Seq::<Seq<char>>::empty());
        assert(children_lines(nodes, cs, ks, 1, e) == Seq::<Seq<char>>::empty());
        assert(children_lines(nodes, cs, ks, 0, e) == tree_lines(nodes, c, e, true) + children_lines(
            nodes,
            cs,
            ks,
            1,
            e,
        ));
        assert(head_lines(nodes, c, e, true) == seq![package_line(nodes[root], e, true)]);
        assert(tree_lines(nodes, c, e, true)[0] == package_line(nodes[root], e, true));
        assert(tree_lines(nodes, t, e, true) == children_lines(nodes, cs, ks, 0, e));
    }

    /// Appends the lines that draw the tree `node` under `prefix`: a line
    /// `<prefix><branch> <name>@<version>[ -> <path>]` for each package, its
    /// children below it with a deeper prefix. The root draws no line and
    /// gives its children an empty prefix. Packages whose name begins with
    /// one of `highlight` are drawn like the others.
    pub fn print_dep_tree_lines(
        &self,
        node: &DepTreeNode,
        prefix: &str,
        is_last: bool,
        highlight: &[&str],
        lines: &mut Vec<String>,
    )
        ensures
            string_views(final(lines)@) == string_views(old(lines)@) + tree_lines(
                self.nodes(),
                *node,
                prefix@,
                is_last,
            ),
        decreases node,
    {
        let ghost nodes = self.nodes();
        let ghost start = string_views(lines@);
        let is_root = node.index == ROOT_INDEX;
        if !is_root {
            let branch = if is_last {
                "└──"
            } else {
                "├───┬"
            };
            match graph_node_weight(&self.graph, node.index) {
                Some(pkg) => {
                    let is_highlight = has_any_prefix(pkg.name.as_str(), highlight);
                    let mut line = String::new();
                    line.append(prefix);
                    line.append(branch);
                    line.append(" ");
                    line.append(pkg.name.as_str());
                    line.append("@");
                    line.append(pkg.version.as_str());
                    if !pkg.path.as_str().is_empty() {
                        line.append(" -> ");
                        line.append(pkg.path.as_str());
                    }
                    // highlighted packages are drawn like the others
                    if is_highlight {
                        lines.push(line);
                    } else {
                        lines.push(line);
                    }
                    proof {
                        assert(line@ == package_line(nodes[node.index as int], prefix@, is_last));
                    }
                },
                None => {},
            }
        }
        proof {
            assert(string_views(lines@) == start + head_lines(nodes, *node, prefix@, is_last));
        }
        let mut new_prefix = String::new();
        if !is_root {
            new_prefix.append(prefix);
            new_prefix.append(
                if is_last {
                    "    "
                } else {
                    "│   "
                },
            );
        }
        let ghost cp = child_prefix(*node, prefix@, is_last);
        assert(new_prefix@ == cp);
        let ghost m = node.children@;
        let ghost ks = key_order(m.dom());
        let len = node.children.len();
        let vals = node.children.values();
        proof {
            let kseq = choose|kseq: Seq<u32>|
                {
                    &&& increasing_seq(kseq)
                    &&& kseq.to_set() == m.dom()
                    &&& kseq.no_duplicates()
                    &&& vstd::std_specs::iter::IteratorSpec::remaining(&vals) == kseq.map(|i: int, k: u32| &m[k])
                };
            lemma_increasing_key_order(m.dom(), kseq);
            assert(vstd::std_specs::iter::IteratorSpec::remaining(&vals) == ks.map(|i: int, k: u32| &m[k]));
        }
        let mut i: usize = 0;
        for child in it: vals
            invariant
                nodes == self.nodes(),
                m == node.children@,
                ks == key_order(m.dom()),
                is_key_order(m.dom(), ks),
                len == ks.len(),
                it.seq() == ks.map(|i: int, k: u32| &m[k]),
                i == it.index(),
                new_prefix@ == cp,
                string_views(lines@) + children_lines(nodes, node.children, ks, i as int, cp) == start
                    + tree_lines(nodes, *node, prefix@, is_last),
        {
            let ghost k = ks[i as int];
            proof {
                assert(ks.contains(k));
                assert(m.contains_key(k));
                assert(*child == m[k]);
                assert(m.dom().finite());
                assert(decreases_to!(*node => m[k]));
            }
            self.print_dep_tree_lines(child, new_prefix.as_str(), i == len - 1, highlight, lines);
            proof {
                assert(children_lines(nodes, node.children, ks, i as int, cp) == tree_lines(
                    nodes,
                    m[k],
                    cp,
                    i == len - 1,
                ) + children_lines(nodes, node.children, ks, i + 1, cp));
            }
            i = i + 1;
        }
        proof {
            assert(children_lines(nodes, node.children, ks, i as int, cp) == Seq::<Seq<char>>::empty());
        }
    }

    /// The lines that draw the dependency tree of the packages named
    /// `package_name`, if any walk leads from one of them to the root.
    pub fn show_package_dependencies(&self, package_name: &str) -> (r: Option<Vec<String>>)
        requires
            self.wf(),
        ensures
            r is None <==> forall|v: Seq<u32>| !path_to_root(self.nodes(), self.edges(), package_name@, v),
            r is Some ==> exists|t: DepTreeNode| is_dep_tree_of(self.nodes(), self.edges(), package_name@, t),
            r matches Some(lines) ==> forall|t: DepTreeNode|
                #[trigger] is_dep_tree_of(self.nodes(), self.edges(), package_name@, t) ==> string_views(lines@)
                    == tree_lines(self.nodes(), t, Seq::<char>::empty(), true),
            r matches Some(lines) ==> lines@.len() > 0 && lines@[0]@ == package_line(
                self.nodes()[index_at_path(self.nodes(), Seq::<char>::empty())],
                Seq::<char>::empty(),
                true,
            ),
    {
        let node_paths = self.find_paths_to_root(package_name);
        if node_paths.len() == 0 {
            proof {
                assert forall|v: Seq<u32>| !path_to_root(self.nodes(), self.edges(), package_name@, v) by {
                    assert(!found_in(node_paths@, 0, v));
                }
            }
            return None;
        }
        proof {
            assert(found_in(node_paths@, 0, node_paths@[0]@));
        }
        let tree = build_dep_tree(node_paths.as_slice());
        proof {
            self.lemma_tree_of_paths(package_name@, node_paths@, tree);
        }
        let mut lines: Vec<String> = Vec::new();
        let highlight = [package_name];
        self.print_dep_tree_lines(&tree, "", true, &highlight, &mut lines);
        proof {
            reveal_strlit("");
            assert(""@ == Seq::<char>::empty());
            assert(string_views(Seq::<String>::empty()) == Seq::<Seq<char>>::empty());
            assert forall|t: DepTreeNode|
                #[trigger] is_dep_tree_of(self.nodes(), self.edges(), package_name@, t) implies string_views(lines@)
                    == tree_lines(self.nodes(), t, Seq::<char>::empty(), true) by {
                assert forall|s: Seq<u32>| tree_has(tree, s) == tree_has(t, s) by {
                    if s.len() > 0 {
                        assert(tree_has(tree, s) == tree_has(t, s));
                    }
                }
                lemma_lines_ext(self.nodes(), tree, t, Seq::<char>::empty(), true);
            }
            self.lemma_root_line(package_name@, tree);
            assert(string_views(lines@)[0] == lines@[0]@);
        }
        Some(lines)
    }
}

} // verus!

verus! {

impl Default for DependencyGraphService {
    /// An empty graph.
    fn default() -> (s: Self)
        ensures
            s.wf(),
            s.nodes() == Seq::<PackageNode>::empty(),
            s.edges() == Seq::<(u32, u32, DependencyEdge)>::empty(),
    {
        Self::new()
    }
}

/// `a` is `dir` or a directory that contains it: empty (the root), `dir`
/// itself, or a beginning of `dir` that ends right before one of its `/`.
pub open spec fn is_ancestor_dir(a: Seq<char>, dir: Seq<char>) -> bool {
    ||| a.len() == 0
    ||| a == dir
    ||| (a.len() < dir.len() && dir.take(a.len() as int) == a && dir[a.len() as int] == '/')
}

/// The directories that contain a nonempty `dir` are `dir` and those that
/// contain its parent.
proof fn lemma_ancestor_step(a: Seq<char>, dir: Seq<char>)
    requires
        dir.len() > 0,
    ensures
        is_ancestor_dir(a, dir) <==> (a == dir || is_ancestor_dir(a, parent_dir(dir))),
{
    lemma_rfind_char_facts(dir, '/');
    let k = rfind_char(dir, '/');
    let p = parent_dir(dir);
    if k < 0 {
        assert(p.len() == 0);
        if is_ancestor_dir(a, dir) && a != dir && a.len() > 0 {
            assert(dir[a.len() as int] == '/');
        }
    } else {
        assert(p == dir.take(k));
        if is_ancestor_dir(a, dir) && a != dir && a.len() > 0 {
            assert(dir[a.len() as int] == '/');
            assert(a.len() <= k);
            if a.len() < k {
                assert(p.take(a.len() as int) =~= dir.take(a.len() as int));
                assert(p[a.len() as int] == dir[a.len() as int]);
            } else {
                assert(a =~= p);
            }
        }
        if is_ancestor_dir(a, p) && a.len() > 0 {
            if a == p {
                assert(dir.take(k) == a);
            } else {
                assert(dir.take(a.len() as int) =~= p.take(a.len() as int));
                assert(dir[a.len() as int] == p[a.len() as int]);
            }
        }
    }
}

/// The walk up from `dir` finds the install of `dep` in the nearest
/// directory that contains `dir`, and finds none exactly when no such
/// directory has one.
proof fn lemma_resolve_up_ancestors(nodes: Seq<PackageNode>, dir: Seq<char>, dep: Seq<char>)
    ensures
        resolve_up(nodes, dir, dep) matches Some(r) ==> exists|a: Seq<char>|
            #[trigger] is_ancestor_dir(a, dir) && index_at_path(nodes, install_path(a, dep)) >= 0
                && index_at_path(nodes, install_path(a, dep)) as u32 == r && forall|a2: Seq<char>|
                #[trigger] is_ancestor_dir(a2, dir) && a2.len() > a.len() ==> index_at_path(
                    nodes,
                    install_path(a2, dep),
                ) < 0,
        resolve_up(nodes, dir, dep) is None ==> forall|a: Seq<char>|
            #[trigger] is_ancestor_dir(a, dir) ==> index_at_path(nodes, install_path(a, dep)) < 0,
    decreases dir.len(),
{
    let cand = index_at_path(nodes, install_path(dir, dep));
    if cand >= 0 {
        assert(is_ancestor_dir(dir, dir));
        assert forall|a2: Seq<char>| #[trigger] is_ancestor_dir(a2, dir) && a2.len() > dir.len() implies index_at_path(
            nodes,
            install_path(a2, dep),
        ) < 0 by {}
    } else if dir.len() == 0 {
        assert forall|a: Seq<char>| #[trigger] is_ancestor_dir(a, dir) implies index_at_path(
            nodes,
            install_path(a, dep),
        ) < 0 by {
            assert(a =~= dir);
        }
    } else {
        lemma_rfind_char_facts(dir, '/');
        let p = parent_dir(dir);
        lemma_resolve_up_ancestors(nodes, p, dep);
        assert(resolve_up(nodes, dir, dep) == resolve_up(nodes, p, dep));
        match resolve_up(nodes, p, dep) {
            Some(r) => {
                let a = choose|a: Seq<char>|
                    #[trigger] is_ancestor_dir(a, p) && index_at_path(nodes, install_path(a, dep)) >= 0
                        && index_at_path(nodes, install_path(a, dep)) as u32 == r && forall|a2: Seq<char>|
                        #[trigger] is_ancestor_dir(a2, p) && a2.len() > a.len() ==> index_at_path(
                            nodes,
                            install_path(a2, dep),
                        ) < 0;
                lemma_ancestor_step(a, dir);
                assert(is_ancestor_dir(a, dir));
                assert forall|a2: Seq<char>| #[trigger] is_ancestor_dir(a2, dir) && a2.len() > a.len() implies index_at_path(
                    nodes,
                    install_path(a2, dep),
                ) < 0 by {
                    lemma_ancestor_step(a2, dir);
                }
            },
            None => {
                assert forall|a: Seq<char>| #[trigger] is_ancestor_dir(a, dir) implies index_at_path(
                    nodes,
                    install_path(a, dep),
                ) < 0 by {
                    lemma_ancestor_step(a, dir);
                }
            },
        }
    }
}

/// A dependency resolves to the package installed in the nearest directory
/// that contains the dependent (the dependent's own directory, one that
/// contains it, or the root), whenever one of them has it installed and a
/// package has the dependency's name; no directory nearer to the dependent
/// has it. When none of those directories has it installed, it resolves to
/// the first package with that name, if any.
pub proof fn lemma_resolves_to_nearest_install(nodes: Seq<PackageNode>, from: Seq<char>, dep: Seq<char>)
    requires
        nodes.len() <= u32::MAX,
    ensures
        (exists|a: Seq<char>| #[trigger] is_ancestor_dir(a, from) && index_at_path(nodes, install_path(a, dep)) >= 0)
            && indices_named(nodes, dep).len() > 0 ==> {
            &&& resolve_dependency(nodes, from, dep) is Some
            &&& exists|a: Seq<char>|
                #[trigger] is_ancestor_dir(a, from) && nodes[resolve_dependency(nodes, from, dep)->0 as int].path@
                    == install_path(a, dep) && forall|a2: Seq<char>|
                    #[trigger] is_ancestor_dir(a2, from) && a2.len() > a.len() ==> index_at_path(
                        nodes,
                        install_path(a2, dep),
                    ) < 0
        },
        (forall|a: Seq<char>| #[trigger] is_ancestor_dir(a, from) ==> index_at_path(nodes, install_path(a, dep)) < 0)
            ==> resolve_dependency(nodes, from, dep) == if indices_named(nodes, dep).len() > 0 {
            Some(indices_named(nodes, dep)[0])
        } else {
            None
        },
{
    lemma_resolve_up_ancestors(nodes, from, dep);
    if (exists|a: Seq<char>| #[trigger] is_ancestor_dir(a, from) && index_at_path(nodes, install_path(a, dep)) >= 0)
        && indices_named(nodes, dep).len() > 0 {
        let a0 = choose|a: Seq<char>| #[trigger] is_ancestor_dir(a, from) && index_at_path(nodes, install_path(a, dep)) >= 0;
        assert(resolve_up(nodes, from, dep) is Some);
        let r = resolve_up(nodes, from, dep)->0;
        let a = choose|a: Seq<char>|
            #[trigger] is_ancestor_dir(a, from) && index_at_path(nodes, install_path(a, dep)) >= 0
                && index_at_path(nodes, install_path(a, dep)) as u32 == r && forall|a2: Seq<char>|
                #[trigger] is_ancestor_dir(a2, from) && a2.len() > a.len() ==> index_at_path(
                    nodes,
                    install_path(a2, dep),
                ) < 0;
        lemma_index_at_path(nodes, install_path(a, dep));
        assert(nodes[r as int].path@ == install_path(a, dep));
    }
    if forall|a: Seq<char>| #[trigger] is_ancestor_dir(a, from) ==> index_at_path(nodes, install_path(a, dep)) < 0 {
        if resolve_up(nodes, from, dep) is Some {
            let r = resolve_up(nodes, from, dep)->0;
            let a = choose|a: Seq<char>|
                #[trigger] is_ancestor_dir(a, from) && index_at_path(nodes, install_path(a, dep)) >= 0
                    && index_at_path(nodes, install_path(a, dep)) as u32 == r && forall|a2: Seq<char>|
                    #[trigger] is_ancestor_dir(a2, from) && a2.len() > a.len() ==> index_at_path(
                        nodes,
                        install_path(a2, dep),
                    ) < 0;
        }
    }
}

/// A dependency resolves to the package installed directly in the
/// dependent's own `node_modules`, whatever else is installed.
pub proof fn lemma_resolves_to_own_install(nodes: Seq<PackageNode>, from: Seq<char>, dep: Seq<char>)
    requires
        indices_named(nodes, dep).len() > 0,
        index_at_path(nodes, install_path(from, dep)) >= 0,
    ensures
        resolve_dependency(nodes, from, dep) == Some(index_at_path(nodes, install_path(from, dep)) as u32),
{
}

/// A dependency that is installed nowhere on the way from the dependent up
/// to the root resolves to the first package with that name.
pub proof fn lemma_resolves_to_first_named(nodes: Seq<PackageNode>, from: Seq<char>, dep: Seq<char>)
    requires
        indices_named(nodes, dep).len() > 0,
        resolve_up(nodes, from, dep) is None,
    ensures
        resolve_dependency(nodes, from, dep) == Some(indices_named(nodes, dep)[0]),
{
}

/// A dependency that no package is named after resolves to nothing, wherever
/// packages are installed.
pub proof fn lemma_unnamed_dependency_unresolved(nodes: Seq<PackageNode>, from: Seq<char>, dep: Seq<char>)
    requires
        forall|i: int| 0 <= i < nodes.len() ==> nodes[i].name@ != dep,
        nodes.len() <= u32::MAX,
    ensures
        resolve_dependency(nodes, from, dep) is None,
{
    lemma_indices_named(nodes, dep);
    if indices_named(nodes, dep).len() > 0 {
        let i = indices_named(nodes, dep)[0];
        assert(nodes[i as int].name@ == dep);
    }
}

/// The package that a dependency resolves to is a node of the graph.
pub proof fn lemma_resolved_is_node(nodes: Seq<PackageNode>, from: Seq<char>, dep: Seq<char>)
    requires
        nodes.len() <= u32::MAX,
    ensures
        resolve_dependency(nodes, from, dep) matches Some(i) ==> i < nodes.len(),
{
    lemma_indices_named(nodes, dep);
    lemma_resolve_up_bound(nodes, from, dep);
}

} // verus!
