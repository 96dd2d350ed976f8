//! The data of a `package-lock.json` file, and the dependency graph that it
//! describes.
use vstd::prelude::*;
use vstd::string::StringExecFns;
use crate::str_map::StrMap;
use crate::text::{rfind_char, lemma_rfind_char_facts, lemma_rfind_char_is, lemma_rfind_char_none, chars_of, rfind_char_in, sub_chars, string_of};
use crate::dependency_graph::{
    PackageNode, DependencyType, DependencyEdge, DependencyGraphService, index_at_path,
    resolve_dependency, lemma_index_at_path,
};

verus! {

/// A package entry of a lock file.
///
/// `bin`, `engines` and `funding` hold JSON values as JSON text.
#[derive(Debug, Clone)]
pub struct LockPackage {
    pub name: Option<String>,
    pub version: Option<String>,
    pub resolved: Option<String>,
    pub integrity: Option<String>,
    pub license: Option<String>,
    pub dependencies: Option<StrMap<String>>,
    pub dev_dependencies: Option<StrMap<String>>,
    pub peer_dependencies: Option<StrMap<String>>,
    pub optional_dependencies: Option<StrMap<String>>,
    pub requires: Option<StrMap<String>>,
    pub bin: Option<String>,
    pub engines: Option<String>,
    pub funding: Option<String>,
    pub peer: Option<bool>,
    pub dev: Option<bool>,
    pub optional: Option<bool>,
    pub has_install_script: Option<bool>,
    pub workspaces: Option<Vec<String>>,
}

/// A lock file: the project's name and version, the lock format, and the
/// packages by path (the root project at the empty path).
///
/// The values of `dependencies` are JSON values as JSON text.
#[derive(Debug, Clone)]
pub struct PackageLock {
    pub name: String,
    pub version: String,
    pub lockfile_version: u32,
    pub requires: bool,
    pub packages: StrMap<LockPackage>,
    pub dependencies: Option<StrMap<String>>,
}

/// The last `/`-separated segment of `path` (`path.rsplit('/').next()`).
pub open spec fn last_segment(path: Seq<char>) -> Seq<char> {
    let k = rfind_char(path, '/');
    if k < 0 {
        path
    } else {
        path.skip(k + 1)
    }
}

/// The package name that ends `path`: its last segment, or its last two
/// (`@scope/name`) when the one before the last begins with `@`.
pub open spec fn path_package_name(path: Seq<char>) -> Seq<char> {
    let k = rfind_char(path, '/');
    if k < 0 {
        path
    } else {
        let j = rfind_char(path.take(k), '/');
        if j + 1 < k && path[j + 1] == '@' {
            path.skip(j + 1)
        } else {
            path.skip(k + 1)
        }
    }
}

/// `x` is a path segment: not empty and without `/`.
pub open spec fn is_segment(x: Seq<char>) -> bool {
    x.len() > 0 && !x.contains('/')
}

proof fn lemma_segment_chars(x: Seq<char>)
    requires
        is_segment(x),
    ensures
        forall|j: int| 0 <= j < x.len() ==> x[j] != '/',
{
    assert forall|j: int| 0 <= j < x.len() implies x[j] != '/' by {
        if x[j] == '/' {
            assert(x.contains('/'));
        }
    }
}

/// The last `/` of `q + "/" + x` is the one before `x`, for a segment `x`.
proof fn lemma_last_slash_before(q: Seq<char>, x: Seq<char>)
    requires
        is_segment(x),
    ensures
        rfind_char(q + "/"@ + x, '/') == q.len(),
        (q + "/"@ + x).take(q.len() as int) == q,
        (q + "/"@ + x).skip(q.len() as int + 1) == x,
{
    reveal_strlit("/");
    lemma_segment_chars(x);
    let s = q + "/"@ + x;
    let k = q.len() as int;
    assert forall|j: int| k < j < s.len() implies s[j] != '/' by {
        assert(s[j] == x[j - k - 1]);
    }
    lemma_rfind_char_is(s, '/', k);
    assert(s.take(k) =~= q);
    assert(s.skip(k + 1) =~= x);
}

/// A nameless entry installed at `q + "node_modules/" + x`, for a directory
/// `q` (empty or ending in `/`) and a segment `x`, is named `x`; one at
/// `q + "node_modules/" + s + "/" + x` with a scope `s` (a segment that
/// begins with `@`) is named `s/x`. The name is never more of the path than
/// that.
pub proof fn lemma_name_from_install_path(q: Seq<char>, s: Option<Seq<char>>, x: Seq<char>)
    requires
        q.len() == 0 || q.last() == '/',
        is_segment(x),
        s matches Some(sc) ==> is_segment(sc) && sc[0] == '@',
    ensures
        package_name_of(
            None,
            match s {
                Some(sc) => q + "node_modules/"@ + sc + "/"@ + x,
                None => q + "node_modules/"@ + x,
            },
        ) == match s {
            Some(sc) => sc + "/"@ + x,
            None => x,
        },
{
    reveal_strlit("node_modules/");
    reveal_strlit("node_modules");
    reveal_strlit("/");
    let nm = "node_modules"@;
    assert forall|j: int| 0 <= j < nm.len() implies nm[j] != '/' by {}
    match s {
        Some(sc) => {
            let front = q + nm + "/"@ + sc;
            let path = front + "/"@ + x;
            assert(path =~= q + "node_modules/"@ + sc + "/"@ + x);
            lemma_last_slash_before(front, x);
            lemma_last_slash_before(q + nm, sc);
            let k = front.len() as int;
            let j = (q + nm).len() as int;
            assert(rfind_char(path.take(k), '/') == j);
            assert(path[j + 1] == sc[0]);
            assert(j + 1 < k);
            assert(path.skip(j + 1) =~= sc + "/"@ + x);
        },
        None => {
            let front = q + nm;
            let path = front + "/"@ + x;
            assert(path =~= q + "node_modules/"@ + x);
            lemma_last_slash_before(front, x);
            let k = front.len() as int;
            assert(path.take(k) == front);
            if q.len() == 0 {
                assert forall|i: int| 0 <= i < front.len() implies front[i] != '/' by {
                    assert(front[i] == nm[i]);
                }
                lemma_rfind_char_none(front, '/');
                assert(path[0] == 'n');
            } else {
                let j = q.len() - 1;
                assert forall|i: int| j < i < front.len() implies front[i] != '/' by {
                    assert(front[i] == nm[i - q.len()]);
                }
                assert(front[j] == q.last());
                lemma_rfind_char_is(front, '/', j);
                assert(path[j + 1] == 'n');
            }
        },
    }
}

/// The name of a package: its own, else `root` for the empty path, else
/// the package name that ends its path.
pub open spec fn package_name_of(name: Option<String>, path: Seq<char>) -> Seq<char> {
    match name {
        Some(n) => n@,
        None => if path.len() == 0 {
            "root"@
        } else {
            path_package_name(path)
        },
    }
}

/// The version of a package: its own, else `unknown`.
pub open spec fn package_version_of(version: Option<String>) -> Seq<char> {
    match version {
        Some(v) => v@,
        None => "unknown"@,
    }
}

/// The entries of an optional map; none for an absent map.
pub open spec fn entries_of(m: Option<StrMap<String>>) -> Seq<(String, String)> {
    match m {
        Some(m) => m.items(),
        None => seq![],
    }
}

impl LockPackage {
    /// The package's name, inferred from `path` when the entry has none.
    pub fn get_name(&self, path: &str) -> (r: String)
        ensures
            r@ == package_name_of(self.name, path@),
    {
        match &self.name {
            Some(name) => name.clone(),
            None => {
                if path.is_empty() {
                    String::from_str("root")
                } else {
                    let p = chars_of(path);
                    proof {
                        lemma_rfind_char_facts(p@, '/');
                    }
                    let len = p.len();
                    match rfind_char_in(&p, '/') {
                        Some(k) => {
                            assert(k < len);
                            let front = sub_chars(&p, 0, k);
                            proof {
                                assert(front@ == p@.take(k as int));
                                lemma_rfind_char_facts(front@, '/');
                            }
                            let start: usize = match rfind_char_in(&front, '/') {
                                Some(j) => j + 1,
                                None => 0,
                            };
                            if start < k && p[start] == '@' {
                                let seg = sub_chars(&p, start, len);
                                assert(seg@ == p@.skip(start as int));
                                string_of(&seg)
                            } else {
                                let seg = sub_chars(&p, k + 1, len);
                                assert(seg@ == p@.skip(k + 1));
                                string_of(&seg)
                            }
                        },
                        None => string_of(&p),
                    }
                }
            },
        }
    }

    /// The package's version, `unknown` when the entry has none.
    pub fn get_version(&self) -> (r: String)
        ensures
            r@ == package_version_of(self.version),
    {
        match &self.version {
            Some(v) => v.clone(),
            None => String::from_str("unknown"),
        }
    }
}

/// The node built for the lock entry `pkg` at `path`.
pub open spec fn node_for(n: PackageNode, path: String, pkg: LockPackage) -> bool {
    &&& n.name@ == package_name_of(pkg.name, path@)
    &&& n.version@ == package_version_of(pkg.version)
    &&& n.path == path
    &&& n.dependencies.items() == entries_of(pkg.dependencies)
    &&& n.dev_dependencies.items() == entries_of(pkg.dev_dependencies)
    &&& n.optional_dependencies.items() == entries_of(pkg.optional_dependencies)
    &&& n.peer_dependencies.items() == entries_of(pkg.peer_dependencies)
}

/// The edges for the dependencies `deps` of kind `kind` of the package at
/// `path`, in order: one edge from each dependency that resolves to a node,
/// to the node at `path`.
pub open spec fn dep_edges(
    nodes: Seq<PackageNode>,
    path: Seq<char>,
    deps: Seq<(String, String)>,
    kind: DependencyType,
) -> Seq<(u32, u32, DependencyEdge)>
    decreases deps.len(),
{
    if deps.len() == 0 {
        seq![]
    } else {
        let prev = dep_edges(nodes, path, deps.drop_last(), kind);
        let from = index_at_path(nodes, path);
        match resolve_dependency(nodes, path, deps.last().0@) {
            Some(to) => if from >= 0 {
                prev.push(
                    (
                        to,
                        from as u32,
                        DependencyEdge { _dependency_type: kind, _version_spec: deps.last().1 },
                    ),
                )
            } else {
                prev
            },
            None => prev,
        }
    }
}

/// The edges for all dependencies of the package `pkg` at `path`: the
/// production, development, optional and peer dependencies, in that order.
pub open spec fn package_edges(nodes: Seq<PackageNode>, path: Seq<char>, pkg: LockPackage) -> Seq<(u32, u32, DependencyEdge)> {
    dep_edges(nodes, path, entries_of(pkg.dependencies), DependencyType::Production) + dep_edges(
        nodes,
        path,
        entries_of(pkg.dev_dependencies),
        DependencyType::Development,
    ) + dep_edges(nodes, path, entries_of(pkg.optional_dependencies), DependencyType::Optional)
        + dep_edges(nodes, path, entries_of(pkg.peer_dependencies), DependencyType::Peer)
}

/// The edges for the lock entries `items`, in order.
pub open spec fn lock_edges(nodes: Seq<PackageNode>, items: Seq<(String, LockPackage)>) -> Seq<(u32, u32, DependencyEdge)>
    decreases items.len(),
{
    if items.len() == 0 {
        seq![]
    } else {
        lock_edges(nodes, items.drop_last()) + package_edges(nodes, items.last().0@, items.last().1)
    }
}

/// The edges of a prefix of the dependencies are a prefix of their edges.
proof fn lemma_dep_edges_prefix(
    nodes: Seq<PackageNode>,
    path: Seq<char>,
    deps: Seq<(String, String)>,
    kind: DependencyType,
    j: int,
)
    requires
        0 <= j <= deps.len(),
    ensures
        dep_edges(nodes, path, deps.take(j), kind).len() <= dep_edges(nodes, path, deps, kind).len(),
    decreases deps.len() - j,
{
    if j < deps.len() {
        lemma_dep_edges_prefix(nodes, path, deps, kind, j + 1);
        assert(deps.take(j + 1).drop_last() == deps.take(j));
    } else {
        assert(deps.take(j) == deps);
    }
}

/// The edges of a prefix of the entries are a prefix of their edges.
proof fn lemma_lock_edges_prefix(nodes: Seq<PackageNode>, items: Seq<(String, LockPackage)>, i: int)
    requires
        0 <= i <= items.len(),
    ensures
        lock_edges(nodes, items.take(i)).len() <= lock_edges(nodes, items).len(),
    decreases items.len() - i,
{
    if i < items.len() {
        lemma_lock_edges_prefix(nodes, items, i + 1);
        assert(items.take(i + 1).drop_last() == items.take(i));
    } else {
        assert(items.take(i) == items);
    }
}

/// The nodes `ns` are those built for the entries `items`, in order.
pub open spec fn nodes_for(ns: Seq<PackageNode>, items: Seq<(String, LockPackage)>) -> bool {
    &&& ns.len() == items.len()
    &&& forall|i: int| 0 <= i < items.len() ==> node_for(#[trigger] ns[i], items[i].0, items[i].1)
}

/// The node at position `i` is the last one at its path when no later node
/// has that path.
proof fn lemma_index_at_path_is(nodes: Seq<PackageNode>, path: Seq<char>, i: int)
    requires
        0 <= i < nodes.len(),
        nodes[i].path@ == path,
        forall|j: int| i < j < nodes.len() ==> nodes[j].path@ != path,
    ensures
        index_at_path(nodes, path) == i,
    decreases nodes.len(),
{
    if i < nodes.len() - 1 {
        assert(nodes.last().path@ != path);
        lemma_index_at_path_is(nodes.drop_last(), path, i);
    }
}

/// Adds the edges for the dependencies `deps` of kind `kind` of the package
/// at `path`, as `dep_edges` lists them.
fn add_dependency_edges(
    graph: &mut DependencyGraphService,
    path: &String,
    name: &String,
    deps: &Option<StrMap<String>>,
    kind: DependencyType,
)
    requires
        old(graph).wf(),
        old(graph).edges().len() + dep_edges(old(graph).nodes(), path@, entries_of(*deps), kind).len()
            < u32::MAX,
    ensures
        final(graph).wf(),
        final(graph).nodes() == old(graph).nodes(),
        final(graph).edges() == old(graph).edges() + dep_edges(
            old(graph).nodes(),
            path@,
            entries_of(*deps),
            kind,
        ),
{
    let ghost nodes = graph.nodes();
    let ghost e0 = graph.edges();
    if let Some(deps) = deps {
        let ghost items = deps.items();
        let mut j: usize = 0;
        while j < deps.len()
            invariant
                graph.wf(),
                graph.nodes() == nodes,
                items == deps.items(),
                j <= items.len(),
                e0.len() + dep_edges(nodes, path@, items, kind).len() < u32::MAX,
                graph.edges() == e0 + dep_edges(nodes, path@, items.take(j as int), kind),
            decreases items.len() - j,
        {
            proof {
                lemma_dep_edges_prefix(nodes, path@, items, kind, j + 1);
                assert(items.take(j + 1).drop_last() == items.take(j as int));
                lemma_index_at_path(nodes, path@);
            }
            let dep_name = deps.key_at(j);
            let dep_version = deps.value_at(j).clone();
            let kind_here = match kind {
                DependencyType::Production => DependencyType::Production,
                DependencyType::Development => DependencyType::Development,
                DependencyType::Optional => DependencyType::Optional,
                DependencyType::Peer => DependencyType::Peer,
            };
            let _ = graph.try_add_dependency_with_path(
                path.as_str(),
                name.as_str(),
                dep_name.as_str(),
                kind_here,
                dep_version,
            );
            proof {
                assert(graph.edges() == e0 + dep_edges(nodes, path@, items.take(j + 1), kind));
            }
            j = j + 1;
        }
        assert(items.take(items.len() as int) == items);
    } else {
        assert(graph.edges() == e0 + Seq::<(u32, u32, DependencyEdge)>::empty());
    }
}

impl PackageLock {
    /// The dependency graph of the lock file: one node per package entry,
    /// in the order of the entries, then, entry by entry, an edge for each
    /// declared dependency that resolves to a package (see
    /// `resolve_dependency`), from that package to the entry's package.
    pub fn build_dependency_graph(&self) -> (g: DependencyGraphService)
        requires
            self.packages.wf(),
            self.packages.items().len() < u32::MAX,
            forall|ns: Seq<PackageNode>|
                nodes_for(ns, self.packages.items()) ==> #[trigger] lock_edges(
                    ns,
                    self.packages.items(),
                ).len() < u32::MAX,
        ensures
            g.wf(),
            g.nodes().len() == self.packages.items().len(),
            forall|i: int|
                0 <= i < self.packages.items().len() ==> index_at_path(
                    g.nodes(),
                    #[trigger] self.packages.items()[i].0@,
                ) == i,
            forall|i: int|
                0 <= i < self.packages.items().len() ==> node_for(
                    #[trigger] g.nodes()[i],
                    self.packages.items()[i].0,
                    self.packages.items()[i].1,
                ),
            g.edges() == lock_edges(g.nodes(), self.packages.items()),
    {
        let ghost items = self.packages.items();
        let n = self.packages.len();
        let mut graph = DependencyGraphService::new();
        let mut i: usize = 0;
        while i < n
            invariant
                n == items.len(),
                items == self.packages.items(),
                items.len() < u32::MAX,
                i <= n,
                graph.wf(),
                graph.nodes().len() == i,
                graph.edges() == Seq::<(u32, u32, DependencyEdge)>::empty(),
                forall|j: int| 0 <= j < i ==> node_for(#[trigger] graph.nodes()[j], items[j].0, items[j].1),
            decreases n - i,
        {
            let path = self.packages.key_at(i);
            let package = self.packages.value_at(i);
            let name = package.get_name(path.as_str());
            let version = package.get_version();
            let mut node = PackageNode::new(name, version, path.clone());
            if let Some(deps) = &package.dependencies {
                node.dependencies = deps.duplicate();
            }
            if let Some(dev_deps) = &package.dev_dependencies {
                node.dev_dependencies = dev_deps.duplicate();
            }
            if let Some(peer_deps) = &package.peer_dependencies {
                node.peer_dependencies = peer_deps.duplicate();
            }
            if let Some(opt_deps) = &package.optional_dependencies {
                node.optional_dependencies = opt_deps.duplicate();
            }
            proof {
                assert(node.dependencies.items() =~= entries_of(package.dependencies));
                assert(node.dev_dependencies.items() =~= entries_of(package.dev_dependencies));
                assert(node.optional_dependencies.items() =~= entries_of(package.optional_dependencies));
                assert(node.peer_dependencies.items() =~= entries_of(package.peer_dependencies));
                assert(node_for(node, items[i as int].0, items[i as int].1));
            }
            let ghost before = graph.nodes();
            graph.add_package(node);
            proof {
                assert forall|j: int| 0 <= j < i + 1 implies node_for(#[trigger] graph.nodes()[j], items[j].0, items[j].1) by {
                    if j < i {
                        assert(graph.nodes()[j] == before[j]);
                    }
                }
            }
            i = i + 1;
        }
        let ghost nodes = graph.nodes();
        proof {
            assert(nodes_for(nodes, items));
            assert(lock_edges(nodes, items).len() < u32::MAX);
            assert forall|i: int| 0 <= i < items.len() implies index_at_path(
                nodes,
                #[trigger] items[i].0@,
            ) == i by {
                assert(node_for(nodes[i], items[i].0, items[i].1));
                assert forall|j: int| i < j < nodes.len() implies nodes[j].path@ != items[i].0@ by {
                    assert(node_for(nodes[j], items[j].0, items[j].1));
                }
                lemma_index_at_path_is(nodes, items[i].0@, i);
            }
        }
        let mut i: usize = 0;
        assert(lock_edges(nodes, items.take(0)) == Seq::<(u32, u32, DependencyEdge)>::empty());
        while i < n
            invariant
                n == items.len(),
                items == self.packages.items(),
                lock_edges(nodes, items).len() < u32::MAX,
                forall|k: int| 0 <= k < items.len() ==> index_at_path(nodes, #[trigger] items[k].0@) == k,
                i <= n,
                graph.wf(),
                graph.nodes() == nodes,
                graph.edges() == lock_edges(nodes, items.take(i as int)),
            decreases n - i,
        {
            let path = self.packages.key_at(i);
            let package = self.packages.value_at(i);
            let name = match &package.name {
                Some(name) => name.clone(),
                None => String::from_str("root"),
            };
            proof {
                lemma_lock_edges_prefix(nodes, items, i + 1);
                assert(items.take(i + 1).drop_last() == items.take(i as int));
                assert(items.take(i + 1).last() == items[i as int]);
                assert(lock_edges(nodes, items.take(i + 1)) == lock_edges(nodes, items.take(i as int))
                    + package_edges(nodes, path@, *package));
            }
            let ghost e_start = graph.edges();
            add_dependency_edges(&mut graph, path, &name, &package.dependencies, DependencyType::Production);
            add_dependency_edges(&mut graph, path, &name, &package.dev_dependencies, DependencyType::Development);
            add_dependency_edges(&mut graph, path, &name, &package.optional_dependencies, DependencyType::Optional);
            add_dependency_edges(&mut graph, path, &name, &package.peer_dependencies, DependencyType::Peer);
            proof {
                assert(graph.edges() == e_start + package_edges(nodes, path@, *package));
                assert(lock_edges(nodes, items.take(i + 1)) == lock_edges(nodes, items.take(i as int))
                    + package_edges(nodes, path@, *package));
            }
            i = i + 1;
        }
        assert(items.take(n as int) == items);
        graph
    }
}

} // verus!
