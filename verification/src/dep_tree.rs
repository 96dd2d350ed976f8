//! Dependency trees: the walks from a package to the root, merged into a
//! tree that starts at the root.
use vstd::prelude::*;
use std::collections::BTreeMap;
use vstd::std_specs::btree::increasing_seq;
use crate::dependency_graph::PackageNode;

verus! {

/// The index that marks the root of a dependency tree (`NodeIndex::end()`).
pub const ROOT_INDEX: u32 = 0xffff_ffff;

/// A node of a dependency tree: a node index and its children by index.
#[derive(Debug)]
pub struct DepTreeNode {
    pub index: u32,
    pub children: BTreeMap<u32, DepTreeNode>,
}

/// Every child of every node of `t` is kept under its own index.
pub open spec fn tree_wf(t: DepTreeNode) -> bool
    decreases t,
{
    forall|k: u32|
        #[trigger] t.children@.contains_key(k) ==> {
            &&& t.children@[k].index == k
            &&& tree_wf(t.children@[k])
        }
}

/// `s` is a walk down `t`: `s[0]` is a child of `t`, `s[1]` a child of
/// that child, and so on.
pub open spec fn tree_has(t: DepTreeNode, s: Seq<u32>) -> bool
    decreases s.len(),
{
    if s.len() == 0 {
        true
    } else {
        t.children@.contains_key(s[0]) && tree_has(t.children@[s[0]], s.drop_first())
    }
}

/// The walk `[k]` is in `t` exactly when `t` has a child `k`.
pub proof fn lemma_tree_has_one(t: DepTreeNode, k: u32)
    ensures
        tree_has(t, seq![k]) == t.children@.contains_key(k),
{
    let q = seq![k];
    assert(q.drop_first() =~= Seq::<u32>::empty());
    if t.children@.contains_key(k) {
        assert(tree_has(t.children@[k], Seq::<u32>::empty()));
    }
}

/// The walks of the tree built from `paths`: the nonempty prefixes of the
/// paths read backwards.
pub open spec fn walk_of_paths(paths: Seq<Vec<u32>>, s: Seq<u32>) -> bool {
    s.len() > 0 && exists|k: int| 0 <= k < paths.len() && s.is_prefix_of((#[trigger] paths[k])@.reverse())
}

/// `q` is a prefix of `s.skip(start)` exactly when it starts with
/// `s[start]` and goes on with a prefix of `s.skip(start + 1)`.
proof fn lemma_prefix_step(q: Seq<u32>, s: Seq<u32>, start: int)
    requires
        0 <= start < s.len(),
        q.len() > 0,
    ensures
        q.is_prefix_of(s.skip(start)) <==> (q[0] == s[start] && q.drop_first().is_prefix_of(
            s.skip(start + 1),
        )),
{
    let a = s.skip(start);
    let b = s.skip(start + 1);
    if q.is_prefix_of(a) {
        assert(q[0] == a[0]);
        assert forall|i: int| 0 <= i < q.len() - 1 implies q.drop_first()[i] == b[i] by {
            assert(q[i + 1] == a.subrange(0, q.len() as int)[i + 1]);
        }
        assert(q.drop_first() =~= b.subrange(0, q.len() - 1));
    }
    if q[0] == s[start] && q.drop_first().is_prefix_of(b) {
        assert forall|i: int| 0 <= i < q.len() implies q[i] == a[i] by {
            if i > 0 {
                assert(q[i] == q.drop_first()[i - 1]);
                assert(q.drop_first()[i - 1] == b.subrange(0, q.len() - 1)[i - 1]);
            }
        }
        assert(q =~= a.subrange(0, q.len() as int));
    }
}

/// What `insert_chain` promises of a subtree: its children stay under their
/// indices, and its walks are its former walks and the prefixes of
/// `s[start..]`.
pub open spec fn chain_inserted(before: DepTreeNode, after: DepTreeNode, s: Seq<u32>, start: int) -> bool {
    &&& after.index == before.index
    &&& tree_wf(after)
    &&& forall|q: Seq<u32>|
        #![trigger tree_has(after, q)]
        q.len() > 0 ==> (tree_has(after, q) <==> tree_has(before, q) || q.is_prefix_of(s.skip(start)))
}

/// Adds to the tree under `node` the walk `s[start..]`.
fn insert_chain(node: &mut DepTreeNode, s: &Vec<u32>, start: usize)
    requires
        tree_wf(*old(node)),
        start <= s@.len(),
    ensures
        chain_inserted(*old(node), *final(node), s@, start as int),
    decreases s@.len() - start,
{
    if start == s.len() {
        proof {
            assert forall|q: Seq<u32>| q.len() > 0 implies !q.is_prefix_of(s@.skip(start as int)) by {}
        }
        return;
    }
    let ghost before = *node;
    let x = s[start];
    let removed = node.children.remove(&x);
    let ghost had = before.children@.contains_key(x);
    let mut child = match removed {
        Some(c) => c,
        None => DepTreeNode { index: x, children: BTreeMap::new() },
    };
    let ghost old_child = child;
    proof {
        if had {
            assert(old_child == before.children@[x]);
        }
        assert(tree_wf(old_child));
        assert(old_child.index == x);
    }
    insert_chain(&mut child, s, start + 1);
    let ghost new_child = child;
    node.children.insert(x, child);
    proof {
        let bm = before.children@;
        let am = node.children@;
        assert(am =~= bm.insert(x, new_child));
        assert forall|k: u32| #[trigger] am.contains_key(k) implies am[k].index == k && tree_wf(am[k]) by {
            if k != x {
                assert(am[k] == bm[k]);
            }
        }
        assert(tree_wf(*node));
        assert forall|q: Seq<u32>| q.len() > 0 implies (tree_has(*node, q) <==> tree_has(before, q)
            || q.is_prefix_of(s@.skip(start as int))) by {
            lemma_prefix_step(q, s@, start as int);
            let q1 = q.drop_first();
            if q[0] == x {
                assert(tree_has(*node, q) == tree_has(new_child, q1));
                if q1.len() > 0 {
                    assert(tree_has(new_child, q1) <==> tree_has(old_child, q1) || q1.is_prefix_of(
                        s@.skip(start + 1),
                    ));
                    if had {
                        assert(tree_has(before, q) == tree_has(old_child, q1));
                    } else {
                        assert(!tree_has(before, q));
                        assert(!tree_has(old_child, q1));
                    }
                } else {
                    assert(q1.is_prefix_of(s@.skip(start + 1)));
                    assert(tree_has(new_child, q1));
                }
            } else {
                if bm.contains_key(q[0]) {
                    assert(am[q[0]] == bm[q[0]]);
                }
                assert(tree_has(*node, q) == tree_has(before, q));
            }
        }
        assert(node.index == before.index);
        assert(chain_inserted(before, *node, s@, start as int));
    }
}

fn reversed(v: &Vec<u32>) -> (r: Vec<u32>)
    ensures
        r@ == v@.reverse(),
{
    let mut r: Vec<u32> = Vec::new();
    let mut i: usize = v.len();
    while i > 0
        invariant
            i <= v@.len(),
            r@.len() == v@.len() - i,
            forall|j: int| 0 <= j < r@.len() ==> r@[j] == v@[v@.len() - 1 - j],
        decreases i,
    {
        r.push(v[i - 1]);
        i = i - 1;
    }
    assert(r@ =~= v@.reverse());
    r
}

/// Merges the walks `paths` (each from a package up to the root) into one
/// tree that starts at the root: each walk is read backwards from the root,
/// and walks that share a beginning share the nodes of it. The root has the
/// index `ROOT_INDEX`.
pub fn build_dep_tree(paths: &[Vec<u32>]) -> (t: DepTreeNode)
    ensures
        t.index == ROOT_INDEX,
        tree_wf(t),
        forall|s: Seq<u32>|
            #![trigger tree_has(t, s)]
            s.len() > 0 ==> (tree_has(t, s) <==> walk_of_paths(paths@, s)),
{
    let mut root = DepTreeNode { index: ROOT_INDEX, children: BTreeMap::new() };
    let mut i: usize = 0;
    while i < paths.len()
        invariant
            i <= paths@.len(),
            root.index == ROOT_INDEX,
            tree_wf(root),
            forall|s: Seq<u32>|
                #![trigger tree_has(root, s)]
                s.len() > 0 ==> (tree_has(root, s) <==> walk_of_paths(paths@.take(i as int), s)),
        decreases paths@.len() - i,
    {
        let rev = reversed(&paths[i]);
        insert_chain(&mut root, &rev, 0);
        proof {
            assert forall|s: Seq<u32>| s.len() > 0 implies (tree_has(root, s) <==> walk_of_paths(
                paths@.take(i + 1),
                s,
            )) by {
                assert(rev@.skip(0) == rev@);
                let p0 = paths@.take(i as int);
                let p1 = paths@.take(i + 1);
                if walk_of_paths(p0, s) {
                    let k = choose|k: int| 0 <= k < p0.len() && s.is_prefix_of((#[trigger] p0[k])@.reverse());
                    assert(p1[k] == p0[k]);
                }
                if s.is_prefix_of(rev@) {
                    assert(p1[i as int] == paths@[i as int]);
                }
                if walk_of_paths(p1, s) {
                    let k = choose|k: int| 0 <= k < p1.len() && s.is_prefix_of((#[trigger] p1[k])@.reverse());
                    if k < i {
                        assert(p0[k] == p1[k]);
                    }
                }
            }
        }
        i = i + 1;
    }
    assert(paths@.take(paths@.len() as int) == paths@);
    root
}

} // verus!

verus! {

// ---------------------------------------------------------------------------
// The text of a dependency tree
// ---------------------------------------------------------------------------
/// The branch drawn before a package: the last child of its parent ends the
/// branch.
pub open spec fn branch_mark(is_last: bool) -> Seq<char> {
    if is_last {
        "└──"@
    } else {
        "├───┬"@
    }
}

/// The indentation that the children of a package add to its prefix.
pub open spec fn indent_mark(is_last: bool) -> Seq<char> {
    if is_last {
        "    "@
    } else {
        "│   "@
    }
}

/// The line of a package: `<prefix><branch> <name>@<version>`, followed by
/// ` -> <path>` when the path is not empty.
pub open spec fn package_line(p: PackageNode, prefix: Seq<char>, is_last: bool) -> Seq<char> {
    let head = prefix + branch_mark(is_last) + " "@ + p.name@ + "@"@ + p.version@;
    if p.path@.len() > 0 {
        head + " -> "@ + p.path@
    } else {
        head
    }
}

/// The line of `t` itself: none for the root or for an index that is not a
/// node.
pub open spec fn head_lines(nodes: Seq<PackageNode>, t: DepTreeNode, prefix: Seq<char>, is_last: bool) -> Seq<Seq<char>> {
    if t.index == ROOT_INDEX || t.index >= nodes.len() {
        seq![]
    } else {
        seq![package_line(nodes[t.index as int], prefix, is_last)]
    }
}

/// The prefix of the lines of the children of `t`: empty under the root.
pub open spec fn child_prefix(t: DepTreeNode, prefix: Seq<char>, is_last: bool) -> Seq<char> {
    if t.index == ROOT_INDEX {
        seq![]
    } else {
        prefix + indent_mark(is_last)
    }
}

/// `ks` lists the indices `dom` in increasing order.
pub open spec fn is_key_order(dom: Set<u32>, ks: Seq<u32>) -> bool {
    &&& forall|i: int, j: int| #![trigger ks[i], ks[j]] 0 <= i < j < ks.len() ==> ks[i] < ks[j]
    &&& forall|k: u32| ks.contains(k) <==> dom.contains(k)
}

/// The indices `dom` in increasing order.
pub open spec fn key_order(dom: Set<u32>) -> Seq<u32> {
    choose|ks: Seq<u32>| is_key_order(dom, ks)
}

/// The lines that draw the tree `t`: its own line, then the lines of its
/// children in increasing order of index, the last child marked as such.
pub open spec fn tree_lines(nodes: Seq<PackageNode>, t: DepTreeNode, prefix: Seq<char>, is_last: bool) -> Seq<Seq<char>>
    decreases t, 0int,
{
    head_lines(nodes, t, prefix, is_last) + children_lines(
        nodes,
        t.children,
        key_order(t.children@.dom()),
        0,
        child_prefix(t, prefix, is_last),
    )
}

/// The lines that draw the children `cs[ks[i]]`, `cs[ks[i + 1]]`, ... under
/// the prefix `cp`.
pub open spec fn children_lines(
    nodes: Seq<PackageNode>,
    cs: BTreeMap<u32, DepTreeNode>,
    ks: Seq<u32>,
    i: int,
    cp: Seq<char>,
) -> Seq<Seq<char>>
    decreases cs, ks.len() - i,
{
    if 0 <= i < ks.len() && cs@.contains_key(ks[i]) {
        proof {
            assert(cs@.dom().finite());
        }
        tree_lines(nodes, cs@[ks[i]], cp, i == ks.len() - 1) + children_lines(nodes, cs, ks, i + 1, cp)
    } else {
        seq![]
    }
}

/// Two strictly increasing sequences with the same elements are equal.
proof fn lemma_sorted_eq(a: Seq<u32>, b: Seq<u32>)
    requires
        forall|i: int, j: int| #![trigger a[i], a[j]] 0 <= i < j < a.len() ==> a[i] < a[j],
        forall|i: int, j: int| #![trigger b[i], b[j]] 0 <= i < j < b.len() ==> b[i] < b[j],
        forall|x: u32| a.contains(x) <==> b.contains(x),
    ensures
        a == b,
    decreases a.len() + b.len(),
{
    if a.len() == 0 {
        if b.len() > 0 {
            assert(b.contains(b[0]));
        }
        assert(a =~= b);
    } else {
        assert(a.contains(a[0]));
        let k = choose|k: int| 0 <= k < b.len() && b[k] == a[0];
        assert(b.contains(b[0]));
        let m = choose|m: int| 0 <= m < a.len() && a[m] == b[0];
        if k > 0 {
            assert(b[0] < b[k]);
        }
        if m > 0 {
            assert(a[0] < a[m]);
        }
        assert(a[0] == b[0]);
        let a1 = a.drop_first();
        let b1 = b.drop_first();
        assert forall|x: u32| a1.contains(x) <==> b1.contains(x) by {
            if a1.contains(x) {
                let i = choose|i: int| 0 <= i < a1.len() && a1[i] == x;
                assert(a[0] < a[i + 1]);
                assert(a.contains(x));
                let j = choose|j: int| 0 <= j < b.len() && b[j] == x;
                assert(j != 0);
                assert(b1[j - 1] == x);
            }
            if b1.contains(x) {
                let i = choose|i: int| 0 <= i < b1.len() && b1[i] == x;
                assert(b[0] < b[i + 1]);
                assert(b.contains(x));
                let j = choose|j: int| 0 <= j < a.len() && a[j] == x;
                assert(j != 0);
                assert(a1[j - 1] == x);
            }
        }
        assert forall|i: int, j: int| #![trigger a1[i], a1[j]] 0 <= i < j < a1.len() implies a1[i] < a1[j] by {
            assert(a[i + 1] < a[j + 1]);
        }
        assert forall|i: int, j: int| #![trigger b1[i], b1[j]] 0 <= i < j < b1.len() implies b1[i] < b1[j] by {
            assert(b[i + 1] < b[j + 1]);
        }
        lemma_sorted_eq(a1, b1);
        assert(a.len() == b.len());
        assert forall|i: int| 0 <= i < a.len() implies a[i] == b[i] by {
            if i > 0 {
                assert(a[i] == a1[i - 1]);
                assert(b[i] == b1[i - 1]);
            }
        }
        assert(a =~= b);
    }
}

/// The increasing order of a set of indices is the one sequence that lists
/// them increasingly.
pub proof fn lemma_key_order_is(dom: Set<u32>, ks: Seq<u32>)
    requires
        is_key_order(dom, ks),
    ensures
        key_order(dom) == ks,
{
    let c = key_order(dom);
    assert(is_key_order(dom, c));
    lemma_sorted_eq(c, ks);
}

/// A single index is its own increasing order.
pub proof fn lemma_key_order_single(x: u32)
    ensures
        key_order(set![x]) == seq![x],
{
    let ks = seq![x];
    assert forall|k: u32| ks.contains(k) <==> set![x].contains(k) by {
        if k == x {
            assert(ks[0] == x);
        }
    }
    lemma_key_order_is(set![x], ks);
}

/// The walks of a child are the walks of the tree through it.
proof fn lemma_child_walks(t: DepTreeNode, k: u32, s: Seq<u32>)
    requires
        t.children@.contains_key(k),
    ensures
        tree_has(t.children@[k], s) == tree_has(t, seq![k] + s),
{
    let q = seq![k] + s;
    assert(q.drop_first() =~= s);
}

/// The children `c1[k]` and `c2[k]` keep their children under their
/// indices and have the same walks.
pub open spec fn same_tree_at(c1: Map<u32, DepTreeNode>, c2: Map<u32, DepTreeNode>, k: u32) -> bool {
    &&& c1[k].index == c2[k].index
    &&& tree_wf(c1[k])
    &&& tree_wf(c2[k])
    &&& forall|s: Seq<u32>| tree_has(c1[k], s) == tree_has(c2[k], s)
}

/// A tree is determined by its walks: two trees whose children stay under
/// their indices and that have the same walks have children under the same
/// indices, and each pair of children has the same walks.
pub proof fn lemma_tree_determined(t1: DepTreeNode, t2: DepTreeNode)
    requires
        tree_wf(t1),
        tree_wf(t2),
        forall|s: Seq<u32>| tree_has(t1, s) == tree_has(t2, s),
    ensures
        t1.children@.dom() == t2.children@.dom(),
        forall|k: u32| #[trigger] t1.children@.contains_key(k) ==> same_tree_at(t1.children@, t2.children@, k),
{
    let c1 = t1.children@;
    let c2 = t2.children@;
    assert forall|k: u32| c1.contains_key(k) <==> c2.contains_key(k) by {
        assert(tree_has(t1, seq![k]) == tree_has(t2, seq![k]));
        lemma_tree_has_one(t1, k);
        lemma_tree_has_one(t2, k);
    }
    assert(c1.dom() =~= c2.dom());
    assert forall|k: u32| #[trigger] c1.contains_key(k) implies same_tree_at(c1, c2, k) by {
        assert forall|s: Seq<u32>| tree_has(c1[k], s) == tree_has(c2[k], s) by {
            lemma_child_walks(t1, k, s);
            lemma_child_walks(t2, k, s);
        }
    }
}

/// Two trees with the same index, whose children stay under their indices
/// and that have the same walks, are drawn with the same lines.
pub proof fn lemma_lines_ext(nodes: Seq<PackageNode>, t1: DepTreeNode, t2: DepTreeNode, prefix: Seq<char>, is_last: bool)
    requires
        tree_wf(t1),
        tree_wf(t2),
        t1.index == t2.index,
        forall|s: Seq<u32>| tree_has(t1, s) == tree_has(t2, s),
    ensures
        tree_lines(nodes, t1, prefix, is_last) == tree_lines(nodes, t2, prefix, is_last),
    decreases t1, 0int,
{
    lemma_tree_determined(t1, t2);
    let ks = key_order(t1.children@.dom());
    lemma_children_lines_ext(nodes, t1.children, t2.children, ks, 0, child_prefix(t1, prefix, is_last));
}

proof fn lemma_children_lines_ext(
    nodes: Seq<PackageNode>,
    c1: BTreeMap<u32, DepTreeNode>,
    c2: BTreeMap<u32, DepTreeNode>,
    ks: Seq<u32>,
    i: int,
    cp: Seq<char>,
)
    requires
        c1@.dom() == c2@.dom(),
        forall|k: u32| #[trigger] c1@.contains_key(k) ==> same_tree_at(c1@, c2@, k),
    ensures
        children_lines(nodes, c1, ks, i, cp) == children_lines(nodes, c2, ks, i, cp),
    decreases c1, ks.len() - i,
{
    if 0 <= i < ks.len() && c1@.contains_key(ks[i]) {
        assert(c1@.dom().finite());
        assert(c2@.contains_key(ks[i]));
        assert(same_tree_at(c1@, c2@, ks[i]));
        lemma_lines_ext(nodes, c1@[ks[i]], c2@[ks[i]], cp, i == ks.len() - 1);
        lemma_children_lines_ext(nodes, c1, c2, ks, i + 1, cp);
    } else {
        assert(!c2@.contains_key(ks[i]) || !(0 <= i < ks.len()));
    }
}

/// A tree all of whose walks begin at `x`, and that has the walk `[x]`,
/// has exactly one child, `x`.
pub proof fn lemma_single_child(t: DepTreeNode, x: u32)
    requires
        tree_wf(t),
        tree_has(t, seq![x]),
        forall|s: Seq<u32>| s.len() > 0 && #[trigger] tree_has(t, s) ==> s[0] == x,
    ensures
        t.children@.dom() == set![x],
        t.children@[x].index == x,
{
    let cs = t.children@;
    assert forall|k: u32| cs.contains_key(k) <==> set![x].contains(k) by {
        if cs.contains_key(k) {
            lemma_tree_has_one(t, k);
            assert(tree_has(t, seq![k]));
            assert(seq![k][0] == k);
        }
        if k == x {
            assert(seq![x][0] == x);
        }
    }
    lemma_tree_has_one(t, x);
    assert(cs.dom() =~= set![x]);
    assert(cs.contains_key(x));
}

/// A sequence that lists the indices `dom` increasingly, without repeats,
/// is their increasing order and has one entry per index.
pub proof fn lemma_increasing_key_order(dom: Set<u32>, kseq: Seq<u32>)
    requires
        increasing_seq(kseq),
        kseq.to_set() == dom,
        kseq.no_duplicates(),
    ensures
        key_order(dom) == kseq,
        is_key_order(dom, kseq),
        kseq.len() == dom.len(),
{
    broadcast use vstd::std_specs::btree::axiom_key_obeys_cmp_spec_meaning;
    broadcast use vstd::std_specs::btree::axiom_increasing_seq_meaning;
    assert forall|a: int, b: int| #![trigger kseq[a], kseq[b]] 0 <= a < b < kseq.len() implies kseq[a] < kseq[b] by {
        assert(vstd::std_specs::cmp::OrdSpec::cmp_spec(&kseq[a], &kseq[b]) is Less);
    }
    assert forall|k: u32| kseq.contains(k) <==> dom.contains(k) by {
        assert(kseq.to_set().contains(k) == kseq.contains(k));
    }
    lemma_key_order_is(dom, kseq);
    kseq.unique_seq_to_set();
}

} // verus!
