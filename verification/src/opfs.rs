//! Path logic of the OPFS-backed project file system: resolving paths
//! against the working directory, finding the package that a path under
//! `node_modules` belongs to, and following `fuse.link` files.
use vstd::prelude::*;
use vstd::string::StringExecFns;
use crate::text::{
    find_sub, find_char, rfind_char, has_prefix, trim_start_char, trim_ws, first_line,
    lemma_find_sub_facts, lemma_find_char_facts, lemma_rfind_char_facts, rfind_char_in,
    lemma_find_sub_is, lemma_find_char_is, lemma_find_char_none, lemma_rfind_char_is, chars_of, string_of, sub_chars, concat_chars, find_sub_chars,
    find_char_in, trim_start_char_in, trim_chars, first_line_of, starts_with_chars, chars_eq,
};

verus! {

/// A directory entry: its name and whether it is a file or a directory.
#[derive(Debug, Clone)]
pub struct DirEntry {
    pub name: String,
    pub is_file: bool,
    pub is_dir: bool,
}

// ---------------------------------------------------------------------------
// Specifications
// ---------------------------------------------------------------------------
/// The directory name under which packages are installed.
pub open spec fn node_modules() -> Seq<char> {
    "node_modules"@
}

/// The part of `path` after its first `node_modules`, without leading `/`.
pub open spec fn after_node_modules(path: Seq<char>) -> Seq<char> {
    let pos = find_sub(path, node_modules());
    trim_start_char(path.skip(pos + node_modules().len()), '/')
}

/// The text of `s` up to its first `/`, or all of it.
pub open spec fn first_segment(s: Seq<char>) -> Seq<char> {
    let k = find_char(s, '/');
    if k < 0 {
        s
    } else {
        s.take(k)
    }
}

/// The name of the package that `path` lies in: the first segment after
/// its first `node_modules`, or the first two (`@scope/name`) when the
/// first begins with `@`. None when `path` holds no `node_modules`, when a
/// scope has no second segment, or when the name is empty.
pub open spec fn package_name_in(path: Seq<char>) -> Option<Seq<char>> {
    if find_sub(path, node_modules()) < 0 {
        None
    } else {
        let after = after_node_modules(path);
        let first = first_segment(after);
        let k = find_char(after, '/');
        if first.len() > 0 && first[0] == '@' {
            if k < 0 {
                None
            } else {
                Some(first + "/"@ + first_segment(after.skip(k + 1)))
            }
        } else if first.len() > 0 {
            Some(first)
        } else {
            None
        }
    }
}

/// The `fuse.link` file of the package that `path` lies in:
/// `<text before node_modules>/node_modules/<package>/fuse.link`.
pub open spec fn fuse_link_path_of(path: Seq<char>) -> Option<Seq<char>> {
    match package_name_in(path) {
        Some(name) => Some(
            path.take(find_sub(path, node_modules())) + "/node_modules/"@ + name + "/fuse.link"@,
        ),
        None => None,
    }
}

/// `path` made absolute: kept when it begins with `/`, else put under `cwd`.
pub open spec fn absolute_path(path: Seq<char>, cwd: Seq<char>) -> Seq<char> {
    if path.len() > 0 && path[0] == '/' {
        path
    } else {
        cwd + "/"@ + path
    }
}

/// The directory that a `fuse.link` file names: its first line, trimmed.
pub open spec fn link_target(content: Seq<char>) -> Seq<char> {
    trim_ws(first_line(content))
}

/// Where a file read at `path` is found when its package is linked to
/// `target_dir`: the same path below the package, under `target_dir`.
pub open spec fn linked_file_path(path: Seq<char>, target_dir: Seq<char>) -> Option<Seq<char>> {
    match package_name_in(path) {
        Some(name) => Some(
            target_dir + "/"@ + trim_start_char(after_node_modules(path).skip(name.len() as int), '/'),
        ),
        None => None,
    }
}

/// Where the directory `dir_name` of the package `package_name` is listed
/// when the package is linked to `target_dir`: `target_dir` itself for the
/// package's own directory, else `target_dir/dir_name`.
pub open spec fn linked_dir_path(package_name: Seq<char>, dir_name: Seq<char>, target_dir: Seq<char>) -> Seq<char> {
    if dir_name == package_name {
        target_dir
    } else {
        target_dir + "/"@ + dir_name
    }
}

/// `s` without its trailing `/` characters.
pub open spec fn trim_end_slashes(s: Seq<char>) -> Seq<char>
    decreases s.len(),
{
    if s.len() > 0 && s.last() == '/' {
        trim_end_slashes(s.drop_last())
    } else {
        s
    }
}

/// The last component of a `/`-separated path, as `Path::file_name`
/// documents it: trailing `/` and `.` components are passed over; none
/// when the path ends in `..` or has no component left (`""`, `/`, `.`).
pub open spec fn path_file_name(path: Seq<char>) -> Option<Seq<char>>
    decreases path.len(),
{
    let q = trim_end_slashes(path);
    if q.len() == 0 {
        None
    } else {
        let k = rfind_char(q, '/');
        let last = if k < 0 {
            q
        } else {
            q.skip(k + 1)
        };
        if last == "."@ {
            proof {
                lemma_trim_end_slashes(path);
                lemma_rfind_char_facts(q, '/');
                reveal_strlit(".");
            }
            path_file_name(
                if k < 0 {
                    seq![]
                } else {
                    q.take(k + 1)
                },
            )
        } else if last == ".."@ {
            None
        } else {
            Some(last)
        }
    }
}

// ---------------------------------------------------------------------------
// Lemmas
// ---------------------------------------------------------------------------
/// Trimming trailing slashes keeps a prefix that ends in no slash.
pub proof fn lemma_trim_end_slashes(s: Seq<char>)
    ensures
        trim_end_slashes(s).len() <= s.len(),
        trim_end_slashes(s) == s.take(trim_end_slashes(s).len() as int),
        trim_end_slashes(s).len() > 0 ==> trim_end_slashes(s).last() != '/',
    decreases s.len(),
{
    if s.len() > 0 && s.last() == '/' {
        lemma_trim_end_slashes(s.drop_last());
        let t = trim_end_slashes(s);
        assert(s.drop_last().take(t.len() as int) == s.take(t.len() as int));
    } else {
        assert(s.take(s.len() as int) == s);
    }
}

/// `first_segment(s)` begins `s`.
proof fn lemma_first_segment(s: Seq<char>)
    ensures
        has_prefix(s, first_segment(s)),
        find_char(s, '/') >= 0 ==> s == first_segment(s) + "/"@ + s.skip(find_char(s, '/') + 1),
{
    lemma_find_char_facts(s, '/');
    reveal_strlit("/");
    let k = find_char(s, '/');
    if k >= 0 {
        assert(s =~= s.take(k) + "/"@ + s.skip(k + 1));
    } else {
        assert(s.take(s.len() as int) =~= s);
    }
}

/// The package name begins the text after `node_modules`.
pub proof fn lemma_package_name_prefix(path: Seq<char>)
    ensures
        package_name_in(path) matches Some(name) ==> has_prefix(after_node_modules(path), name)
            && name.len() > 0,
{
    if package_name_in(path) is Some {
        let after = after_node_modules(path);
        let first = first_segment(after);
        lemma_first_segment(after);
        let k = find_char(after, '/');
        if first.len() > 0 && first[0] == '@' {
            let rest = after.skip(k + 1);
            lemma_first_segment(rest);
            let name = first + "/"@ + first_segment(rest);
            reveal_strlit("/");
            assert(after == first + "/"@ + rest);
            assert(after.take(name.len() as int) =~= name);
        }
    }
}

/// A path made absolute stays as it is when made absolute again, against a
/// working directory that is itself absolute.
pub proof fn lemma_absolute_path_idempotent(path: Seq<char>, cwd: Seq<char>)
    requires
        cwd.len() > 0,
        cwd[0] == '/',
    ensures
        absolute_path(absolute_path(path, cwd), cwd) == absolute_path(path, cwd),
        absolute_path(path, cwd)[0] == '/',
{
    if !(path.len() > 0 && path[0] == '/') {
        assert((cwd + "/"@ + path)[0] == cwd[0]);
    }
}

/// A path segment: not empty, without `/`, and neither `.` nor `..`.
pub open spec fn plain_segment(x: Seq<char>) -> bool {
    &&& x.len() > 0
    &&& !x.contains('/')
    &&& x != "."@
    &&& x != ".."@
}

/// The first `node_modules` of `b + "node_modules/" + r` is the one after
/// `b`, when `b` holds none.
proof fn lemma_node_modules_after(b: Seq<char>, r: Seq<char>)
    requires
        find_sub(b, node_modules()) < 0,
    ensures
        find_sub(b + "node_modules/"@ + r, node_modules()) == b.len(),
{
    let pat = node_modules();
    let s = b + "node_modules/"@ + r;
    let i = b.len() as int;
    reveal_strlit("node_modules");
    reveal_strlit("node_modules/");
    lemma_find_sub_facts(b, pat);
    assert(s.subrange(i, i + 12) =~= pat);
    assert forall|j: int| 0 <= j < i implies #[trigger] s.subrange(j, j + pat.len()) != pat by {
        if j + 12 <= i {
            assert(s.subrange(j, j + 12) =~= b.subrange(j, j + 12));
        } else {
            assert(s.subrange(j, j + 12)[i - j] == s[i]);
            assert(s[i] == 'n');
            assert(pat[i - j] != 'n');
        }
    }
    lemma_find_sub_is(s, pat, i);
}

/// The last component of `p + "/" + x` is `x`, for a plain segment `x`.
proof fn lemma_file_name_last(p: Seq<char>, x: Seq<char>)
    requires
        plain_segment(x),
    ensures
        path_file_name(p + "/"@ + x) == Some(x),
{
    reveal_strlit("/");
    let s = p + "/"@ + x;
    assert(s.last() == x.last());
    assert(x.last() != '/') by {
        assert(x[x.len() - 1] == x.last());
    }
    assert(trim_end_slashes(s) == s);
    let k = p.len() as int;
    assert forall|j: int| k < j < s.len() implies s[j] != '/' by {
        assert(s[j] == x[j - k - 1]);
    }
    lemma_rfind_char_is(s, '/', k);
    assert(s.skip(k + 1) =~= x);
}

/// Reading a file of a linked package goes to the same file below the
/// linked directory: for `path` = `b + "node_modules/" + n + "/" + r`,
/// where `b` holds no `node_modules`, the package name `n` is a segment
/// `x` (`scope` none) or a scope and a segment `s/x` (`scope` is `s`, which
/// begins with `@`), and `r` does not begin with `/`, the file is read at
/// `t + "/" + r` when the package is linked to `t`.
pub proof fn lemma_linked_file_keeps_relative_path(
    b: Seq<char>,
    scope: Option<Seq<char>>,
    x: Seq<char>,
    r: Seq<char>,
    t: Seq<char>,
)
    requires
        find_sub(b, node_modules()) < 0,
        x.len() > 0,
        !x.contains('/'),
        scope matches Some(sc) ==> sc.len() > 0 && !sc.contains('/') && sc[0] == '@',
        scope is None ==> x[0] != '@',
        r.len() == 0 || r[0] != '/',
    ensures
        ({
            let n = match scope {
                Some(sc) => sc + "/"@ + x,
                None => x,
            };
            &&& package_name_in(b + "node_modules/"@ + n + "/"@ + r) == Some(n)
            &&& linked_file_path(b + "node_modules/"@ + n + "/"@ + r, t) == Some(t + "/"@ + r)
        }),
{
    reveal_strlit("/");
    reveal_strlit("node_modules/");
    reveal_strlit("node_modules");
    let n = match scope {
        Some(sc) => sc + "/"@ + x,
        None => x,
    };
    let rest = n + "/"@ + r;
    let path = b + "node_modules/"@ + rest;
    assert(b + "node_modules/"@ + n + "/"@ + r =~= path);
    lemma_node_modules_after(b, rest);
    let k = b.len() as int;
    assert(node_modules().len() == 12);
    assert(path.skip(k + 12) =~= "/"@ + rest);
    let u = "/"@ + rest;
    assert(u.drop_first() =~= rest);
    assert forall|j: int| 0 <= j < x.len() implies x[j] != '/' by {
        if x[j] == '/' {
            assert(x.contains('/'));
        }
    }
    match scope {
        Some(sc) => {
            assert forall|j: int| 0 <= j < sc.len() implies sc[j] != '/' by {
                if sc[j] == '/' {
                    assert(sc.contains('/'));
                }
            }
            assert(rest[0] == sc[0]);
        },
        None => {
            assert(rest[0] == x[0]);
        },
    }
    assert(rest[0] != '/');
    assert(trim_start_char(u, '/') == trim_start_char(rest, '/'));
    assert(trim_start_char(rest, '/') == rest);
    assert(after_node_modules(path) == rest);
    let after = rest;
    match scope {
        Some(sc) => {
            let m = sc.len() as int;
            assert(after[m] == '/');
            assert forall|j: int| 0 <= j < m implies after[j] != '/' by {
                assert(after[j] == sc[j]);
            }
            lemma_find_char_is(after, '/', m);
            assert(after.take(m) =~= sc);
            assert(first_segment(after) == sc);
            let tail = after.skip(m + 1);
            assert(tail =~= x + "/"@ + r);
            let xl = x.len() as int;
            assert(tail[xl] == '/');
            assert forall|j: int| 0 <= j < xl implies tail[j] != '/' by {
                assert(tail[j] == x[j]);
            }
            lemma_find_char_is(tail, '/', xl);
            assert(tail.take(xl) =~= x);
            assert(first_segment(tail) == x);
            assert(package_name_in(path) == Some(sc + "/"@ + x));
        },
        None => {
            let xl = x.len() as int;
            assert(after[xl] == '/');
            assert forall|j: int| 0 <= j < xl implies after[j] != '/' by {
                assert(after[j] == x[j]);
            }
            lemma_find_char_is(after, '/', xl);
            assert(after.take(xl) =~= x);
            assert(first_segment(after) == x);
            assert(package_name_in(path) == Some(x));
        },
    }
    let v = after.skip(n.len() as int);
    assert(v =~= "/"@ + r);
    assert(v.drop_first() =~= r);
    assert(trim_start_char(v, '/') == trim_start_char(r, '/'));
    assert(trim_start_char(r, '/') == r);
}

/// Listing a directory of a linked package goes to the linked directory:
/// for `path` = `b/node_modules/n` (`rest` none) or `b/node_modules/n/d`
/// (`rest` is `d`), where `b` holds no `node_modules` and `n` is a plain
/// unscoped package name, the package's `fuse.link` file is read first,
/// and when it names the directory `t`, the listing goes to `t` itself for
/// the package's own directory and to `t/d` for its directory `d`.
pub proof fn lemma_linked_dir_redirect(b: Seq<char>, n: Seq<char>, rest: Option<Seq<char>>, t: Seq<char>)
    requires
        find_sub(b, node_modules()) < 0,
        plain_segment(n),
        n[0] != '@',
        rest matches Some(d) ==> plain_segment(d) && d != n,
    ensures
        ({
            let path = match rest {
                Some(d) => b + "node_modules/"@ + n + "/"@ + d,
                None => b + "node_modules/"@ + n,
            };
            &&& fuse_link_path_of(path) == Some(b + "/node_modules/"@ + n + "/fuse.link"@)
            &&& package_name_in(path) == Some(n)
            &&& path_file_name(path) is Some
            &&& linked_dir_path(package_name_in(path)->0, path_file_name(path)->0, t) == match rest {
                Some(d) => t + "/"@ + d,
                None => t,
            }
        }),
{
    reveal_strlit("/");
    reveal_strlit("node_modules/");
    reveal_strlit("node_modules");
    let r = match rest {
        Some(d) => n + "/"@ + d,
        None => n,
    };
    let path = b + "node_modules/"@ + r;
    let path2 = match rest {
        Some(d) => b + "node_modules/"@ + n + "/"@ + d,
        None => b + "node_modules/"@ + n,
    };
    assert(path2 =~= path);
    lemma_node_modules_after(b, r);
    let k = b.len() as int;
    assert(path.skip(k + node_modules().len()) =~= "/"@ + r);
    assert(("/"@ + r).drop_first() =~= r);
    assert(r[0] == n[0]);
    assert(n[0] != '/') by {
        if n[0] == '/' {
            assert(n.contains('/'));
        }
    }
    let u = "/"@ + r;
    assert(node_modules().len() == 12);
    assert(u[0] == '/');
    assert(trim_start_char(u, '/') == trim_start_char(u.drop_first(), '/'));
    assert(trim_start_char(r, '/') == r);
    assert(after_node_modules(path) == trim_start_char(u, '/'));
    assert(after_node_modules(path) == r);
    assert forall|j: int| 0 <= j < n.len() implies n[j] != '/' by {
        if n[j] == '/' {
            assert(n.contains('/'));
        }
    }
    match rest {
        Some(d) => {
            assert(r[n.len() as int] == '/');
            assert forall|j: int| 0 <= j < n.len() implies r[j] != '/' by {
                assert(r[j] == n[j]);
            }
            lemma_find_char_is(r, '/', n.len() as int);
            assert(r.take(n.len() as int) =~= n);
            assert(first_segment(r) == n);
            lemma_file_name_last(b + "node_modules/"@ + n, d);
            assert(b + "node_modules/"@ + n + "/"@ + d =~= path);
        },
        None => {
            lemma_find_char_none(r, '/');
            assert(first_segment(r) == n);
            lemma_file_name_last(b + "node_modules"@, n);
            assert(b + "node_modules"@ + "/"@ + n =~= path);
        },
    }
    assert(package_name_in(path) == Some(n));
    assert(path.take(k) =~= b);
}

// ---------------------------------------------------------------------------
// Executable functions
// ---------------------------------------------------------------------------
/// The position of the first `node_modules` in `p`, if any.
fn find_node_modules(p: &Vec<char>) -> (r: Option<usize>)
    ensures
        match r {
            Some(i) => find_sub(p@, node_modules()) == i as int && i + node_modules().len() <= p@.len(),
            None => find_sub(p@, node_modules()) == -1,
        },
{
    let pat = chars_of("node_modules");
    let r = find_sub_chars(p, &pat);
    proof {
        lemma_find_sub_facts(p@, pat@);
    }
    r
}

/// The text after the first `node_modules` of `p`, without leading `/`.
fn after_node_modules_of(p: &Vec<char>, pos: usize) -> (r: Vec<char>)
    requires
        find_sub(p@, node_modules()) == pos as int,
        pos + node_modules().len() <= p@.len(),
    ensures
        r@ == after_node_modules(p@),
{
    let pat = chars_of("node_modules");
    let plen = p.len();
    assert(pos + pat@.len() <= plen);
    let from = pos + pat.len();
    let rest = sub_chars(p, from, plen);
    assert(rest@ == p@.skip(from as int));
    trim_start_char_in(&rest, '/')
}

/// The text of `s` up to its first `/`.
fn first_segment_of(s: &Vec<char>) -> (r: Vec<char>)
    ensures
        r@ == first_segment(s@),
{
    match find_char_in(s, '/') {
        Some(k) => {
            proof {
                lemma_find_char_facts(s@, '/');
            }
            sub_chars(s, 0, k)
        },
        None => {
            assert(s@.subrange(0, s@.len() as int) == s@);
            sub_chars(s, 0, s.len())
        },
    }
}

/// The name of the package that `path` lies in (see `package_name_in`).
pub fn get_package_name(path: &str) -> (r: Option<String>)
    ensures
        match r {
            Some(name) => package_name_in(path@) == Some(name@),
            None => package_name_in(path@) is None,
        },
{
    let p = chars_of(path);
    let pos = match find_node_modules(&p) {
        Some(pos) => pos,
        None => {
            return None;
        },
    };
    let after = after_node_modules_of(&p, pos);
    let first = first_segment_of(&after);
    if first.len() > 0 && first[0] == '@' {
        match find_char_in(&after, '/') {
            Some(k) => {
                proof {
                    lemma_find_char_facts(after@, '/');
                }
                let alen = after.len();
                assert(k < alen);
                let rest = sub_chars(&after, k + 1, alen);
                assert(rest@ == after@.skip(k + 1));
                let second = first_segment_of(&rest);
                let slash = chars_of("/");
                let name = concat_chars(&concat_chars(&first, &slash), &second);
                Some(string_of(&name))
            },
            None => None,
        }
    } else if first.len() > 0 {
        Some(string_of(&first))
    } else {
        None
    }
}

/// The `fuse.link` file of the package that `path` lies in (see
/// `fuse_link_path_of`).
pub fn get_fuse_link_path(path: &str) -> (r: Option<String>)
    ensures
        match r {
            Some(l) => fuse_link_path_of(path@) == Some(l@),
            None => fuse_link_path_of(path@) is None,
        },
{
    let name = match get_package_name(path) {
        Some(name) => name,
        None => {
            return None;
        },
    };
    let p = chars_of(path);
    match find_node_modules(&p) {
        Some(pos) => {
            let before = sub_chars(&p, 0, pos);
            let mut link = string_of(&before);
            link.append("/node_modules/");
            link.append(name.as_str());
            link.append("/fuse.link");
            Some(link)
        },
        None => None,
    }
}

/// `path` made absolute against the working directory `cwd` (see
/// `absolute_path`).
pub fn prepare_path(path: &str, cwd: &str) -> (r: String)
    ensures
        r@ == absolute_path(path@, cwd@),
{
    let p = chars_of(path);
    if p.len() > 0 && p[0] == '/' {
        String::from_str(path)
    } else {
        let mut r = String::from_str(cwd);
        r.append("/");
        r.append(path);
        r
    }
}

/// The directory that the `fuse.link` file with content `content` names.
pub fn fuse_link_target(content: &str) -> (r: String)
    ensures
        r@ == link_target(content@),
{
    let c = chars_of(content);
    let line = first_line_of(&c);
    let t = trim_chars(&line);
    string_of(&t)
}

/// Where a file read at `path` is found when its package is linked to
/// `target_dir` (see `linked_file_path`).
pub fn linked_file_target(path: &str, target_dir: &str) -> (r: Option<String>)
    ensures
        match r {
            Some(t) => linked_file_path(path@, target_dir@) == Some(t@),
            None => linked_file_path(path@, target_dir@) is None,
        },
{
    let name = match get_package_name(path) {
        Some(name) => name,
        None => {
            return None;
        },
    };
    let p = chars_of(path);
    let pos = match find_node_modules(&p) {
        Some(pos) => pos,
        None => {
            return None;
        },
    };
    let after = after_node_modules_of(&p, pos);
    let n = chars_of(name.as_str());
    proof {
        lemma_package_name_prefix(path@);
    }
    if starts_with_chars(&after, &n) {
        let rest = sub_chars(&after, n.len(), after.len());
        assert(rest@ == after@.skip(n@.len() as int));
        let relative = trim_start_char_in(&rest, '/');
        let mut target = String::from_str(target_dir);
        target.append("/");
        let rel = string_of(&relative);
        target.append(rel.as_str());
        Some(target)
    } else {
        // the package name always begins the text after `node_modules`
        proof {
            assert(false);
        }
        None
    }
}

/// Where the directory `dir_name` of the package `package_name` is listed
/// when the package is linked to `target_dir` (see `linked_dir_path`).
pub fn linked_dir_target(package_name: &str, dir_name: &str, target_dir: &str) -> (r: String)
    ensures
        r@ == linked_dir_path(package_name@, dir_name@, target_dir@),
{
    let a = chars_of(dir_name);
    let b = chars_of(package_name);
    if chars_eq(&a, &b) {
        String::from_str(target_dir)
    } else {
        let mut r = String::from_str(target_dir);
        r.append("/");
        r.append(dir_name);
        r
    }
}

/// The last component of the `/`-separated path `path` (see
/// `path_file_name`).
pub fn file_name_of(path: &str) -> (r: Option<String>)
    ensures
        match r {
            Some(n) => path_file_name(path@) == Some(n@),
            None => path_file_name(path@) is None,
        },
{
    let p = chars_of(path);
    let dot = chars_of(".");
    let dots = chars_of("..");
    let mut end: usize = p.len();
    assert(p@.take(end as int) == p@);
    loop
        invariant
            end <= p@.len(),
            dot@ == "."@,
            dots@ == ".."@,
            path_file_name(p@.take(end as int)) == path_file_name(path@),
        decreases end,
    {
        let ghost whole = p@.take(end as int);
        let mut e: usize = end;
        while e > 0 && p[e - 1] == '/'
            invariant
                e <= end <= p@.len(),
                whole == p@.take(end as int),
                trim_end_slashes(p@.take(e as int)) == trim_end_slashes(whole),
            decreases e,
        {
            assert(p@.take(e as int).drop_last() == p@.take(e - 1));
            e = e - 1;
        }
        let q = sub_chars(&p, 0, e);
        proof {
            assert(q@ == p@.take(e as int));
            if q@.len() > 0 {
                assert(q@.last() == p@[e - 1]);
            }
            assert(trim_end_slashes(q@) == q@);
            lemma_rfind_char_facts(q@, '/');
        }
        if e == 0 {
            return None;
        }
        let qlen = q.len();
        let (last, k_next) = match rfind_char_in(&q, '/') {
            Some(k) => (sub_chars(&q, k + 1, qlen), k + 1),
            None => (sub_chars(&q, 0, qlen), 0),
        };
        proof {
            let k = rfind_char(q@, '/');
            if k < 0 {
                assert(last@ == q@);
            } else {
                assert(last@ == q@.skip(k + 1));
                assert(q@.take(k + 1) == p@.take(k + 1));
            }
            reveal_strlit(".");
            reveal_strlit("..");
        }
        if chars_eq(&last, &dot) {
            proof {
                assert(k_next < e);
                assert(trim_end_slashes(whole) == q@);
                let k = rfind_char(q@, '/');
                if k < 0 {
                    assert(p@.take(0) == Seq::<char>::empty());
                }
                assert(path_file_name(whole) == path_file_name(p@.take(k_next as int)));
            }
            end = k_next;
        } else if chars_eq(&last, &dots) {
            return None;
        } else {
            return Some(string_of(&last));
        }
    }
}

/// Where the directory at `path` is listed when its package is linked to
/// `target_dir`: none when `path` lies in no package or has no file name.
pub fn linked_dir_of(path: &str, target_dir: &str) -> (r: Option<String>)
    ensures
        match r {
            Some(t) => package_name_in(path@) is Some && path_file_name(path@) is Some
                && t@ == linked_dir_path(package_name_in(path@)->0, path_file_name(path@)->0, target_dir@),
            None => package_name_in(path@) is None || path_file_name(path@) is None,
        },
{
    let name = match get_package_name(path) {
        Some(name) => name,
        None => {
            return None;
        },
    };
    match file_name_of(path) {
        Some(dir_name) => Some(linked_dir_target(name.as_str(), dir_name.as_str(), target_dir)),
        None => None,
    }
}

/// The path of the `fuse.link` file in the directory `dir`.
pub fn fuse_link_in(dir: &str) -> (r: String)
    ensures
        r@ == dir@ + "/fuse.link"@,
{
    let mut r = String::from_str(dir);
    r.append("/fuse.link");
    r
}

/// Whether the debug text of an entry's metadata shows a file and whether
/// it shows a directory: it holds `File`, and it holds `Directory`.
pub fn entry_kinds(metadata_text: &str) -> (r: (bool, bool))
    ensures
        r.0 == (find_sub(metadata_text@, "File"@) >= 0),
        r.1 == (find_sub(metadata_text@, "Directory"@) >= 0),
{
    let t = chars_of(metadata_text);
    let file = chars_of("File");
    let dir = chars_of("Directory");
    let is_file = find_sub_chars(&t, &file).is_some();
    let is_dir = find_sub_chars(&t, &dir).is_some();
    (is_file, is_dir)
}

/// Whether a directory listing is a lone `fuse.link` file, which stands for
/// the directory it names.
pub fn is_lone_fuse_link(entries: &Vec<DirEntry>) -> (r: bool)
    ensures
        r == (entries@.len() == 1 && entries@[0].name@ == "fuse.link"@),
{
    if entries.len() != 1 {
        return false;
    }
    let a = chars_of(entries[0].name.as_str());
    let b = chars_of("fuse.link");
    chars_eq(&a, &b)
}

} // verus!

verus! {

// ---------------------------------------------------------------------------
// Reading through fuse links
// ---------------------------------------------------------------------------
/// What to read next when reading a file.
#[derive(Debug)]
pub enum ReadStep {
    /// Read this `fuse.link` file, and hand its content to `read_after_link`.
    Link(String),
    /// Read the file here; when that fails, read the file directly.
    Target(String),
    /// Read the file here, and nothing else.
    Direct(String),
}

/// The first step of reading the file at the absolute path `prepared`: its
/// package's `fuse.link` file when it lies in a package, else the file.
pub fn read_start(prepared: &str) -> (r: ReadStep)
    ensures
        match fuse_link_path_of(prepared@) {
            Some(l) => r matches ReadStep::Link(x) && x@ == l,
            None => r matches ReadStep::Direct(x) && x@ == prepared@,
        },
{
    match get_fuse_link_path(prepared) {
        Some(l) => ReadStep::Link(l),
        None => ReadStep::Direct(String::from_str(prepared)),
    }
}

/// The step after reading the `fuse.link` file of `prepared` (`None` when
/// it could not be read): the same file under the directory that the link
/// names, when it names one, else the file itself.
pub fn read_after_link(prepared: &str, link_content: Option<&str>) -> (r: ReadStep)
    ensures
        match link_content {
            Some(c) if link_target(c@).len() > 0 && linked_file_path(prepared@, link_target(c@)) is Some
                => r matches ReadStep::Target(x) && x@ == linked_file_path(prepared@, link_target(c@))->0,
            _ => r matches ReadStep::Direct(x) && x@ == prepared@,
        },
{
    if let Some(content) = link_content {
        let target_dir = fuse_link_target(content);
        if !target_dir.as_str().is_empty() {
            if let Some(t) = linked_file_target(prepared, target_dir.as_str()) {
                return ReadStep::Target(t);
            }
        }
    }
    ReadStep::Direct(String::from_str(prepared))
}

/// What to do next when listing a directory.
#[derive(Debug)]
pub enum ListStep {
    /// Read this `fuse.link` file, and hand its content to `read_dir_after_link`.
    Link(String),
    /// List the directory at this path instead, from the start.
    Redirect(String),
    /// List this directory, and hand the entries to `read_dir_after_listing`.
    List(String),
}

/// The first step of listing the directory at the absolute path `prepared`.
pub fn read_dir_start(prepared: &str) -> (r: ListStep)
    ensures
        match fuse_link_path_of(prepared@) {
            Some(l) => r matches ListStep::Link(x) && x@ == l,
            None => r matches ListStep::List(x) && x@ == prepared@,
        },
{
    match get_fuse_link_path(prepared) {
        Some(l) => ListStep::Link(l),
        None => ListStep::List(String::from_str(prepared)),
    }
}

/// The step after reading the `fuse.link` file of `prepared` (`None` when
/// it could not be read): the linked directory when the link names one and
/// `prepared` has a file name, else the directory itself.
pub fn read_dir_after_link(prepared: &str, link_content: Option<&str>) -> (r: ListStep)
    ensures
        match link_content {
            Some(c) if link_target(c@).len() > 0 && package_name_in(prepared@) is Some
                && path_file_name(prepared@) is Some => r matches ListStep::Redirect(x) && x@
                == linked_dir_path(
                package_name_in(prepared@)->0,
                path_file_name(prepared@)->0,
                link_target(c@),
            ),
            _ => r matches ListStep::List(x) && x@ == prepared@,
        },
{
    if let Some(content) = link_content {
        let target_dir = fuse_link_target(content);
        if !target_dir.as_str().is_empty() {
            if let Some(d) = linked_dir_of(prepared, target_dir.as_str()) {
                return ListStep::Redirect(d);
            }
        }
    }
    ListStep::List(String::from_str(prepared))
}

/// After listing `prepared`: the `fuse.link` file to read when the listing
/// is that file alone.
pub fn read_dir_after_listing(prepared: &str, entries: &Vec<DirEntry>) -> (r: Option<String>)
    ensures
        (entries@.len() == 1 && entries@[0].name@ == "fuse.link"@) ==> (r matches Some(x) && x@
            == prepared@ + "/fuse.link"@),
        !(entries@.len() == 1 && entries@[0].name@ == "fuse.link"@) ==> r is None,
{
    if is_lone_fuse_link(entries) {
        Some(fuse_link_in(prepared))
    } else {
        None
    }
}

/// After reading a lone `fuse.link` file: the directory to list instead,
/// when the link names one.
pub fn read_dir_after_lone_link(link_content: &str) -> (r: Option<String>)
    ensures
        link_target(link_content@).len() > 0 ==> (r matches Some(x) && x@ == link_target(link_content@)),
        link_target(link_content@).len() == 0 ==> r is None,
{
    let t = fuse_link_target(link_content);
    if t.as_str().is_empty() {
        None
    } else {
        Some(t)
    }
}

// ---------------------------------------------------------------------------
// The working directory
// ---------------------------------------------------------------------------
/// The working directory that the first use of the state sets.
pub open spec fn default_cwd() -> Seq<char> {
    "/utoo-wasm-demo"@
}

/// The working directory that reading it gives: the one held, else the
/// default.
pub open spec fn cwd_read(current: Option<Seq<char>>) -> Seq<char> {
    match current {
        Some(c) => c,
        None => default_cwd(),
    }
}

/// The working directory state: none until first used.
pub struct CwdState {
    current: Option<String>,
}

impl CwdState {
    /// The directory held, if any.
    pub closed spec fn view_cwd(&self) -> Option<Seq<char>> {
        match self.current {
            Some(c) => Some(c@),
            None => None,
        }
    }

    /// A state that holds no directory yet.
    pub fn new() -> (s: Self)
        ensures
            s.view_cwd() is None,
    {
        CwdState { current: None }
    }

    /// Sets the working directory to `path`.
    pub fn set(&mut self, path: &str)
        ensures
            final(self).view_cwd() == Some(path@),
    {
        self.current = Some(String::from_str(path));
    }

    /// The working directory; the first use of the state sets the default.
    pub fn get(&mut self) -> (r: String)
        ensures
            r@ == cwd_read(old(self).view_cwd()),
            final(self).view_cwd() == Some(cwd_read(old(self).view_cwd())),
    {
        match &self.current {
            Some(c) => c.clone(),
            None => {
                self.current = Some(String::from_str("/utoo-wasm-demo"));
                String::from_str("/utoo-wasm-demo")
            },
        }
    }
}

/// Reading the working directory after setting it gives the directory set,
/// whatever the state held before.
pub proof fn lemma_set_then_get(path: Seq<char>)
    ensures
        cwd_read(Some(path)) == path,
{
}

/// Reading the working directory does not change the directory that a
/// later read gives.
pub proof fn lemma_get_is_stable(current: Option<Seq<char>>)
    ensures
        cwd_read(Some(cwd_read(current))) == cwd_read(current),
{
}

} // verus!
