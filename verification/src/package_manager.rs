//! The decisions of installing the packages of a lock file: where each
//! package's tarball and unpacked copy are kept, the steps that fetch,
//! unpack and link a package, the files that an unpacked tarball yields,
//! and the content of `fuse.link` files.
use vstd::prelude::*;
use vstd::string::StringExecFns;
use crate::text::{
    has_prefix, trim_ws, lines, join, lemma_rfind_char_facts, chars_of, string_of,
    sub_chars, rfind_char_in, starts_with_chars, chars_eq, lines_of, trim_chars, concat_chars,
    ends_with_cr, lemma_lines_no_newline, lemma_lines_of_joined,
};
use crate::model::{LockPackage, PackageLock, package_name_of, package_version_of, last_segment};
use crate::dependency_graph::parent_dir;

verus! {

// ---------------------------------------------------------------------------
// Files
// ---------------------------------------------------------------------------
/// The directory that holds the file at `path` (see `parent_dir`).
pub fn parent_dir_of(path: &str) -> (r: String)
    ensures
        r@ == parent_dir(path@),
{
    let p = chars_of(path);
    proof {
        lemma_rfind_char_facts(p@, '/');
    }
    match rfind_char_in(&p, '/') {
        Some(k) => {
            let d = sub_chars(&p, 0, k);
            string_of(&d)
        },
        None => String::new(),
    }
}

/// Where a tarball entry at `entry` is written under `dir`: the leading
/// `package/` directory is dropped, and the `package` directory itself
/// yields nothing.
pub open spec fn tgz_entry_out_path(dir: Seq<char>, entry: Seq<char>) -> Option<Seq<char>> {
    if has_prefix(entry, "package/"@) {
        Some(dir + "/"@ + entry.skip("package/"@.len() as int))
    } else if entry == "package"@ {
        None
    } else {
        Some(dir + "/"@ + entry)
    }
}

/// Where the tarball entry at `entry_path` is written under `extract_dir`
/// (see `tgz_entry_out_path`).
pub fn tgz_entry_target(extract_dir: &str, entry_path: &str) -> (r: Option<String>)
    ensures
        match r {
            Some(p) => tgz_entry_out_path(extract_dir@, entry_path@) == Some(p@),
            None => tgz_entry_out_path(extract_dir@, entry_path@) is None,
        },
{
    let e = chars_of(entry_path);
    let prefix = chars_of("package/");
    if starts_with_chars(&e, &prefix) {
        let rest = sub_chars(&e, prefix.len(), e.len());
        assert(rest@ == e@.skip(prefix@.len() as int));
        let mut out = String::from_str(extract_dir);
        out.append("/");
        let r = string_of(&rest);
        out.append(r.as_str());
        Some(out)
    } else {
        let root = chars_of("package");
        if chars_eq(&e, &root) {
            None
        } else {
            let mut out = String::from_str(extract_dir);
            out.append("/");
            out.append(entry_path);
            Some(out)
        }
    }
}

/// The lines of `ls` that hold more than white space, in order.
pub open spec fn nonblank(ls: Seq<Seq<char>>) -> Seq<Seq<char>>
    decreases ls.len(),
{
    if ls.len() == 0 {
        seq![]
    } else {
        let r = nonblank(ls.drop_last());
        if trim_ws(ls.last()).len() > 0 {
            r.push(ls.last())
        } else {
            r
        }
    }
}

/// The links of a `fuse.link` file with content `existing` once `src` is
/// linked: its nonblank lines, and `src` after them unless it is one of
/// them.
pub open spec fn links_with(existing: Seq<char>, src: Seq<char>) -> Seq<Seq<char>> {
    let links = nonblank(lines(existing));
    if links.contains(src) {
        links
    } else {
        links.push(src)
    }
}

/// The content of a `fuse.link` file after linking `src` into it: its links
/// one per line when the file exists (`existing`), else `src` alone.
pub open spec fn fuse_link_text(existing: Option<Seq<char>>, src: Seq<char>) -> Seq<char> {
    match existing {
        Some(c) => join(links_with(c, src), "\n"@) + "\n"@,
        None => src + "\n"@,
    }
}

/// Each line that `nonblank` keeps is one of the lines and holds more than
/// white space.
proof fn lemma_nonblank_elems(ls: Seq<Seq<char>>)
    ensures
        forall|i: int|
            0 <= i < nonblank(ls).len() ==> ls.contains(#[trigger] nonblank(ls)[i]) && trim_ws(
                nonblank(ls)[i],
            ).len() > 0,
    decreases ls.len(),
{
    if ls.len() > 0 {
        let front = ls.drop_last();
        lemma_nonblank_elems(front);
        let r = nonblank(front);
        assert forall|i: int| 0 <= i < nonblank(ls).len() implies ls.contains(
            #[trigger] nonblank(ls)[i],
        ) && trim_ws(nonblank(ls)[i]).len() > 0 by {
            if i < r.len() {
                assert(nonblank(ls)[i] == r[i]);
                let j = choose|j: int| 0 <= j < front.len() && front[j] == r[i];
                assert(ls[j] == front[j]);
            } else {
                assert(nonblank(ls)[i] == ls.last());
                assert(ls[ls.len() - 1] == ls.last());
            }
        }
    }
}

/// Lines that all hold more than white space are all kept.
proof fn lemma_nonblank_keeps(ls: Seq<Seq<char>>)
    requires
        forall|i: int| 0 <= i < ls.len() ==> trim_ws(#[trigger] ls[i]).len() > 0,
    ensures
        nonblank(ls) == ls,
    decreases ls.len(),
{
    if ls.len() > 0 {
        let front = ls.drop_last();
        assert forall|i: int| 0 <= i < front.len() implies trim_ws(#[trigger] front[i]).len() > 0 by {
            assert(front[i] == ls[i]);
        }
        lemma_nonblank_keeps(front);
        assert(trim_ws(ls[ls.len() - 1]).len() > 0);
        assert(ls == front.push(ls.last()));
    }
}

/// Linking `src` into a `fuse.link` file and reading its links back gives
/// the file's former links with `src` added once; linking the same `src`
/// again leaves the file as it is. This holds where `src` is a nonblank
/// single line and no nonblank line of the former file ends with a carriage
/// return (such a line is read back without it).
pub proof fn lemma_fuse_link_read_back(existing: Option<Seq<char>>, src: Seq<char>)
    requires
        trim_ws(src).len() > 0,
        !src.contains('\n'),
        !ends_with_cr(src),
        existing matches Some(c) ==> forall|i: int|
            0 <= i < nonblank(lines(c)).len() ==> !ends_with_cr(#[trigger] nonblank(lines(c))[i]),
    ensures
        nonblank(lines(fuse_link_text(existing, src))) == match existing {
            Some(c) => links_with(c, src),
            None => seq![src],
        },
        nonblank(lines(fuse_link_text(existing, src))).contains(src),
        fuse_link_text(Some(fuse_link_text(existing, src)), src) == fuse_link_text(existing, src),
{
    let links = match existing {
        Some(c) => links_with(c, src),
        None => seq![src],
    };
    let text = fuse_link_text(existing, src);
    match existing {
        Some(c) => {
            let old_links = nonblank(lines(c));
            lemma_nonblank_elems(lines(c));
            lemma_lines_no_newline(c);
            assert forall|i: int| 0 <= i < old_links.len() implies !(#[trigger] old_links[i]).contains(
                '\n',
            ) && !ends_with_cr(old_links[i]) && trim_ws(old_links[i]).len() > 0 by {
                let j = choose|j: int| 0 <= j < lines(c).len() && lines(c)[j] == old_links[i];
                assert(!lines(c)[j].contains('\n'));
            }
            assert forall|i: int| 0 <= i < links.len() implies !(#[trigger] links[i]).contains('\n')
                && !ends_with_cr(links[i]) && trim_ws(links[i]).len() > 0 by {
                if i < old_links.len() {
                    assert(links[i] == old_links[i]);
                }
            }
            if old_links.contains(src) {
                let k = choose|k: int| 0 <= k < old_links.len() && old_links[k] == src;
                assert(links.len() > 0);
                assert(links[k] == src);
            } else {
                assert(links[links.len() - 1] == src);
            }
            assert(text == join(links, "\n"@) + "\n"@);
        },
        None => {
            assert(join(links, "\n"@) == src);
            assert(text == join(links, "\n"@) + "\n"@);
        },
    }
    lemma_lines_of_joined(links);
    lemma_nonblank_keeps(links);
    assert(links.contains(src)) by {
        match existing {
            Some(c) => {
                if nonblank(lines(c)).contains(src) {
                } else {
                    assert(links[links.len() - 1] == src);
                }
            },
            None => {
                assert(links[0] == src);
            },
        }
    }
    assert(links_with(text, src) == links);
}

/// The pieces joined with `sep` between them.
fn join_chars(pieces: &Vec<Vec<char>>, sep: &Vec<char>) -> (r: Vec<char>)
    ensures
        r@ == join(pieces@.map_values(|p: Vec<char>| p@), sep@),
{
    let ghost ps = pieces@.map_values(|p: Vec<char>| p@);
    let mut r: Vec<char> = Vec::new();
    let mut i: usize = 0;
    assert(ps.take(0) =~= Seq::<Seq<char>>::empty());
    while i < pieces.len()
        invariant
            ps == pieces@.map_values(|p: Vec<char>| p@),
            i <= pieces@.len(),
            r@ == join(ps.take(i as int), sep@),
        decreases pieces@.len() - i,
    {
        assert(ps.take(i + 1).drop_last() == ps.take(i as int));
        assert(ps.take(i + 1).last() == pieces@[i as int]@);
        if i == 0 {
            r = concat_chars(&r, &pieces[i]);
            assert(ps.take(1).len() == 1);
        } else {
            r = concat_chars(&r, sep);
            r = concat_chars(&r, &pieces[i]);
        }
        i = i + 1;
    }
    assert(ps.take(pieces@.len() as int) == ps);
    r
}

/// The content of the `fuse.link` file after linking `src` into it (see
/// `fuse_link_text`); `existing` is its content when the file exists.
pub fn fuse_link_content(existing: Option<&str>, src: &str) -> (r: String)
    ensures
        r@ == fuse_link_text(
            match existing {
                Some(c) => Some(c@),
                None => None,
            },
            src@,
        ),
{
    match existing {
        Some(content) => {
            let c = chars_of(content);
            let ls = lines_of(&c);
            let ghost lv = ls@.map_values(|l: Vec<char>| l@);
            let mut links: Vec<Vec<char>> = Vec::new();
            let mut i: usize = 0;
            assert(lv.take(0) =~= Seq::<Seq<char>>::empty());
            while i < ls.len()
                invariant
                    lv == ls@.map_values(|l: Vec<char>| l@),
                    lv == lines(c@),
                    i <= ls@.len(),
                    links@.map_values(|l: Vec<char>| l@) == nonblank(lv.take(i as int)),
                decreases ls@.len() - i,
            {
                assert(lv.take(i + 1).drop_last() == lv.take(i as int));
                assert(lv.take(i + 1).last() == ls@[i as int]@);
                let t = trim_chars(&ls[i]);
                if t.len() > 0 {
                    let line = sub_chars(&ls[i], 0, ls[i].len());
                    assert(line@ == ls@[i as int]@);
                    let ghost before = links@.map_values(|l: Vec<char>| l@);
                    links.push(line);
                    assert(links@.map_values(|l: Vec<char>| l@) == before.push(line@));
                }
                i = i + 1;
            }
            assert(lv.take(ls@.len() as int) == lv);
            let s = chars_of(src);
            let ghost linkv = links@.map_values(|l: Vec<char>| l@);
            let mut present = false;
            let mut j: usize = 0;
            while j < links.len()
                invariant
                    linkv == links@.map_values(|l: Vec<char>| l@),
                    s@ == src@,
                    j <= links@.len(),
                    present == exists|k: int| 0 <= k < j && linkv[k] == s@,
                decreases links@.len() - j,
            {
                let eq = chars_eq(&links[j], &s);
                assert(linkv[j as int] == links@[j as int]@);
                if eq {
                    present = true;
                }
                proof {
                    if eq {
                        assert(0 <= j < j + 1 && linkv[j as int] == s@);
                    } else {
                        assert forall|k: int| 0 <= k < j + 1 && linkv[k] == s@ implies k < j by {}
                    }
                }
                j = j + 1;
            }
            proof {
                if present {
                    let k = choose|k: int| 0 <= k < links@.len() && linkv[k] == s@;
                    assert(linkv.contains(s@));
                } else {
                    assert(!linkv.contains(s@));
                }
            }
            if !present {
                let ghost before = links@.map_values(|l: Vec<char>| l@);
                links.push(s);
                assert(links@.map_values(|l: Vec<char>| l@) == before.push(src@));
            }
            let nl = chars_of("\n");
            let joined = join_chars(&links, &nl);
            let text = concat_chars(&joined, &nl);
            string_of(&text)
        },
        None => {
            let mut r = String::from_str(src);
            r.append("\n");
            r
        },
    }
}

// ---------------------------------------------------------------------------
// Installing a package
// ---------------------------------------------------------------------------
/// Where a package's tarball is fetched from and where its copies are kept.
#[derive(Debug)]
pub struct InstallSource {
    /// The URL of the tarball.
    pub url: String,
    /// `/stores/<name>/-/<tarball file name>`
    pub tarball_path: String,
    /// The tarball path followed by `-unpack`.
    pub unpacked_dir: String,
    /// `<project>/node_modules/<name>`
    pub install_dir: String,
}

/// A package to install.
#[derive(Debug)]
pub struct InstallTask {
    pub name: String,
    pub version: String,
    /// None when the lock entry has no `resolved` URL.
    pub source: Option<InstallSource>,
}

/// The stage that an installation is in; each stage waits for the outcome
/// of the action that led to it.
#[derive(Debug, PartialEq, Eq, Structural)]
pub enum InstallStage {
    CheckingUnpacked,
    LinkingCached,
    CheckingTarball,
    ReadingTarball,
    Downloading,
    WritingTarball,
    Extracting,
    LinkingExtracted,
    Finished,
}

/// What the installation asks for next.
#[derive(Debug)]
pub enum InstallAction {
    /// The installation is over; this is its report.
    Finish(String),
    /// Whether a file or directory exists here (an error counts as no).
    CheckExists(String),
    /// Link the directory `src` into the directory `dst` (`fuse.link`).
    Link { src: String, dst: String },
    /// Read the tarball here.
    ReadFile(String),
    /// Download the tarball from this URL.
    Download(String),
    /// Write the tarball that was read or downloaded here.
    WriteFile(String),
    /// Unpack the tarball into this directory.
    Extract(String),
}

/// The path of a package's tarball in the store.
pub open spec fn tarball_store_path(name: Seq<char>, url: Seq<char>) -> Seq<char> {
    "/stores/"@ + name + "/-/"@ + last_segment(url)
}

/// `source` holds the places of the package `name` of `project` whose
/// tarball is at `url`.
pub open spec fn source_for(source: InstallSource, project: Seq<char>, name: Seq<char>, url: Seq<char>) -> bool {
    &&& source.url@ == url
    &&& source.tarball_path@ == tarball_store_path(name, url)
    &&& source.unpacked_dir@ == tarball_store_path(name, url) + "-unpack"@
    &&& source.install_dir@ == project + "/node_modules/"@ + name
}

/// `task` installs the lock entry `pkg` at `path` into `project`.
pub open spec fn task_for(task: InstallTask, project: Seq<char>, path: Seq<char>, pkg: LockPackage) -> bool {
    &&& task.name@ == package_name_of(pkg.name, path)
    &&& task.version@ == package_version_of(pkg.version)
    &&& match pkg.resolved {
        Some(url) => task.source matches Some(s) && source_for(s, project, task.name@, url@),
        None => task.source is None,
    }
}

/// The report of a task: `<name>@<version>: <what>`.
pub open spec fn report(task: InstallTask, what: Seq<char>) -> Seq<char> {
    task.name@ + "@"@ + task.version@ + what
}

/// The task that installs the lock entry `pkg` at `path` into `project`.
pub fn install_task(project: &str, path: &str, pkg: &LockPackage) -> (t: InstallTask)
    ensures
        task_for(t, project@, path@, *pkg),
{
    let name = pkg.get_name(path);
    let version = pkg.get_version();
    let source = match &pkg.resolved {
        Some(url) => {
            let u = chars_of(url.as_str());
            proof {
                lemma_rfind_char_facts(u@, '/');
            }
            let file = match rfind_char_in(&u, '/') {
                Some(k) => {
                    let len = u.len();
                    assert(k < len);
                    let seg = sub_chars(&u, k + 1, len);
                    assert(seg@ == u@.skip(k + 1));
                    string_of(&seg)
                },
                None => string_of(&u),
            };
            let mut tarball_path = String::from_str("/stores/");
            tarball_path.append(name.as_str());
            tarball_path.append("/-/");
            tarball_path.append(file.as_str());
            let mut unpacked_dir = tarball_path.clone();
            unpacked_dir.append("-unpack");
            let mut install_dir = String::from_str(project);
            install_dir.append("/node_modules/");
            install_dir.append(name.as_str());
            Some(InstallSource { url: url.clone(), tarball_path, unpacked_dir, install_dir })
        },
        None => None,
    };
    InstallTask { name, version, source }
}

/// The entries of `items` whose path is not empty, in order.
pub open spec fn nonroot_entries(items: Seq<(String, LockPackage)>) -> Seq<(String, LockPackage)>
    decreases items.len(),
{
    if items.len() == 0 {
        seq![]
    } else {
        let r = nonroot_entries(items.drop_last());
        if items.last().0@.len() > 0 {
            r.push(items.last())
        } else {
            r
        }
    }
}

/// The entries that get an install task are exactly those whose path is
/// not empty, each once and in order: only the root project is left out.
pub proof fn lemma_nonroot_entries_are_nonempty_paths(items: Seq<(String, LockPackage)>)
    ensures
        nonroot_entries(items) == items.filter(|e: (String, LockPackage)| e.0@.len() > 0),
        forall|i: int|
            0 <= i < items.len() && (#[trigger] items[i]).0@.len() > 0 ==> nonroot_entries(items).contains(
                items[i],
            ),
        forall|k: int|
            0 <= k < nonroot_entries(items).len() ==> (#[trigger] nonroot_entries(items)[k]).0@.len() > 0,
    decreases items.len(),
{
    if items.len() > 0 {
        lemma_nonroot_entries_are_nonempty_paths(items.drop_last());
        let r = nonroot_entries(items.drop_last());
        let pred = |e: (String, LockPackage)| e.0@.len() > 0;
        reveal(Seq::filter);
        assert(items.filter(pred) == if pred(items.last()) {
            items.drop_last().filter(pred).push(items.last())
        } else {
            items.drop_last().filter(pred)
        });
        assert forall|i: int|
            0 <= i < items.len() && (#[trigger] items[i]).0@.len() > 0 implies nonroot_entries(items).contains(
            items[i],
        ) by {
            if i < items.len() - 1 {
                assert(items.drop_last()[i] == items[i]);
                assert(r.contains(items[i]));
                let k = choose|k: int| 0 <= k < r.len() && r[k] == items[i];
                assert(nonroot_entries(items)[k] == items[i]);
            } else {
                assert(nonroot_entries(items).last() == items[i]);
            }
        }
        assert forall|k: int| 0 <= k < nonroot_entries(items).len() implies (#[trigger] nonroot_entries(
            items,
        )[k]).0@.len() > 0 by {
            if k < r.len() {
                assert(nonroot_entries(items)[k] == r[k]);
            }
        }
    }
}

/// The tasks that install the packages of `lock` other than the root
/// project, in the order of its entries, into the project named as the lock
/// file is.
pub fn install_tasks(lock: &PackageLock) -> (r: Vec<InstallTask>)
    ensures
        r@.len() == nonroot_entries(lock.packages.items()).len(),
        forall|k: int|
            0 <= k < r@.len() ==> task_for(
                #[trigger] r@[k],
                lock.name@,
                nonroot_entries(lock.packages.items())[k].0@,
                nonroot_entries(lock.packages.items())[k].1,
            ),
{
    let ghost items = lock.packages.items();
    let mut r: Vec<InstallTask> = Vec::new();
    let mut i: usize = 0;
    while i < lock.packages.len()
        invariant
            items == lock.packages.items(),
            i <= items.len(),
            r@.len() == nonroot_entries(items.take(i as int)).len(),
            forall|k: int|
                0 <= k < r@.len() ==> task_for(
                    #[trigger] r@[k],
                    lock.name@,
                    nonroot_entries(items.take(i as int))[k].0@,
                    nonroot_entries(items.take(i as int))[k].1,
                ),
        decreases items.len() - i,
    {
        let ghost before = nonroot_entries(items.take(i as int));
        assert(items.take(i + 1).drop_last() == items.take(i as int));
        assert(items.take(i + 1).last() == items[i as int]);
        let path = lock.packages.key_at(i);
        if !path.as_str().is_empty() {
            let pkg = lock.packages.value_at(i);
            let t = install_task(lock.name.as_str(), path.as_str(), pkg);
            r.push(t);
            proof {
                let after = nonroot_entries(items.take(i + 1));
                assert(after == before.push(items[i as int]));
                assert forall|k: int| 0 <= k < r@.len() implies task_for(
                    #[trigger] r@[k],
                    lock.name@,
                    after[k].0@,
                    after[k].1,
                ) by {
                    if k < before.len() {
                        assert(after[k] == before[k]);
                    }
                }
            }
        }
        i = i + 1;
    }
    assert(items.take(items.len() as int) == items);
    r
}

} // verus!

verus! {

/// An action as text: what `InstallAction` asks for, with its paths as
/// character sequences.
pub enum ActionView {
    Finish(Seq<char>),
    CheckExists(Seq<char>),
    Link(Seq<char>, Seq<char>),
    ReadFile(Seq<char>),
    Download(Seq<char>),
    WriteFile(Seq<char>),
    Extract(Seq<char>),
}

/// The view of an action.
pub open spec fn action_view(a: InstallAction) -> ActionView {
    match a {
        InstallAction::Finish(m) => ActionView::Finish(m@),
        InstallAction::CheckExists(p) => ActionView::CheckExists(p@),
        InstallAction::Link { src, dst } => ActionView::Link(src@, dst@),
        InstallAction::ReadFile(p) => ActionView::ReadFile(p@),
        InstallAction::Download(u) => ActionView::Download(u@),
        InstallAction::WriteFile(p) => ActionView::WriteFile(p@),
        InstallAction::Extract(d) => ActionView::Extract(d@),
    }
}

/// How an installation begins: a package without a tarball URL is reported
/// at once; else the unpacked copy in the store is looked for.
pub open spec fn start_spec(task: InstallTask) -> (InstallStage, ActionView) {
    match task.source {
        None => (InstallStage::Finished, ActionView::Finish(report(task, ": no resolved field"@))),
        Some(s) => (InstallStage::CheckingUnpacked, ActionView::CheckExists(s.unpacked_dir@)),
    }
}

/// How an installation goes on from `stage` once the pending action had
/// `outcome` (`Ok(found)` for a check, `Ok(_)` for other actions, `Err`
/// with the error's text for a failure): an unpacked copy is linked into
/// the project; else the tarball is read from the store or downloaded and
/// stored, unpacked into the store, and linked; each failure ends the
/// installation with a report.
pub open spec fn step_spec(task: InstallTask, stage: InstallStage, outcome: Result<bool, String>) -> (InstallStage, ActionView)
    recommends
        task.source is Some,
{
    let s = task.source->0;
    match stage {
        InstallStage::CheckingUnpacked => match outcome {
            Ok(true) => (InstallStage::LinkingCached, ActionView::Link(s.unpacked_dir@, s.install_dir@)),
            _ => (InstallStage::CheckingTarball, ActionView::CheckExists(s.tarball_path@)),
        },
        InstallStage::LinkingCached => match outcome {
            Ok(_) => (InstallStage::Finished, ActionView::Finish(report(task, ": fuse link from unpacked cache"@))),
            Err(e) => (InstallStage::Finished, ActionView::Finish(report(task, ": fuse link error: "@ + e@))),
        },
        InstallStage::CheckingTarball => match outcome {
            Ok(true) => (InstallStage::ReadingTarball, ActionView::ReadFile(s.tarball_path@)),
            _ => (InstallStage::Downloading, ActionView::Download(s.url@)),
        },
        InstallStage::ReadingTarball => match outcome {
            Ok(_) => (InstallStage::Extracting, ActionView::Extract(s.unpacked_dir@)),
            Err(e) => (InstallStage::Finished, ActionView::Finish(report(task, ": read cache error: "@ + e@))),
        },
        InstallStage::Downloading => match outcome {
            Ok(_) => (InstallStage::WritingTarball, ActionView::WriteFile(s.tarball_path@)),
            Err(e) => (InstallStage::Finished, ActionView::Finish(report(task, ": download error: "@ + e@))),
        },
        InstallStage::WritingTarball => match outcome {
            Ok(_) => (InstallStage::Extracting, ActionView::Extract(s.unpacked_dir@)),
            Err(e) => (InstallStage::Finished, ActionView::Finish(report(task, ": write tgz error: "@ + e@))),
        },
        InstallStage::Extracting => match outcome {
            Ok(_) => (InstallStage::LinkingExtracted, ActionView::Link(s.unpacked_dir@, s.install_dir@)),
            Err(e) => (InstallStage::Finished, ActionView::Finish(report(task, ": extract error: "@ + e@))),
        },
        InstallStage::LinkingExtracted => match outcome {
            Ok(_) => (InstallStage::Finished, ActionView::Finish(
                report(task, ": extracted to node_modules and fuse linked to unpacked"@),
            )),
            Err(e) => (InstallStage::Finished, ActionView::Finish(
                report(task, ": extracted to node_modules but fuse link error: "@ + e@),
            )),
        },
        InstallStage::Finished => (InstallStage::Finished, ActionView::Finish(seq![])),
    }
}

/// How many actions at most are left before an installation in `stage`
/// ends.
pub open spec fn stage_rank(stage: InstallStage) -> nat {
    match stage {
        InstallStage::CheckingUnpacked => 6,
        InstallStage::CheckingTarball => 5,
        InstallStage::Downloading => 4,
        InstallStage::ReadingTarball => 3,
        InstallStage::WritingTarball => 3,
        InstallStage::Extracting => 2,
        InstallStage::LinkingCached => 1,
        InstallStage::LinkingExtracted => 1,
        InstallStage::Finished => 0,
    }
}

/// An installation ends: each step from an unfinished stage comes closer to
/// the end, whatever the outcome of the pending action, so that no more
/// than six steps follow the start. It ends exactly when it asks for no
/// more action but reports, and its report begins with the package's
/// `<name>@<version>`.
pub proof fn lemma_install_ends(task: InstallTask, stage: InstallStage, outcome: Result<bool, String>)
    requires
        task.source is Some,
        stage != InstallStage::Finished,
    ensures
        stage_rank(step_spec(task, stage, outcome).0) < stage_rank(stage),
        stage_rank(start_spec(task).0) <= 6,
        (step_spec(task, stage, outcome).0 == InstallStage::Finished) <==> (step_spec(
            task,
            stage,
            outcome,
        ).1 is Finish),
        step_spec(task, stage, outcome).1 matches ActionView::Finish(m) ==> has_prefix(
            m,
            task.name@ + "@"@ + task.version@,
        ),
{
    let next = step_spec(task, stage, outcome);
    if let ActionView::Finish(m) = next.1 {
        let head = task.name@ + "@"@ + task.version@;
        let what = m.skip(head.len() as int);
        assert(m == head + what);
        assert(m.take(head.len() as int) =~= head);
    }
}

/// The store is used only for what it was found to hold: a step links the
/// unpacked copy only right after the check found it, reads the stored
/// tarball only right after the check found it, and downloads the tarball
/// exactly when the check of the tarball did not find it (absent, or the
/// check failed).
pub proof fn lemma_store_used_only_when_found(task: InstallTask, stage: InstallStage, outcome: Result<bool, String>)
    requires
        task.source is Some,
    ensures
        step_spec(task, stage, outcome).1 is ReadFile ==> stage == InstallStage::CheckingTarball
            && outcome == Ok::<bool, String>(true),
        step_spec(task, stage, outcome).1 is ReadFile ==> step_spec(task, stage, outcome).1
            == ActionView::ReadFile(task.source->0.tarball_path@),
        step_spec(task, stage, outcome).1 is Download <==> (stage == InstallStage::CheckingTarball
            && outcome != Ok::<bool, String>(true)),
        step_spec(task, stage, outcome).1 is Download ==> step_spec(task, stage, outcome)
            == (InstallStage::Downloading, ActionView::Download(task.source->0.url@)),
        (stage == InstallStage::CheckingUnpacked && step_spec(task, stage, outcome).1 is Link)
            <==> (stage == InstallStage::CheckingUnpacked && outcome == Ok::<bool, String>(true)),
{
}

/// The report `<name>@<version><what>` of a task, `what` being a literal
/// followed by an optional error text.
fn report_of(task: &InstallTask, what: &str, error: Option<&String>) -> (r: String)
    ensures
        r@ == report(
            *task,
            match error {
                Some(e) => what@ + e@,
                None => what@,
            },
        ),
{
    let mut r = task.name.clone();
    r.append("@");
    r.append(task.version.as_str());
    r.append(what);
    match error {
        Some(e) => {
            r.append(e.as_str());
        },
        None => {},
    }
    r
}

/// The first stage and action of installing `task` (see `start_spec`).
pub fn install_start(task: &InstallTask) -> (r: (InstallStage, InstallAction))
    ensures
        (r.0, action_view(r.1)) == start_spec(*task),
{
    match &task.source {
        None => (InstallStage::Finished, InstallAction::Finish(report_of(task, ": no resolved field", None))),
        Some(s) => (InstallStage::CheckingUnpacked, InstallAction::CheckExists(s.unpacked_dir.clone())),
    }
}

/// The next stage and action of installing `task` from `stage`, once the
/// pending action had `outcome` (see `step_spec`).
pub fn install_step(task: &InstallTask, stage: InstallStage, outcome: Result<bool, String>) -> (r: (
    InstallStage,
    InstallAction,
))
    requires
        task.source is Some,
    ensures
        (r.0, action_view(r.1)) == step_spec(*task, stage, outcome),
{
    let s = match &task.source {
        Some(s) => s,
        None => {
            return (InstallStage::Finished, InstallAction::Finish(String::new()));
        },
    };
    let err = match &outcome {
        Ok(_) => None,
        Err(e) => Some(e),
    };
    let found = match &outcome {
        Ok(b) => *b,
        Err(_) => false,
    };
    match stage {
        InstallStage::CheckingUnpacked => if found {
            (InstallStage::LinkingCached, InstallAction::Link { src: s.unpacked_dir.clone(), dst: s.install_dir.clone() })
        } else {
            (InstallStage::CheckingTarball, InstallAction::CheckExists(s.tarball_path.clone()))
        },
        InstallStage::LinkingCached => match err {
            None => (InstallStage::Finished, InstallAction::Finish(report_of(task, ": fuse link from unpacked cache", None))),
            Some(e) => (InstallStage::Finished, InstallAction::Finish(report_of(task, ": fuse link error: ", Some(e)))),
        },
        InstallStage::CheckingTarball => if found {
            (InstallStage::ReadingTarball, InstallAction::ReadFile(s.tarball_path.clone()))
        } else {
            (InstallStage::Downloading, InstallAction::Download(s.url.clone()))
        },
        InstallStage::ReadingTarball => match err {
            None => (InstallStage::Extracting, InstallAction::Extract(s.unpacked_dir.clone())),
            Some(e) => (InstallStage::Finished, InstallAction::Finish(report_of(task, ": read cache error: ", Some(e)))),
        },
        InstallStage::Downloading => match err {
            None => (InstallStage::WritingTarball, InstallAction::WriteFile(s.tarball_path.clone())),
            Some(e) => (InstallStage::Finished, InstallAction::Finish(report_of(task, ": download error: ", Some(e)))),
        },
        InstallStage::WritingTarball => match err {
            None => (InstallStage::Extracting, InstallAction::Extract(s.unpacked_dir.clone())),
            Some(e) => (InstallStage::Finished, InstallAction::Finish(report_of(task, ": write tgz error: ", Some(e)))),
        },
        InstallStage::Extracting => match err {
            None => (InstallStage::LinkingExtracted, InstallAction::Link { src: s.unpacked_dir.clone(), dst: s.install_dir.clone() }),
            Some(e) => (InstallStage::Finished, InstallAction::Finish(report_of(task, ": extract error: ", Some(e)))),
        },
        InstallStage::LinkingExtracted => match err {
            None => (InstallStage::Finished, InstallAction::Finish(report_of(task, ": extracted to node_modules and fuse linked to unpacked", None))),
            Some(e) => (InstallStage::Finished, InstallAction::Finish(report_of(task, ": extracted to node_modules but fuse link error: ", Some(e)))),
        },
        InstallStage::Finished => (InstallStage::Finished, InstallAction::Finish(String::new())),
    }
}

/// The directory of the project's installed packages: `<project>/node_modules`.
pub fn project_modules_dir(project: &str) -> (r: String)
    ensures
        r@ == project@ + "/node_modules"@,
{
    let mut r = String::from_str(project);
    r.append("/node_modules");
    r
}

/// The project's package file: `<project>/package.json`.
pub fn project_package_json_path(project: &str) -> (r: String)
    ensures
        r@ == project@ + "/package.json"@,
{
    let mut r = String::from_str(project);
    r.append("/package.json");
    r
}

} // verus!
