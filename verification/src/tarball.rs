//! The files of a package tarball: its gzip-compressed tar entries, read
//! with `flate2` and `tar`, and the files that unpacking them writes.
use vstd::prelude::*;
use std::io::Read;
use flate2::read::GzDecoder;
use tar::Archive;
use crate::package_manager::tgz_entry_out_path;

verus! {

/// An entry of a tarball: its path, whether it is a regular file, and its
/// contents.
#[derive(Debug)]
pub struct TgzEntry {
    pub path: String,
    pub is_file: bool,
    pub contents: Vec<u8>,
}

/// The view of an entry: path, whether it is a file, contents.
pub open spec fn entry_view(e: TgzEntry) -> (Seq<char>, bool, Seq<u8>) {
    (e.path@, e.is_file, e.contents@)
}

/// The views of the entries `es`.
pub open spec fn entries_view(es: Seq<TgzEntry>) -> Seq<(Seq<char>, bool, Seq<u8>)> {
    es.map_values(|e: TgzEntry| entry_view(e))
}

/// The view of an optional error message.
pub open spec fn opt_view(e: Option<String>) -> Option<Seq<char>> {
    match e {
        Some(m) => Some(m@),
        None => None,
    }
}

/// What reading the gzip-compressed tarball `bytes` gives: its entries in
/// order up to the first one that cannot be read, and the message of that
/// failure, if any.
pub uninterp spec fn tgz_entries(bytes: Seq<u8>) -> (Seq<(Seq<char>, bool, Seq<u8>)>, Option<Seq<char>>);

/// Reads the entries of the gzip-compressed tarball `bytes` with
/// `flate2::read::GzDecoder` and `tar::Archive::entries`: each entry's path
/// (`Entry::path`), whether its header marks a regular file
/// (`EntryType::is_file`) and its contents (`read_to_end`), in archive
/// order, stopping at the first failure, whose message comes back beside
/// the entries read before it. The result is named `tgz_entries`.
#[verifier::external_body]
pub fn decode_tgz(bytes: &[u8]) -> (r: (Vec<TgzEntry>, Option<String>))
    ensures
        (entries_view(r.0@), opt_view(r.1)) == tgz_entries(bytes@),
{
    let mut out = Vec::new();
    let mut archive = Archive::new(GzDecoder::new(bytes));
    let entries = match archive.entries() { Ok(es) => es, Err(e) => return (out, Some(e.to_string())) };
    for entry in entries {
        let read = entry.and_then(|mut en| {
            let mut contents = Vec::new();
            en.read_to_end(&mut contents)?;
            Ok(TgzEntry { path: en.path()?.to_string_lossy().to_string(), is_file: en.header().entry_type().is_file(), contents })
        });
        match read { Ok(e) => out.push(e), Err(e) => return (out, Some(e.to_string())) }
    }
    (out, None)
}

/// The files that unpacking the entries `es` into `dir` writes, in order:
/// each regular file whose entry has a place under `dir` (see
/// `tgz_entry_out_path`), with its contents.
pub open spec fn tgz_write_list(dir: Seq<char>, es: Seq<(Seq<char>, bool, Seq<u8>)>) -> Seq<(Seq<char>, Seq<u8>)>
    decreases es.len(),
{
    if es.len() == 0 {
        seq![]
    } else {
        let prev = tgz_write_list(dir, es.drop_last());
        let e = es.last();
        match tgz_entry_out_path(dir, e.0) {
            Some(out) => if e.1 {
                prev.push((out, e.2))
            } else {
                prev
            },
            None => prev,
        }
    }
}

/// The views of the files to write.
pub open spec fn writes_view(ws: Seq<(String, Vec<u8>)>) -> Seq<(Seq<char>, Seq<u8>)> {
    ws.map_values(|w: (String, Vec<u8>)| (w.0@, w.1@))
}

fn copy_bytes(v: &Vec<u8>) -> (r: Vec<u8>)
    ensures
        r@ == v@,
{
    let mut r: Vec<u8> = Vec::new();
    let mut i: usize = 0;
    while i < v.len()
        invariant
            i <= v@.len(),
            r@ == v@.take(i as int),
        decreases v@.len() - i,
    {
        r.push(v[i]);
        assert(v@.take(i + 1) == v@.take(i as int).push(v@[i as int]));
        i = i + 1;
    }
    assert(v@.take(v@.len() as int) == v@);
    r
}

/// The files that unpacking the entries `entries` into `extract_dir`
/// writes (see `tgz_write_list`).
pub fn tgz_writes(extract_dir: &str, entries: &Vec<TgzEntry>) -> (r: Vec<(String, Vec<u8>)>)
    ensures
        writes_view(r@) == tgz_write_list(extract_dir@, entries_view(entries@)),
{
    let ghost es = entries_view(entries@);
    let mut r: Vec<(String, Vec<u8>)> = Vec::new();
    let mut i: usize = 0;
    while i < entries.len()
        invariant
            es == entries_view(entries@),
            i <= entries@.len(),
            writes_view(r@) == tgz_write_list(extract_dir@, es.take(i as int)),
        decreases entries@.len() - i,
    {
        let e = &entries[i];
        proof {
            assert(es.take(i + 1).drop_last() == es.take(i as int));
            assert(es.take(i + 1).last() == entry_view(*e));
        }
        let ghost before = writes_view(r@);
        match crate::package_manager::tgz_entry_target(extract_dir, e.path.as_str()) {
            Some(out) => {
                if e.is_file {
                    let c = copy_bytes(&e.contents);
                    r.push((out, c));
                    assert(writes_view(r@) == before.push((out@, c@)));
                }
            },
            None => {},
        }
        i = i + 1;
    }
    assert(es.take(entries@.len() as int) == es);
    r
}

/// The files that unpacking the gzip-compressed tarball `bytes` into
/// `extract_dir` writes, in order, and the message of the failure that
/// stopped the reading, if any: the files read before a failure are still
/// written.
pub fn tgz_files(bytes: &[u8], extract_dir: &str) -> (r: (Vec<(String, Vec<u8>)>, Option<String>))
    ensures
        writes_view(r.0@) == tgz_write_list(extract_dir@, tgz_entries(bytes@).0),
        opt_view(r.1) == tgz_entries(bytes@).1,
{
    let (entries, failure) = decode_tgz(bytes);
    let writes = tgz_writes(extract_dir, &entries);
    (writes, failure)
}

} // verus!
