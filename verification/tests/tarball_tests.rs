use opfs_project::tarball::{decode_tgz, tgz_files, tgz_writes, TgzEntry};
use std::io::Write;

fn tgz(files: &[(&str, &[u8])], dirs: &[&str]) -> Vec<u8> {
    let mut builder = tar::Builder::new(Vec::new());
    for d in dirs {
        let mut header = tar::Header::new_gnu();
        header.set_entry_type(tar::EntryType::Directory);
        header.set_size(0);
        header.set_mode(0o755);
        header.set_cksum();
        builder.append_data(&mut header, d, &[][..]).unwrap();
    }
    for (path, data) in files {
        let mut header = tar::Header::new_gnu();
        header.set_size(data.len() as u64);
        header.set_mode(0o644);
        header.set_cksum();
        builder.append_data(&mut header, path, *data).unwrap();
    }
    let tar_bytes = builder.into_inner().unwrap();
    let mut enc = flate2::write::GzEncoder::new(Vec::new(), flate2::Compression::default());
    enc.write_all(&tar_bytes).unwrap();
    enc.finish().unwrap()
}

#[test]
fn decode_reads_entries_in_order() {
    let bytes = tgz(&[("package/index.js", b"x=1"), ("package/lib/a.js", b"a")], &["package"]);
    let (entries, failure) = decode_tgz(&bytes);
    assert!(failure.is_none());
    let seen: Vec<(String, bool)> = entries.iter().map(|e| (e.path.clone(), e.is_file)).collect();
    assert_eq!(
        seen,
        vec![
            ("package".to_string(), false),
            ("package/index.js".to_string(), true),
            ("package/lib/a.js".to_string(), true)
        ]
    );
    assert_eq!(entries[1].contents, b"x=1".to_vec());
}

#[test]
fn tgz_files_strip_the_package_directory() {
    let bytes = tgz(&[("package/index.js", b"x=1"), ("other.txt", b"o")], &["package", "package/lib"]);
    let (files, failure) = tgz_files(&bytes, "/store/a-unpack");
    assert!(failure.is_none());
    assert_eq!(
        files,
        vec![
            ("/store/a-unpack/index.js".to_string(), b"x=1".to_vec()),
            ("/store/a-unpack/other.txt".to_string(), b"o".to_vec())
        ]
    );
}

#[test]
fn tgz_files_report_unreadable_bytes() {
    let (files, failure) = tgz_files(b"not a tarball", "/d");
    assert!(files.is_empty());
    assert!(failure.is_some());
}

#[test]
fn tgz_writes_keep_only_placed_files() {
    let e = |p: &str, f: bool, c: &[u8]| TgzEntry { path: p.to_string(), is_file: f, contents: c.to_vec() };
    let entries = vec![e("package", true, b"skip"), e("package/dir", false, b""), e("package/f", true, b"1"), e("g", true, b"2")];
    assert_eq!(
        tgz_writes("/d", &entries),
        vec![("/d/f".to_string(), b"1".to_vec()), ("/d/g".to_string(), b"2".to_vec())]
    );
}
