use opfs_project::opfs::{
    entry_kinds, file_name_of, fuse_link_in, fuse_link_target, get_fuse_link_path, get_package_name, is_lone_fuse_link,
    linked_dir_of, linked_dir_target, linked_file_target, prepare_path, read_after_link,
    read_dir_after_link, read_dir_after_listing, read_dir_after_lone_link, read_dir_start, read_start,
    CwdState, DirEntry, ListStep, ReadStep,
};

#[test]
fn package_name_of_plain_package() {
    assert_eq!(get_package_name("/p/node_modules/lodash/index.js"), Some("lodash".to_string()));
    assert_eq!(get_package_name("node_modules/lodash"), Some("lodash".to_string()));
}

#[test]
fn package_name_of_scoped_package() {
    assert_eq!(get_package_name("/p/node_modules/@babel/core/lib/x.js"), Some("@babel/core".to_string()));
    assert_eq!(get_package_name("/p/node_modules/@babel/core"), Some("@babel/core".to_string()));
}

#[test]
fn package_name_needs_node_modules_and_a_name() {
    assert_eq!(get_package_name("/p/src/index.js"), None);
    assert_eq!(get_package_name("/p/node_modules"), None);
    assert_eq!(get_package_name("/p/node_modules/"), None);
    assert_eq!(get_package_name("/p/node_modules/@scope"), None);
}

#[test]
fn package_name_skips_repeated_slashes_and_uses_first_node_modules() {
    assert_eq!(get_package_name("/p/node_modules//foo/bar"), Some("foo".to_string()));
    assert_eq!(get_package_name("/p/node_modules/a/node_modules/b/x"), Some("a".to_string()));
    assert_eq!(get_package_name("/p/node_modulesx/y"), Some("x".to_string()));
}

#[test]
fn fuse_link_path_of_package() {
    assert_eq!(
        get_fuse_link_path("/p/node_modules/lodash/lib/a.js"),
        Some("/p//node_modules/lodash/fuse.link".to_string())
    );
    assert_eq!(
        get_fuse_link_path("node_modules/@s/x/y"),
        Some("/node_modules/@s/x/fuse.link".to_string())
    );
    assert_eq!(get_fuse_link_path("/p/src/a.js"), None);
}

#[test]
fn prepare_path_keeps_absolute_paths() {
    assert_eq!(prepare_path("/abs/file", "/cwd"), "/abs/file");
    assert_eq!(prepare_path("rel/file", "/cwd"), "/cwd/rel/file");
    assert_eq!(prepare_path("", "/cwd"), "/cwd/");
}

#[test]
fn fuse_link_target_is_first_line_trimmed() {
    assert_eq!(fuse_link_target("  /stores/x-unpack \t\nsecond\n"), "/stores/x-unpack");
    assert_eq!(fuse_link_target("/a\r\n/b"), "/a");
    assert_eq!(fuse_link_target(""), "");
    assert_eq!(fuse_link_target("\n/b"), "");
    assert_eq!(fuse_link_target("\u{3000}/x\u{a0}"), "/x");
}

#[test]
fn linked_file_keeps_path_below_package() {
    assert_eq!(
        linked_file_target("/p/node_modules/lodash/lib/a.js", "/t"),
        Some("/t/lib/a.js".to_string())
    );
    assert_eq!(
        linked_file_target("/p/node_modules/@s/x//y.js", "/t"),
        Some("/t/y.js".to_string())
    );
    assert_eq!(linked_file_target("/p/src/a.js", "/t"), None);
}

#[test]
fn linked_dir_of_package_root_and_subdirectory() {
    assert_eq!(linked_dir_target("lodash", "lodash", "/t"), "/t");
    assert_eq!(linked_dir_target("@lodash/has", "has", "/t"), "/t/has");
    assert_eq!(linked_dir_of("/p/node_modules/lodash", "/t"), Some("/t".to_string()));
    assert_eq!(linked_dir_of("/p/node_modules/@lodash/has", "/t"), Some("/t/has".to_string()));
    assert_eq!(linked_dir_of("/p/node_modules/lodash/lib", "/t"), Some("/t/lib".to_string()));
    assert_eq!(linked_dir_of("/p/node_modules/lodash/..", "/t"), None);
    assert_eq!(linked_dir_of("/p/src", "/t"), None);
}

#[test]
fn read_steps_follow_the_link() {
    let p = "/p/node_modules/lodash/index.js";
    assert!(matches!(read_start(p), ReadStep::Link(l) if l == "/p//node_modules/lodash/fuse.link"));
    assert!(matches!(read_start("/p/a.js"), ReadStep::Direct(d) if d == "/p/a.js"));
    assert!(matches!(read_after_link(p, Some("/stores/l-unpack\n")), ReadStep::Target(t) if t == "/stores/l-unpack/index.js"));
    assert!(matches!(read_after_link(p, Some("   \n")), ReadStep::Direct(d) if d == p));
    assert!(matches!(read_after_link(p, None), ReadStep::Direct(d) if d == p));
}

#[test]
fn list_steps_follow_the_link() {
    let p = "/p/node_modules/lodash";
    assert!(matches!(read_dir_start(p), ListStep::Link(l) if l == "/p//node_modules/lodash/fuse.link"));
    assert!(matches!(read_dir_start("/p/src"), ListStep::List(d) if d == "/p/src"));
    assert!(matches!(read_dir_after_link(p, Some("/s\n")), ListStep::Redirect(t) if t == "/s"));
    assert!(matches!(read_dir_after_link(p, Some("")), ListStep::List(d) if d == p));
    assert!(matches!(read_dir_after_link(p, None), ListStep::List(d) if d == p));
}

fn entry(name: &str) -> DirEntry {
    DirEntry { name: name.to_string(), is_file: true, is_dir: false }
}

#[test]
fn lone_fuse_link_listing_redirects() {
    assert!(is_lone_fuse_link(&vec![entry("fuse.link")]));
    assert!(!is_lone_fuse_link(&vec![entry("fuse.link"), entry("a")]));
    assert!(!is_lone_fuse_link(&vec![entry("a")]));
    assert!(!is_lone_fuse_link(&vec![]));
    assert_eq!(read_dir_after_listing("/d", &vec![entry("fuse.link")]), Some("/d/fuse.link".to_string()));
    assert_eq!(read_dir_after_listing("/d", &vec![entry("x")]), None);
    assert_eq!(read_dir_after_lone_link(" /target \n"), Some("/target".to_string()));
    assert_eq!(read_dir_after_lone_link("\n"), None);
    assert_eq!(fuse_link_in("/d"), "/d/fuse.link");
}

#[test]
fn entry_kinds_from_metadata_text() {
    assert_eq!(entry_kinds("Metadata { file_type: FileType { is_file: true } }"), (true, false));
    assert_eq!(entry_kinds("FileType(Directory)"), (true, true));
    assert_eq!(entry_kinds("Directory"), (false, true));
    assert_eq!(entry_kinds(""), (false, false));
}

#[test]
fn setting_cwd_sets_it_from_the_first_use() {
    let mut s = CwdState::new();
    s.set("/first");
    assert_eq!(s.get(), "/first");
    s.set("/work");
    assert_eq!(s.get(), "/work");
}

#[test]
fn reading_cwd_initializes_it() {
    let mut s = CwdState::new();
    assert_eq!(s.get(), "/utoo-wasm-demo");
    assert_eq!(s.get(), "/utoo-wasm-demo");
    s.set("/w");
    assert_eq!(s.get(), "/w");
    assert_eq!(s.get(), "/w");
}

#[test]
fn prepared_paths_stay_prepared() {
    let once = prepare_path("rel/file", "/cwd");
    assert_eq!(prepare_path(&once, "/cwd"), once);
    assert!(once.starts_with('/'));
}

#[test]
fn file_name_is_the_last_component() {
    let cases = [
        "", "/", ".", "..", "./", "a", "/a", "a/", "a//", "/usr/bin/", "tmp/foo.txt",
        "foo.txt/.", "foo.txt/.//", "foo.txt/..", "/p/node_modules/@scope/pkg", "a/./b/.",
        "./.", "/./", "a/../", "x/.../", "node_modules/lodash",
    ];
    for c in cases {
        let expected = std::path::Path::new(c).file_name().map(|n| n.to_string_lossy().to_string());
        assert_eq!(file_name_of(c), expected, "path {c:?}");
    }
    assert_eq!(file_name_of("foo.txt/."), Some("foo.txt".to_string()));
    assert_eq!(file_name_of("foo.txt/.."), None);
}

#[test]
fn listing_a_linked_package_goes_to_its_store_directory() {
    let own = "/proj/node_modules/lodash";
    assert!(matches!(read_dir_start(own), ListStep::Link(l) if l == "/proj//node_modules/lodash/fuse.link"));
    assert!(matches!(read_dir_after_link(own, Some("/store/lodash-unpack\n")), ListStep::Redirect(t) if t == "/store/lodash-unpack"));
    let sub = "/proj/node_modules/lodash/fp";
    assert!(matches!(read_dir_start(sub), ListStep::Link(l) if l == "/proj//node_modules/lodash/fuse.link"));
    assert!(matches!(read_dir_after_link(sub, Some(" /store/lodash-unpack \n")), ListStep::Redirect(t) if t == "/store/lodash-unpack/fp"));
}
