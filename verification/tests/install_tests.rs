use opfs_project::model::{LockPackage, PackageLock};
use opfs_project::package_manager::{
    fuse_link_content, install_start, install_step, install_task, install_tasks, parent_dir_of,
    project_package_json_path, project_modules_dir, tgz_entry_target, InstallAction, InstallStage,
};
use opfs_project::str_map::StrMap;

fn package(name: Option<&str>, version: Option<&str>, resolved: Option<&str>) -> LockPackage {
    LockPackage {
        name: name.map(|s| s.to_string()),
        version: version.map(|s| s.to_string()),
        resolved: resolved.map(|s| s.to_string()),
        integrity: None,
        license: None,
        dependencies: None,
        dev_dependencies: None,
        peer_dependencies: None,
        optional_dependencies: None,
        requires: None,
        bin: None,
        engines: None,
        funding: None,
        peer: None,
        dev: None,
        optional: None,
        has_install_script: None,
        workspaces: None,
    }
}

#[test]
fn parent_dir_is_text_before_last_slash() {
    assert_eq!(parent_dir_of("/a/b/c.txt"), "/a/b");
    assert_eq!(parent_dir_of("c.txt"), "");
    assert_eq!(parent_dir_of("/c.txt"), "");
}

#[test]
fn tgz_entries_drop_the_package_directory() {
    assert_eq!(tgz_entry_target("/x", "package/lib/a.js"), Some("/x/lib/a.js".to_string()));
    assert_eq!(tgz_entry_target("/x", "package"), None);
    assert_eq!(tgz_entry_target("/x", "other/a.js"), Some("/x/other/a.js".to_string()));
    assert_eq!(tgz_entry_target("/x", "package/"), Some("/x/".to_string()));
}

#[test]
fn fuse_link_content_new_file() {
    assert_eq!(fuse_link_content(None, "/s/a-unpack"), "/s/a-unpack\n");
}

#[test]
fn fuse_link_content_appends_new_link() {
    assert_eq!(fuse_link_content(Some("/one\n\n  \n/two\n"), "/three"), "/one\n/two\n/three\n");
}

#[test]
fn fuse_link_content_keeps_present_link_once() {
    assert_eq!(fuse_link_content(Some("/one\r\n/two"), "/one"), "/one\n/two\n");
    let once = fuse_link_content(Some("/x\n"), "/y");
    let twice = fuse_link_content(Some(&once), "/y");
    assert_eq!(once, twice);
}

#[test]
fn install_task_paths() {
    let t = install_task("proj", "node_modules/lodash", &package(None, Some("4.17.21"), Some("https://r.example/lodash/-/lodash-4.17.21.tgz")));
    assert_eq!(t.name, "lodash");
    assert_eq!(t.version, "4.17.21");
    let s = t.source.as_ref().unwrap();
    assert_eq!(s.url, "https://r.example/lodash/-/lodash-4.17.21.tgz");
    assert_eq!(s.tarball_path, "/stores/lodash/-/lodash-4.17.21.tgz");
    assert_eq!(s.unpacked_dir, "/stores/lodash/-/lodash-4.17.21.tgz-unpack");
    assert_eq!(s.install_dir, "proj/node_modules/lodash");
}

#[test]
fn install_without_url_reports_at_once() {
    let t = install_task("proj", "node_modules/x", &package(Some("x"), None, None));
    assert!(t.source.is_none());
    let (stage, action) = install_start(&t);
    assert_eq!(stage, InstallStage::Finished);
    assert!(matches!(action, InstallAction::Finish(m) if m == "x@unknown: no resolved field"));
}

fn url_task() -> opfs_project::package_manager::InstallTask {
    install_task("p", "node_modules/a", &package(None, Some("1.0.0"), Some("https://h/a/-/a-1.0.0.tgz")))
}

#[test]
fn install_from_unpacked_cache() {
    let t = url_task();
    let (stage, action) = install_start(&t);
    assert_eq!(stage, InstallStage::CheckingUnpacked);
    assert!(matches!(action, InstallAction::CheckExists(p) if p == "/stores/a/-/a-1.0.0.tgz-unpack"));
    let (stage, action) = install_step(&t, stage, Ok(true));
    assert_eq!(stage, InstallStage::LinkingCached);
    assert!(matches!(action, InstallAction::Link { src, dst } if src == "/stores/a/-/a-1.0.0.tgz-unpack" && dst == "p/node_modules/a"));
    let (stage, action) = install_step(&t, stage, Ok(true));
    assert_eq!(stage, InstallStage::Finished);
    assert!(matches!(action, InstallAction::Finish(m) if m == "a@1.0.0: fuse link from unpacked cache"));
}

#[test]
fn install_by_download() {
    let t = url_task();
    let (stage, _) = install_start(&t);
    let (stage, action) = install_step(&t, stage, Ok(false));
    assert_eq!(stage, InstallStage::CheckingTarball);
    assert!(matches!(action, InstallAction::CheckExists(p) if p == "/stores/a/-/a-1.0.0.tgz"));
    let (stage, action) = install_step(&t, stage, Err("io".to_string()));
    assert_eq!(stage, InstallStage::Downloading);
    assert!(matches!(action, InstallAction::Download(u) if u == "https://h/a/-/a-1.0.0.tgz"));
    let (stage, action) = install_step(&t, stage, Ok(true));
    assert_eq!(stage, InstallStage::WritingTarball);
    assert!(matches!(action, InstallAction::WriteFile(p) if p == "/stores/a/-/a-1.0.0.tgz"));
    let (stage, action) = install_step(&t, stage, Ok(true));
    assert_eq!(stage, InstallStage::Extracting);
    assert!(matches!(action, InstallAction::Extract(d) if d == "/stores/a/-/a-1.0.0.tgz-unpack"));
    let (stage, action) = install_step(&t, stage, Ok(true));
    assert_eq!(stage, InstallStage::LinkingExtracted);
    assert!(matches!(action, InstallAction::Link { .. }));
    let (stage, action) = install_step(&t, stage, Ok(true));
    assert_eq!(stage, InstallStage::Finished);
    assert!(matches!(action, InstallAction::Finish(m) if m == "a@1.0.0: extracted to node_modules and fuse linked to unpacked"));
}

#[test]
fn install_from_cached_tarball() {
    let t = url_task();
    let (stage, action) = install_step(&t, InstallStage::CheckingTarball, Ok(true));
    assert_eq!(stage, InstallStage::ReadingTarball);
    assert!(matches!(action, InstallAction::ReadFile(p) if p == "/stores/a/-/a-1.0.0.tgz"));
    let (stage, action) = install_step(&t, stage, Ok(true));
    assert_eq!(stage, InstallStage::Extracting);
    assert!(matches!(action, InstallAction::Extract(_)));
}

#[test]
fn install_failures_are_reported() {
    let t = url_task();
    let cases = [
        (InstallStage::LinkingCached, "a@1.0.0: fuse link error: E"),
        (InstallStage::ReadingTarball, "a@1.0.0: read cache error: E"),
        (InstallStage::Downloading, "a@1.0.0: download error: E"),
        (InstallStage::WritingTarball, "a@1.0.0: write tgz error: E"),
        (InstallStage::Extracting, "a@1.0.0: extract error: E"),
        (InstallStage::LinkingExtracted, "a@1.0.0: extracted to node_modules but fuse link error: E"),
    ];
    for (stage, expected) in cases {
        let (next, action) = install_step(&t, stage, Err("E".to_string()));
        assert_eq!(next, InstallStage::Finished);
        assert!(matches!(action, InstallAction::Finish(m) if m == expected));
    }
}

#[test]
fn install_tasks_skip_the_root() {
    let mut packages = StrMap::new();
    packages.insert("".to_string(), package(Some("proj"), Some("1"), None));
    packages.insert("node_modules/a".to_string(), package(None, Some("1"), Some("u/a.tgz")));
    packages.insert("node_modules/b".to_string(), package(None, None, None));
    let lock = PackageLock {
        name: "proj".to_string(),
        version: "1".to_string(),
        lockfile_version: 3,
        requires: true,
        packages,
        dependencies: None,
    };
    let tasks = install_tasks(&lock);
    assert_eq!(tasks.len(), 2);
    assert_eq!(tasks[0].name, "a");
    assert_eq!(tasks[0].source.as_ref().unwrap().tarball_path, "/stores/a/-/a.tgz");
    assert_eq!(tasks[1].name, "b");
    assert!(tasks[1].source.is_none());
    assert_eq!(project_modules_dir("proj"), "proj/node_modules");
    assert_eq!(project_package_json_path("proj"), "proj/package.json");
}

#[test]
fn install_ends_within_six_steps_with_a_named_report() {
    let t = url_task();
    for pattern in 0u32..64 {
        let (mut stage, mut action) = install_start(&t);
        let mut steps = 0u32;
        while stage != InstallStage::Finished {
            let outcome = if pattern & (1 << steps) != 0 { Ok(true) } else { Err("E".to_string()) };
            let next = install_step(&t, stage, outcome);
            stage = next.0;
            action = next.1;
            steps += 1;
            assert!(steps <= 6);
        }
        assert!(matches!(action, InstallAction::Finish(m) if m.starts_with("a@1.0.0")));
    }
}

#[test]
fn fuse_link_content_is_stable_over_blank_carriage_return_lines() {
    let once = fuse_link_content(Some("/a\n \r\n"), "/b");
    assert_eq!(once, "/a\n/b\n");
    assert_eq!(fuse_link_content(Some(&once), "/b"), once);
}
