use zippy::extract::plan_entries;
use zippy::extract::plan_entry;
use zippy::Action;
use zippy::Entry;
use zippy::ZippyError;

fn entry(name: &str, data: &[u8], unix_mode: Option<u32>, comment: &str) -> Entry {
    Entry { name: name.to_string(), data: data.to_vec(), unix_mode, comment: comment.to_string() }
}

fn dir_all(path: &str) -> Action {
    Action::CreateDirAll { path: path.to_string() }
}

fn write(path: &str, data: &[u8]) -> Action {
    Action::WriteFile { path: path.to_string(), data: data.to_vec() }
}

fn mode(path: &str, mode: u32) -> Action {
    Action::SetPermissions { path: path.to_string(), mode }
}

#[test]
fn file_entry_creates_its_parent_then_writes() {
    let steps = plan_entry(&entry("src/a.txt", b"hi", None, ""), 0, "dest", true).unwrap();
    assert_eq!(steps, vec![dir_all("dest/src"), write("dest/src/a.txt", b"hi")]);
}

#[test]
fn file_entry_at_the_top_creates_the_output_directory() {
    let steps = plan_entry(&entry("a.txt", b"hi", None, ""), 0, "dest", true).unwrap();
    assert_eq!(steps, vec![dir_all("dest"), write("dest/a.txt", b"hi")]);
}

#[test]
fn directory_entry_creates_the_directory() {
    let steps = plan_entry(&entry("src/sub/", b"", None, ""), 3, "dest", true).unwrap();
    assert_eq!(steps, vec![dir_all("dest/src/sub")]);
}

#[test]
fn mode_is_restored_last_on_a_unix_host() {
    let steps = plan_entry(&entry("bin/run", b"x", Some(0o100755), ""), 0, "out", true).unwrap();
    assert_eq!(
        steps,
        vec![dir_all("out/bin"), write("out/bin/run", b"x"), mode("out/bin/run", 0o100755)]
    );
    let steps = plan_entry(&entry("bin/", b"", Some(0o40755), ""), 0, "out", true).unwrap();
    assert_eq!(steps, vec![dir_all("out/bin"), mode("out/bin", 0o40755)]);
}

#[test]
fn mode_is_left_alone_on_another_host() {
    let steps = plan_entry(&entry("bin/run", b"x", Some(0o100755), ""), 0, "out", false).unwrap();
    assert_eq!(steps, vec![dir_all("out/bin"), write("out/bin/run", b"x")]);
}

#[test]
fn comment_is_shown_first() {
    let steps = plan_entry(&entry("a.txt", b"x", None, "hello"), 7, "out", true).unwrap();
    assert_eq!(
        steps,
        vec![
            Action::ShowComment { index: 7, comment: "hello".to_string() },
            dir_all("out"),
            write("out/a.txt", b"x"),
        ]
    );
}

#[test]
fn escaping_entry_is_refused() {
    let r = plan_entry(&entry("../../escape.txt", b"x", None, ""), 0, "dest", true);
    assert!(matches!(r, Err(ZippyError::UnsafeEntryName(name)) if name == "../../escape.txt"));
}

#[test]
fn rooted_entry_is_refused() {
    let r = plan_entry(&entry("/etc/passwd", b"x", None, ""), 0, "dest", true);
    assert!(matches!(r, Err(ZippyError::UnsafeEntryName(name)) if name == "/etc/passwd"));
}

#[test]
fn file_entry_that_leads_nowhere_is_refused() {
    let r = plan_entry(&entry("", b"x", None, ""), 0, "dest", true);
    assert!(matches!(r, Err(ZippyError::UnsafeEntryName(name)) if name == ""));
    let r = plan_entry(&entry("a/..", b"x", None, ""), 0, "dest", true);
    assert!(matches!(r, Err(ZippyError::UnsafeEntryName(name)) if name == "a/.."));
}

#[test]
fn directory_entry_that_leads_nowhere_is_the_output_directory() {
    let steps = plan_entry(&entry("./", b"", None, ""), 0, "dest", true).unwrap();
    assert_eq!(steps, vec![dir_all("dest")]);
}

#[test]
fn dot_dot_inside_the_tree_is_followed() {
    let steps = plan_entry(&entry("a/../b/c.txt", b"x", None, ""), 0, "dest", true).unwrap();
    assert_eq!(steps, vec![dir_all("dest/b"), write("dest/b/c.txt", b"x")]);
}

#[test]
fn plan_of_no_entries_creates_the_output_directory_only() {
    let (steps, r) = plan_entries(&vec![], "dest", false, true);
    assert_eq!(steps, vec![Action::CreateDir { path: "dest".to_string() }]);
    assert_eq!(r.unwrap(), 0);
    let (steps, r) = plan_entries(&vec![], "dest", true, true);
    assert_eq!(steps, vec![]);
    assert_eq!(r.unwrap(), 0);
}

#[test]
fn plan_keeps_the_stored_order() {
    let entries = vec![
        entry("src/sub/b.txt", b"bye", None, ""),
        entry("src/", b"", None, ""),
        entry("src/a.txt", b"hi", Some(0o100644), ""),
    ];
    let (steps, r) = plan_entries(&entries, "dest", false, true);
    assert_eq!(r.unwrap(), 3);
    assert_eq!(
        steps,
        vec![
            Action::CreateDir { path: "dest".to_string() },
            dir_all("dest/src/sub"),
            write("dest/src/sub/b.txt", b"bye"),
            dir_all("dest/src"),
            dir_all("dest/src"),
            write("dest/src/a.txt", b"hi"),
            mode("dest/src/a.txt", 0o100644),
        ]
    );
}

#[test]
fn every_write_follows_the_creation_of_its_parent() {
    let entries = vec![
        entry("x/y/z.txt", b"1", None, "c"),
        entry("top.txt", b"2", Some(0o644), ""),
        entry("x/w.txt", b"3", None, ""),
    ];
    let (steps, r) = plan_entries(&entries, "out", true, true);
    assert_eq!(r.unwrap(), 3);
    let mut writes = 0;
    for (i, step) in steps.iter().enumerate() {
        if let Action::WriteFile { path, .. } = step {
            writes += 1;
            assert!(i > 0);
            let parent = &path[..path.rfind('/').unwrap()];
            assert_eq!(steps[i - 1], dir_all(parent));
        }
    }
    assert_eq!(writes, 3);
}

#[test]
fn every_path_of_a_plan_lies_beneath_the_output_directory() {
    let entries = vec![
        entry("a/../b/./c.txt", b"1", Some(0o644), ""),
        entry("d\\e\\", b"", Some(0o755), ""),
        entry("f//g", b"2", None, ""),
    ];
    let (steps, r) = plan_entries(&entries, "out", false, true);
    assert_eq!(r.unwrap(), 3);
    for step in steps.iter() {
        let path = match step {
            Action::CreateDir { path } => path,
            Action::CreateDirAll { path } => path,
            Action::WriteFile { path, .. } => path,
            Action::SetPermissions { path, .. } => path,
            Action::ShowComment { .. } => continue,
        };
        assert!(path == "out" || path.starts_with("out/"));
        assert!(!path.split('/').any(|c| c == ".." || c == "."));
        assert!(!path.contains('\\'));
    }
}

#[test]
fn first_refused_entry_ends_the_plan() {
    let entries = vec![
        entry("ok.txt", b"1", None, ""),
        entry("../one.txt", b"2", None, ""),
        entry("/two.txt", b"3", None, ""),
    ];
    let (steps, r) = plan_entries(&entries, "out", true, true);
    assert!(matches!(r, Err(ZippyError::UnsafeEntryName(name)) if name == "../one.txt"));
    assert_eq!(steps, vec![dir_all("out"), write("out/ok.txt", b"1")]);
}

fn made_dirs(steps: &[Action]) -> std::collections::BTreeSet<String> {
    let mut dirs = std::collections::BTreeSet::new();
    for step in steps {
        match step {
            Action::CreateDir { path } => {
                dirs.insert(path.clone());
            }
            Action::CreateDirAll { path } => {
                let mut at = path.as_str();
                loop {
                    dirs.insert(at.to_string());
                    match at.rfind('/') {
                        Some(cut) => at = &at[..cut],
                        None => break,
                    }
                }
            }
            _ => {}
        }
    }
    dirs
}

fn written_files(steps: &[Action]) -> Vec<(String, Vec<u8>)> {
    let mut files = Vec::new();
    for step in steps {
        if let Action::WriteFile { path, data } = step {
            files.push((path.clone(), data.clone()));
        }
    }
    files
}

#[test]
fn entries_for_directories_are_not_needed() {
    let with_dirs = vec![
        entry("a/", b"", None, ""),
        entry("a/b/", b"", None, ""),
        entry("a/b/c.txt", b"c", None, ""),
        entry("d/", b"", None, ""),
        entry("d/e.txt", b"e", None, ""),
        entry("top.txt", b"t", None, ""),
    ];
    let without_dirs = vec![
        entry("a/b/c.txt", b"c", None, ""),
        entry("d/e.txt", b"e", None, ""),
        entry("top.txt", b"t", None, ""),
    ];
    let (one, r) = plan_entries(&with_dirs, "out", false, true);
    assert_eq!(r.unwrap(), 6);
    let (two, r) = plan_entries(&without_dirs, "out", false, true);
    assert_eq!(r.unwrap(), 3);
    assert_eq!(made_dirs(&one), made_dirs(&two));
    assert_eq!(written_files(&one), written_files(&two));
    assert_eq!(
        made_dirs(&two).into_iter().collect::<Vec<_>>(),
        vec!["out".to_string(), "out/a".to_string(), "out/a/b".to_string(), "out/d".to_string()]
    );
}
