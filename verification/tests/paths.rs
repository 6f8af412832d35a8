use zippy::path::names_dir;
use zippy::path::normalize;
use zippy::path::place;
use zippy::path::resolve;
use zippy::path::split;

fn chars(s: &str) -> Vec<char> {
    s.chars().collect()
}

fn parts(items: &[&str]) -> Vec<Vec<char>> {
    items.iter().map(|s| chars(s)).collect()
}

#[test]
fn normalize_strips_the_working_directory() {
    assert_eq!(normalize("/work/src/a.txt", "/work"), "src/a.txt");
    assert_eq!(normalize("/work/src/sub/b.txt", "/work/"), "src/sub/b.txt");
}

#[test]
fn normalize_keeps_a_path_outside_the_working_directory() {
    assert_eq!(normalize("/tmp/a.txt", "/work"), "/tmp/a.txt");
    assert_eq!(normalize("src/a.txt", "/work"), "src/a.txt");
}

#[test]
fn normalize_needs_a_whole_component_to_match() {
    assert_eq!(normalize("/workspace/a.txt", "/work"), "/workspace/a.txt");
}

#[test]
fn normalize_turns_backslashes_into_slashes() {
    assert_eq!(normalize("C:\\work\\src\\a.txt", "C:\\work"), "src/a.txt");
    assert_eq!(normalize("src\\a.txt", "/work"), "src/a.txt");
}

#[test]
fn normalize_drops_every_slash_after_the_prefix() {
    assert_eq!(normalize("/work//a.txt", "/work"), "a.txt");
    assert_eq!(normalize("/work", "/work"), "");
}

#[test]
fn normalize_with_an_empty_working_directory_keeps_the_path() {
    assert_eq!(normalize("a/b", ""), "a/b");
}

#[test]
fn normalize_at_the_root() {
    assert_eq!(normalize("/a/b", "/"), "a/b");
}

#[test]
fn split_cuts_at_every_slash() {
    assert_eq!(split(&chars("a/b/c")), parts(&["a", "b", "c"]));
    assert_eq!(split(&chars("")), parts(&[""]));
    assert_eq!(split(&chars("/a//b/")), parts(&["", "a", "", "b", ""]));
}

#[test]
fn resolve_accepts_a_relative_name() {
    assert_eq!(resolve("src/sub/b.txt"), Some(parts(&["src", "sub", "b.txt"])));
    assert_eq!(resolve("a.txt"), Some(parts(&["a.txt"])));
}

#[test]
fn resolve_refuses_a_name_that_climbs_out() {
    assert_eq!(resolve("../../escape.txt"), None);
    assert_eq!(resolve(".."), None);
    assert_eq!(resolve("a/../../b"), None);
    assert_eq!(resolve("..\\escape.txt"), None);
}

#[test]
fn resolve_follows_dot_dot_inside_the_tree() {
    assert_eq!(resolve("a/../b"), Some(parts(&["b"])));
    assert_eq!(resolve("a/b/../../c/d"), Some(parts(&["c", "d"])));
    assert_eq!(resolve("a/.."), Some(parts(&[])));
}

#[test]
fn resolve_skips_empty_components_and_dots() {
    assert_eq!(resolve("./a//b/"), Some(parts(&["a", "b"])));
    assert_eq!(resolve(""), Some(parts(&[])));
    assert_eq!(resolve("..."), Some(parts(&["..."])));
    assert_eq!(resolve(".a"), Some(parts(&[".a"])));
}

#[test]
fn resolve_refuses_a_rooted_name() {
    assert_eq!(resolve("/etc/passwd"), None);
    assert_eq!(resolve("\\windows\\system32"), None);
    assert_eq!(resolve("C:\\windows"), None);
    assert_eq!(resolve("c:notes.txt"), None);
}

#[test]
fn resolve_accepts_a_colon_elsewhere() {
    assert_eq!(resolve("12:30.log"), Some(parts(&["12:30.log"])));
    assert_eq!(resolve("dir/c:x"), Some(parts(&["dir", "c:x"])));
}

#[test]
fn resolve_refuses_nul() {
    assert_eq!(resolve("a\0b"), None);
}

#[test]
fn resolve_treats_backslashes_as_separators() {
    assert_eq!(resolve("a\\b\\c.txt"), Some(parts(&["a", "b", "c.txt"])));
}

#[test]
fn names_dir_looks_at_the_last_character() {
    assert!(names_dir("a/"));
    assert!(names_dir("a\\"));
    assert!(!names_dir("a"));
    assert!(!names_dir(""));
}

#[test]
fn place_joins_beneath_the_directory() {
    let p = parts(&["src", "sub", "b.txt"]);
    assert_eq!(place("dest", &p, 3), "dest/src/sub/b.txt");
    assert_eq!(place("dest/", &p, 3), "dest/src/sub/b.txt");
    assert_eq!(place("dest", &p, 2), "dest/src/sub");
    assert_eq!(place("dest", &p, 0), "dest");
    assert_eq!(place("", &p, 1), "src");
}
