use std::io::Cursor;
use std::io::Read;
use std::io::Write;
use zippy::source::collect;
use zippy::Action;
use zippy::InputSpec;
use zippy::Method;
use zippy::SourceFile;
use zippy::WalkEntry;
use zippy::Zippy;
use zippy::ZippyError;

fn file(path: &str, data: &[u8]) -> SourceFile {
    SourceFile { path: path.to_string(), data: data.to_vec() }
}

fn src_tree() -> InputSpec {
    InputSpec::Directory {
        path: "src/".to_string(),
        walk: vec![
            WalkEntry::Directory { path: "/work/src".to_string() },
            WalkEntry::File(file("/work/src/a.txt", b"hi")),
            WalkEntry::Directory { path: "/work/src/sub".to_string() },
            WalkEntry::File(file("/work/src/sub/b.txt", b"bye")),
        ],
    }
}

fn stored(bytes: Vec<u8>) -> Vec<(String, Vec<u8>, Option<u32>)> {
    let mut archive = zip::ZipArchive::new(Cursor::new(bytes)).unwrap();
    let mut out = Vec::new();
    for i in 0..archive.len() {
        let mut f = archive.by_index(i).unwrap();
        let mut data = Vec::new();
        f.read_to_end(&mut data).unwrap();
        out.push((f.name().to_string(), data, f.unix_mode()));
    }
    out
}

fn unpack(bytes: Vec<u8>, dir: &str, dir_exists: bool) -> (Vec<Action>, usize) {
    let (steps, r) = Zippy::new().unzip(bytes, dir, dir_exists, true);
    (steps, r.unwrap())
}

fn written(steps: &[Action]) -> Vec<(String, Vec<u8>)> {
    let mut out = Vec::new();
    for step in steps {
        if let Action::WriteFile { path, data } = step {
            out.push((path.clone(), data.clone()));
        }
    }
    out
}

fn round_trip(method: Method, level: Option<i32>) {
    let mut zippy = Zippy::new();
    let bytes = zippy.zip(&vec![src_tree()], "out.zip", false, "/work", method, level).unwrap();
    let (steps, count) = unpack(bytes, "dest/", false);
    assert_eq!(count, 2);
    assert_eq!(
        written(&steps),
        vec![
            ("dest/src/a.txt".to_string(), b"hi".to_vec()),
            ("dest/src/sub/b.txt".to_string(), b"bye".to_vec()),
        ]
    );
}

#[test]
fn tree_comes_back_stored() {
    round_trip(Method::Store, None);
}

#[test]
fn tree_comes_back_deflated() {
    round_trip(Method::Deflate, None);
    round_trip(Method::Deflate, Some(9));
}

#[test]
fn tree_comes_back_from_bzip2() {
    round_trip(Method::Bzip2, None);
}

#[test]
fn tree_comes_back_from_zstd() {
    round_trip(Method::Zstd, Some(3));
}

#[test]
fn plan_of_a_built_tree_in_full() {
    let mut zippy = Zippy::new();
    let bytes =
        zippy.zip(&vec![src_tree()], "out.zip", false, "/work", Method::Store, None).unwrap();
    let (steps, count) = unpack(bytes, "dest/", false);
    assert_eq!(count, 2);
    assert_eq!(
        steps,
        vec![
            Action::CreateDir { path: "dest/".to_string() },
            Action::CreateDirAll { path: "dest/src".to_string() },
            Action::WriteFile { path: "dest/src/a.txt".to_string(), data: b"hi".to_vec() },
            Action::SetPermissions { path: "dest/src/a.txt".to_string(), mode: 0o100755 },
            Action::CreateDirAll { path: "dest/src/sub".to_string() },
            Action::WriteFile { path: "dest/src/sub/b.txt".to_string(), data: b"bye".to_vec() },
            Action::SetPermissions { path: "dest/src/sub/b.txt".to_string(), mode: 0o100755 },
        ]
    );
}

#[test]
fn built_container_holds_one_entry_per_regular_file() {
    let mut zippy = Zippy::new();
    let inputs = vec![InputSpec::File(file("/work/top.txt", b"top")), src_tree()];
    let bytes = zippy.zip(&inputs, "out.zip", false, "/work", Method::Deflate, None).unwrap();
    assert_eq!(
        stored(bytes),
        vec![
            ("top.txt".to_string(), b"top".to_vec(), Some(0o100755)),
            ("src/a.txt".to_string(), b"hi".to_vec(), Some(0o100755)),
            ("src/sub/b.txt".to_string(), b"bye".to_vec(), Some(0o100755)),
        ]
    );
}

#[test]
fn building_twice_gives_the_same_bytes() {
    let inputs = vec![src_tree()];
    let a = Zippy::new().zip(&inputs, "o", false, "/work", Method::Deflate, None).unwrap();
    let b = Zippy::new().zip(&inputs, "o", false, "/work", Method::Deflate, None).unwrap();
    assert_eq!(a, b);
}

#[test]
fn packer_can_be_used_again() {
    let mut zippy = Zippy::new();
    let first = zippy
        .zip(&vec![InputSpec::File(file("a", b"12345"))], "o", false, "/w", Method::Store, None)
        .unwrap();
    let second = zippy
        .zip(&vec![InputSpec::File(file("b", b"6"))], "o", false, "/w", Method::Store, None)
        .unwrap();
    assert_eq!(stored(first), vec![("a".to_string(), b"12345".to_vec(), Some(0o100755))]);
    assert_eq!(stored(second), vec![("b".to_string(), b"6".to_vec(), Some(0o100755))]);
}

#[test]
fn duplicate_names_are_kept_as_separate_entries() {
    let inputs = vec![InputSpec::File(file("a", b"1")), InputSpec::File(file("a", b"2"))];
    let bytes = Zippy::new().zip(&inputs, "o", false, "/w", Method::Store, None).unwrap();
    let entries = stored(bytes);
    assert_eq!(entries.len(), 2);
    assert_eq!(entries[0].1, b"1".to_vec());
    assert_eq!(entries[1].1, b"2".to_vec());
}

#[test]
fn empty_file_is_packed() {
    let inputs = vec![InputSpec::File(file("empty", b""))];
    let bytes = Zippy::new().zip(&inputs, "o", false, "/w", Method::Deflate, None).unwrap();
    assert_eq!(stored(bytes), vec![("empty".to_string(), Vec::new(), Some(0o100755))]);
}

#[test]
fn no_inputs_give_a_container_without_entries() {
    let mut zippy = Zippy::new();
    let bytes = zippy.zip(&vec![], "out.zip", false, "/work", Method::Store, None).unwrap();
    assert_eq!(zip::ZipArchive::new(Cursor::new(bytes.clone())).unwrap().len(), 0);
    let (steps, count) = unpack(bytes.clone(), "dest", false);
    assert_eq!(steps, vec![Action::CreateDir { path: "dest".to_string() }]);
    assert_eq!(count, 0);
    let (steps, count) = unpack(bytes, "dest", true);
    assert_eq!(steps, vec![]);
    assert_eq!(count, 0);
}

#[test]
fn existing_output_is_refused() {
    let mut zippy = Zippy::new();
    let r = zippy.zip(&vec![src_tree()], "out.zip", true, "/work", Method::Store, None);
    assert!(matches!(r, Err(ZippyError::AlreadyExists(path)) if path == "out.zip"));
    let r = zippy.zip(&vec![], "out.zip", true, "/work", Method::Store, None);
    assert!(matches!(r, Err(ZippyError::AlreadyExists(path)) if path == "out.zip"));
}

#[test]
fn input_that_is_neither_file_nor_directory_is_refused() {
    let inputs = vec![
        InputSpec::File(file("/work/a", b"1")),
        InputSpec::Neither { path: "/work/missing".to_string() },
        InputSpec::Neither { path: "/work/also".to_string() },
    ];
    let r = Zippy::new().zip(&inputs, "out.zip", false, "/work", Method::Store, None);
    assert!(matches!(r, Err(ZippyError::InvalidInput(path)) if path == "/work/missing"));
}

#[test]
fn level_out_of_range_is_an_error_of_the_container() {
    let inputs = vec![InputSpec::File(file("a", b"1"))];
    let r = Zippy::new().zip(&inputs, "out.zip", false, "/work", Method::Deflate, Some(100));
    assert!(matches!(r, Err(ZippyError::ZipError(_))));
    let r = Zippy::new().zip(&inputs, "out.zip", false, "/work", Method::Bzip2, Some(-1));
    assert!(matches!(r, Err(ZippyError::ZipError(_))));
}

#[test]
fn collect_gives_the_file_itself() {
    let input = InputSpec::File(file("a.txt", b"x"));
    let files = collect(&input).unwrap();
    assert_eq!(files, vec![&file("a.txt", b"x")]);
}

#[test]
fn collect_gives_the_regular_files_of_a_walk_in_order() {
    let input = InputSpec::Directory {
        path: "d".to_string(),
        walk: vec![
            WalkEntry::Directory { path: "/d".to_string() },
            WalkEntry::File(file("/d/2", b"two")),
            WalkEntry::Other { path: "/d/pipe".to_string() },
            WalkEntry::File(file("/d/1", b"one")),
        ],
    };
    let files = collect(&input).unwrap();
    assert_eq!(files, vec![&file("/d/2", b"two"), &file("/d/1", b"one")]);
}

#[test]
fn collect_of_an_empty_directory_is_empty() {
    let input = InputSpec::Directory { path: "d".to_string(), walk: vec![] };
    assert_eq!(collect(&input).unwrap().len(), 0);
}

#[test]
fn collect_refuses_what_is_neither() {
    let input = InputSpec::Neither { path: "ghost".to_string() };
    assert!(matches!(collect(&input), Err(ZippyError::InvalidInput(path)) if path == "ghost"));
}

#[test]
fn path_outside_the_working_directory_keeps_its_name_and_is_refused_on_extraction() {
    let mut zippy = Zippy::new();
    let inputs = vec![InputSpec::File(file("/tmp/a.txt", b"x"))];
    let bytes = zippy.zip(&inputs, "out.zip", false, "/work", Method::Store, None).unwrap();
    assert_eq!(stored(bytes.clone())[0].0, "/tmp/a.txt");
    let (steps, r) = zippy.unzip(bytes, "dest", true, true);
    assert!(matches!(r, Err(ZippyError::UnsafeEntryName(name)) if name == "/tmp/a.txt"));
    assert_eq!(steps, vec![]);
}

#[test]
fn crafted_entry_that_climbs_out_is_refused() {
    let mut w = zip::ZipWriter::new(Cursor::new(Vec::new()));
    let options = zip::write::FileOptions::default();
    w.start_file("ok.txt", options).unwrap();
    w.write_all(b"fine").unwrap();
    w.start_file("../../escape.txt", options).unwrap();
    w.write_all(b"evil").unwrap();
    let bytes = w.finish().unwrap().into_inner();
    let (steps, r) = Zippy::new().unzip(bytes, "dest", true, true);
    assert!(matches!(r, Err(ZippyError::UnsafeEntryName(name)) if name == "../../escape.txt"));
    assert_eq!(
        steps,
        vec![
            Action::CreateDirAll { path: "dest".to_string() },
            Action::WriteFile { path: "dest/ok.txt".to_string(), data: b"fine".to_vec() },
            Action::SetPermissions { path: "dest/ok.txt".to_string(), mode: 0o100644 },
        ]
    );
}

#[test]
fn container_of_another_writer_is_read_with_modes_and_directories() {
    let mut w = zip::ZipWriter::new(Cursor::new(Vec::new()));
    let options = zip::write::FileOptions::default().unix_permissions(0o640);
    w.add_directory("docs/", options).unwrap();
    w.start_file("docs/readme", options).unwrap();
    w.write_all(b"read me").unwrap();
    let bytes = w.finish().unwrap().into_inner();
    let (steps, count) = unpack(bytes, "out", true);
    assert_eq!(count, 2);
    assert_eq!(
        steps,
        vec![
            Action::CreateDirAll { path: "out/docs".to_string() },
            Action::SetPermissions { path: "out/docs".to_string(), mode: 0o40640 },
            Action::CreateDirAll { path: "out/docs".to_string() },
            Action::WriteFile { path: "out/docs/readme".to_string(), data: b"read me".to_vec() },
            Action::SetPermissions { path: "out/docs/readme".to_string(), mode: 0o100640 },
        ]
    );
}

#[test]
fn bytes_that_are_no_container_are_an_error() {
    let (steps, r) = Zippy::new().unzip(b"this is not a zip file".to_vec(), "dest", true, true);
    assert!(matches!(r, Err(ZippyError::ZipError(_))));
    assert_eq!(steps, vec![]);
    let (steps, r) = Zippy::new().unzip(Vec::new(), "dest", false, true);
    assert!(matches!(r, Err(ZippyError::ZipError(_))));
    assert_eq!(steps, vec![Action::CreateDir { path: "dest".to_string() }]);
}

#[test]
fn damaged_payload_is_an_error() {
    let inputs = vec![InputSpec::File(file("a.txt", b"some bytes that are stored as they are"))];
    let mut bytes = Zippy::new().zip(&inputs, "o", false, "/w", Method::Store, None).unwrap();
    let at = bytes.windows(4).position(|w| w == b"some").unwrap();
    bytes[at] = b'S';
    let (steps, r) = Zippy::new().unzip(bytes, "dest", true, true);
    assert!(matches!(r, Err(ZippyError::ZipError(_))));
    assert_eq!(steps, vec![]);
}

#[test]
fn entries_before_a_damaged_one_are_still_unpacked() {
    let inputs = vec![
        InputSpec::File(file("first.txt", b"kept")),
        InputSpec::File(file("second.txt", b"these bytes get damaged")),
        InputSpec::File(file("third.txt", b"never reached")),
    ];
    let mut bytes = Zippy::new().zip(&inputs, "o", false, "/w", Method::Store, None).unwrap();
    let at = bytes.windows(5).position(|w| w == b"these").unwrap();
    bytes[at] = b'T';
    let (steps, r) = Zippy::new().unzip(bytes, "dest", false, false);
    assert!(matches!(r, Err(ZippyError::ZipError(_))));
    assert_eq!(
        steps,
        vec![
            Action::CreateDir { path: "dest".to_string() },
            Action::CreateDirAll { path: "dest".to_string() },
            Action::WriteFile { path: "dest/first.txt".to_string(), data: b"kept".to_vec() },
        ]
    );
}

#[test]
fn bzip2_at_level_zero_is_an_error_and_no_panic() {
    let inputs = vec![InputSpec::File(file("a", b"1"))];
    let r = Zippy::new().zip(&inputs, "out.zip", false, "/work", Method::Bzip2, Some(0));
    assert!(matches!(
        r,
        Err(ZippyError::ZipError(zip::result::ZipError::UnsupportedArchive(
            "Unsupported compression level"
        )))
    ));
    let r = Zippy::new().zip(&inputs, "out.zip", false, "/work", Method::Bzip2, Some(1));
    assert!(r.is_ok());
}

#[test]
fn unsupported_level_does_not_matter_without_files() {
    let r = Zippy::new().zip(&vec![], "out.zip", false, "/work", Method::Bzip2, Some(0));
    assert!(r.is_ok());
    let r = Zippy::new().zip(&vec![], "out.zip", false, "/work", Method::Deflate, Some(100));
    assert!(r.is_ok());
}

#[test]
fn invalid_input_is_reported_before_anything_is_written() {
    let inputs = vec![
        InputSpec::File(file("/work/a", b"1")),
        InputSpec::Neither { path: "/work/missing".to_string() },
    ];
    let r = Zippy::new().zip(&inputs, "out.zip", false, "/work", Method::Deflate, Some(100));
    assert!(matches!(r, Err(ZippyError::InvalidInput(path)) if path == "/work/missing"));
    let inputs = vec![InputSpec::Neither { path: "first".to_string() }];
    let r = Zippy::new().zip(&inputs, "out.zip", false, "/work", Method::Store, None);
    assert!(matches!(r, Err(ZippyError::InvalidInput(path)) if path == "first"));
}

#[test]
fn existing_output_comes_before_an_invalid_input() {
    let inputs = vec![InputSpec::Neither { path: "first".to_string() }];
    let r = Zippy::new().zip(&inputs, "out.zip", true, "/work", Method::Store, None);
    assert!(matches!(r, Err(ZippyError::AlreadyExists(path)) if path == "out.zip"));
}

#[test]
fn collect_all_gives_the_files_of_all_inputs_in_order() {
    let inputs = vec![InputSpec::File(file("/work/top.txt", b"top")), src_tree()];
    let files = zippy::source::collect_all(&inputs).unwrap();
    let paths: Vec<&str> = files.iter().map(|f| f.path.as_str()).collect();
    assert_eq!(paths, vec!["/work/top.txt", "/work/src/a.txt", "/work/src/sub/b.txt"]);
}

#[test]
fn collect_all_refuses_the_first_invalid_input() {
    let inputs = vec![
        src_tree(),
        InputSpec::Neither { path: "one".to_string() },
        InputSpec::Neither { path: "two".to_string() },
    ];
    let r = zippy::source::collect_all(&inputs);
    assert!(matches!(r, Err(ZippyError::InvalidInput(path)) if path == "one"));
}
