use zippy::Method;
use zippy::ZippyError;

#[test]
fn io_error_becomes_an_io_failure() {
    let e = std::io::Error::new(std::io::ErrorKind::Other, "disk full");
    assert!(matches!(ZippyError::from(e), ZippyError::IoError(inner) if inner.to_string() == "disk full"));
}

#[test]
fn strip_prefix_error_becomes_its_own_failure() {
    let e = std::path::Path::new("/a").strip_prefix("/b").unwrap_err();
    assert!(matches!(ZippyError::from(e), ZippyError::StripPathPrefixError));
}

#[test]
fn walk_error_is_kept() {
    let mut walk = walkdir::WalkDir::new("/definitely/not/here/at/all").into_iter();
    let e = walk.next().unwrap().unwrap_err();
    assert!(matches!(ZippyError::from(e), ZippyError::WalkDirError(_)));
}

#[test]
fn zip_error_is_kept() {
    let e = zip::result::ZipError::FileNotFound;
    assert!(matches!(
        ZippyError::from(e),
        ZippyError::ZipError(zip::result::ZipError::FileNotFound)
    ));
}

#[test]
fn methods_map_to_the_container_methods() {
    assert_eq!(zip::CompressionMethod::from(Method::Bzip2), zip::CompressionMethod::Bzip2);
    assert_eq!(zip::CompressionMethod::from(Method::Deflate), zip::CompressionMethod::Deflated);
    assert_eq!(zip::CompressionMethod::from(Method::Store), zip::CompressionMethod::Stored);
    assert_eq!(zip::CompressionMethod::from(Method::Zstd), zip::CompressionMethod::Zstd);
}

#[test]
fn options_carry_the_default_permissions() {
    let options = zippy::CompressionOptions::new(Method::Zstd, Some(5));
    assert_eq!(options.method, Method::Zstd);
    assert_eq!(options.level, Some(5));
    assert_eq!(options.unix_permissions, 0o755);
}
