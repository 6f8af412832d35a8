//! The failures that packing and unpacking report.

use vstd::prelude::*;
use vstd::std_specs::convert::FromSpecImpl;

verus! {

/// `std::io::Error`, carried through without being looked into.
#[verifier::external_type_specification]
#[verifier::external_body]
pub struct ExIoError(std::io::Error);

/// `std::path::StripPrefixError`, carried through without being looked into.
#[verifier::external_type_specification]
#[verifier::external_body]
pub struct ExStripPrefixError(std::path::StripPrefixError);

/// `walkdir::Error`, carried through without being looked into.
#[verifier::external_type_specification]
#[verifier::external_body]
pub struct ExWalkDirError(walkdir::Error);

/// `zip::result::ZipError`, with its variants.
#[verifier::external_type_specification]
pub struct ExZipError(zip::result::ZipError);

/// Why a build or an extraction stopped.
#[derive(Debug)]
pub enum ZippyError {
    /// Reading or writing failed.
    IoError(std::io::Error),
    /// A path could not be made relative to the working directory.
    StripPathPrefixError,
    /// Walking a directory failed.
    WalkDirError(walkdir::Error),
    /// The container could not be written or read.
    ZipError(zip::result::ZipError),
    /// An input path is neither a regular file nor a directory.
    InvalidInput(String),
    /// The output path of a build exists already.
    AlreadyExists(String),
    /// An entry's name would lead outside the output directory.
    UnsafeEntryName(String),
}

impl From<std::io::Error> for ZippyError {
    fn from(err: std::io::Error) -> (r: ZippyError) {
        ZippyError::IoError(err)
    }
}

impl FromSpecImpl<std::io::Error> for ZippyError {
    open spec fn obeys_from_spec() -> bool {
        true
    }

    open spec fn from_spec(err: std::io::Error) -> ZippyError {
        ZippyError::IoError(err)
    }
}

impl From<std::path::StripPrefixError> for ZippyError {
    fn from(err: std::path::StripPrefixError) -> (r: ZippyError) {
        ZippyError::StripPathPrefixError
    }
}

impl FromSpecImpl<std::path::StripPrefixError> for ZippyError {
    open spec fn obeys_from_spec() -> bool {
        true
    }

    open spec fn from_spec(err: std::path::StripPrefixError) -> ZippyError {
        ZippyError::StripPathPrefixError
    }
}

impl From<walkdir::Error> for ZippyError {
    fn from(err: walkdir::Error) -> (r: ZippyError) {
        ZippyError::WalkDirError(err)
    }
}

impl FromSpecImpl<walkdir::Error> for ZippyError {
    open spec fn obeys_from_spec() -> bool {
        true
    }

    open spec fn from_spec(err: walkdir::Error) -> ZippyError {
        ZippyError::WalkDirError(err)
    }
}

impl From<zip::result::ZipError> for ZippyError {
    fn from(err: zip::result::ZipError) -> (r: ZippyError) {
        ZippyError::ZipError(err)
    }
}

impl FromSpecImpl<zip::result::ZipError> for ZippyError {
    open spec fn obeys_from_spec() -> bool {
        true
    }

    open spec fn from_spec(err: zip::result::ZipError) -> ZippyError {
        ZippyError::ZipError(err)
    }
}

} // verus!
