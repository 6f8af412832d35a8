//! How entries are compressed and which permissions they carry.

use vstd::prelude::*;
use vstd::std_specs::convert::FromSpecImpl;
use zip::CompressionMethod;

verus! {

/// `zip::CompressionMethod`, with its variants.
#[verifier::external_type_specification]
pub struct ExCompressionMethod(CompressionMethod);

/// The compression methods on offer.
#[derive(Copy, Clone, Debug, PartialEq, Eq, Structural)]
pub enum Method {
    Bzip2,
    Deflate,
    Store,
    Zstd,
}

/// The `zip` crate's name for a method.
pub open spec fn zip_method(method: Method) -> CompressionMethod {
    match method {
        Method::Bzip2 => CompressionMethod::Bzip2,
        Method::Deflate => CompressionMethod::Deflated,
        Method::Store => CompressionMethod::Stored,
        Method::Zstd => CompressionMethod::Zstd,
    }
}

impl From<Method> for CompressionMethod {
    fn from(method: Method) -> (r: CompressionMethod) {
        match method {
            Method::Bzip2 => CompressionMethod::Bzip2,
            Method::Deflate => CompressionMethod::Deflated,
            Method::Store => CompressionMethod::Stored,
            Method::Zstd => CompressionMethod::Zstd,
        }
    }
}

impl FromSpecImpl<Method> for CompressionMethod {
    open spec fn obeys_from_spec() -> bool {
        true
    }

    open spec fn from_spec(method: Method) -> CompressionMethod {
        zip_method(method)
    }
}

/// The permission bits that every packed entry gets.
pub const DEFAULT_PERMISSIONS: u32 = 0o755;

/// The settings of one build, applied alike to every entry.
#[derive(Copy, Clone, Debug)]
pub struct CompressionOptions {
    pub method: Method,
    pub level: Option<i32>,
    pub unix_permissions: u32,
}

impl CompressionOptions {
    /// Options with the given method and level and the default permissions.
    pub fn new(method: Method, level: Option<i32>) -> (r: CompressionOptions)
        ensures
            r.method == method,
            r.level == level,
            r.unix_permissions == DEFAULT_PERMISSIONS,
    {
        CompressionOptions { method, level, unix_permissions: DEFAULT_PERMISSIONS }
    }
}

} // verus!
