//! Packing files into a zip container and planning the unpacking of one.
//!
//! The library works on plain values: the caller reads paths and bytes from
//! disk, hands them over, and performs the file-system steps that come back.
//! Containers are assembled and read in memory.

pub mod container;
pub mod error;
pub mod extract;
pub mod info;
pub mod laws;
pub mod options;
pub mod packer;
pub mod path;
pub mod size;
pub mod source;
pub mod text;
pub mod tree;

pub use crate::error::ZippyError;
pub use crate::extract::Action;
pub use crate::extract::Entry;
pub use crate::info::about;
pub use crate::options::CompressionOptions;
pub use crate::options::Method;
pub use crate::packer::Zippy;
pub use crate::source::InputSpec;
pub use crate::source::SourceFile;
pub use crate::source::WalkEntry;
