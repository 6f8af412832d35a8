//! The inputs of a build: paths as the caller found them on disk, and the
//! regular files that they stand for.

use vstd::prelude::*;
use crate::container::Written;
use crate::error::ZippyError;
use crate::options::CompressionOptions;
use crate::path::entry_name;
use crate::options::zip_method;

verus! {

/// A regular file: its path and its bytes.
#[derive(Debug, Clone, PartialEq, Eq)]
pub struct SourceFile {
    pub path: String,
    pub data: Vec<u8>,
}

/// What the caller found while walking a directory, with paths made
/// canonical.
#[derive(Debug, Clone, PartialEq, Eq)]
pub enum WalkEntry {
    /// A regular file.
    File(SourceFile),
    /// A directory; it was walked, and holds nothing to pack itself.
    Directory { path: String },
    /// Anything else.
    Other { path: String },
}

/// One path given to a build, tagged with what it is.
#[derive(Debug, Clone, PartialEq, Eq)]
pub enum InputSpec {
    /// A regular file.
    File(SourceFile),
    /// A directory, with everything found in it and beneath it, in the
    /// order of the walk.
    Directory { path: String, walk: Vec<WalkEntry> },
    /// Neither of the two: missing, a broken link, a special file.
    Neither { path: String },
}

/// The path that an input was given as.
pub open spec fn input_path(input: InputSpec) -> Seq<char> {
    match input {
        InputSpec::File(file) => file.path@,
        InputSpec::Directory { path, walk } => path@,
        InputSpec::Neither { path } => path@,
    }
}

/// The regular files among what a walk found, in the order of the walk.
pub open spec fn regular_files(walk: Seq<WalkEntry>) -> Seq<SourceFile>
    decreases walk.len(),
{
    if walk.len() == 0 {
        Seq::empty()
    } else {
        match walk.last() {
            WalkEntry::File(file) => regular_files(walk.drop_last()).push(file),
            _ => regular_files(walk.drop_last()),
        }
    }
}

/// The regular files that an input stands for, or `None` for an input that
/// is neither a file nor a directory.
pub open spec fn collected(input: InputSpec) -> Option<Seq<SourceFile>> {
    match input {
        InputSpec::File(file) => Some(seq![file]),
        InputSpec::Directory { path, walk } => Some(regular_files(walk@)),
        InputSpec::Neither { path } => None,
    }
}

/// The regular files of all inputs, in the order given; inputs that are
/// neither a file nor a directory add nothing.
pub open spec fn all_files(inputs: Seq<InputSpec>) -> Seq<SourceFile>
    decreases inputs.len(),
{
    if inputs.len() == 0 {
        Seq::empty()
    } else {
        all_files(inputs.drop_last()) + match collected(inputs.last()) {
            Some(files) => files,
            None => Seq::empty(),
        }
    }
}

/// `k` is the first input that is neither a file nor a directory.
pub open spec fn first_invalid(inputs: Seq<InputSpec>, k: int) -> bool {
    &&& 0 <= k < inputs.len()
    &&& inputs[k] is Neither
    &&& forall|j: int| 0 <= j < k ==> !(#[trigger] inputs[j] is Neither)
}

/// No input is neither a file nor a directory.
pub open spec fn all_valid(inputs: Seq<InputSpec>) -> bool {
    forall|j: int| 0 <= j < inputs.len() ==> !(#[trigger] inputs[j] is Neither)
}

/// The entry that packing `file` gives the writer: named relative to the
/// working directory, with the build's settings, its bytes written at once.
pub open spec fn packed(file: SourceFile, cwd: Seq<char>, options: CompressionOptions) -> Written {
    Written {
        name: entry_name(file.path@, cwd),
        method: zip_method(options.method),
        level: options.level,
        permissions: options.unix_permissions & 0o777,
        writes: seq![file.data@],
    }
}

/// The entries that packing `files` in order gives the writer.
pub open spec fn packed_all(files: Seq<SourceFile>, cwd: Seq<char>, options: CompressionOptions) -> Seq<
    Written,
> {
    Seq::new(files.len(), |i: int| packed(files[i], cwd, options))
}

/// The regular files among what a walk found, in the order of the walk.
pub fn files_of_walk(walk: &Vec<WalkEntry>) -> (r: Vec<&SourceFile>)
    ensures
        r@.len() == regular_files(walk@).len(),
        forall|i: int| 0 <= i < r@.len() ==> *r@[i] == regular_files(walk@)[i],
{
    let mut out: Vec<&SourceFile> = Vec::new();
    let mut i: usize = 0;
    assert(walk@.take(0) =~= Seq::<WalkEntry>::empty());
    while i < walk.len()
        invariant
            i <= walk@.len(),
            out@.len() == regular_files(walk@.take(i as int)).len(),
            forall|k: int|
                0 <= k < out@.len() ==> *out@[k] == regular_files(walk@.take(i as int))[k],
        decreases walk@.len() - i,
    {
        assert(walk@.take(i as int + 1).drop_last() =~= walk@.take(i as int));
        assert(walk@.take(i as int + 1).last() == walk@[i as int]);
        match &walk[i] {
            WalkEntry::File(file) => {
                out.push(file);
            },
            _ => {},
        }
        i += 1;
    }
    assert(walk@.take(walk@.len() as int) =~= walk@);
    out
}

/// The regular files that one input stands for: the file itself, or the
/// regular files found beneath a directory, in the order of the walk. What
/// a walk found that is no regular file is passed over. An input that is
/// itself neither a file nor a directory is refused, which ends the build.
pub fn collect(input: &InputSpec) -> (r: Result<Vec<&SourceFile>, ZippyError>)
    ensures
        match r {
            Ok(files) => {
                &&& collected(*input) matches Some(found)
                &&& files@.len() == found.len()
                &&& forall|i: int| 0 <= i < files@.len() ==> *files@[i] == found[i]
            },
            Err(ZippyError::InvalidInput(path)) => {
                &&& *input is Neither
                &&& path@ == input_path(*input)
            },
            Err(_) => false,
        },
{
    match input {
        InputSpec::File(file) => {
            let mut out: Vec<&SourceFile> = Vec::new();
            out.push(file);
            Ok(out)
        },
        InputSpec::Directory { path, walk } => Ok(files_of_walk(walk)),
        InputSpec::Neither { path } => Err(ZippyError::InvalidInput(path.clone())),
    }
}

/// The regular files that all inputs stand for, in the order given. The
/// first input that is neither a file nor a directory is refused, whatever
/// stands before or behind it.
pub fn collect_all(inputs: &Vec<InputSpec>) -> (r: Result<Vec<&SourceFile>, ZippyError>)
    ensures
        r is Ok <==> all_valid(inputs@),
        match r {
            Ok(files) => {
                &&& files@.len() == all_files(inputs@).len()
                &&& forall|i: int| 0 <= i < files@.len() ==> *files@[i] == all_files(inputs@)[i]
            },
            Err(ZippyError::InvalidInput(path)) => exists|k: int|
                first_invalid(inputs@, k) && path@ == input_path(#[trigger] inputs@[k]),
            Err(_) => false,
        },
{
    let mut out: Vec<&SourceFile> = Vec::new();
    let mut i: usize = 0;
    assert(inputs@.take(0) =~= Seq::<InputSpec>::empty());
    while i < inputs.len()
        invariant
            i <= inputs@.len(),
            forall|j: int| 0 <= j < i ==> !(#[trigger] inputs@[j] is Neither),
            out@.len() == all_files(inputs@.take(i as int)).len(),
            forall|k: int|
                0 <= k < out@.len() ==> *out@[k] == all_files(inputs@.take(i as int))[k],
        decreases inputs@.len() - i,
    {
        assert(inputs@.take(i as int + 1).drop_last() =~= inputs@.take(i as int));
        assert(inputs@.take(i as int + 1).last() == inputs@[i as int]);
        match collect(&inputs[i]) {
            Ok(mut files) => {
                out.append(&mut files);
            },
            Err(e) => {
                assert(first_invalid(inputs@, i as int));
                return Err(e);
            },
        }
        i += 1;
    }
    assert(inputs@.take(inputs@.len() as int) =~= inputs@);
    Ok(out)
}

} // verus!
