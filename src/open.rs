use vstd::prelude::*;

use crate::annotations::opt_view;
use crate::file_ref::FileRef;

verus! {

/// What opening the selected entry opens: the entry itself, or the
/// directory that holds it.
#[derive(Debug, Clone, Copy)]
pub enum OpenType {
    OpenFile,
    OpenParent,
}

/// The messages a row of the file list takes: none. The one variant holds
/// a value of a type that has none, so no message can be made.
#[derive(Debug)]
pub enum FileElementInput {
    Never(core::convert::Infallible),
}

/// The messages a row of the file list sends: none. The one variant holds
/// a value of a type that has none, so no message can be made.
#[derive(Debug)]
pub enum FileElementOutput {
    Never(core::convert::Infallible),
}

/// The parent of a path as `std::path::Path::parent` gives it.
pub uninterp spec fn parent_of(path: Seq<char>) -> Option<Seq<char>>;

/// Relies on `std::path::Path::parent`: the path without its final
/// component, or `None` for a root or an empty path. The parent of a
/// UTF-8 path is UTF-8, so the conversion back loses nothing.
#[verifier::external_body]
fn path_parent(path: &str) -> (r: Option<String>)
    ensures
        opt_view(r) == parent_of(path@),
{
    std::path::Path::new(path).parent().map(|p| p.to_string_lossy().into_owned())
}

impl OpenType {
    /// The path to hand to the opener for `file`: its own path, or the path
    /// of its parent directory when it has one.
    pub fn target(&self, file: &FileRef) -> (r: Option<String>)
        ensures
            *self == OpenType::OpenFile ==> opt_view(r) == Some(file.file_path@),
            *self == OpenType::OpenParent ==> opt_view(r) == parent_of(file.file_path@),
    {
        match self {
            OpenType::OpenFile => Some(file.file_path.clone()),
            OpenType::OpenParent => path_parent(file.file_path.as_str()),
        }
    }
}

} // verus!
