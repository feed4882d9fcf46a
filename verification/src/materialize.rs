//! Writing an archive out as files: which file goes where, and which archive
//! is refused because a file of it would land outside the directory that it
//! is written to.
//!
//! Nothing here touches a file system. The target of a file is found from
//! its name alone, so a symbolic link that already exists below the
//! directory can still lead a write elsewhere.

use crate::archive::{views, Archive, File};
use crate::bytes::is_normalized;
use crate::display::as_text;
use crate::model::FileView;
use crate::outside::{clean_path, cleaned_path, lossy_text, utf8_lossy};
use vstd::prelude::*;
use vstd::string::StrSliceExecFns;

verus! {

/// Why an archive could not be written out.
#[derive(Debug)]
pub enum MaterializeError {
    /// A file would be written outside the directory. The path is the
    /// target of that file.
    DirEscape(String),
    /// The file system refused a step.
    Io(std::io::Error),
}

/// One file to create: its path below the directory, and its content.
#[derive(Debug)]
pub struct NewFile<'a> {
    pub path: String,
    pub data: &'a [u8],
}

/// What writing an archive out comes to: the files to create, in this
/// order, and the error to report once they are created.
#[derive(Debug)]
pub struct Materialization<'a> {
    pub files: Vec<NewFile<'a>>,
    pub failure: Option<MaterializeError>,
}

/// The path begins at the root of the file system.
pub open spec fn is_rooted(path: Seq<char>) -> bool {
    path.len() >= 1 && path[0] == '/'
}

/// The first element of the path is `..`.
pub open spec fn begins_with_parent(path: Seq<char>) -> bool {
    &&& path.len() >= 2
    &&& path[0] == '.'
    &&& path[1] == '.'
    &&& (path.len() == 2 || path[2] == '/')
}

/// A cleaned path that leads out of the directory that it is joined to.
pub open spec fn escapes(path: Seq<char>) -> bool {
    is_rooted(path) || begins_with_parent(path)
}

/// The path, below the directory, at which a file is written: its name,
/// read as UTF-8 and cleaned.
pub open spec fn target(file: FileView) -> Seq<char> {
    cleaned_path(utf8_lossy(file.name))
}

/// `count` files are written: none of them escapes, and the file after
/// them, if there is one, does.
pub open spec fn written(files: Seq<FileView>, count: int) -> bool {
    &&& 0 <= count <= files.len()
    &&& forall|i: int| 0 <= i < count ==> !escapes(#[trigger] target(files[i]))
    &&& count < files.len() ==> escapes(target(files[count]))
}

/// Whether a cleaned path leads out of the directory that it is joined to.
pub fn escapes_directory(path: &str) -> (out: bool)
    ensures
        out == escapes(path@),
{
    let len = path.unicode_len();
    if len >= 1 && path.get_char(0) == '/' {
        return true;
    }
    len >= 2 && path.get_char(0) == '.' && path.get_char(1) == '.' && (len == 2 || path.get_char(2)
        == '/')
}

/// Lets a cleaned path pass if it stays inside the directory, and refuses
/// it with `DirEscape`, which then holds the path, if it does not.
pub fn check_escape(path: String) -> (checked: Result<String, MaterializeError>)
    ensures
        escapes(path@) ==> checked == Err::<String, MaterializeError>(
            MaterializeError::DirEscape(path),
        ),
        !escapes(path@) ==> checked == Ok::<String, MaterializeError>(path),
{
    if escapes_directory(path.as_str()) {
        Err(MaterializeError::DirEscape(path))
    } else {
        Ok(path)
    }
}

impl<'a> File<'a> {
    /// The path below the directory at which this file is written, or
    /// `DirEscape` with that path if it leads out of the directory.
    pub fn target(&self) -> (checked: Result<String, MaterializeError>)
        ensures
            escapes(target(self@)) ==> (checked matches Err(MaterializeError::DirEscape(path))
                && path@ == target(self@)),
            !escapes(target(self@)) ==> (checked matches Ok(path) && path@ == target(self@)),
    {
        let name = lossy_text(self.name());
        check_escape(clean_path(as_text(&name)))
    }
}

impl<'a> Archive<'a> {
    /// Decides what writing the archive out into a directory comes to.
    ///
    /// The files are taken in their order. Each is to be created at its
    /// target with its content, until one has a target that escapes: that
    /// file and all after it are not written, and the failure is
    /// `DirEscape` with the target that escapes. The files before it are
    /// written all the same.
    pub fn materialize(&self) -> (plan: Materialization<'_>)
        ensures
            written(self@.files, plan.files@.len() as int),
            forall|i: int|
                0 <= i < plan.files@.len() ==> (#[trigger] plan.files@[i]).path@ == target(
                    self@.files[i],
                ) && plan.files@[i].data@ == self@.files[i].data && is_normalized(
                    plan.files@[i].data@,
                ),
            plan.files@.len() == self@.files.len() ==> plan.failure is None,
            plan.files@.len() < self@.files.len() ==> (plan.failure matches Some(
                MaterializeError::DirEscape(path),
            ) && path@ == target(self@.files[plan.files@.len() as int])),
    {
        let files = self.files();
        let mut created: Vec<NewFile<'_>> = Vec::new();
        let mut i: usize = 0;
        while i < files.len()
            invariant
                i <= files@.len(),
                views(files@) == self@.files,
                created@.len() == i,
                forall|j: int| 0 <= j < i ==> !escapes(#[trigger] target(self@.files[j])),
                forall|j: int|
                    0 <= j < i ==> (#[trigger] created@[j]).path@ == target(self@.files[j])
                        && created@[j].data@ == self@.files[j].data && is_normalized(
                        created@[j].data@,
                    ),
            decreases files.len() - i,
        {
            let file = &files[i];
            assert(self@.files[i as int] == file@);
            match file.target() {
                Ok(path) => {
                    created.push(NewFile { path, data: file.data() });
                },
                Err(error) => {
                    return Materialization { files: created, failure: Some(error) };
                },
            }
            i = i + 1;
        }
        assert(self@.files.len() == files@.len());
        Materialization { files: created, failure: None }
    }
}

} // verus!
