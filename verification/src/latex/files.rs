//! The files of a source tree: which are LaTeX, and which is the main one.

use crate::latex::scan;
use crate::{text, utf};
use vstd::prelude::*;

verus! {

/// What a directory holds under one name. A directory has its own entries, a
/// file has none. The number is the caller's, to find the entry again.
pub struct Entry {
    pub name: String,
    pub id: usize,
    pub children: Option<Vec<Entry>>,
}

/// Why no file was found.
#[derive(Clone, Copy, Debug, PartialEq, Eq, Structural)]
pub enum FileError {
    NoTexFiles,
    NoMainFile,
}

impl FileError {
    /// The error in words.
    pub fn message(self) -> (r: &'static str)
        ensures
            r@ == self.text(),
    {
        match self {
            FileError::NoTexFiles =>
                "No .tex files found in the downloaded source. The paper may not have LaTeX source available.",
            FileError::NoMainFile =>
                "Could not identify the main .tex file — none contain \\documentclass.",
        }
    }

    pub open spec fn text(self) -> Seq<char> {
        match self {
            FileError::NoTexFiles =>
                "No .tex files found in the downloaded source. The paper may not have LaTeX source available."@,
            FileError::NoMainFile =>
                "Could not identify the main .tex file — none contain \\documentclass."@,
        }
    }
}

/// A directory that a run leaves behind: a build directory or saved chunks.
pub open spec fn work_dir(name: Seq<char>) -> bool {
    text::occurs_at(name, ".ratex-build-"@, 0) || text::occurs_at(
        name,
        ".ratex-chunks"@,
        name.len() - ".ratex-chunks"@.len(),
    )
}

/// The name ends in `.tex`, with something before it.
pub open spec fn tex_name(name: Seq<char>) -> bool {
    name.len() > ".tex"@.len() && text::occurs_at(name, ".tex"@, name.len() - ".tex"@.len())
}

/// The LaTeX files among the first `n` entries, in order. Those of a directory
/// stand in its place, unless it is left over from a run.
pub open spec fn tex_files(entries: Seq<Entry>, n: nat) -> Seq<usize>
    decreases entries, n,
{
    if n == 0 || n > entries.len() {
        Seq::empty()
    } else {
        let e = entries[n - 1];
        tex_files(entries, (n - 1) as nat) + match e.children {
            Some(children) => if work_dir(e.name@) {
                Seq::empty()
            } else {
                tex_files(children@, children@.len())
            },
            None => if tex_name(e.name@) {
                seq![e.id]
            } else {
                Seq::empty()
            },
        }
    }
}

/// Is this the name of a directory that a run leaves behind?
pub fn is_work_dir(name: &str) -> (r: bool)
    ensures
        r == work_dir(name@),
{
    text::starts_with(name, ".ratex-build-") || text::ends_with(name, ".ratex-chunks")
}

/// Is this the name of a LaTeX file?
pub fn is_tex_name(name: &str) -> (r: bool)
    ensures
        r == tex_name(name@),
{
    proof {
        reveal_strlit(".tex");
    }
    name.unicode_len() > 4 && text::ends_with(name, ".tex")
}

/// Appends the LaTeX files below a directory to `files`.
fn collect_tex_files(entries: &Vec<Entry>, files: &mut Vec<usize>)
    ensures
        final(files)@ == old(files)@ + tex_files(entries@, entries@.len()),
    decreases entries,
{
    let ghost before = files@;
    let mut n: usize = 0;
    assert(before + tex_files(entries@, 0) =~= before);
    while n < entries.len()
        invariant
            n <= entries.len(),
            files@ == before + tex_files(entries@, n as nat),
        decreases entries.len() - n,
    {
        let e = &entries[n];
        let ghost so_far = files@;
        match &e.children {
            Some(children) => {
                if !is_work_dir(e.name.as_str()) {
                    collect_tex_files(children, files);
                    assert(files@ =~= before + (tex_files(entries@, n as nat) + tex_files(
                        children@,
                        children@.len(),
                    )));
                } else {
                    assert(files@ =~= before + (tex_files(entries@, n as nat) + Seq::empty()));
                }
            },
            None => {
                if is_tex_name(e.name.as_str()) {
                    files.push(e.id);
                    assert(files@ =~= before + (tex_files(entries@, n as nat) + seq![e.id]));
                } else {
                    assert(files@ =~= before + (tex_files(entries@, n as nat) + Seq::empty()));
                }
            },
        }
        n += 1;
    }
}

/// Finds all LaTeX files below a directory.
pub fn find_tex_files(dir: &Vec<Entry>) -> (r: Result<Vec<usize>, FileError>)
    ensures
        match r {
            Ok(files) => files@ == tex_files(dir@, dir@.len()) && files@.len() > 0,
            Err(e) => e == FileError::NoTexFiles && tex_files(dir@, dir@.len()).len() == 0,
        },
{
    let mut files: Vec<usize> = Vec::new();
    collect_tex_files(dir, &mut files);
    assert(files@ =~= tex_files(dir@, dir@.len()));
    if files.len() == 0 {
        Err(FileError::NoTexFiles)
    } else {
        Ok(files)
    }
}

/// The text calls `\documentclass` outside of comments.
pub open spec fn has_class(content: Seq<char>) -> bool {
    scan::calls(
        scan::masked(utf::bytes_of(content)),
        utf::bytes_of("\\documentclass"@),
    ).len() > 0
}

/// The file could be read, and calls `\documentclass`.
pub open spec fn is_main(content: Option<String>) -> bool {
    content matches Some(s) && has_class(s@)
}

/// Does the text call `\documentclass` outside of comments?
pub fn calls_class(content: &str) -> (r: bool)
    ensures
        r == has_class(content@),
{
    proof {
        reveal_strlit("\\documentclass");
    }
    let active = scan::uncommented(content);
    let found = scan::commands(active.as_str(), "\\documentclass");
    assert(scan::views(found@).len() == found@.len());
    found.len() > 0
}

/// Finds the main file: the first that calls `\documentclass`. A file that could
/// not be read is passed over.
pub fn find_main_tex(contents: &Vec<Option<String>>) -> (r: Result<usize, FileError>)
    ensures
        match r {
            Ok(k) => {
                &&& k < contents@.len()
                &&& is_main(contents@[k as int])
                &&& forall|j: int| 0 <= j < k ==> !is_main(#[trigger] contents@[j])
            },
            Err(e) => {
                &&& e == FileError::NoMainFile
                &&& forall|j: int| 0 <= j < contents@.len() ==> !is_main(#[trigger] contents@[j])
            },
        },
{
    let mut k: usize = 0;
    while k < contents.len()
        invariant
            k <= contents.len(),
            forall|j: int| 0 <= j < k ==> !is_main(#[trigger] contents@[j]),
        decreases contents.len() - k,
    {
        match &contents[k] {
            Some(content) => {
                if calls_class(content.as_str()) {
                    return Ok(k);
                }
            },
            None => {},
        }
        k += 1;
    }
    Err(FileError::NoMainFile)
}

} // verus!
