//! The projects that a scan finds, and their line counts by language.

use crate::utils::{GitInfo, GitInfoView};
use std::collections::HashMap;
use vstd::prelude::*;

verus! {

/// Line counts of one language, or of all languages of a project together.
#[derive(Debug, Clone, Copy, PartialEq, Eq, Structural)]
pub struct ProjectLanguage {
    pub files: u32,
    pub lines: u32,
    pub code: u32,
    pub comments: u32,
    pub blanks: u32,
}

/// A count as the cache keeps it: the number itself where it fits a `u32`,
/// and 0 otherwise.
pub open spec fn count_or_zero(count: usize) -> u32 {
    if count <= u32::MAX {
        count as u32
    } else {
        0
    }
}

/// A count as the cache keeps it.
pub fn stored_count(count: usize) -> (stored: u32)
    ensures
        stored == count_or_zero(count),
{
    if count <= 4294967295 {
        count as u32
    } else {
        0
    }
}

impl ProjectLanguage {
    /// The line counts of a language as a line counter reports them; a
    /// count that does not fit a `u32` is kept as 0.
    pub fn from_counts(files: usize, lines: usize, code: usize, comments: usize, blanks: usize) -> (counts:
        Self)
        ensures
            counts == (ProjectLanguage {
                files: count_or_zero(files),
                lines: count_or_zero(lines),
                code: count_or_zero(code),
                comments: count_or_zero(comments),
                blanks: count_or_zero(blanks),
            }),
    {
        ProjectLanguage {
            files: stored_count(files),
            lines: stored_count(lines),
            code: stored_count(code),
            comments: stored_count(comments),
            blanks: stored_count(blanks),
        }
    }
}

/// Whether a directory of this name is left out of a scan: its name is one
/// of `ignore_dirs`. A name that is not text is never left out.
pub fn is_build(name: Option<&str>, ignore_dirs: &[String]) -> (ignored: bool)
    ensures
        ignored <==> name is Some && exists|i: int|
            0 <= i < ignore_dirs@.len() && (#[trigger] ignore_dirs@[i])@ == name->0@,
{
    let wanted: String = match name {
        Some(text) => text.to_owned(),
        None => {
            return false;
        },
    };
    let mut i: usize = 0;
    while i < ignore_dirs.len()
        invariant
            i <= ignore_dirs.len(),
            name is Some,
            wanted@ == name->0@,
            forall|k: int| 0 <= k < i ==> (#[trigger] ignore_dirs@[k])@ != wanted@,
        decreases ignore_dirs.len() - i,
    {
        if ignore_dirs[i] == wanted {
            proof {
                assert(ignore_dirs@[i as int]@ == name->0@);
            }
            return true;
        }
        i += 1;
    }
    false
}

impl View for ProjectLanguage {
    type V = ProjectLanguage;

    open spec fn view(&self) -> ProjectLanguage {
        *self
    }
}

/// A project directory with what the scan found out about it.
#[derive(Debug, PartialEq)]
pub struct Project {
    /// Where the project lies.
    pub path: String,
    /// The size of the directory in bytes.
    pub size: u64,
    pub git_info: GitInfo,
    /// Line counts by language; the key is the language's number.
    pub languages: HashMap<u8, ProjectLanguage>,
    /// Line counts of all languages together.
    pub languages_total: ProjectLanguage,
}

/// A `Project` with its path as a sequence of characters and its languages
/// as a map.
pub ghost struct ProjectView {
    pub path: Seq<char>,
    pub size: u64,
    pub git_info: GitInfoView,
    pub languages: Map<u8, ProjectLanguage>,
    pub languages_total: ProjectLanguage,
}

impl View for Project {
    type V = ProjectView;

    open spec fn view(&self) -> ProjectView {
        ProjectView {
            path: self.path@,
            size: self.size,
            git_info: self.git_info@,
            languages: self.languages@,
            languages_total: self.languages_total,
        }
    }
}

impl Clone for Project {
    /// A project with the same path, numbers and summary, and the same
    /// languages under the same keys.
    fn clone(&self) -> (copy: Self)
        ensures
            copy@ == self@,
    {
        Project {
            path: self.path.clone(),
            size: self.size,
            git_info: self.git_info.clone(),
            languages: self.languages.clone(),
            languages_total: self.languages_total,
        }
    }
}

impl Project {
    /// A project made of what a scan found.
    pub fn new(
        path: String,
        size: u64,
        git_info: GitInfo,
        languages: HashMap<u8, ProjectLanguage>,
        languages_total: ProjectLanguage,
    ) -> (project: Self)
        ensures
            project.path == path,
            project.size == size,
            project.git_info == git_info,
            project.languages == languages,
            project.languages_total == languages_total,
    {
        Self { path, size, git_info, languages, languages_total }
    }
}

/// The views of a list of projects.
pub open spec fn project_views(projects: Seq<Project>) -> Seq<ProjectView> {
    Seq::new(projects.len(), |i: int| projects[i]@)
}

} // verus!
