//! The settings of a scan, and the cache that keeps its result.

use crate::projects::{project_views, Project, ProjectView};
use vstd::prelude::*;

verus! {

/// What a cache file holds: the projects of the last scan.
#[derive(Debug)]
pub struct Cache {
    pub projects: Vec<Project>,
}

impl View for Cache {
    type V = Seq<ProjectView>;

    open spec fn view(&self) -> Seq<ProjectView> {
        project_views(self.projects@)
    }
}

impl Default for Cache {
    /// A cache without projects.
    fn default() -> (cache: Self)
        ensures
            cache.projects@.len() == 0,
    {
        Cache { projects: Vec::new() }
    }
}

/// How a scan is to be made.
#[derive(Debug)]
pub struct Settings {
    /// The names of the directories that a scan does not enter.
    pub ignore_dirs: Vec<String>,
    /// Where to scan when no directory is named.
    pub default_dir: Option<String>,
}

/// The names of the directories that a scan leaves out unless told
/// otherwise: build output first, then caches.
pub open spec fn default_ignore_dirs() -> Seq<Seq<char>> {
    seq![
        "node_modules"@,
        "target"@,
        "build"@,
        "CMakeFiles"@,
        "_build"@,
        "venv"@,
        "vendor"@,
        ".zig-cache"@,
        ".zig-out"@,
        "dist"@,
        "site-packages"@,
        ".cache"@,
        ".gradle"@,
        ".nuxt"@,
        ".svelte-kit"@,
        ".mypy_cache"@,
    ]
}

/// The characters of each string of a list.
pub open spec fn names_of(names: Seq<String>) -> Seq<Seq<char>> {
    Seq::new(names.len(), |i: int| names[i]@)
}

impl Settings {
    /// The directories that a scan leaves out by default.
    pub fn ignore_dirs() -> (dirs: Vec<&'static str>)
        ensures
            dirs@.len() == default_ignore_dirs().len(),
            forall|i: int| 0 <= i < dirs@.len() ==> (#[trigger] dirs@[i])@ == default_ignore_dirs()[i],
    {
        let dirs = vec![
            "node_modules",
            "target",
            "build",
            "CMakeFiles",
            "_build",
            "venv",
            "vendor",
            ".zig-cache",
            ".zig-out",
            "dist",
            "site-packages",
            ".cache",
            ".gradle",
            ".nuxt",
            ".svelte-kit",
            ".mypy_cache",
        ];
        dirs
    }
}

impl Default for Settings {
    /// The default directories to leave out, and no default directory to
    /// scan.
    fn default() -> (settings: Self)
        ensures
            names_of(settings.ignore_dirs@) == default_ignore_dirs(),
            settings.default_dir is None,
    {
        let names = Settings::ignore_dirs();
        let mut ignore_dirs: Vec<String> = Vec::new();
        let mut i: usize = 0;
        while i < names.len()
            invariant
                i <= names.len(),
                names@.len() == default_ignore_dirs().len(),
                forall|k: int|
                    0 <= k < names@.len() ==> (#[trigger] names@[k])@ == default_ignore_dirs()[k],
                ignore_dirs@.len() == i,
                forall|k: int| 0 <= k < i ==> (#[trigger] ignore_dirs@[k])@ == default_ignore_dirs()[k],
            decreases names.len() - i,
        {
            let name: &str = names[i];
            ignore_dirs.push(name.to_owned());
            i += 1;
        }
        proof {
            assert(names_of(ignore_dirs@) =~= default_ignore_dirs());
        }
        Settings { ignore_dirs, default_dir: None }
    }
}

} // verus!
