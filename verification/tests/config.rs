use std::collections::HashMap;
use ymir::config::{Cache, Settings};
use ymir::projects::{is_build, stored_count, Project, ProjectLanguage};
use ymir::utils::{format_time, GitInfo};

#[test]
fn default_ignore_dirs_are_build_output_and_caches() {
    let dirs = Settings::ignore_dirs();
    assert_eq!(
        dirs,
        vec![
            "node_modules",
            "target",
            "build",
            "CMakeFiles",
            "_build",
            "venv",
            "vendor",
            ".zig-cache",
            ".zig-out",
            "dist",
            "site-packages",
            ".cache",
            ".gradle",
            ".nuxt",
            ".svelte-kit",
            ".mypy_cache",
        ]
    );
}

#[test]
fn default_settings_hold_the_default_ignore_dirs() {
    let settings = Settings::default();
    assert_eq!(settings.ignore_dirs, Settings::ignore_dirs());
    assert_eq!(settings.default_dir, None);
}

#[test]
fn default_cache_is_empty() {
    assert!(Cache::default().projects.is_empty());
}

#[test]
fn ignored_names_are_build_directories() {
    let ignored = Settings::default().ignore_dirs;
    assert!(is_build(Some("target"), &ignored));
    assert!(is_build(Some(".mypy_cache"), &ignored));
    assert!(!is_build(Some("Target"), &ignored));
    assert!(!is_build(Some("targets"), &ignored));
    assert!(!is_build(Some(""), &ignored));
    assert!(!is_build(None, &ignored));
    assert!(!is_build(Some("target"), &[]));
    assert!(is_build(Some(""), &[String::new()]));
}

#[test]
fn counts_that_do_not_fit_are_kept_as_zero() {
    assert_eq!(stored_count(0), 0);
    assert_eq!(stored_count(4294967295), u32::MAX);
    if usize::BITS > 32 {
        let big = (u32::MAX as u64 + 1) as usize;
        assert_eq!(stored_count(big), 0);
        assert_eq!(
            ProjectLanguage::from_counts(1, big, 3, usize::MAX, 5),
            ProjectLanguage { files: 1, lines: 0, code: 3, comments: 0, blanks: 5 }
        );
    }
    assert_eq!(
        ProjectLanguage::from_counts(1, 2, 3, 4, 5),
        ProjectLanguage { files: 1, lines: 2, code: 3, comments: 4, blanks: 5 }
    );
}

#[test]
fn times_that_do_not_fit_are_kept_as_zero() {
    assert_eq!(format_time(None), 0);
    assert_eq!(format_time(Some(0)), 0);
    assert_eq!(format_time(Some(1431648000)), 1431648000);
    assert_eq!(format_time(Some(4294967295)), u32::MAX);
    assert_eq!(format_time(Some(4294967296)), 0);
    assert_eq!(format_time(Some(-1)), 0);
    assert_eq!(format_time(Some(i64::MIN)), 0);
    assert_eq!(format_time(Some(i64::MAX)), 0);
}

#[test]
fn summary_of_a_history() {
    let info = GitInfo::from_history(
        Some("https://example.org/u/r".to_string()),
        Some(100),
        Some(-5),
        Some("first line".to_string()),
        42,
    )
    .unwrap();
    assert_eq!(
        info,
        GitInfo {
            remote_url: Some("https://example.org/u/r".to_string()),
            init_date: 100,
            last_commit_date: 0,
            last_commit_msg: Some("first line".to_string()),
            commit_count: 42,
        }
    );
    assert_eq!(GitInfo::from_history(None, None, None, None, 0), Some(GitInfo::default()));
    if usize::BITS > 32 {
        let many = (u32::MAX as u64 + 1) as usize;
        assert_eq!(GitInfo::from_history(None, None, None, None, many), None);
    }
    assert!(GitInfo::from_history(None, None, None, None, 4294967295).is_some());
}

#[test]
fn default_summary_has_no_history() {
    assert_eq!(
        GitInfo::default(),
        GitInfo {
            remote_url: None,
            init_date: 0,
            last_commit_date: 0,
            last_commit_msg: None,
            commit_count: 0,
        }
    );
}

#[test]
fn project_is_made_of_its_parts_and_cloned_with_them() {
    let mut languages = HashMap::new();
    languages.insert(3u8, ProjectLanguage::from_counts(1, 2, 3, 4, 5));
    let total = ProjectLanguage::from_counts(1, 2, 3, 4, 5);
    let info = GitInfo { commit_count: 2, ..GitInfo::default() };
    let project = Project::new("/p".to_string(), 9, info.clone(), languages.clone(), total);
    assert_eq!(project.path, "/p");
    assert_eq!(project.size, 9);
    assert_eq!(project.git_info, info);
    assert_eq!(project.languages, languages);
    assert_eq!(project.languages_total, total);
    assert_eq!(project.clone(), project);
}
