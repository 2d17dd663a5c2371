use std::collections::HashMap;
use ymir::app::{
    comes_before, get_remote_username, lets_through, App, Key, Motion, ProjectsList,
};
use ymir::projects::{Project, ProjectLanguage};
use ymir::sorting::{Filter, Sorting};
use ymir::utils::GitInfo;

fn project(path: &str, size: u64, commits: u32, remote: Option<&str>) -> Project {
    Project {
        path: path.to_string(),
        size,
        git_info: GitInfo {
            remote_url: remote.map(str::to_string),
            init_date: 1000 - commits,
            last_commit_date: 2000 + size as u32,
            last_commit_msg: None,
            commit_count: commits,
        },
        languages: HashMap::new(),
        languages_total: ProjectLanguage {
            files: 0,
            lines: (size % 7) as u32,
            code: 0,
            comments: 0,
            blanks: 0,
        },
    }
}

fn sample() -> Vec<Project> {
    vec![
        project("/w/delta", 40, 3, Some("https://example.org/ann/delta")),
        project("/w/alpha", 10, 9, None),
        project("/w/charlie", 40, 1, Some("https://example.org/bob/charlie.git")),
        project("/w/bravo", 5, 3, Some("git@example.org:ann/bravo.git")),
        project("/w/echo", 40, 0, Some("https://example.org/ann/echo")),
    ]
}

fn names(list: &ProjectsList) -> Vec<&str> {
    list.items.iter().map(|p| p.path.rsplit('/').next().unwrap()).collect()
}

fn with_remote(url: Option<&str>) -> Project {
    project("/p", 0, 0, url)
}

#[test]
fn remote_username_is_the_fourth_part_of_the_url() {
    assert_eq!(get_remote_username(&with_remote(Some("https://github.com/user/repo"))), "user");
    assert_eq!(get_remote_username(&with_remote(Some("https://github.com/user"))), "user");
    assert_eq!(get_remote_username(&with_remote(Some("https://github.com/user/"))), "user");
    assert_eq!(get_remote_username(&with_remote(Some("a/b/c/d/e/f"))), "d");
    assert_eq!(get_remote_username(&with_remote(Some("a/b/c//e"))), "");
    assert_eq!(get_remote_username(&with_remote(Some("///ü/"))), "ü");
}

#[test]
fn remote_username_is_empty_without_a_fourth_part() {
    assert_eq!(get_remote_username(&with_remote(None)), "");
    assert_eq!(get_remote_username(&with_remote(Some(""))), "");
    assert_eq!(get_remote_username(&with_remote(Some("git@example.com:u/proj.git"))), "");
    assert_eq!(get_remote_username(&with_remote(Some("https://github.com"))), "");
    assert_eq!(get_remote_username(&with_remote(Some("a/b/c"))), "");
    assert_eq!(get_remote_username(&with_remote(Some("a/b/c/"))), "");
}

#[test]
fn remote_username_agrees_with_split() {
    for url in ["x", "/", "//", "///", "////", "a//b/c/d", "ssh://git@host/team/repo.git"] {
        let expected = url.split('/').nth(3).unwrap_or_default();
        assert_eq!(get_remote_username(&with_remote(Some(url))), expected, "{url}");
    }
}

#[test]
fn new_list_shows_all_projects() {
    let list = ProjectsList::new(sample());
    assert_eq!(list.items, sample());
    assert_eq!(list.items_state, sample());
    assert_eq!(list.selected, None);
}

#[test]
fn sort_by_size_keeps_the_order_of_equal_sizes() {
    let mut list = ProjectsList::new(sample());
    list.sort_projects(&Sorting::Size, false);
    assert_eq!(names(&list), vec!["bravo", "alpha", "delta", "charlie", "echo"]);
    assert_eq!(list.selected, Some(0));
    assert_eq!(list.items_state, sample());
}

#[test]
fn inverted_sort_is_the_reverse_of_the_rising_order() {
    let mut list = ProjectsList::new(sample());
    list.sort_projects(&Sorting::Size, true);
    assert_eq!(names(&list), vec!["echo", "charlie", "delta", "alpha", "bravo"]);
    assert_eq!(list.selected, Some(0));
}

#[test]
fn sort_by_each_order() {
    let mut list = ProjectsList::new(sample());
    list.sort_projects(&Sorting::Name, false);
    assert_eq!(names(&list), vec!["alpha", "bravo", "charlie", "delta", "echo"]);
    list.sort_projects(&Sorting::Commits, false);
    assert_eq!(names(&list), vec!["echo", "charlie", "bravo", "delta", "alpha"]);
    list.sort_projects(&Sorting::CreationDate, false);
    assert_eq!(names(&list), vec!["alpha", "bravo", "delta", "charlie", "echo"]);
    list.sort_projects(&Sorting::ModificationDate, false);
    assert_eq!(names(&list), vec!["bravo", "alpha", "delta", "charlie", "echo"]);
    list.sort_projects(&Sorting::Loc, false);
    assert_eq!(names(&list), vec!["alpha", "bravo", "delta", "charlie", "echo"]);
}

#[test]
fn sort_agrees_with_the_stable_sort_of_std() {
    let mut items = Vec::new();
    for i in 0..60u64 {
        items.push(project(&format!("/p/{}", i * 37 % 60), i * 7919 % 13, (i * 31 % 5) as u32, None));
    }
    let mut expected = items.clone();
    expected.sort_by(|a, b| a.size.cmp(&b.size));
    let mut list = ProjectsList::new(items.clone());
    list.sort_projects(&Sorting::Size, false);
    assert_eq!(list.items, expected);
    expected.reverse();
    list.items = items.clone();
    list.sort_projects(&Sorting::Size, true);
    assert_eq!(list.items, expected);
    let mut expected = items.clone();
    expected.sort_by(|a, b| std::path::Path::new(&a.path).cmp(std::path::Path::new(&b.path)));
    list.items = items;
    list.sort_projects(&Sorting::Name, false);
    assert_eq!(list.items, expected);
}

#[test]
fn names_are_ordered_as_paths_not_as_strings() {
    // As strings "/w/proj.old" comes before "/w/proj/sub": '.' is below '/'.
    // As paths it comes after it: "proj" is below "proj.old".
    let mut list = ProjectsList::new(vec![
        project("/w/proj.old", 0, 0, None),
        project("/w/proj/sub", 0, 0, None),
    ]);
    list.sort_projects(&Sorting::Name, false);
    assert_eq!(list.items[0].path, "/w/proj/sub");
    assert_eq!(list.items[1].path, "/w/proj.old");
    assert!(comes_before(&Sorting::Name, &list.items[0], &list.items[1]));
    assert!(!comes_before(&Sorting::Name, &list.items[1], &list.items[0]));
    assert!(!comes_before(&Sorting::Name, &list.items[0], &list.items[0]));
}

#[test]
fn sort_of_an_empty_list_selects_the_first() {
    let mut list = ProjectsList::new(Vec::new());
    list.sort_projects(&Sorting::Loc, true);
    assert!(list.items.is_empty());
    assert_eq!(list.selected, Some(0));
}

#[test]
fn filters_let_through_what_they_name() {
    let mut list = ProjectsList::new(sample());
    list.filter_projects(&Filter::Owned, "ann");
    assert_eq!(names(&list), vec!["delta", "echo"]);
    assert_eq!(list.selected, Some(0));
    list.filter_projects(&Filter::NotOwned, "ann");
    assert_eq!(names(&list), vec!["alpha", "charlie", "bravo"]);
    list.filter_projects(&Filter::HasRemote, "ann");
    assert_eq!(names(&list), vec!["delta", "charlie", "bravo", "echo"]);
    list.filter_projects(&Filter::NoRemote, "ann");
    assert_eq!(names(&list), vec!["alpha"]);
    list.filter_projects(&Filter::All, "ann");
    assert_eq!(list.items, sample());
    assert_eq!(list.items_state, sample());
}

#[test]
fn filter_that_lets_nothing_through_selects_nothing() {
    let mut list = ProjectsList::new(sample());
    list.filter_projects(&Filter::Owned, "nobody");
    assert!(list.items.is_empty());
    assert_eq!(list.selected, None);
    // a project without a fourth part in its remote belongs to the user without a name
    list.filter_projects(&Filter::Owned, "");
    assert_eq!(names(&list), vec!["alpha", "bravo"]);
    assert!(lets_through(&Filter::Owned, "bob", &sample()[2]));
    assert!(!lets_through(&Filter::NotOwned, "bob", &sample()[2]));
}

#[test]
fn filter_starts_from_all_projects_not_from_those_shown() {
    let mut list = ProjectsList::new(sample());
    list.filter_projects(&Filter::NoRemote, "");
    list.filter_projects(&Filter::HasRemote, "");
    assert_eq!(list.items.len(), 4);
}

#[test]
fn search_selects_the_hit_of_the_given_number() {
    let mut list = ProjectsList::new(sample());
    assert_eq!(list.search("a", 0), 4);
    assert_eq!(list.selected, Some(0));
    assert_eq!(list.search("a", 3), 4);
    assert_eq!(list.selected, Some(3));
    assert_eq!(list.search("a", 4), 4);
    assert_eq!(list.selected, None);
    assert_eq!(list.search("ch", 0), 2);
    assert_eq!(list.selected, Some(2));
    assert_eq!(list.search("zulu", 0), 0);
    assert_eq!(list.selected, None);
    assert_eq!(list.search("", 1), 5);
    assert_eq!(list.selected, Some(1));
    assert_eq!(list.items, sample());
}

fn app() -> App {
    App::new(sample(), "ann".to_string())
}

#[test]
fn new_app_shows_both_panels_and_all_projects() {
    let app = app();
    assert!(!app.should_exit && app.show_project_info && app.show_languages && !app.invert);
    assert_eq!(app.sort_type, Sorting::Name);
    assert_eq!(app.filter_type, Filter::All);
    assert_eq!(app.git_name, "ann");
    assert_eq!(app.search_text, None);
    assert_eq!((app.search_index, app.search_count), (0, 0));
    assert_eq!(app.projects_list.items, sample());
    assert_eq!(app.projects_list.selected, None);
}

#[test]
fn keys_that_are_not_pressed_do_nothing() {
    let mut app = app();
    assert_eq!(app.handle_key(Key::Char('q'), false), Motion::Stay);
    assert!(!app.should_exit);
    assert_eq!(app.handle_key(Key::Char('l'), false), Motion::Stay);
    assert_eq!(app.sort_type, Sorting::Name);
    app.search_text = Some("x".to_string());
    app.handle_search_key(Key::Esc, false);
    assert_eq!(app.search_text, Some("x".to_string()));
}

#[test]
fn quit_keys_end_the_program() {
    for key in [Key::Char('q'), Key::Esc] {
        let mut app = app();
        assert_eq!(app.handle_key(key, true), Motion::Stay);
        assert!(app.should_exit);
    }
}

#[test]
fn movement_keys_ask_the_list_to_move() {
    let mut app = app();
    assert_eq!(app.handle_key(Key::Char('j'), true), Motion::Next);
    assert_eq!(app.handle_key(Key::Down, true), Motion::Next);
    assert_eq!(app.handle_key(Key::Char('k'), true), Motion::Previous);
    assert_eq!(app.handle_key(Key::Up, true), Motion::Previous);
    assert_eq!(app.handle_key(Key::Char('g'), true), Motion::First);
    assert_eq!(app.handle_key(Key::Home, true), Motion::First);
    assert_eq!(app.handle_key(Key::Char('G'), true), Motion::Last);
    assert_eq!(app.handle_key(Key::End, true), Motion::Last);
    assert_eq!(app.handle_key(Key::Other, true), Motion::Stay);
    assert_eq!(app.handle_key(Key::Char('x'), true), Motion::Stay);
    assert_eq!(app.projects_list.selected, None);
    assert!(!app.should_exit);
}

#[test]
fn d_and_u_move_by_ten() {
    let mut app = app();
    assert_eq!(app.handle_key(Key::Char('u'), true), Motion::Stay);
    assert_eq!(app.projects_list.selected, Some(5));
    app.projects_list.selected = None;
    app.handle_key(Key::Char('d'), true);
    assert_eq!(app.projects_list.selected, Some(0));
    app.handle_key(Key::Char('d'), true);
    assert_eq!(app.projects_list.selected, Some(10));
    app.handle_key(Key::Char('d'), true);
    app.handle_key(Key::Char('u'), true);
    assert_eq!(app.projects_list.selected, Some(10));
    app.handle_key(Key::Char('u'), true);
    app.handle_key(Key::Char('u'), true);
    assert_eq!(app.projects_list.selected, Some(0));
    app.select_next_10();
    app.select_previous_10();
    assert_eq!(app.projects_list.selected, Some(0));
    app.projects_list.selected = Some(13);
    app.select_previous_10();
    assert_eq!(app.projects_list.selected, Some(3));
}

#[test]
fn number_keys_toggle_the_panels() {
    let mut app = app();
    app.handle_key(Key::Char('1'), true);
    assert!(!app.show_project_info && app.show_languages);
    app.handle_key(Key::Char('2'), true);
    assert!(!app.show_project_info && !app.show_languages);
    app.handle_key(Key::Char('1'), true);
    assert!(app.show_project_info);
}

#[test]
fn sort_keys_step_through_the_orders_and_sort() {
    let mut app = app();
    assert_eq!(app.handle_key(Key::Char('l'), true), Motion::Stay);
    assert_eq!(app.sort_type, Sorting::Size);
    assert_eq!(names(&app.projects_list), vec!["bravo", "alpha", "delta", "charlie", "echo"]);
    assert_eq!(app.projects_list.selected, Some(0));
    app.handle_key(Key::Char('i'), true);
    assert!(app.invert);
    assert_eq!(names(&app.projects_list), vec!["echo", "charlie", "delta", "alpha", "bravo"]);
    app.handle_key(Key::Left, true);
    assert_eq!(app.sort_type, Sorting::Name);
    assert_eq!(names(&app.projects_list), vec!["echo", "delta", "charlie", "bravo", "alpha"]);
    app.handle_key(Key::Char('h'), true);
    assert_eq!(app.sort_type, Sorting::Loc);
    app.handle_key(Key::Right, true);
    assert_eq!(app.sort_type, Sorting::Name);
}

#[test]
fn filter_keys_step_through_the_filters_and_filter() {
    let mut app = app();
    app.handle_key(Key::Char('o'), true);
    assert_eq!(app.filter_type, Filter::Owned);
    assert_eq!(names(&app.projects_list), vec!["delta", "echo"]);
    app.handle_key(Key::Char('y'), true);
    assert_eq!(app.filter_type, Filter::All);
    assert_eq!(app.projects_list.items.len(), 5);
    app.handle_key(Key::Char('y'), true);
    assert_eq!(app.filter_type, Filter::NoRemote);
    assert_eq!(names(&app.projects_list), vec!["alpha"]);
    assert_eq!(app.projects_list.selected, Some(0));
}

#[test]
fn slash_opens_and_closes_the_search() {
    let mut app = app();
    assert_eq!(app.handle_key(Key::Char('/'), true), Motion::Stay);
    assert_eq!(app.search_text, Some(String::new()));
    app.handle_key(Key::Char('/'), true);
    assert_eq!(app.search_text, None);
}

#[test]
fn search_keys_edit_the_text_and_search() {
    let mut app = app();
    app.handle_key(Key::Char('/'), true);
    app.handle_search_key(Key::Char('a'), true);
    assert_eq!(app.search_text, Some("a".to_string()));
    assert_eq!(app.search_count, 4);
    assert_eq!(app.projects_list.selected, Some(0));
    app.handle_search_key(Key::Char('l'), true);
    assert_eq!(app.search_text, Some("al".to_string()));
    assert_eq!(app.search_count, 1);
    assert_eq!(app.projects_list.selected, Some(1));
    app.handle_search_key(Key::Backspace, true);
    assert_eq!(app.search_text, Some("a".to_string()));
    assert_eq!(app.search_count, 4);
    app.handle_search_key(Key::Backspace, true);
    app.handle_search_key(Key::Backspace, true);
    assert_eq!(app.search_text, Some(String::new()));
    assert_eq!(app.search_count, 5);
    app.handle_search_key(Key::Down, true);
    assert_eq!(app.search_count, 5);
    assert!(!app.should_exit);
}

#[test]
fn enter_goes_through_the_hits_and_back_to_the_first() {
    let mut app = app();
    app.handle_key(Key::Char('/'), true);
    app.handle_search_key(Key::Char('a'), true);
    let mut seen = Vec::new();
    for _ in 0..6 {
        app.handle_search_key(Key::Enter, true);
        seen.push((app.projects_list.selected, app.search_index));
    }
    assert_eq!(
        seen,
        vec![
            (Some(0), 1),
            (Some(1), 2),
            (Some(2), 3),
            (Some(3), 0),
            (Some(0), 1),
            (Some(1), 2),
        ]
    );
}

#[test]
fn enter_without_hits_counts_on() {
    let mut app = app();
    app.handle_key(Key::Char('/'), true);
    app.handle_search_key(Key::Char('#'), true);
    assert_eq!(app.search_count, 0);
    app.handle_search_key(Key::Enter, true);
    assert_eq!(app.search_index, 1);
    assert_eq!(app.projects_list.selected, None);
    app.search_index = usize::MAX;
    app.handle_search_key(Key::Enter, true);
    assert_eq!(app.search_index, 0);
}

#[test]
fn escape_ends_the_search() {
    let mut app = app();
    app.handle_key(Key::Char('/'), true);
    app.handle_search_key(Key::Char('e'), true);
    app.handle_search_key(Key::Enter, true);
    app.handle_search_key(Key::Esc, true);
    assert_eq!(app.search_text, None);
    assert_eq!(app.search_index, 0);
    assert_eq!(app.search_count, 3);
    assert!(!app.should_exit);
}

#[test]
fn search_keys_outside_a_search_search_for_the_empty_text() {
    let mut app = app();
    app.handle_search_key(Key::Char('z'), true);
    assert_eq!(app.search_text, None);
    assert_eq!(app.search_count, 5);
    assert_eq!(app.projects_list.selected, Some(0));
}
