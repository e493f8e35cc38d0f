use athena_viewer::app_error::AppError;
use athena_viewer::message_holder::file_helper::{
    check_file_size, FileGroupHolder, FileHolder, FileTextInfo, MAX_FILE_SIZE,
};
use athena_viewer::message_holder::folder_holder::{Expansion, FolderHolder};
use athena_viewer::message_holder::fuzzy;
use athena_viewer::message_holder::paths::{
    count_separators, join_path, path_components, split_path, strip_dir_prefix,
};
use athena_viewer::message_holder::{wrap_index, MessageHolder, Resolution, ScrollMove, SubmitAction};
use athena_viewer::state_holder::{InputMode, StateHolder, ViewMode};

fn names(list: &[(&str, bool)]) -> Vec<(String, bool)> {
    list.iter().map(|(n, f)| (n.to_string(), *f)).collect()
}

fn root_snapshot() -> FileGroupHolder {
    FileGroupHolder::new(
        "/w".to_string(),
        true,
        names(&[("README.md", true), ("main.rs", true), ("src", false), ("empty", false), (".gitkeep", true)]),
    )
}

fn rel_items(h: &FolderHolder) -> Vec<String> {
    h.selected_path_holder.iter().map(|e| e.relative_to(&h.current_directory).unwrap()).collect()
}

fn entry_names(v: &[FileHolder]) -> Vec<String> {
    v.iter().map(|e| e.file_name.clone()).collect()
}

#[test]
fn fuzzy_match_is_a_subsequence_test() {
    assert!(fuzzy::matches("abc", "c"));
    assert!(fuzzy::matches("abc", ""));
    assert!(!fuzzy::matches("abc", "d"));
    assert!(!fuzzy::matches("abc", "abcd"));
    assert!(fuzzy::matches("ABC", "bc"));
    assert!(fuzzy::matches("main.rs", "mrs"));
    assert!(!fuzzy::matches("main.rs", "srm"));
    assert!(fuzzy::matches("", ""));
    assert!(!fuzzy::matches("", "a"));
}

#[test]
fn should_select_uses_the_filter() {
    let mut h = FolderHolder::new("/w".to_string(), root_snapshot());
    let state = StateHolder::default();
    assert!(h.should_select("anything"));
    h.update(&state, Some("RM".to_string()));
    assert!(h.should_select("README.md"));
    assert!(!h.should_select("main.rs"));
}

#[test]
fn wrap_index_wraps_both_ways() {
    assert_eq!(wrap_index(1, 10), 1);
    assert_eq!(wrap_index(-1, 10), 9);
    assert_eq!(wrap_index(5, 3), 2);
    assert_eq!(wrap_index(-10, 10), 0);
    assert_eq!(wrap_index(-11, 10), 9);
    assert_eq!(wrap_index(0, 1), 0);
    assert_eq!(wrap_index(i32::MIN, 7), (i32::MIN as i64).rem_euclid(7) as usize);
    assert_eq!(wrap_index(i32::MAX, 7), (i32::MAX % 7) as usize);
}

#[test]
fn snapshot_entries_lie_in_their_directory() {
    let g = root_snapshot();
    assert!(g.lies_in("/w"));
    assert!(!g.lies_in("/w/src"));
    let mut g = FileGroupHolder::new("/w".to_string(), false, names(&[("a", true)]));
    g.child[0].parent = "/elsewhere".to_string();
    assert!(!g.lies_in("/w"));
}

#[test]
fn snapshot_sorts_by_name_after_parent_shortcut() {
    let g = root_snapshot();
    assert_eq!(entry_names(&g.child), vec!["..", ".gitkeep", "README.md", "empty", "main.rs", "src"]);
    assert!(g.child.iter().all(|e| e.parent == "/w"));
    assert!(!g.child[0].is_file);
    let g = FileGroupHolder::new("/".to_string(), true, names(&[("b", true), ("a", false)]));
    assert_eq!(entry_names(&g.child), vec!["a", "b"]);
    let g = FileGroupHolder::new("/w".to_string(), false, names(&[("-x", true), ("é", true), ("z", true)]));
    assert_eq!(entry_names(&g.child), vec!["-x", "z", "é"]);
}

#[test]
fn empty_filter_selects_all_and_src_selects_src() {
    let mut h = FolderHolder::new("/w".to_string(), root_snapshot());
    let state = StateHolder::default();
    h.update(&state, Some(String::new()));
    assert_eq!(rel_items(&h).len(), 6);
    assert_eq!(rel_items(&h), vec!["..", ".gitkeep", "README.md", "empty", "main.rs", "src"]);
    h.update(&state, Some("src".to_string()));
    assert_eq!(rel_items(&h), vec!["src"]);
}

#[test]
fn update_none_twice_gives_same_selection() {
    let mut h = FolderHolder::new("/w".to_string(), root_snapshot());
    let state = StateHolder::default();
    h.update(&state, Some("m".to_string()));
    let first = rel_items(&h);
    h.update(&state, None);
    let second = rel_items(&h);
    h.update(&state, None);
    assert_eq!(first, second);
    assert_eq!(second, rel_items(&h));
    assert_eq!(first, vec!["README.md", "empty", "main.rs"]);
}

#[test]
fn entering_a_again_uses_the_cached_snapshot() {
    let state = StateHolder::default();
    let mut h = FolderHolder::new("/w".to_string(), root_snapshot());
    let a = FileGroupHolder::new("/w/a".to_string(), true, names(&[("old.txt", true)]));
    let b = FileGroupHolder::new("/w/b".to_string(), true, names(&[("b.txt", true)]));
    h.submit_new_working_directory(&state, "/w/a".to_string(), Some(a)).unwrap();
    h.submit_new_working_directory(&state, "/w/b".to_string(), Some(b)).unwrap();
    let fresh = FileGroupHolder::new("/w/a".to_string(), true, names(&[("new.txt", true)]));
    h.submit_new_working_directory(&state, "/w/a".to_string(), Some(fresh)).unwrap();
    assert_eq!(h.current_directory, "/w/a");
    assert_eq!(entry_names(h.current_entries()), vec!["..", "old.txt"]);
    assert_eq!(h.cached_paths(), vec!["/w/a", "/w/b", "/w"]);
    assert_eq!(entry_names(&h.peek().unwrap().child), vec!["..", "old.txt"]);
}

#[test]
fn entering_an_uncached_directory_without_listing_fails() {
    let state = StateHolder::default();
    let mut h = FolderHolder::new("/w".to_string(), root_snapshot());
    let r = h.submit_new_working_directory(&state, "/w/src".to_string(), None);
    assert!(matches!(r, Err(AppError::Cache(_))));
    assert_eq!(h.current_directory, "/w");
    assert_eq!(h.cached_paths(), vec!["/w"]);
}

#[test]
fn cache_evicts_least_recently_used_at_capacity() {
    let state = StateHolder::default();
    let mut h = FolderHolder::new("/w".to_string(), root_snapshot());
    for i in 0..100 {
        let p = format!("/w/d{}", i);
        let g = FileGroupHolder::new(p.clone(), true, vec![]);
        h.submit_new_working_directory(&state, p, Some(g)).unwrap();
    }
    assert!(!h.is_cached("/w"));
    assert!(h.is_cached("/w/d0"));
    assert_eq!(h.cached_paths().len(), 100);
    assert_eq!(h.cached_paths()[0], "/w/d99");
    let g = FileGroupHolder::new("/w/d0".to_string(), true, vec![]);
    h.submit_new_working_directory(&state, "/w/d0".to_string(), Some(g)).unwrap();
    assert_eq!(h.cached_paths()[0], "/w/d0");
    let g = FileGroupHolder::new("/w/new".to_string(), true, vec![]);
    h.submit_new_working_directory(&state, "/w/new".to_string(), Some(g)).unwrap();
    assert!(!h.is_cached("/w/d1"));
    assert!(h.is_cached("/w/d0"));
}

fn expanded_root() -> (FolderHolder, StateHolder) {
    let state = StateHolder::default();
    let g = FileGroupHolder::new("/w".to_string(), true, names(&[("a.txt", true), ("sub", false), ("two", false)]));
    let mut h = FolderHolder::new("/w".to_string(), g);
    let xs = vec![
        Expansion::Other { path: "/w/a.txt".to_string(), is_file: true },
        Expansion::Directory(FileGroupHolder::new("/w/sub".to_string(), false, names(&[("x", true), ("y", false)]))),
        Expansion::Directory(FileGroupHolder::new("/w/two".to_string(), false, names(&[("z", true)]))),
    ];
    h.expand(&state, xs).unwrap();
    (h, state)
}

#[test]
fn expand_flattens_one_level() {
    let (h, _state) = expanded_root();
    assert_eq!(h.expand_level(), 1);
    assert_eq!(rel_items(&h), vec!["..", "a.txt", "sub/x", "sub/y", "two/z"]);
}

#[test]
fn expand_then_collapse_restores_entries() {
    let (mut h, state) = expanded_root();
    h.collapse(&state);
    assert_eq!(h.expand_level(), 0);
    let mut items = rel_items(&h);
    items.sort();
    assert_eq!(items, vec!["..", "a.txt", "sub", "two"]);
    assert!(!h.current_entries()[2].is_file);
}

#[test]
fn expand_drops_empty_and_missing_entries() {
    let state = StateHolder::default();
    let mut h = FolderHolder::new("/w".to_string(), root_snapshot());
    let xs = vec![
        Expansion::Other { path: "/w/.gitkeep".to_string(), is_file: true },
        Expansion::Missing,
        Expansion::Directory(FileGroupHolder::new("/w/empty".to_string(), false, vec![])),
        Expansion::Other { path: "/w/main.rs".to_string(), is_file: true },
        Expansion::Directory(FileGroupHolder::new("/w/src".to_string(), false, names(&[("lib.rs", true)]))),
    ];
    h.expand(&state, xs).unwrap();
    assert_eq!(rel_items(&h), vec!["..", ".gitkeep", "main.rs", "src/lib.rs"]);
    h.collapse(&state);
    assert_eq!(rel_items(&h), vec!["..", ".gitkeep", "main.rs", "src"]);
    h.collapse(&state);
    assert_eq!(h.expand_level(), 0);
    assert_eq!(rel_items(&h), vec!["..", ".gitkeep", "main.rs", "src"]);
}

#[test]
fn expand_twice_then_collapse_once_keeps_first_level() {
    let (mut h, state) = expanded_root();
    let xs = vec![
        Expansion::Other { path: "/w/a.txt".to_string(), is_file: true },
        Expansion::Other { path: "/w/sub/x".to_string(), is_file: true },
        Expansion::Directory(FileGroupHolder::new("/w/sub/y".to_string(), false, names(&[("q", true), ("r", true)]))),
        Expansion::Other { path: "/w/two/z".to_string(), is_file: true },
    ];
    h.expand(&state, xs).unwrap();
    assert_eq!(h.expand_level(), 2);
    assert_eq!(rel_items(&h), vec!["..", "a.txt", "sub/x", "sub/y/q", "sub/y/r", "two/z"]);
    h.collapse(&state);
    assert_eq!(rel_items(&h), vec!["..", "a.txt", "sub/x", "sub/y", "two/z"]);
}

#[test]
fn expand_with_wrong_count_is_a_state_error() {
    let state = StateHolder::default();
    let mut h = FolderHolder::new("/w".to_string(), root_snapshot());
    let r = h.expand(&state, vec![Expansion::Missing]);
    assert!(matches!(r, Err(AppError::State(_))));
    assert_eq!(h.expand_level(), 0);
    assert_eq!(rel_items(&h).len(), 6);
}

#[test]
fn history_lists_cached_directories_most_recent_first() {
    let mut state = StateHolder::default();
    let mut h = FolderHolder::new("/w".to_string(), root_snapshot());
    for p in ["/w/src", "/w/src/nested", "/w/src/nested/deep"] {
        let g = FileGroupHolder::new(p.to_string(), true, vec![]);
        h.submit_new_working_directory(&state, p.to_string(), Some(g)).unwrap();
    }
    state.to_history_search();
    h.update(&state, None);
    let paths: Vec<String> = h.selected_path_holder.iter().map(|e| e.to_path()).collect();
    assert_eq!(paths, vec!["/w/src/nested/deep", "/w/src/nested", "/w/src", "/w"]);
    h.update(&state, Some("nest".to_string()));
    assert_eq!(h.selected_path_holder.len(), 2);
}

#[test]
fn dropping_a_stale_history_entry_evicts_it() {
    let mut state = StateHolder::default();
    let mut h = FolderHolder::new("/w".to_string(), root_snapshot());
    let g = FileGroupHolder::new("/w/src".to_string(), true, vec![]);
    h.submit_new_working_directory(&state, "/w/src".to_string(), Some(g)).unwrap();
    let r = h.drop_invalid_folder(&state, 0);
    assert!(matches!(r, Err(AppError::State(_))));
    state.to_history_search();
    h.update(&state, None);
    assert_eq!(h.submit(0), "/w/src");
    h.drop_invalid_folder(&state, 0).unwrap();
    assert_eq!(h.cached_paths(), vec!["/w"]);
    assert_eq!(h.selected_path_holder.len(), 1);
    assert!(h.peek().is_none());
}

#[test]
fn refresh_replaces_current_snapshot() {
    let state = StateHolder::default();
    let mut h = FolderHolder::new("/w".to_string(), root_snapshot());
    let g = FileGroupHolder::new("/w".to_string(), true, names(&[("only", true)]));
    h.refresh(&state, g);
    assert_eq!(rel_items(&h), vec!["..", "only"]);
    assert_eq!(entry_names(&h.peek().unwrap().child), vec!["..", "only"]);
}

#[test]
fn collapse_at_level_zero_does_nothing() {
    let state = StateHolder::default();
    let mut h = FolderHolder::new("/w".to_string(), root_snapshot());
    h.collapse(&state);
    assert_eq!(h.expand_level(), 0);
    assert_eq!(rel_items(&h).len(), 6);
}

#[test]
fn open_file_under_cap_measures_text() {
    let mut state = StateHolder::default();
    let mut m = MessageHolder::new("/w".to_string(), root_snapshot());
    let text = "abc \n cde\nlongest line";
    m.open_file(&mut state, "/w/main.rs".to_string(), text.len() as u64, text).unwrap();
    assert_eq!(m.file_text_info, Some(FileTextInfo { n_rows: 3, max_line_length: 12 }));
    assert_eq!(m.file_opened, Some("/w/main.rs".to_string()));
    assert!(state.is_file_view());
    state.restore_previous_state();
    assert!(state.is_edit());
    assert_eq!(state.view_mode, ViewMode::Search);
}

#[test]
fn open_file_over_cap_is_a_path_error() {
    let mut state = StateHolder::default();
    let mut m = MessageHolder::new("/w".to_string(), root_snapshot());
    let r = m.open_file(&mut state, "/w/big".to_string(), MAX_FILE_SIZE + 1, "");
    assert!(matches!(r, Err(AppError::Path(_))));
    assert!(m.file_opened.is_none());
    assert!(m.file_text_info.is_none());
    assert!(!state.is_file_view());
    assert!(check_file_size(MAX_FILE_SIZE).is_ok());
    assert!(matches!(check_file_size(MAX_FILE_SIZE + 1), Err(AppError::Path(_))));
    assert_eq!(MAX_FILE_SIZE, 10 * 1024 * 1024);
}

#[test]
fn text_dimensions() {
    assert_eq!(FileTextInfo::new(""), FileTextInfo { n_rows: 1, max_line_length: 0 });
    assert_eq!(FileTextInfo::new("a\nbcd\n"), FileTextInfo { n_rows: 3, max_line_length: 3 });
    assert_eq!(FileTextInfo::new("é"), FileTextInfo { n_rows: 1, max_line_length: 2 });
}

#[test]
fn submit_decides_by_resolution() {
    let mut state = StateHolder::default();
    let mut m = MessageHolder::new("/w".to_string(), root_snapshot());
    m.update(&state, Some("src".to_string()));
    assert_eq!(m.submit_target(), Some("/w/src".to_string()));
    let a = m.submit(&mut state, Resolution::Directory("/w/src".to_string())).unwrap();
    assert_eq!(a, SubmitAction::EnterDirectory("/w/src".to_string()));
    let a = m.submit(&mut state, Resolution::File("/w/src".to_string())).unwrap();
    assert_eq!(a, SubmitAction::OpenFile("/w/src".to_string()));
    let a = m.submit(&mut state, Resolution::Missing).unwrap();
    assert_eq!(a, SubmitAction::RefreshCurrent);
    m.update(&state, Some("zzz".to_string()));
    assert_eq!(m.submit_target(), None);
    assert_eq!(m.submit(&mut state, Resolution::Missing).unwrap(), SubmitAction::Done);
}

#[test]
fn submit_in_history_leaves_history_for_directories() {
    let mut state = StateHolder::default();
    let mut m = MessageHolder::new("/w".to_string(), root_snapshot());
    state.to_history_search();
    m.reset(&state);
    let a = m.submit(&mut state, Resolution::Directory("/w".to_string())).unwrap();
    assert_eq!(a, SubmitAction::EnterDirectory("/w".to_string()));
    assert_eq!(state.input_mode, InputMode::Normal);
    assert_eq!(state.view_mode, ViewMode::Search);
}

#[test]
fn highlight_moves_and_wraps() {
    let mut m = MessageHolder::new("/w".to_string(), root_snapshot());
    m.move_up();
    assert_eq!(m.raw_highlight_index, -1);
    assert_eq!(m.get_highlight_index(6), 5);
    m.move_down();
    m.move_down();
    assert_eq!(m.get_highlight_index(6), 1);
    m.raw_highlight_index = i32::MAX;
    m.move_down();
    assert_eq!(m.raw_highlight_index, i32::MAX);
    m.reset_index();
    assert_eq!(m.raw_highlight_index, 0);
}

#[test]
fn scrolling_is_bounded_by_the_text() {
    let mut state = StateHolder::default();
    let mut m = MessageHolder::new("/w".to_string(), root_snapshot());
    assert!(matches!(m.scroll(ScrollMove::Down(1)), Err(AppError::Parse(_))));
    let text = "12345\n1\n1\n";
    m.open_file(&mut state, "/w/f".to_string(), text.len() as u64, text).unwrap();
    m.scroll(ScrollMove::Down(30)).unwrap();
    assert_eq!(m.vertical_scroll, 4);
    m.scroll(ScrollMove::Up(1)).unwrap();
    assert_eq!(m.vertical_scroll, 3);
    m.scroll(ScrollMove::Up(30)).unwrap();
    assert_eq!(m.vertical_scroll, 0);
    for _ in 0..10 {
        m.scroll(ScrollMove::Right).unwrap();
    }
    assert_eq!(m.horizontal_scroll, 5);
    m.scroll(ScrollMove::Left).unwrap();
    assert_eq!(m.horizontal_scroll, 4);
    m.scroll(ScrollMove::End).unwrap();
    assert_eq!(m.vertical_scroll, 0);
    m.scroll(ScrollMove::Home).unwrap();
    assert_eq!((m.vertical_scroll, m.horizontal_scroll), (0, 0));
}

#[test]
fn state_machine_transitions_and_one_level_restore() {
    let mut s = StateHolder::default();
    assert!(s.is_edit());
    s.to_search();
    assert!(!s.is_edit());
    s.to_file_view();
    assert!(s.is_file_view());
    s.restore_previous_state();
    assert_eq!((s.input_mode, s.view_mode), (InputMode::Normal, ViewMode::Search));
    s.restore_previous_state();
    assert_eq!((s.input_mode, s.view_mode), (InputMode::Normal, ViewMode::Search));
    s.to_history_search();
    assert!(s.is_history_search());
    s.to_search_edit();
    assert_eq!((s.input_mode, s.view_mode), (InputMode::Edit, ViewMode::Search));
    s.restore_previous_state();
    assert!(s.is_history_search());
}

#[test]
fn entry_paths() {
    assert!(matches!(FileHolder::from_path("/", false), Err(AppError::Path(_))));
    assert!(matches!(FileHolder::from_path("/a/..", false), Err(AppError::Path(_))));
    let e = FileHolder::from_path("name", false).unwrap();
    assert_eq!((e.parent.as_str(), e.file_name.as_str()), ("", "name"));
    let e = FileHolder::from_path("a/b/", false).unwrap();
    assert_eq!((e.parent.as_str(), e.file_name.as_str()), ("a", "b"));
    let e = FileHolder::from_path("/a//b/./", false).unwrap();
    assert_eq!((e.parent.as_str(), e.file_name.as_str()), ("/a", "b"));
    let e = FileHolder::from_path("/a", true).unwrap();
    assert_eq!((e.parent.as_str(), e.file_name.as_str(), e.is_file), ("/", "a", true));
    let e = FileHolder::from_path("/w/src/lib.rs", true).unwrap();
    assert_eq!((e.parent.as_str(), e.file_name.as_str()), ("/w/src", "lib.rs"));
    assert_eq!(e.to_path(), "/w/src/lib.rs");
    assert_eq!(e.relative_to("/w").unwrap(), "src/lib.rs");
    assert_eq!(e.relative_to("/w/src").unwrap(), "lib.rs");
    assert_eq!(e.relative_to("/").unwrap(), "w/src/lib.rs");
    assert!(matches!(e.relative_to("/w/sr"), Err(AppError::Path(_))));
    assert!(matches!(e.relative_to("/x"), Err(AppError::Path(_))));
    assert!(matches!(e.relative_to("w"), Err(AppError::Path(_))));
    let f = FileHolder { parent: "/a".to_string(), file_name: "n".to_string(), is_file: true };
    assert_eq!(f.relative_to("/a/").unwrap(), "n");
    let g = FileHolder { parent: "/a/b/".to_string(), file_name: "n".to_string(), is_file: true };
    assert_eq!(g.relative_to("/a").unwrap(), "b/n");
    assert_eq!(g.relative_to("/a/./").unwrap(), "b/n");
}

#[test]
fn path_text_helpers() {
    assert_eq!(join_path("/", "a"), "/a");
    assert_eq!(join_path("/w", "a"), "/w/a");
    assert_eq!(split_path("/w/a"), Some(("/w".to_string(), "a".to_string())));
    assert_eq!(split_path("/w/"), Some(("/".to_string(), "w".to_string())));
    assert_eq!(split_path("/"), None);
    assert_eq!(split_path("/w/.."), None);
    assert_eq!(split_path("/w/x/."), Some(("/w".to_string(), "x".to_string())));
    assert_eq!(path_components("//a/./b//"), vec!["a".to_string(), "b".to_string()]);
    assert_eq!(strip_dir_prefix("/w/a", "/w/"), Some("a".to_string()));
    assert_eq!(strip_dir_prefix("w/a", "/w"), None);
    assert_eq!(strip_dir_prefix("/w/a/b", "/w"), Some("a/b".to_string()));
    assert_eq!(strip_dir_prefix("/w", "/w"), Some(String::new()));
    assert_eq!(strip_dir_prefix("/wa", "/w"), None);
    assert_eq!(count_separators("a/b/c"), 2);
    assert_eq!(count_separators(""), 0);
}
