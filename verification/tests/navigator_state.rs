use maelstrom_desktop::path::{FolderPath, PathComponent};
use maelstrom_desktop::ui_state::{
    find_root_for_selected, left_sidebar_after_click, right_sidebar_after_click,
    right_sidebar_for_view_mode, LeftSidebarMode, NavigatorState, RightSidebarMode,
    SortingOption, ViewMode,
};

fn p(text: &str) -> FolderPath {
    let components = std::path::Path::new(text)
        .components()
        .map(|c| match c {
            std::path::Component::Prefix(x) => {
                PathComponent::Prefix(x.as_os_str().to_string_lossy().into_owned())
            }
            std::path::Component::RootDir => PathComponent::RootDir,
            std::path::Component::CurDir => PathComponent::CurDir,
            std::path::Component::ParentDir => PathComponent::ParentDir,
            std::path::Component::Normal(x) => PathComponent::Normal(x.to_string_lossy().into_owned()),
        })
        .collect();
    FolderPath { components }
}

#[test]
fn left_sidebar_click_toggles_shown_mode() {
    let (dirs, colls, hidden) =
        (LeftSidebarMode::Directories, LeftSidebarMode::Collections, LeftSidebarMode::Hidden);
    assert_eq!(left_sidebar_after_click(dirs, dirs), hidden);
    assert_eq!(left_sidebar_after_click(hidden, dirs), dirs);
    assert_eq!(left_sidebar_after_click(dirs, colls), colls);
    assert_eq!(left_sidebar_after_click(hidden, hidden), hidden);
    // Twice on the same mode from hidden comes back to hidden.
    let once = left_sidebar_after_click(hidden, colls);
    assert_eq!(left_sidebar_after_click(once, colls), hidden);
}

#[test]
fn right_sidebar_click_toggles_shown_mode() {
    let (meta, ops, hidden) =
        (RightSidebarMode::Metadata, RightSidebarMode::Operations, RightSidebarMode::Hidden);
    assert_eq!(right_sidebar_after_click(meta, meta), hidden);
    assert_eq!(right_sidebar_after_click(hidden, ops), ops);
    assert_eq!(right_sidebar_after_click(meta, ops), ops);
    let once = right_sidebar_after_click(ops, ops);
    assert_eq!(right_sidebar_after_click(once, ops), ops);
}

#[test]
fn view_mode_brings_its_right_sidebar() {
    assert_eq!(right_sidebar_for_view_mode(ViewMode::Develop), Some(RightSidebarMode::Operations));
    assert_eq!(right_sidebar_for_view_mode(ViewMode::Library), Some(RightSidebarMode::Hidden));
    assert_eq!(right_sidebar_for_view_mode(ViewMode::NoCatalog), None);
}

#[test]
fn sorting_option_label() {
    assert_eq!(SortingOption::FileName.label(), "Name");
}

#[test]
fn toggle_expands_then_collapses_and_closes_menu() {
    let mut nav = NavigatorState::new();
    nav.open_root_context_menu(p("/r"));
    assert!(nav.context_menu_open);
    nav.toggle_directory(p("/r/a"));
    assert!(nav.expanded.contains(&p("/r/a")));
    assert!(!nav.context_menu_open);
    assert_eq!(nav.context_menu_root, None);
    nav.toggle_directory(p("/r/a"));
    assert!(!nav.expanded.contains(&p("/r/a")));
    assert_eq!(nav.expanded.len(), 0);
}

#[test]
fn collapse_all_keeps_selection() {
    let mut nav = NavigatorState::new();
    nav.toggle_directory(p("/a"));
    nav.toggle_directory(p("/b"));
    let _ = nav.select_directory(p("/a"), 0);
    nav.collapse_all();
    assert_eq!(nav.expanded.len(), 0);
    assert_eq!(nav.selected, Some(p("/a")));
}

#[test]
fn select_then_reselect_clears_and_counts_requests() {
    let mut nav = NavigatorState::new();
    let first = nav.select_directory(p("/a"), 7);
    assert_eq!(first.request_seq, 8);
    assert_eq!(first.active_request_id, Some(8));
    assert_eq!(nav.selected, Some(p("/a")));

    let other = nav.select_directory(p("/b"), first.request_seq);
    assert_eq!(other.request_seq, 9);
    assert_eq!(other.active_request_id, Some(9));
    assert_eq!(nav.selected, Some(p("/b")));

    let again = nav.select_directory(p("/b"), other.request_seq);
    assert_eq!(again.request_seq, 10);
    assert_eq!(again.active_request_id, None);
    assert_eq!(nav.selected, None);
}

#[test]
fn request_counter_wraps() {
    let mut nav = NavigatorState::new();
    let r = nav.select_directory(p("/a"), u64::MAX);
    assert_eq!(r.request_seq, 0);
    assert_eq!(r.active_request_id, Some(0));
}

#[test]
fn context_menu_opens_and_closes() {
    let mut nav = NavigatorState::new();
    nav.open_root_context_menu(p("/r"));
    assert!(nav.context_menu_open);
    assert_eq!(nav.context_menu_root, Some(p("/r")));
    nav.close_root_context_menu();
    assert!(!nav.context_menu_open);
    assert_eq!(nav.context_menu_root, None);
}

#[test]
fn selection_answers_are_accepted_only_when_current() {
    let mut nav = NavigatorState::new();
    let upd = nav.select_directory(p("/a"), 0);
    let active = upd.active_request_id;
    assert!(nav.accepts_selection_result(active, 1, &p("/a")));
    assert!(!nav.accepts_selection_result(active, 2, &p("/a")));
    assert!(!nav.accepts_selection_result(active, 1, &p("/b")));
    assert!(!nav.accepts_selection_result(None, 1, &p("/a")));
}

#[test]
fn finds_deepest_root_of_selection() {
    let roots = vec![p("/photos"), p("/photos/2024"), p("/other")];
    assert_eq!(find_root_for_selected(&roots, &p("/photos/2024/trip")), Some(p("/photos/2024")));
    assert_eq!(find_root_for_selected(&roots, &p("/photos/2023")), Some(p("/photos")));
    assert_eq!(find_root_for_selected(&roots, &p("/other")), Some(p("/other")));
    assert_eq!(find_root_for_selected(&roots, &p("/elsewhere")), None);
    assert_eq!(find_root_for_selected(&[], &p("/a")), None);
}
