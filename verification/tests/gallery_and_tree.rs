use maelstrom_desktop::folder_tree::{directory_roots, folder_tree_rows, loading_row_shows_menu};
use maelstrom_desktop::gallery::{file_name, include_preview_key, sort_previews, visible_preview_keys};
use maelstrom_desktop::keyed::{KeyedMap, KeyedSet};
use maelstrom_desktop::path::{FolderPath, PathComponent};
use maelstrom_desktop::scan::WorkspaceScanResult;
use maelstrom_desktop::ui_state::{NavigatorState, SortingOption};
use maelstrom_desktop::workspace::WorkspaceModel;

fn p(text: &str) -> FolderPath {
    let components = std::path::Path::new(text)
        .components()
        .map(|c| match c {
            std::path::Component::Prefix(x) => {
                PathComponent::Prefix(x.as_os_str().to_string_lossy().into_owned())
            }
            std::path::Component::RootDir => PathComponent::RootDir,
            std::path::Component::CurDir => PathComponent::CurDir,
            std::path::Component::ParentDir => PathComponent::ParentDir,
            std::path::Component::Normal(x) => PathComponent::Normal(x.to_string_lossy().into_owned()),
        })
        .collect();
    FolderPath { components }
}

fn s(text: &str) -> String {
    text.to_string()
}

#[test]
fn file_name_of_paths() {
    assert_eq!(file_name(&p("/a/B.JPG")), "B.JPG");
    assert_eq!(file_name(&p("/")), "");
    assert_eq!(file_name(&p("/a/..")), "");
    assert_eq!(file_name(&p("")), "");
}

#[test]
fn sorts_by_lowercased_file_name_stably() {
    let mut originals = KeyedMap::new();
    originals.insert(s("k1"), p("/p/Banana.jpg"));
    originals.insert(s("k2"), p("/p/apple.jpg"));
    originals.insert(s("k3"), p("/q/banana.JPG"));
    let mut keys = vec![s("k1"), s("k2"), s("k3"), s("kx")];
    sort_previews(&mut keys, &originals, SortingOption::FileName);
    assert_eq!(keys, vec![s("kx"), s("k2"), s("k1"), s("k3")]);
    // Sorting again changes nothing.
    sort_previews(&mut keys, &originals, SortingOption::FileName);
    assert_eq!(keys, vec![s("kx"), s("k2"), s("k1"), s("k3")]);
    // Equal names keep their current order.
    let mut swapped = vec![s("k3"), s("k1")];
    sort_previews(&mut swapped, &originals, SortingOption::FileName);
    assert_eq!(swapped, vec![s("k3"), s("k1")]);
}

#[test]
fn sort_of_empty_list() {
    let originals: KeyedMap<String, FolderPath> = KeyedMap::new();
    let mut keys: Vec<String> = Vec::new();
    sort_previews(&mut keys, &originals, SortingOption::FileName);
    assert!(keys.is_empty());
}

#[test]
fn visible_keys_are_cached_keys_of_selection() {
    let mut model = WorkspaceModel::new();
    model.upsert_preview_key(s("h1"), p("/r/a.jpg"));
    model.upsert_preview_key(s("h2"), p("/r/b.jpg"));
    model.upsert_preview_key(s("h3"), p("/r/c.jpg"));
    let cached = KeyedSet::from_vec(vec![s("h3"), s("h1")]);
    assert_eq!(visible_preview_keys(&model, &Some(p("/r")), &cached), vec![s("h1"), s("h3")]);
    assert!(visible_preview_keys(&model, &None, &cached).is_empty());
    assert!(visible_preview_keys(&model, &Some(p("/other")), &cached).is_empty());
}

#[test]
fn include_key_only_once() {
    let mut keys = vec![s("a")];
    include_preview_key(&mut keys, s("b"));
    include_preview_key(&mut keys, s("a"));
    include_preview_key(&mut keys, s("b"));
    assert_eq!(keys, vec![s("a"), s("b")]);
}

fn tree_model() -> WorkspaceModel {
    let root = p("/r");
    let mut model = WorkspaceModel::new();
    let mut counts = KeyedMap::new();
    counts.insert(p("/r/a"), 2);
    counts.insert(p("/r/a/x"), 3);
    counts.insert(p("/r/b"), 5);
    model.apply_scan(
        std::slice::from_ref(&root),
        WorkspaceScanResult::new(
            Vec::new(),
            KeyedSet::from_vec(vec![p("/r/b"), p("/r/a/x"), p("/r/a")]),
            counts,
        ),
    );
    model
}

#[test]
fn collapsed_root_shows_only_its_row() {
    let model = tree_model();
    let nav = NavigatorState::new();
    let rows = folder_tree_rows(&p("/r"), &nav, &model.folder_index);
    assert_eq!(rows.len(), 1);
    assert_eq!(rows[0].path, p("/r"));
    assert_eq!(rows[0].depth, 0);
    assert_eq!(rows[0].image_count, 10);
    assert!(rows[0].has_children);
    assert!(!rows[0].is_expanded);
    assert!(!rows[0].is_selected);
    assert!(!rows[0].shows_context_menu);
}

#[test]
fn expanded_folders_list_children_in_order() {
    let model = tree_model();
    let mut nav = NavigatorState::new();
    nav.toggle_directory(p("/r"));
    let rows = folder_tree_rows(&p("/r"), &nav, &model.folder_index);
    let paths: Vec<FolderPath> = rows.iter().map(|r| r.path.clone()).collect();
    assert_eq!(paths, vec![p("/r"), p("/r/a"), p("/r/b")]);
    assert_eq!(rows[1].depth, 1);
    assert_eq!(rows[1].image_count, 5);
    assert!(rows[1].has_children);
    assert!(!rows[2].has_children);

    nav.toggle_directory(p("/r/a"));
    let _ = nav.select_directory(p("/r/b"), 0);
    nav.open_root_context_menu(p("/r"));
    let rows = folder_tree_rows(&p("/r"), &nav, &model.folder_index);
    let paths: Vec<FolderPath> = rows.iter().map(|r| r.path.clone()).collect();
    assert_eq!(paths, vec![p("/r"), p("/r/a"), p("/r/a/x"), p("/r/b")]);
    assert_eq!(rows[2].depth, 2);
    assert_eq!(rows[2].image_count, 3);
    assert!(rows[0].shows_context_menu);
    assert!(!rows[1].shows_context_menu);
    assert!(rows[3].is_selected);
    assert!(rows[1].is_expanded);
}

#[test]
fn unknown_root_gets_a_bare_row() {
    let model = WorkspaceModel::new();
    let mut nav = NavigatorState::new();
    nav.toggle_directory(p("/new"));
    let rows = folder_tree_rows(&p("/new"), &nav, &model.folder_index);
    assert_eq!(rows.len(), 1);
    assert_eq!(rows[0].image_count, 0);
    assert!(!rows[0].has_children);
    assert!(rows[0].is_expanded);
}

#[test]
fn roots_come_from_catalog_first() {
    let imported = vec![p("/x")];
    let model_roots = vec![p("/y"), p("/z")];
    assert_eq!(directory_roots(&imported, &model_roots), vec![p("/x")]);
    assert_eq!(directory_roots(&Vec::new(), &model_roots), vec![p("/y"), p("/z")]);
}

#[test]
fn loading_row_menu() {
    let mut nav = NavigatorState::new();
    assert!(!loading_row_shows_menu(&p("/r"), &nav));
    nav.open_root_context_menu(p("/r"));
    assert!(loading_row_shows_menu(&p("/r"), &nav));
    assert!(!loading_row_shows_menu(&p("/s"), &nav));
}

#[test]
fn preview_belongs_to_selection_within_it() {
    assert!(maelstrom_desktop::gallery::preview_in_selection(&Some(p("/r")), &p("/r/a/1.jpg")));
    assert!(!maelstrom_desktop::gallery::preview_in_selection(&Some(p("/r/b")), &p("/r/a/1.jpg")));
    assert!(!maelstrom_desktop::gallery::preview_in_selection(&None, &p("/r/a/1.jpg")));
}

#[test]
fn missing_marks_split_cache_and_shown() {
    let deleted = vec![s("h1"), s("h2"), s("h3")];
    let cached = KeyedSet::from_vec(vec![s("h1"), s("h3"), s("h9")]);
    let mut shown = KeyedMap::new();
    shown.insert(s("h1"), p("/r/a/1.jpg"));
    shown.insert(s("h2"), p("/other/2.jpg"));
    shown.insert(s("h3"), p("/r/3.jpg"));
    let (in_cache, in_view) =
        maelstrom_desktop::gallery::missing_preview_marks(&deleted, &cached, &shown, &p("/r"));
    assert_eq!(in_cache, vec![s("h1"), s("h3")]);
    assert_eq!(in_view, vec![s("h1"), s("h3")]);
    let (none_cached, none_shown) = maelstrom_desktop::gallery::missing_preview_marks(
        &Vec::new(),
        &cached,
        &shown,
        &p("/r"),
    );
    assert!(none_cached.is_empty() && none_shown.is_empty());
}
