use maelstrom_desktop::keyed::{KeyedMap, KeyedSet};
use maelstrom_desktop::path::{FolderPath, PathComponent};
use maelstrom_desktop::scan::WorkspaceScanResult;
use maelstrom_desktop::workspace::{is_within_root, path_depth, WorkspaceModel};

fn p(text: &str) -> FolderPath {
    let components = std::path::Path::new(text)
        .components()
        .map(|c| match c {
            std::path::Component::Prefix(x) => {
                PathComponent::Prefix(x.as_os_str().to_string_lossy().into_owned())
            }
            std::path::Component::RootDir => PathComponent::RootDir,
            std::path::Component::CurDir => PathComponent::CurDir,
            std::path::Component::ParentDir => PathComponent::ParentDir,
            std::path::Component::Normal(x) => PathComponent::Normal(x.to_string_lossy().into_owned()),
        })
        .collect();
    FolderPath { components }
}

fn folders(paths: &[&str]) -> KeyedSet<FolderPath> {
    KeyedSet::from_vec(paths.iter().map(|s| p(s)).collect())
}

fn counts(entries: &[(&str, usize)]) -> KeyedMap<FolderPath, usize> {
    let mut m = KeyedMap::new();
    for (path, n) in entries {
        m.insert(p(path), *n);
    }
    m
}

fn keys(model: &WorkspaceModel, folder: &str) -> Vec<String> {
    model.preview_keys_for_selected_folder(&p(folder))
}

#[test]
fn aggregates_direct_and_total_counts() {
    let root = p("/photos");
    let child = p("/photos/2024");
    let grandchild = p("/photos/2024/trip");

    let all_folders = KeyedSet::from_vec(vec![root.clone(), child.clone(), grandchild.clone()]);
    let mut direct_counts = KeyedMap::new();
    direct_counts.insert(root.clone(), 1);
    direct_counts.insert(child.clone(), 2);
    direct_counts.insert(grandchild, 3);

    let mut model = WorkspaceModel::default();
    model.apply_scan(
        std::slice::from_ref(&root),
        WorkspaceScanResult::new(Vec::new(), all_folders, direct_counts),
    );

    assert_eq!(model.direct_count_for(&root), 1);
    assert_eq!(model.total_count_for(&root), 6);
    assert_eq!(model.total_count_for(&child), 5);
}

#[test]
fn keeps_preview_index_per_folder() {
    let mut model = WorkspaceModel::default();

    model.upsert_preview_key("h1".to_string(), p("/photos/a.jpg"));
    model.upsert_preview_key("h2".to_string(), p("/photos/b.jpg"));

    let keys = model.preview_keys_for_selected_folder(&p("/photos"));
    assert_eq!(keys.len(), 2);

    model.remove_preview_key("h1");
    let keys_after = model.preview_keys_for_selected_folder(&p("/photos"));
    assert_eq!(keys_after, vec!["h2".to_string()]);
}

#[test]
fn unknown_folder_has_no_counts_or_children() {
    let model = WorkspaceModel::new();
    let f = p("/nowhere");
    assert_eq!(model.total_count_for(&f), 0);
    assert_eq!(model.direct_count_for(&f), 0);
    assert!(model.children_for(&f).is_empty());
    assert!(keys(&model, "/nowhere").is_empty());
}

#[test]
fn children_are_sorted_and_totals_roll_up() {
    let root = p("/r");
    let mut model = WorkspaceModel::new();
    model.apply_scan(
        std::slice::from_ref(&root),
        WorkspaceScanResult::new(
            Vec::new(),
            folders(&["/r/b", "/r/a", "/r/a/x", "/r/c"]),
            counts(&[("/r", 1), ("/r/a", 2), ("/r/a/x", 4), ("/r/b", 8), ("/r/c", 16)]),
        ),
    );
    assert_eq!(model.children_for(&root), vec![p("/r/a"), p("/r/b"), p("/r/c")]);
    assert_eq!(model.children_for(&p("/r/a")), vec![p("/r/a/x")]);
    assert_eq!(model.total_count_for(&root), 31);
    assert_eq!(model.total_count_for(&p("/r/a")), 6);
    assert_eq!(model.direct_count_for(&p("/r/a")), 2);
    assert_eq!(model.total_count_for(&p("/r/a/x")), 4);
    // A folder never scanned is unknown.
    assert_eq!(model.total_count_for(&p("/r/d")), 0);
}

#[test]
fn folder_with_count_but_not_discovered_still_counts() {
    let root = p("/r");
    let mut model = WorkspaceModel::new();
    model.apply_scan(
        std::slice::from_ref(&root),
        WorkspaceScanResult::new(Vec::new(), folders(&[]), counts(&[("/r/a", 3)])),
    );
    assert_eq!(model.direct_count_for(&p("/r/a")), 3);
    assert_eq!(model.total_count_for(&p("/r/a")), 3);
    // `/r/a` was not among the scan's folders, so it is no child of the root,
    // yet its images roll up into the root.
    assert!(model.children_for(&root).is_empty());
    assert_eq!(model.total_count_for(&root), 3);
}

#[test]
fn scan_from_image_paths_counts_parents() {
    let root = p("/r");
    let scan = WorkspaceScanResult::from_image_paths(
        std::slice::from_ref(&root),
        vec![p("/r/a/1.jpg"), p("/r/a/2.jpg"), p("/r/3.jpg")],
    );
    let mut model = WorkspaceModel::new();
    model.apply_scan(std::slice::from_ref(&root), scan);
    assert_eq!(model.direct_count_for(&p("/r/a")), 2);
    assert_eq!(model.direct_count_for(&root), 1);
    assert_eq!(model.total_count_for(&root), 3);
    // Only folders are recorded: the image paths themselves are not.
    assert_eq!(model.children_for(&root), vec![p("/r/a")]);
    assert!(model.children_for(&p("/r/a")).is_empty());
    assert_eq!(model.total_count_for(&p("/r/a/1.jpg")), 0);
    assert_eq!(model.all_image_paths.len(), 3);
}

#[test]
fn root_scan_update_replaces_only_that_root() {
    let r1 = p("/one");
    let r2 = p("/two");
    let mut model = WorkspaceModel::new();
    model.apply_root_scan_update(
        &r1,
        WorkspaceScanResult::from_image_paths(
            std::slice::from_ref(&r1),
            vec![p("/one/a.jpg"), p("/one/x/b.jpg")],
        ),
    );
    model.apply_root_scan_update(
        &r2,
        WorkspaceScanResult::from_image_paths(std::slice::from_ref(&r2), vec![p("/two/c.jpg")]),
    );
    assert_eq!(model.root_folders, vec![r1.clone(), r2.clone()]);
    assert_eq!(model.total_count_for(&r1), 2);
    assert_eq!(model.total_count_for(&r2), 1);

    // Rescan the first root: one image left.
    model.apply_root_scan_update(
        &r1,
        WorkspaceScanResult::from_image_paths(std::slice::from_ref(&r1), vec![p("/one/a.jpg")]),
    );
    assert_eq!(model.root_folders, vec![r1.clone(), r2.clone()]);
    assert_eq!(model.total_count_for(&r1), 1);
    assert_eq!(model.total_count_for(&p("/one/x")), 0);
    assert_eq!(model.total_count_for(&r2), 1);
    assert_eq!(model.all_image_paths, vec![p("/two/c.jpg"), p("/one/a.jpg")]);
}

#[test]
fn root_scan_update_sorts_new_roots() {
    let mut model = WorkspaceModel::new();
    let rb = p("/b");
    let ra = p("/a");
    model.apply_root_scan_update(&rb, WorkspaceScanResult::from_image_paths(&[], Vec::new()));
    model.apply_root_scan_update(&ra, WorkspaceScanResult::from_image_paths(&[], Vec::new()));
    assert_eq!(model.root_folders, vec![ra, rb]);
}

#[test]
fn root_scan_update_drops_lists_of_vanished_folders() {
    let r = p("/r");
    let mut model = WorkspaceModel::new();
    model.apply_root_scan_update(
        &r,
        WorkspaceScanResult::from_image_paths(std::slice::from_ref(&r), vec![p("/r/x/a.jpg")]),
    );
    model.upsert_preview_key("k".to_string(), p("/r/x/a.jpg"));
    assert_eq!(keys(&model, "/r/x"), vec!["k".to_string()]);
    assert_eq!(keys(&model, "/r"), vec!["k".to_string()]);
    model.apply_root_scan_update(
        &r,
        WorkspaceScanResult::from_image_paths(std::slice::from_ref(&r), Vec::new()),
    );
    assert!(keys(&model, "/r/x").is_empty());
    assert_eq!(keys(&model, "/r"), vec!["k".to_string()]);
}

#[test]
fn upsert_files_key_under_every_ancestor_once() {
    let mut model = WorkspaceModel::new();
    model.upsert_preview_key("k".to_string(), p("/a/b/c.jpg"));
    model.upsert_preview_key("k".to_string(), p("/a/b/c.jpg"));
    assert_eq!(keys(&model, "/a/b"), vec!["k".to_string()]);
    assert_eq!(keys(&model, "/a"), vec!["k".to_string()]);
    assert_eq!(keys(&model, "/"), vec!["k".to_string()]);
    // The image itself is no folder of its own.
    assert!(keys(&model, "/a/b/c.jpg").is_empty());
    assert_eq!(model.preview_cache.len(), 1);
}

#[test]
fn upsert_keeps_insertion_order_per_folder() {
    let mut model = WorkspaceModel::new();
    model.upsert_preview_key("z".to_string(), p("/a/1.jpg"));
    model.upsert_preview_key("a".to_string(), p("/a/2.jpg"));
    model.upsert_preview_key("m".to_string(), p("/a/sub/3.jpg"));
    assert_eq!(keys(&model, "/a"), vec!["z".to_string(), "a".to_string(), "m".to_string()]);
    assert_eq!(keys(&model, "/a/sub"), vec!["m".to_string()]);
}

#[test]
fn remove_drops_key_everywhere_and_empty_folders() {
    let mut model = WorkspaceModel::new();
    model.upsert_preview_key("k1".to_string(), p("/a/b/1.jpg"));
    model.upsert_preview_key("k2".to_string(), p("/a/2.jpg"));
    model.remove_preview_key("k1");
    assert!(keys(&model, "/a/b").is_empty());
    assert_eq!(keys(&model, "/a"), vec!["k2".to_string()]);
    assert!(!model.preview_cache.contains_key(&"k1".to_string()));
    assert!(model.preview_cache.contains_key(&"k2".to_string()));
    // Removing a key that is not there changes nothing.
    model.remove_preview_key("missing");
    assert_eq!(keys(&model, "/a"), vec!["k2".to_string()]);
}

#[test]
fn remove_undoes_upsert_on_index() {
    let mut model = WorkspaceModel::new();
    model.upsert_preview_key("k2".to_string(), p("/a/2.jpg"));
    model.upsert_preview_key("k1".to_string(), p("/x/y/1.jpg"));
    model.remove_preview_key("k1");
    assert!(keys(&model, "/x").is_empty());
    assert!(keys(&model, "/x/y").is_empty());
    assert_eq!(keys(&model, "/a"), vec!["k2".to_string()]);
}

#[test]
fn set_previews_by_folder_groups_sorted_without_repeats() {
    let mut model = WorkspaceModel::new();
    model.set_previews_by_folder(vec![
        (p("/a"), "k3".to_string()),
        (p("/b"), "k1".to_string()),
        (p("/a"), "k1".to_string()),
        (p("/a"), "k3".to_string()),
    ]);
    assert_eq!(keys(&model, "/a"), vec!["k1".to_string(), "k3".to_string()]);
    assert_eq!(keys(&model, "/b"), vec!["k1".to_string()]);
    assert!(keys(&model, "/c").is_empty());
    // A new grouping replaces the old one.
    model.set_previews_by_folder(vec![(p("/c"), "k9".to_string())]);
    assert!(keys(&model, "/a").is_empty());
    assert_eq!(keys(&model, "/c"), vec!["k9".to_string()]);
}

#[test]
fn clear_empties_the_model() {
    let r = p("/r");
    let mut model = WorkspaceModel::new();
    model.apply_root_scan_update(
        &r,
        WorkspaceScanResult::from_image_paths(std::slice::from_ref(&r), vec![p("/r/a.jpg")]),
    );
    model.upsert_preview_key("k".to_string(), p("/r/a.jpg"));
    model.clear();
    assert!(model.root_folders.is_empty());
    assert!(model.all_image_paths.is_empty());
    assert_eq!(model.folder_index.len(), 0);
    assert_eq!(model.preview_cache.len(), 0);
    assert!(keys(&model, "/r").is_empty());
}

#[test]
fn within_root_and_depth() {
    assert!(is_within_root(&p("/a/b"), &p("/a")));
    assert!(is_within_root(&p("/a"), &p("/a")));
    assert!(!is_within_root(&p("/ab"), &p("/a")));
    assert!(!is_within_root(&p("/a"), &p("/a/b")));
    assert_eq!(path_depth(&p("/a/b")), 3);
    assert_eq!(path_depth(&p("a")), 1);
    assert_eq!(path_depth(&p("")), 0);
}

#[test]
fn scan_from_image_paths_lists_only_folders() {
    let root = p("/photos");
    let scan = WorkspaceScanResult::from_image_paths(
        std::slice::from_ref(&root),
        vec![p("/photos/2024/a.jpg"), p("/photos/b.jpg")],
    );
    assert_eq!(scan.all_image_paths, vec![p("/photos/2024/a.jpg"), p("/photos/b.jpg")]);
    assert_eq!(scan.all_folders.len(), 2);
    assert!(scan.all_folders.contains(&p("/photos")));
    assert!(scan.all_folders.contains(&p("/photos/2024")));
    assert!(!scan.all_folders.contains(&p("/photos/b.jpg")));
    assert!(!scan.all_folders.contains(&p("/photos/2024/a.jpg")));
    assert_eq!(scan.direct_counts_by_folder.len(), 2);
    assert_eq!(scan.direct_counts_by_folder.get(&p("/photos/2024")), Some(&1));
    assert_eq!(scan.direct_counts_by_folder.get(&p("/photos")), Some(&1));
}

#[test]
fn reset_to_roots_keeps_only_the_roots() {
    let r = p("/r");
    let mut model = WorkspaceModel::new();
    model.apply_root_scan_update(
        &r,
        WorkspaceScanResult::from_image_paths(std::slice::from_ref(&r), vec![p("/r/x/a.jpg")]),
    );
    model.upsert_preview_key("k".to_string(), p("/r/x/a.jpg"));
    model.reset_to_roots(vec![p("/s"), p("/t")]);
    assert_eq!(model.root_folders, vec![p("/s"), p("/t")]);
    assert!(model.all_image_paths.is_empty());
    assert_eq!(model.folder_index.len(), 0);
    assert_eq!(model.preview_cache.len(), 0);
    assert!(keys(&model, "/r").is_empty());
}

#[test]
fn same_scan_gives_same_index_whatever_came_before() {
    let r = p("/r");
    let scan = || {
        WorkspaceScanResult::from_image_paths(
            std::slice::from_ref(&r),
            vec![p("/r/a/1.jpg"), p("/r/2.jpg")],
        )
    };
    let mut fresh = WorkspaceModel::new();
    fresh.apply_scan(std::slice::from_ref(&r), scan());
    let mut used = WorkspaceModel::new();
    used.apply_scan(&[p("/q")], WorkspaceScanResult::from_image_paths(&[p("/q")], vec![p("/q/z.jpg")]));
    used.apply_scan(std::slice::from_ref(&r), scan());
    used.apply_scan(std::slice::from_ref(&r), scan());
    assert_eq!(fresh.root_folders, used.root_folders);
    assert_eq!(fresh.all_image_paths, used.all_image_paths);
    for f in ["/r", "/r/a", "/q"] {
        assert_eq!(fresh.total_count_for(&p(f)), used.total_count_for(&p(f)));
        assert_eq!(fresh.children_for(&p(f)), used.children_for(&p(f)));
    }
    // A root update on an empty model agrees with applying that scan.
    let mut updated = WorkspaceModel::new();
    updated.apply_root_scan_update(&r, scan());
    assert_eq!(updated.root_folders, fresh.root_folders);
    assert_eq!(updated.all_image_paths, fresh.all_image_paths);
    for f in ["/r", "/r/a"] {
        assert_eq!(updated.total_count_for(&p(f)), fresh.total_count_for(&p(f)));
        assert_eq!(updated.children_for(&p(f)), fresh.children_for(&p(f)));
    }
}

#[test]
fn total_rolls_up_indexed_folders_below() {
    // `/r/a` is counted but not among the scan's folders: it is no child of
    // `/r`, yet its count rolls up into `/r`.
    let root = p("/r");
    let mut model = WorkspaceModel::new();
    model.apply_scan(
        std::slice::from_ref(&root),
        WorkspaceScanResult::new(Vec::new(), folders(&["/r/b"]), counts(&[("/r/a", 3), ("/r/b", 4), ("/r", 1)])),
    );
    assert_eq!(
        model.total_count_for(&root),
        model.direct_count_for(&root) + model.total_count_for(&p("/r/a")) + model.total_count_for(&p("/r/b"))
    );
    assert_eq!(model.total_count_for(&root), 8);
    assert_eq!(model.children_for(&root), vec![p("/r/b")]);
}
