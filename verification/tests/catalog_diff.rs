use maelstrom_desktop::cache::{compare_cache_to_fs, CatalogImage};
use maelstrom_desktop::path::{FolderPath, PathComponent};

fn p(text: &str) -> FolderPath {
    let components = std::path::Path::new(text)
        .components()
        .map(|c| match c {
            std::path::Component::Prefix(x) => {
                PathComponent::Prefix(x.as_os_str().to_string_lossy().into_owned())
            }
            std::path::Component::RootDir => PathComponent::RootDir,
            std::path::Component::CurDir => PathComponent::CurDir,
            std::path::Component::ParentDir => PathComponent::ParentDir,
            std::path::Component::Normal(x) => PathComponent::Normal(x.to_string_lossy().into_owned()),
        })
        .collect();
    FolderPath { components }
}

fn img(hash: &str, path: &str) -> CatalogImage {
    CatalogImage { hash: hash.to_string(), path: path.to_string() }
}

#[test]
fn reports_new_images_and_missing_catalog_entries() {
    let folder = vec![
        (p("/r/a.jpg"), "h1".to_string()),
        (p("/r/b.jpg"), "h2".to_string()),
        (p("/r/c.jpg"), "h3".to_string()),
    ];
    let catalog = vec![img("h2", "/r/b.jpg"), img("h9", "/r/gone.jpg"), img("h1", "/r/a.jpg")];
    let (to_add, to_drop) = compare_cache_to_fs(folder, catalog);
    assert_eq!(to_add, vec![p("/r/c.jpg")]);
    assert_eq!(to_drop, vec![img("h9", "/r/gone.jpg")]);
}

#[test]
fn same_hash_twice_reports_last_path_once() {
    let folder = vec![
        (p("/r/a.jpg"), "h".to_string()),
        (p("/r/other.jpg"), "g".to_string()),
        (p("/r/copy.jpg"), "h".to_string()),
    ];
    let (to_add, to_drop) = compare_cache_to_fs(folder, Vec::new());
    assert_eq!(to_add, vec![p("/r/copy.jpg"), p("/r/other.jpg")]);
    assert!(to_drop.is_empty());
}

#[test]
fn empty_folder_drops_whole_catalog_in_order() {
    let catalog = vec![img("b", "/x/b"), img("a", "/x/a"), img("b", "/x/b2")];
    let (to_add, to_drop) = compare_cache_to_fs(Vec::new(), catalog.clone());
    assert!(to_add.is_empty());
    assert_eq!(to_drop, catalog);
}

#[test]
fn in_sync_folder_reports_nothing() {
    let folder = vec![(p("/r/a.jpg"), "h1".to_string()), (p("/r/b.jpg"), "h2".to_string())];
    let catalog = vec![img("h2", "/r/b.jpg"), img("h1", "/r/a.jpg")];
    let (to_add, to_drop) = compare_cache_to_fs(folder, catalog);
    assert!(to_add.is_empty());
    assert!(to_drop.is_empty());
}
