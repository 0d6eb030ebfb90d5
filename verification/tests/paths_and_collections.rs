use maelstrom_desktop::keyed::{sort_unique, KeyedMap, KeyedSet};
use maelstrom_desktop::path::{FolderPath, PathComponent};

fn p(text: &str) -> FolderPath {
    let components = std::path::Path::new(text)
        .components()
        .map(|c| match c {
            std::path::Component::Prefix(x) => {
                PathComponent::Prefix(x.as_os_str().to_string_lossy().into_owned())
            }
            std::path::Component::RootDir => PathComponent::RootDir,
            std::path::Component::CurDir => PathComponent::CurDir,
            std::path::Component::ParentDir => PathComponent::ParentDir,
            std::path::Component::Normal(x) => PathComponent::Normal(x.to_string_lossy().into_owned()),
        })
        .collect();
    FolderPath { components }
}

#[test]
fn duplicate_keeps_components() {
    let q = p("/photos/./a.jpg");
    assert_eq!(q.duplicate(), q);
    assert_eq!(
        q.components,
        vec![
            PathComponent::RootDir,
            PathComponent::Normal("photos".to_string()),
            PathComponent::Normal("a.jpg".to_string()),
        ]
    );
}

#[test]
fn parent_starts_with_and_order() {
    assert_eq!(p("/a/b").parent(), Some(p("/a")));
    assert_eq!(p("/a").parent(), Some(p("/")));
    assert_eq!(p("/").parent(), None);
    assert_eq!(p("a").parent(), Some(p("")));
    assert_eq!(p("").parent(), None);
    assert!(p("/a/b").starts_with(&p("/a")));
    assert!(!p("/ab").starts_with(&p("/a")));
    assert!(p("/a").same_as(&p("/a/")));
    assert!(p("/a").precedes(&p("/a/b")));
    assert!(p("/a/b").precedes(&p("/b")));
    assert!(!p("/b").precedes(&p("/a/b")));
    assert!(!p("/a").precedes(&p("/a")));
    assert_eq!(p("/a/b/c").depth(), 4);
}

#[test]
fn sort_unique_orders_paths_and_drops_repeats() {
    let v = vec![p("/b"), p("/a/z"), p("/a"), p("/b")];
    assert_eq!(sort_unique(&v), vec![p("/a"), p("/a/z"), p("/b")]);
}

#[test]
fn keyed_map_insert_get_remove() {
    let mut m: KeyedMap<String, usize> = KeyedMap::new();
    m.insert("a".to_string(), 1);
    m.insert("b".to_string(), 2);
    m.insert("a".to_string(), 3);
    assert_eq!(m.len(), 2);
    assert_eq!(m.get(&"a".to_string()), Some(&3));
    assert_eq!(m.key_at(0), "a");
    m.remove(&"a".to_string());
    assert_eq!(m.get(&"a".to_string()), None);
    assert_eq!(m.len(), 1);
    m.clear();
    assert_eq!(m.len(), 0);
}

#[test]
fn keyed_set_keeps_each_value_once() {
    let mut s = KeyedSet::from_vec(vec!["x".to_string(), "y".to_string(), "x".to_string()]);
    assert_eq!(s.len(), 2);
    assert!(s.contains(&"y".to_string()));
    s.remove(&"y".to_string());
    assert!(!s.contains(&"y".to_string()));
    assert_eq!(s.position(&"x".to_string()), Some(0));
    let other = KeyedSet::from_vec(vec!["z".to_string(), "x".to_string()]);
    s.extend(&other);
    assert_eq!(s.len(), 2);
    assert!(s.contains(&"z".to_string()));
}
