//! The persistent workspace model: the folder tree with its counts, the list
//! of scanned images, and the preview cache with its per-folder index.
use vstd::prelude::*;
use crate::folder_index::{
    build_folder_index, is_folder_index, node_views, totals_fit, FolderNode, NodeView,
};
use crate::keyed::{
    distinct, extend_map, lemma_push_to_set, retain_keys_of, sort_unique, strictly_sorted, views,
    KeyedMap, KeyedSet, OrderedKey,
};
use crate::path::{
    is_anchor, is_ancestor_or_self, is_proper_ancestor, spec_parent, spec_starts_with, text_eq,
    FolderPath, PathView,
};
use crate::scan::lemma_ancestor_by_length;
use crate::scan::WorkspaceScanResult;

verus! {

/// Stable key of a preview (the image's content hash).
pub type PreviewKey = String;

/// Persistent workspace model that unifies the folder tree with its counts
/// and the preview cache index.
pub struct WorkspaceModel {
    pub root_folders: Vec<FolderPath>,
    pub folder_index: KeyedMap<FolderPath, FolderNode>,
    /// Stable list of all scanned images, for cache refresh diffing.
    pub all_image_paths: Vec<FolderPath>,
    /// Global preview cache: preview key to the original image path.
    pub preview_cache: KeyedMap<PreviewKey, FolderPath>,
    /// Folder to the preview keys shown for it, in order.
    pub previews_by_folder: KeyedMap<FolderPath, Vec<PreviewKey>>,
}

/// The mathematical value of a [`WorkspaceModel`].
pub struct ModelView {
    pub root_folders: Seq<PathView>,
    pub folder_index: Map<PathView, NodeView>,
    pub all_image_paths: Seq<PathView>,
    pub preview_cache: Map<Seq<char>, PathView>,
    pub previews_by_folder: Map<PathView, Seq<Seq<char>>>,
}

/// The per-folder lists by their values.
pub open spec fn list_views(m: Map<PathView, Vec<PreviewKey>>) -> Map<PathView, Seq<Seq<char>>> {
    m.map_values(|keys: Vec<PreviewKey>| views(keys@))
}

/// `keys` without `key`.
pub open spec fn drop_key(keys: Seq<Seq<char>>, key: Seq<char>) -> Seq<Seq<char>> {
    keys.filter(other_than(key))
}

/// Whether a key differs from `key`.
pub open spec fn other_than(key: Seq<char>) -> spec_fn(Seq<char>) -> bool {
    |k: Seq<char>| k != key
}

impl View for WorkspaceModel {
    type V = ModelView;

    open spec fn view(&self) -> ModelView {
        ModelView {
            root_folders: views(self.root_folders@),
            folder_index: node_views(self.folder_index@),
            all_image_paths: views(self.all_image_paths@),
            preview_cache: self.preview_cache@.map_values(|p: FolderPath| p@),
            previews_by_folder: list_views(self.previews_by_folder@),
        }
    }
}

/// The model with nothing in it.
pub open spec fn empty_model() -> ModelView {
    ModelView {
        root_folders: Seq::empty(),
        folder_index: Map::empty(),
        all_image_paths: Seq::empty(),
        preview_cache: Map::empty(),
        previews_by_folder: Map::empty(),
    }
}

/// Whether `p` lies within `root` (is `root` or below it).
pub open spec fn within_root(p: PathView, root: PathView) -> bool {
    spec_starts_with(p, root)
}

/// The root list after `root` is added: unchanged if it is already there,
/// otherwise all roots once each, in increasing order.
pub open spec fn roots_after_adding(old_roots: Seq<PathView>, root: PathView, new_roots: Seq<PathView>) -> bool {
    if old_roots.contains(root) {
        new_roots == old_roots
    } else {
        strictly_sorted::<FolderPath>(new_roots) && new_roots.to_set() == old_roots.to_set().insert(
            root,
        )
    }
}

/// The folders kept from an index outside `root`, together with a fresh scan's folders.
pub open spec fn merged_folders(
    index: Map<PathView, NodeView>,
    root: PathView,
    scanned: Set<PathView>,
) -> Set<PathView> {
    index.dom().filter(|p: PathView| !within_root(p, root)) + scanned
}

/// The direct counts kept from an index outside `root`, overridden by a fresh scan's counts.
pub open spec fn merged_direct_counts(
    index: Map<PathView, NodeView>,
    root: PathView,
    scanned: Map<PathView, usize>,
) -> Map<PathView, usize> {
    Map::new(
        |p: PathView| index.contains_key(p) && !within_root(p, root),
        |p: PathView| index[p].direct as usize,
    ).union_prefer_right(scanned)
}

/// Adds `key` at the end of `keys` unless it is already there.
pub open spec fn with_key(keys: Seq<Seq<char>>, key: Seq<char>) -> Seq<Seq<char>> {
    if keys.contains(key) {
        keys
    } else {
        keys.push(key)
    }
}

/// The per-folder index after filing `key` under every proper ancestor of `path`.
pub open spec fn filed_under_ancestors(
    previews: Map<PathView, Seq<Seq<char>>>,
    key: Seq<char>,
    path: PathView,
) -> Map<PathView, Seq<Seq<char>>> {
    Map::new(
        |f: PathView| previews.contains_key(f) || is_proper_ancestor(f, path),
        |f: PathView|
            if is_proper_ancestor(f, path) {
                with_key(if previews.contains_key(f) { previews[f] } else { Seq::empty() }, key)
            } else {
                previews[f]
            },
    )
}

/// The per-folder index after dropping `key` everywhere, and then every folder left without keys.
pub open spec fn without_key(previews: Map<PathView, Seq<Seq<char>>>, key: Seq<char>) -> Map<
    PathView,
    Seq<Seq<char>>,
> {
    Map::new(
        |f: PathView| previews.contains_key(f) && drop_key(previews[f], key).len() > 0,
        |f: PathView| drop_key(previews[f], key),
    )
}

/// The per-folder index built from `(folder, key)` entries: each folder that
/// occurs gets its keys once each, in increasing order.
pub open spec fn is_grouped_index(
    previews: Map<PathView, Seq<Seq<char>>>,
    entries: Seq<(PathView, Seq<char>)>,
) -> bool {
    &&& previews.dom() == Set::new(
        |f: PathView| exists|i: int| 0 <= i < entries.len() && entries[i].0 == f,
    )
    &&& forall|f: PathView| #[trigger]
        previews.contains_key(f) ==> {
            &&& strictly_sorted::<String>(previews[f])
            &&& previews[f].to_set() == Set::new(
                |k: Seq<char>|
                    exists|i: int| 0 <= i < entries.len() && entries[i].0 == f && entries[i].1 == k,
            )
        }
}

/// Only the set of roots matters to the totals.
proof fn lemma_totals_fit_roots(
    r1: Seq<PathView>,
    r2: Seq<PathView>,
    discovered: Set<PathView>,
    d: Map<PathView, usize>,
)
    requires
        totals_fit(r1, discovered, d),
        r1.to_set() == r2.to_set(),
    ensures
        totals_fit(r2, discovered, d),
{
    assert(crate::folder_index::index_keys(r1, discovered, d) =~= crate::folder_index::index_keys(
        r2,
        discovered,
        d,
    ));
}

/// Whether `path` is `root` or lies below it.
pub fn is_within_root(path: &FolderPath, root: &FolderPath) -> (r: bool)
    ensures
        r == within_root(path@, root@),
{
    let same = path.same_as(root);
    proof {
        if same {
            assert(path@.take(root@.len() as int) =~= root@);
        }
    }
    same || path.starts_with(root)
}

/// The number of components of `path`.
pub fn path_depth(path: &FolderPath) -> (r: usize)
    ensures
        r == path@.len(),
{
    path.depth()
}

/// Roots once each, in increasing order, after adding `root` unless it is present.
fn roots_with(roots: &Vec<FolderPath>, root: &FolderPath) -> (r: Vec<FolderPath>)
    ensures
        roots_after_adding(views(roots@), root@, views(r@)),
        views(r@).to_set() == views(roots@).push(root@).to_set(),
{
    let n = roots.len();
    let mut present = false;
    for i in 0..n
        invariant
            n == roots@.len(),
            present == exists|j: int| 0 <= j < i && roots@[j]@ == root@,
    {
        if roots[i].same_as(root) {
            present = true;
        }
    }
    proof {
        lemma_push_to_set(views(roots@), root@);
    }
    if present {
        let mut r: Vec<FolderPath> = Vec::new();
        for i in 0..n
            invariant
                n == roots@.len(),
                r@.len() == i,
                forall|j: int| 0 <= j < i ==> r@[j]@ == roots@[j]@,
        {
            r.push(roots[i].duplicate());
        }
        assert(views(r@) =~= views(roots@));
        proof {
            let j = choose|j: int| 0 <= j < n && roots@[j]@ == root@;
            assert(views(roots@)[j] == root@);
            assert(views(roots@).contains(root@));
            assert(views(roots@).to_set().insert(root@) =~= views(roots@).to_set());
        }
        r
    } else {
        let mut all: Vec<FolderPath> = Vec::new();
        for i in 0..n
            invariant
                n == roots@.len(),
                all@.len() == i,
                forall|j: int| 0 <= j < i ==> all@[j]@ == roots@[j]@,
        {
            all.push(roots[i].duplicate());
        }
        all.push(root.duplicate());
        assert(views(all@) =~= views(roots@).push(root@));
        assert(!views(roots@).contains(root@)) by {
            if views(roots@).contains(root@) {
                let j = choose|j: int| 0 <= j < n && views(roots@)[j] == root@;
                assert(roots@[j]@ == root@);
            }
        }
        sort_unique(&all)
    }
}

impl WorkspaceModel {
    /// The maps hold no repeated key.
    pub open spec fn wf(&self) -> bool {
        &&& self.folder_index.wf()
        &&& self.preview_cache.wf()
        &&& self.previews_by_folder.wf()
    }

    /// An empty model.
    pub fn new() -> (r: Self)
        ensures
            r.wf(),
            r@ == empty_model(),
    {
        let r = WorkspaceModel {
            root_folders: Vec::new(),
            folder_index: KeyedMap::new(),
            all_image_paths: Vec::new(),
            preview_cache: KeyedMap::new(),
            previews_by_folder: KeyedMap::new(),
        };
        assert(r@.root_folders =~= Seq::<PathView>::empty());
        assert(r@.all_image_paths =~= Seq::<PathView>::empty());
        assert(r@.folder_index =~= Map::<PathView, NodeView>::empty());
        assert(r@.preview_cache =~= Map::<Seq<char>, PathView>::empty());
        assert(r@.previews_by_folder =~= Map::<PathView, Seq<Seq<char>>>::empty());
        r
    }

    /// Forgets everything.
    pub fn clear(&mut self)
        requires
            old(self).wf(),
        ensures
            final(self).wf(),
            final(self)@ == empty_model(),
    {
        self.root_folders.clear();
        self.folder_index.clear();
        self.all_image_paths.clear();
        self.preview_cache.clear();
        self.previews_by_folder.clear();
        assert(self@.root_folders =~= Seq::<PathView>::empty());
        assert(self@.all_image_paths =~= Seq::<PathView>::empty());
        assert(self@.folder_index =~= Map::<PathView, NodeView>::empty());
        assert(self@.preview_cache =~= Map::<Seq<char>, PathView>::empty());
        assert(self@.previews_by_folder =~= Map::<PathView, Seq<Seq<char>>>::empty());
    }

    /// Forgets everything and takes `roots` as the root list, before their
    /// scans arrive.
    pub fn reset_to_roots(&mut self, roots: Vec<FolderPath>)
        requires
            old(self).wf(),
        ensures
            final(self).wf(),
            final(self)@ == (ModelView { root_folders: views(roots@), ..empty_model() }),
    {
        self.clear();
        self.root_folders = roots;
    }

    /// Replaces the roots, the image list and the folder tree with those of a fresh scan.
    pub fn apply_scan(&mut self, imported_roots: &[FolderPath], scan: WorkspaceScanResult)
        requires
            old(self).wf(),
            scan.wf(),
            totals_fit(
                views(imported_roots@),
                scan.all_folders@,
                scan.direct_counts_by_folder@,
            ),
        ensures
            final(self).wf(),
            final(self)@.root_folders == views(imported_roots@),
            final(self)@.all_image_paths == views(scan.all_image_paths@),
            is_folder_index(
                final(self)@.folder_index,
                views(imported_roots@),
                scan.all_folders@,
                scan.direct_counts_by_folder@,
            ),
            final(self)@.preview_cache == old(self)@.preview_cache,
            final(self)@.previews_by_folder == old(self)@.previews_by_folder,
    {
        let mut roots: Vec<FolderPath> = Vec::new();
        for i in 0..imported_roots.len()
            invariant
                roots@.len() == i,
                i <= imported_roots@.len(),
                forall|j: int| 0 <= j < i ==> roots@[j]@ == imported_roots@[j]@,
        {
            roots.push(imported_roots[i].duplicate());
        }
        assert(views(roots@) =~= views(imported_roots@));
        self.root_folders = roots;
        self.all_image_paths = scan.all_image_paths;
        self.folder_index = build_folder_index(
            imported_roots,
            scan.all_folders,
            scan.direct_counts_by_folder,
        );
    }
}

/// A copy of a list of keys.
fn copy_keys(v: &Vec<PreviewKey>) -> (r: Vec<PreviewKey>)
    ensures
        views(r@) == views(v@),
{
    let mut r: Vec<PreviewKey> = Vec::new();
    for i in 0..v.len()
        invariant
            r@.len() == i,
            i <= v@.len(),
            forall|j: int| 0 <= j < i ==> r@[j]@ == v@[j]@,
    {
        r.push(v[i].clone());
    }
    assert(views(r@) =~= views(v@));
    r
}

/// Whether `key` is in `v`.
fn has_key(v: &Vec<PreviewKey>, key: &PreviewKey) -> (r: bool)
    ensures
        r == views(v@).contains(key@),
{
    for i in 0..v.len()
        invariant
            i <= v@.len(),
            forall|j: int| 0 <= j < i ==> v@[j]@ != key@,
    {
        if text_eq(&v[i], key) {
            assert(views(v@)[i as int] == key@);
            return true;
        }
    }
    false
}

/// `filed_under_ancestors`, limited to the ancestors of at least `min_len` components.
spec fn filed_down_to(
    previews: Map<PathView, Seq<Seq<char>>>,
    key: Seq<char>,
    path: PathView,
    min_len: int,
) -> Map<PathView, Seq<Seq<char>>> {
    Map::new(
        |f: PathView|
            previews.contains_key(f) || (is_proper_ancestor(f, path) && f.len() >= min_len),
        |f: PathView|
            if is_proper_ancestor(f, path) && f.len() >= min_len {
                with_key(if previews.contains_key(f) { previews[f] } else { Seq::empty() }, key)
            } else {
                previews[f]
            },
    )
}

impl WorkspaceModel {
    /// Incrementally updates one imported root with a fresh scan of it: the
    /// root joins the root list if new; images and folders within the root
    /// are replaced by the scan's, those of other roots are kept; preview
    /// lists of folders that no longer exist are dropped.
    pub fn apply_root_scan_update(&mut self, root: &FolderPath, scan: WorkspaceScanResult)
        requires
            old(self).wf(),
            scan.wf(),
            totals_fit(
                old(self)@.root_folders.push(root@),
                merged_folders(old(self)@.folder_index, root@, scan.all_folders@),
                merged_direct_counts(
                    old(self)@.folder_index,
                    root@,
                    scan.direct_counts_by_folder@,
                ),
            ),
        ensures
            final(self).wf(),
            roots_after_adding(old(self)@.root_folders, root@, final(self)@.root_folders),
            final(self)@.all_image_paths == old(self)@.all_image_paths.filter(
                |p: PathView| !within_root(p, root@),
            ) + views(scan.all_image_paths@),
            is_folder_index(
                final(self)@.folder_index,
                final(self)@.root_folders,
                merged_folders(old(self)@.folder_index, root@, scan.all_folders@),
                merged_direct_counts(
                    old(self)@.folder_index,
                    root@,
                    scan.direct_counts_by_folder@,
                ),
            ),
            final(self)@.preview_cache == old(self)@.preview_cache,
            final(self)@.previews_by_folder == old(self)@.previews_by_folder.restrict(
                final(self)@.folder_index.dom(),
            ),
    {
        let ghost old_view = self@;
        let new_roots = roots_with(&self.root_folders, root);
        self.root_folders = new_roots;
        // Images: keep those outside the root, then add the scan's.
        let mut images: Vec<FolderPath> = Vec::new();
        let ghost old_images = views(self.all_image_paths@);
        let ni = self.all_image_paths.len();
        for i in 0..ni
            invariant
                ni == self.all_image_paths@.len(),
                old_images == views(self.all_image_paths@),
                views(images@) == old_images.take(i as int).filter(
                    |p: PathView| !within_root(p, root@),
                ),
        {
            let ghost before = old_images.take(i as int);
            assert(old_images.take(i + 1) =~= before.push(old_images[i as int]));
            assert(old_images.take(i + 1).drop_last() =~= before);
            proof {
                reveal(Seq::filter);
            }
            if !self.all_image_paths[i].starts_with(root) {
                let ghost prev = views(images@);
                images.push(self.all_image_paths[i].duplicate());
                assert(views(images@) =~= prev.push(old_images[i as int]));
            }
        }
        assert(old_images.take(ni as int) =~= old_images);
        let mut scanned = scan.all_image_paths;
        let ghost kept = views(images@);
        let ghost added = views(scanned@);
        images.append(&mut scanned);
        assert(views(images@) =~= kept + added);
        self.all_image_paths = images;
        // Folders and direct counts outside the root, then the scan's.
        let mut folders: KeyedSet<FolderPath> = KeyedSet::new();
        let mut direct: KeyedMap<FolderPath, usize> = KeyedMap::new();
        let ghost idx = old_view.folder_index;
        proof {
            self.folder_index.lemma_layout();
        }
        let nf = self.folder_index.len();
        for i in 0..nf
            invariant
                nf == self.folder_index.key_seq().len(),
                self.folder_index.wf(),
                idx == node_views(self.folder_index@),
                forall|j: int|
                    0 <= j < nf ==> #[trigger] self.folder_index@.contains_key(
                        self.folder_index.key_seq()[j],
                    ) && self.folder_index@[self.folder_index.key_seq()[j]]
                        == self.folder_index.val_seq()[j],
                folders.wf(),
                direct.wf(),
                folders@ == self.folder_index.key_seq().take(i as int).to_set().filter(
                    |p: PathView| !within_root(p, root@),
                ),
                direct@ == Map::new(
                    |p: PathView|
                        self.folder_index.key_seq().take(i as int).contains(p) && !within_root(
                            p,
                            root@,
                        ),
                    |p: PathView| idx[p].direct as usize,
                ),
        {
            let k = self.folder_index.key_at(i);
            let ghost ks = self.folder_index.key_seq();
            let ghost before = ks.take(i as int);
            assert(ks.take(i + 1) =~= before.push(ks[i as int]));
            proof {
                lemma_push_to_set(before, ks[i as int]);
            }
            if !k.starts_with(root) {
                let c = self.folder_index.value_at(i).direct_image_count;
                proof {
                    let node = self.folder_index.val_seq()[i as int];
                    assert(self.folder_index@.contains_key(self.folder_index.key_seq()[i as int]));
                    assert(self.folder_index@[ks[i as int]] == node);
                    assert(idx[k@] == node@);
                    assert(c == node.direct_image_count);
                }
                folders.insert(k.duplicate());
                direct.insert(k.duplicate(), c);
                assert(direct@ =~= Map::new(
                    |p: PathView| ks.take(i + 1).contains(p) && !within_root(p, root@),
                    |p: PathView| idx[p].direct as usize,
                )) by {
                    assert(ks.take(i + 1)[i as int] == k@);
                }
            } else {
                assert(direct@ =~= Map::new(
                    |p: PathView| ks.take(i + 1).contains(p) && !within_root(p, root@),
                    |p: PathView| idx[p].direct as usize,
                )) by {
                    assert forall|p: PathView| ks.take(i + 1).contains(p) && !within_root(p, root@)
                        implies before.contains(p) by {
                        let t = ks.take(i + 1);
                        let j = choose|j: int| 0 <= j < t.len() && t[j] == p;
                        assert(before[j] == p);
                    }
                }
            }
            assert(folders@ =~= ks.take(i + 1).to_set().filter(|p: PathView| !within_root(p, root@)));
        }
        proof {
            let ks = self.folder_index.key_seq();
            assert(ks.take(nf as int) =~= ks);
            assert(folders@ =~= idx.dom().filter(|p: PathView| !within_root(p, root@))) by {
                assert forall|p: PathView| idx.dom().contains(p) implies ks.to_set().contains(p) by {
                    self.folder_index.lemma_layout();
                }
            }
            assert(direct@ =~= Map::new(
                |p: PathView| idx.contains_key(p) && !within_root(p, root@),
                |p: PathView| idx[p].direct as usize,
            )) by {
                assert forall|p: PathView| idx.contains_key(p) implies ks.contains(p) by {
                    self.folder_index.lemma_layout();
                    let j = choose|j: int| 0 <= j < ks.len() && ks[j] == p;
                }
            }
        }
        folders.extend(&scan.all_folders);
        extend_map(&mut direct, &scan.direct_counts_by_folder);
        let ghost merged_f = merged_folders(idx, root@, scan.all_folders@);
        let ghost merged_d = merged_direct_counts(idx, root@, scan.direct_counts_by_folder@);
        assert(folders@ == merged_f);
        assert(direct@ == merged_d);
        proof {
            lemma_totals_fit_roots(
                old_view.root_folders.push(root@),
                views(self.root_folders@),
                merged_f,
                merged_d,
            );
        }
        self.folder_index = build_folder_index(self.root_folders.as_slice(), folders, direct);
        let mut previews: KeyedMap<FolderPath, Vec<PreviewKey>> = KeyedMap::new();
        std::mem::swap(&mut previews, &mut self.previews_by_folder);
        self.previews_by_folder = retain_keys_of(previews, &self.folder_index);
        proof {
            assert(self@.previews_by_folder =~= old_view.previews_by_folder.restrict(
                self@.folder_index.dom(),
            ));
        }
    }

    /// The total image count of `folder`'s subtree, zero for an unknown folder.
    pub fn total_count_for(&self, folder: &FolderPath) -> (r: usize)
        requires
            self.wf(),
        ensures
            r == if self@.folder_index.contains_key(folder@) {
                self@.folder_index[folder@].total
            } else {
                0
            },
    {
        match self.folder_index.get(folder) {
            Some(n) => n.total_image_count,
            None => 0,
        }
    }

    /// The number of images directly in `folder`, zero for an unknown folder.
    pub fn direct_count_for(&self, folder: &FolderPath) -> (r: usize)
        requires
            self.wf(),
        ensures
            r == if self@.folder_index.contains_key(folder@) {
                self@.folder_index[folder@].direct
            } else {
                0
            },
    {
        match self.folder_index.get(folder) {
            Some(n) => n.direct_image_count,
            None => 0,
        }
    }

    /// The child folders of `folder`, in order; none for an unknown folder.
    pub fn children_for(&self, folder: &FolderPath) -> (r: Vec<FolderPath>)
        requires
            self.wf(),
        ensures
            views(r@) == if self@.folder_index.contains_key(folder@) {
                self@.folder_index[folder@].children
            } else {
                Seq::empty()
            },
    {
        match self.folder_index.get(folder) {
            Some(n) => {
                let mut r: Vec<FolderPath> = Vec::new();
                for i in 0..n.children.len()
                    invariant
                        r@.len() == i,
                        i <= n.children@.len(),
                        forall|j: int| 0 <= j < i ==> r@[j]@ == n.children@[j]@,
                {
                    r.push(n.children[i].duplicate());
                }
                assert(views(r@) =~= views(n.children@));
                r
            },
            None => {
                let r: Vec<FolderPath> = Vec::new();
                assert(views(r@) =~= Seq::<PathView>::empty());
                r
            },
        }
    }
}

impl WorkspaceModel {
    /// Replaces the per-folder index with one built from `(folder, key)`
    /// entries: each folder's keys once each, in increasing order.
    pub fn set_previews_by_folder(&mut self, entries: Vec<(FolderPath, PreviewKey)>)
        requires
            old(self).wf(),
        ensures
            final(self).wf(),
            is_grouped_index(
                final(self)@.previews_by_folder,
                entries@.map_values(|e: (FolderPath, PreviewKey)| (e.0@, e.1@)),
            ),
            final(self)@.root_folders == old(self)@.root_folders,
            final(self)@.folder_index == old(self)@.folder_index,
            final(self)@.all_image_paths == old(self)@.all_image_paths,
            final(self)@.preview_cache == old(self)@.preview_cache,
    {
        let ghost es = entries@.map_values(|e: (FolderPath, PreviewKey)| (e.0@, e.1@));
        let mut groups: KeyedMap<FolderPath, Vec<PreviewKey>> = KeyedMap::new();
        let n = entries.len();
        for i in 0..n
            invariant
                n == entries@.len(),
                es == entries@.map_values(|e: (FolderPath, PreviewKey)| (e.0@, e.1@)),
                groups.wf(),
                groups@.dom() == Set::new(
                    |f: PathView| exists|j: int| 0 <= j < i && es[j].0 == f,
                ),
                forall|f: PathView| #[trigger]
                    groups@.contains_key(f) ==> views(groups@[f]@).to_set() == Set::new(
                        |k: Seq<char>| exists|j: int| 0 <= j < i && es[j].0 == f && es[j].1 == k,
                    ),
        {
            let folder = &entries[i].0;
            let key = &entries[i].1;
            assert(es[i as int] == (folder@, key@));
            let ghost g0 = groups@;
            match groups.find(folder) {
                Some(pos) => {
                    proof {
                        groups.lemma_layout();
                    }
                    let mut list = copy_keys(groups.value_at(pos));
                    let ghost l0 = views(list@);
                    list.push(key.clone());
                    assert(views(list@) =~= l0.push(key@));
                    proof {
                        lemma_push_to_set(l0, key@);
                    }
                    groups.set_value_at(pos, list);
                },
                None => {
                    let mut list: Vec<PreviewKey> = Vec::new();
                    list.push(key.clone());
                    assert(views(list@) =~= seq![key@]);
                    assert(views(list@).to_set() =~= set![key@]) by {
                        assert(views(list@)[0] == key@);
                    }
                    groups.push_new(folder.duplicate(), list);
                },
            }
            proof {
                assert(groups@.dom() =~= Set::new(
                    |f: PathView| exists|j: int| 0 <= j < i + 1 && es[j].0 == f,
                )) by {
                    assert forall|f: PathView| Set::new(
                        |f: PathView| exists|j: int| 0 <= j < i + 1 && es[j].0 == f,
                    ).contains(f) implies groups@.contains_key(f) by {
                        let j = choose|j: int| 0 <= j < i + 1 && es[j].0 == f;
                        if j < i {
                            assert(g0.contains_key(f));
                        }
                    }
                }
                assert forall|f: PathView| #[trigger] groups@.contains_key(f) implies views(
                    groups@[f]@,
                ).to_set() == Set::new(
                    |k: Seq<char>| exists|j: int| 0 <= j < i + 1 && es[j].0 == f && es[j].1 == k,
                ) by {
                    let target = Set::new(
                        |k: Seq<char>| exists|j: int| 0 <= j < i + 1 && es[j].0 == f && es[j].1 == k,
                    );
                    if f == folder@ {
                        if g0.contains_key(f) {
                            assert(views(groups@[f]@).to_set() =~= target) by {
                                assert forall|k: Seq<char>| target.contains(k) implies views(
                                    groups@[f]@,
                                ).to_set().contains(k) by {
                                    let j = choose|j: int|
                                        0 <= j < i + 1 && es[j].0 == f && es[j].1 == k;
                                    if j < i {
                                        assert(views(g0[f]@).to_set().contains(k));
                                    }
                                }
                            }
                        } else {
                            assert(views(groups@[f]@).to_set() =~= target) by {
                                assert forall|k: Seq<char>| target.contains(k) implies k == key@ by {
                                    let j = choose|j: int|
                                        0 <= j < i + 1 && es[j].0 == f && es[j].1 == k;
                                    if j < i {
                                        assert(g0.dom().contains(f));
                                    }
                                }
                            }
                        }
                    } else {
                        assert(g0.contains_key(f));
                        assert(views(groups@[f]@).to_set() =~= target);
                    }
                }
            }
        }
        // Sort every list, dropping repeats.
        proof {
            groups.lemma_layout();
        }
        let mut sorted: KeyedMap<FolderPath, Vec<PreviewKey>> = KeyedMap::new();
        let ng = groups.len();
        for j in 0..ng
            invariant
                ng == groups.key_seq().len(),
                groups.wf(),
                distinct(groups.key_seq()),
                forall|k: int|
                    0 <= k < ng ==> #[trigger] groups@.contains_key(groups.key_seq()[k])
                        && groups@[groups.key_seq()[k]] == groups.val_seq()[k],
                sorted.wf(),
                sorted.key_seq() == groups.key_seq().take(j as int),
                forall|k: int|
                    0 <= k < j ==> #[trigger] sorted.val_seq()[k] == sorted.val_seq()[k]
                        && strictly_sorted::<String>(views(sorted.val_seq()[k]@)) && views(
                        sorted.val_seq()[k]@,
                    ).to_set() == views(groups.val_seq()[k]@).to_set(),
        {
            let list = sort_unique(groups.value_at(j));
            proof {
                sorted.lemma_layout();
                assert(!sorted@.contains_key(groups.key_seq()[j as int])) by {
                    if sorted@.contains_key(groups.key_seq()[j as int]) {
                        let k = choose|k: int|
                            0 <= k < sorted.key_seq().len() && sorted.key_seq()[k]
                                == groups.key_seq()[j as int];
                        assert(groups.key_seq()[k] == groups.key_seq()[j as int]);
                    }
                }
            }
            sorted.push_new(groups.key_at(j).duplicate(), list);
            assert(sorted.key_seq() =~= groups.key_seq().take(j + 1));
        }
        proof {
            sorted.lemma_layout();
            assert(groups.key_seq().take(ng as int) =~= groups.key_seq());
            let pv = list_views(sorted@);
            assert(pv.dom() =~= groups@.dom()) by {
                assert forall|f: PathView| groups@.contains_key(f) implies sorted@.contains_key(f) by {
                    let k = choose|k: int| 0 <= k < ng && groups.key_seq()[k] == f;
                    assert(sorted.key_seq()[k] == f);
                }
                assert forall|f: PathView| sorted@.contains_key(f) implies groups@.contains_key(f) by {
                    let k = choose|k: int| 0 <= k < ng && sorted.key_seq()[k] == f;
                }
            }
            assert(pv.dom() =~= Set::new(
                |f: PathView| exists|i: int| 0 <= i < es.len() && es[i].0 == f,
            ));
            assert forall|f: PathView| #[trigger] pv.contains_key(f) implies {
                &&& strictly_sorted::<String>(pv[f])
                &&& pv[f].to_set() == Set::new(
                    |k: Seq<char>| exists|i: int| 0 <= i < es.len() && es[i].0 == f && es[i].1 == k,
                )
            } by {
                let k = choose|k: int| 0 <= k < ng && sorted.key_seq()[k] == f;
                assert(sorted@[f] == sorted.val_seq()[k]);
                assert(groups.key_seq()[k] == f);
                assert(groups@[f] == groups.val_seq()[k]);
            }
        }
        self.previews_by_folder = sorted;
    }

    /// Records `key` in the preview cache for `original_path`, and files it
    /// under every folder above that path (at the end of each folder's list,
    /// unless the folder lists it already).
    pub fn upsert_preview_key(&mut self, key: PreviewKey, original_path: FolderPath)
        requires
            old(self).wf(),
        ensures
            final(self).wf(),
            final(self)@.preview_cache == old(self)@.preview_cache.insert(key@, original_path@),
            final(self)@.previews_by_folder == filed_under_ancestors(
                old(self)@.previews_by_folder,
                key@,
                original_path@,
            ),
            final(self)@.root_folders == old(self)@.root_folders,
            final(self)@.folder_index == old(self)@.folder_index,
            final(self)@.all_image_paths == old(self)@.all_image_paths,
    {
        let ghost old_view = self@;
        let ghost path = original_path@;
        let ghost kv = key@;
        let ghost prev = old_view.previews_by_folder;
        self.preview_cache.insert(key.clone(), original_path.duplicate());
        assert(self@.preview_cache =~= old_view.preview_cache.insert(kv, path));
        let mut current = original_path.parent();
        assert(prev =~= filed_down_to(prev, kv, path, path.len() as int));
        proof {
            if let Some(ref c) = current {
                assert(c@ =~= path.take(c@.len() as int));
                assert(is_proper_ancestor(c@, path));
            }
        }
        loop
            invariant_except_break
                match current {
                    Some(c) => is_proper_ancestor(c@, path) && list_views(
                        self.previews_by_folder@,
                    ) == filed_down_to(prev, kv, path, c@.len() + 1int),
                    None => list_views(self.previews_by_folder@) == filed_down_to(prev, kv, path, 0),
                },
            invariant
                self.previews_by_folder.wf(),
                self.preview_cache.wf(),
                self.folder_index.wf(),
                self@.preview_cache == old_view.preview_cache.insert(kv, path),
                self@.root_folders == old_view.root_folders,
                self@.folder_index == old_view.folder_index,
                self@.all_image_paths == old_view.all_image_paths,
                prev == old_view.previews_by_folder,
                path == original_path@,
                kv == key@,
            ensures
                list_views(self.previews_by_folder@) == filed_down_to(prev, kv, path, 0),
            decreases
                match current {
                    Some(c) => c@.len() + 1,
                    None => 0,
                },
        {
            match current {
                None => {
                    break;
                },
                Some(anc) => {
                    let ghost c = anc@;
                    let ghost m0 = list_views(self.previews_by_folder@);
                    let ghost filed = with_key(
                        if m0.contains_key(c) {
                            m0[c]
                        } else {
                            Seq::empty()
                        },
                        kv,
                    );
                    match self.previews_by_folder.find(&anc) {
                        Some(pos) => {
                            proof {
                                self.previews_by_folder.lemma_layout();
                            }
                            let list = self.previews_by_folder.value_at(pos);
                            assert(m0.contains_key(c));
                            assert(m0[c] == views(list@));
                            if !has_key(list, &key) {
                                let mut grown = copy_keys(list);
                                grown.push(key.clone());
                                assert(views(grown@) =~= views(list@).push(kv));
                                self.previews_by_folder.set_value_at(pos, grown);
                                assert(list_views(self.previews_by_folder@) =~= m0.insert(c, filed));
                            } else {
                                assert(m0.insert(c, filed) =~= m0);
                            }
                        },
                        None => {
                            let mut fresh: Vec<PreviewKey> = Vec::new();
                            fresh.push(key.clone());
                            assert(views(fresh@) =~= Seq::<Seq<char>>::empty().push(kv));
                            self.previews_by_folder.push_new(anc.duplicate(), fresh);
                            assert(!m0.contains_key(c));
                            assert(list_views(self.previews_by_folder@) =~= m0.insert(c, filed));
                        },
                    }
                    assert(list_views(self.previews_by_folder@) == m0.insert(c, filed));
                    proof {
                        assert(m0.contains_key(c) == prev.contains_key(c));
                        if prev.contains_key(c) {
                            assert(m0[c] == prev[c]);
                        }
                        assert(list_views(self.previews_by_folder@) =~= filed_down_to(
                            prev,
                            kv,
                            path,
                            c.len() as int,
                        )) by {
                            assert forall|f: PathView| #[trigger]
                                is_proper_ancestor(f, path) && f.len() == c.len() implies f == c by {
                                lemma_ancestor_by_length(f, c, path);
                            }
                            assert(m0.contains_key(c) == prev.contains_key(c));
                        }
                    }
                    let next = anc.parent();
                    proof {
                        match next {
                            Some(ref p) => {
                                assert(c =~= path.take(c.len() as int));
                                assert(p@ =~= path.take(p@.len() as int));
                                assert(c[c.len() - 1] == path[c.len() - 1]);
                                assert(is_proper_ancestor(p@, path));
                            },
                            None => {
                                assert(filed_down_to(prev, kv, path, c.len() as int) =~= filed_down_to(
                                    prev,
                                    kv,
                                    path,
                                    0,
                                )) by {
                                    assert forall|f: PathView| #[trigger]
                                        is_proper_ancestor(f, path) implies f.len() >= c.len() by {
                                        if f.len() < c.len() {
                                            assert(c =~= path.take(c.len() as int));
                                            assert(!is_anchor(path[c.len() - 1]));
                                            assert(path[c.len() - 1] == c.last());
                                        }
                                    }
                                }
                            },
                        }
                    }
                    current = next;
                },
            }
        }
        assert(filed_down_to(prev, kv, path, 0) =~= filed_under_ancestors(prev, kv, path));
    }

    /// Drops `key` from the preview cache and from every folder's list;
    /// folders left without keys are dropped.
    pub fn remove_preview_key(&mut self, key: &str)
        requires
            old(self).wf(),
        ensures
            final(self).wf(),
            final(self)@.preview_cache == old(self)@.preview_cache.remove(key@),
            final(self)@.previews_by_folder == without_key(old(self)@.previews_by_folder, key@),
            final(self)@.root_folders == old(self)@.root_folders,
            final(self)@.folder_index == old(self)@.folder_index,
            final(self)@.all_image_paths == old(self)@.all_image_paths,
    {
        let ghost old_view = self@;
        let ghost prev = old_view.previews_by_folder;
        let key: PreviewKey = key.to_owned();
        let ghost kv = key@;
        self.preview_cache.remove(&key);
        assert(self@.preview_cache =~= old_view.preview_cache.remove(kv));
        let mut lists: KeyedMap<FolderPath, Vec<PreviewKey>> = KeyedMap::new();
        std::mem::swap(&mut lists, &mut self.previews_by_folder);
        proof {
            lists.lemma_layout();
        }
        let ghost ks = lists.key_seq();
        let ghost vs = lists.val_seq();
        let n = lists.len();
        let (mut keys, mut vals) = lists.into_parts();
        let mut kept: KeyedMap<FolderPath, Vec<PreviewKey>> = KeyedMap::new();
        let mut i: usize = 0;
        while i < n
            invariant
                n == ks.len(),
                ks.len() == vs.len(),
                distinct(ks),
                i <= n,
                views(keys@) == ks.skip(i as int),
                vals@ == vs.skip(i as int),
                forall|j: int|
                    0 <= j < ks.len() ==> prev.contains_key(#[trigger] ks[j]) && prev[ks[j]] == views(
                        vs[j]@,
                    ),
                forall|f: PathView| prev.contains_key(f) ==> ks.contains(f),
                kv == key@,
                kept.wf(),
                list_views(kept@) == without_key(prev, kv).restrict(ks.take(i as int).to_set()),
            decreases n - i,
        {
            assert(views(keys@)[0] == ks[i as int]);
            assert(keys@.len() == views(keys@).len());
            let ghost kview = views(keys@);
            let folder = keys.remove(0);
            let list = vals.remove(0);
            assert(folder@ == ks[i as int]);
            assert(list == vs[i as int]);
            assert(views(keys@) =~= kview.drop_first());
            assert(views(keys@) =~= ks.skip(i + 1));
            assert(vals@ =~= vs.skip(i + 1));
            let ghost before = ks.take(i as int);
            assert(ks.take(i + 1) =~= before.push(ks[i as int]));
            proof {
                lemma_push_to_set(before, ks[i as int]);
                kept.lemma_layout();
            }
            let mut rest: Vec<PreviewKey> = Vec::new();
            for j in 0..list.len()
                invariant
                    j <= list@.len(),
                    kv == key@,
                    views(rest@) == drop_key(views(list@).take(j as int), kv),
            {
                proof {
                    reveal(Seq::filter);
                }
                let ghost before_j = views(list@).take(j as int);
                assert(views(list@).take(j + 1) =~= before_j.push(views(list@)[j as int]));
                assert(views(list@).take(j + 1).drop_last() =~= before_j);
                if !text_eq(&list[j], &key) {
                    let ghost r0 = views(rest@);
                    rest.push(list[j].clone());
                    assert(views(rest@) =~= r0.push(views(list@)[j as int]));
                }
            }
            assert(views(list@).take(list@.len() as int) =~= views(list@));
            if rest.len() > 0 {
                assert(!kept@.contains_key(folder@)) by {
                    if kept@.contains_key(folder@) {
                        let j = choose|j: int|
                            0 <= j < kept.key_seq().len() && kept.key_seq()[j] == folder@;
                        assert(list_views(kept@).contains_key(folder@));
                        let jj = choose|jj: int| 0 <= jj < before.len() && before[jj] == folder@;
                        assert(ks[jj] == ks[i as int]);
                    }
                }
                let ghost rv = views(rest@);
                let ghost lv0 = list_views(kept@);
                let ghost fv = folder@;
                kept.push_new(folder, rest);
                proof {
                    assert(prev.contains_key(ks[i as int]));
                    assert(prev[fv] == views(list@));
                    assert(without_key(prev, kv).contains_key(fv));
                    assert(without_key(prev, kv)[fv] == rv);
                    assert(list_views(kept@) =~= lv0.insert(fv, rv));
                    assert(list_views(kept@) =~= without_key(prev, kv).restrict(ks.take(i + 1).to_set()));
                }
            } else {
                proof {
                    assert(prev.contains_key(ks[i as int]));
                    assert(prev[folder@] == views(list@));
                    assert(!without_key(prev, kv).contains_key(folder@));
                    assert(list_views(kept@) =~= without_key(prev, kv).restrict(ks.take(i + 1).to_set()));
                }
            }
            i = i + 1;
        }
        proof {
            assert(ks.take(n as int) =~= ks);
            assert(without_key(prev, kv).restrict(ks.to_set()) =~= without_key(prev, kv));
        }
        self.previews_by_folder = kept;
    }

    /// The preview keys filed under `folder`, in order; none for an unknown folder.
    pub fn preview_keys_for_selected_folder(&self, folder: &FolderPath) -> (r: Vec<PreviewKey>)
        requires
            self.wf(),
        ensures
            views(r@) == if self@.previews_by_folder.contains_key(folder@) {
                self@.previews_by_folder[folder@]
            } else {
                Seq::empty()
            },
    {
        match self.previews_by_folder.get(folder) {
            Some(list) => copy_keys(list),
            None => {
                let r: Vec<PreviewKey> = Vec::new();
                assert(views(r@) =~= Seq::<Seq<char>>::empty());
                r
            },
        }
    }
}

impl Default for WorkspaceModel {
    fn default() -> (r: Self)
        ensures
            r.wf(),
            r@ == empty_model(),
    {
        WorkspaceModel::new()
    }
}

} // verus!
