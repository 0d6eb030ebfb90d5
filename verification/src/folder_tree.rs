//! The rows of the folder navigator: which folders of an imported root are
//! shown, in which order, and what each row displays.
use vstd::prelude::*;
use crate::folder_index::{node_views, FolderNode, NodeView};
use crate::keyed::{sort_unique, strictly_sorted, views, KeyedMap, KeyedSet};
use crate::path::{spec_parent, FolderPath, PathView};
use crate::ui_state::{NavigatorState, NavigatorView};

verus! {

/// Every node lists each child once, and every child's parent is that node.
pub open spec fn is_tree(idx: Map<PathView, NodeView>) -> bool {
    forall|f: PathView| #[trigger]
        idx.contains_key(f) ==> {
            &&& idx[f].children.no_duplicates()
            &&& forall|i: int|
                0 <= i < idx[f].children.len() ==> spec_parent(#[trigger] idx[f].children[i])
                    == Some(f)
        }
}

/// Whether folder `f` is shown under `root`: the root always is, and a folder
/// below it is when its parent is shown, expanded, indexed and lists it.
pub open spec fn shown(
    idx: Map<PathView, NodeView>,
    expanded: Set<PathView>,
    root: PathView,
    f: PathView,
) -> bool
    decreases f.len(),
{
    if f == root {
        true
    } else if f.len() <= root.len() || spec_parent(f) is None {
        false
    } else {
        let p = f.drop_last();
        &&& expanded.contains(p)
        &&& idx.contains_key(p)
        &&& idx[p].children.contains(f)
        &&& shown(idx, expanded, root, p)
    }
}

/// The folders shown under `root`.
pub open spec fn shown_set(idx: Map<PathView, NodeView>, expanded: Set<PathView>, root: PathView) -> Set<
    PathView,
> {
    Set::new(|f: PathView| shown(idx, expanded, root, f))
}

/// One row of the folder tree.
#[derive(Debug)]
pub struct FolderRow {
    pub path: FolderPath,
    /// Levels below the imported root.
    pub depth: usize,
    /// The folder's total image count, zero when it is not indexed.
    pub image_count: usize,
    /// Whether the folder can be expanded.
    pub has_children: bool,
    pub is_expanded: bool,
    pub is_selected: bool,
    /// Whether the root's context menu is shown under this row.
    pub shows_context_menu: bool,
}

/// The mathematical value of a [`FolderRow`].
pub struct RowView {
    pub path: PathView,
    pub depth: nat,
    pub image_count: nat,
    pub has_children: bool,
    pub is_expanded: bool,
    pub is_selected: bool,
    pub shows_context_menu: bool,
}

impl View for FolderRow {
    type V = RowView;

    open spec fn view(&self) -> RowView {
        RowView {
            path: self.path@,
            depth: self.depth as nat,
            image_count: self.image_count as nat,
            has_children: self.has_children,
            is_expanded: self.is_expanded,
            is_selected: self.is_selected,
            shows_context_menu: self.shows_context_menu,
        }
    }
}

/// What the row of shown folder `f` under `root` displays.
pub open spec fn row_for(
    idx: Map<PathView, NodeView>,
    nav: NavigatorView,
    root: PathView,
    f: PathView,
) -> RowView {
    RowView {
        path: f,
        depth: (f.len() - root.len()) as nat,
        image_count: if idx.contains_key(f) {
            idx[f].total
        } else {
            0
        },
        has_children: idx.contains_key(f) && idx[f].children.len() > 0,
        is_expanded: nav.expanded.contains(f),
        is_selected: nav.selected == Some(f),
        shows_context_menu: f == root && nav.context_menu_open && nav.context_menu_root == Some(f),
    }
}

/// The paths of some rows.
pub open spec fn row_paths(rows: Seq<FolderRow>) -> Seq<PathView> {
    rows.map_values(|r: FolderRow| r.path@)
}

/// A shown folder is the root or lies below it.
proof fn lemma_shown_below_root(
    idx: Map<PathView, NodeView>,
    expanded: Set<PathView>,
    root: PathView,
    f: PathView,
)
    requires
        shown(idx, expanded, root, f),
    ensures
        f == root || f.len() > root.len(),
{
}

/// Whether `v` holds a path equal to `x`.
fn holds_path(v: &Vec<FolderPath>, x: &FolderPath) -> (r: bool)
    ensures
        r == views(v@).contains(x@),
{
    let n = v.len();
    for i in 0..n
        invariant
            n == v@.len(),
            forall|j: int| 0 <= j < i ==> v@[j]@ != x@,
    {
        if v[i].same_as(x) {
            assert(views(v@)[i as int] == x@);
            return true;
        }
    }
    assert forall|j: int| 0 <= j < views(v@).len() implies views(v@)[j] != x@ by {
        assert(views(v@)[j] == v@[j]@);
    }
    false
}

/// Whether folder `f` is shown under `root`.
fn is_shown(
    idx: &KeyedMap<FolderPath, FolderNode>,
    expanded: &KeyedSet<FolderPath>,
    root: &FolderPath,
    f: &FolderPath,
) -> (r: bool)
    requires
        idx.wf(),
        expanded.wf(),
    ensures
        r == shown(node_views(idx@), expanded@, root@, f@),
{
    let ghost nodes = node_views(idx@);
    let mut cur = f.duplicate();
    loop
        invariant
            idx.wf(),
            expanded.wf(),
            nodes == node_views(idx@),
            shown(nodes, expanded@, root@, f@) == shown(nodes, expanded@, root@, cur@),
        decreases cur@.len(),
    {
        if cur.same_as(root) {
            return true;
        }
        if cur.depth() <= root.depth() {
            return false;
        }
        let parent = match cur.parent() {
            Some(p) => p,
            None => {
                return false;
            },
        };
        assert(parent@ == cur@.drop_last());
        if !expanded.contains(&parent) {
            return false;
        }
        match idx.get(&parent) {
            Some(node) => {
                assert(nodes[parent@] == node@);
                if !holds_path(&node.children, &cur) {
                    return false;
                }
            },
            None => {
                return false;
            },
        }
        cur = parent;
    }
}

/// The rows of the folder tree under the imported `root`: the shown folders
/// in path order (which, for a tree-shaped index, lists each folder before
/// its children and the children in order), each with what its row displays.
pub fn folder_tree_rows(
    root: &FolderPath,
    nav: &NavigatorState,
    folder_index: &KeyedMap<FolderPath, FolderNode>,
) -> (r: Vec<FolderRow>)
    requires
        nav.wf(),
        folder_index.wf(),
    ensures
        strictly_sorted::<FolderPath>(row_paths(r@)),
        row_paths(r@).to_set() == shown_set(node_views(folder_index@), nav@.expanded, root@),
        forall|i: int|
            0 <= i < r@.len() ==> #[trigger] r@[i]@ == row_for(
                node_views(folder_index@),
                nav@,
                root@,
                r@[i].path@,
            ),
        forall|i: int|
            0 <= i < r@.len() ==> (#[trigger] r@[i]).is_selected == (nav@.selected == Some(
                r@[i].path@,
            )),
        forall|i: int|
            0 <= i < r@.len() ==> (#[trigger] r@[i]).is_expanded == nav@.expanded.contains(
                r@[i].path@,
            ),
        forall|i: int|
            0 <= i < r@.len() ==> (#[trigger] r@[i]).shows_context_menu == (r@[i].path@ == root@
                && nav@.context_menu_open && nav@.context_menu_root == Some(root@)),
        forall|i: int|
            0 <= i < r@.len() ==> (#[trigger] r@[i]).depth + root@.len() == r@[i].path@.len(),
        forall|i: int|
            0 <= i < r@.len() ==> (#[trigger] r@[i]).image_count == (if node_views(
                folder_index@,
            ).contains_key(r@[i].path@) {
                node_views(folder_index@)[r@[i].path@].total
            } else {
                0
            }),
        forall|i: int|
            0 <= i < r@.len() ==> (#[trigger] r@[i]).has_children == (node_views(
                folder_index@,
            ).contains_key(r@[i].path@) && node_views(folder_index@)[r@[i].path@].children.len()
                > 0),
{
    let ghost nodes = node_views(folder_index@);
    let ghost shown_folders = shown_set(nodes, nav@.expanded, root@);
    proof {
        folder_index.lemma_layout();
    }
    // Candidates: the root and every child listed by some node.
    let mut candidates: Vec<FolderPath> = Vec::new();
    candidates.push(root.duplicate());
    assert(views(candidates@)[0] == root@);
    let nk = folder_index.len();
    for k in 0..nk
        invariant
            nk == folder_index.key_seq().len(),
            folder_index.wf(),
            nodes == node_views(folder_index@),
            forall|j: int|
                0 <= j < nk ==> #[trigger] folder_index@.contains_key(folder_index.key_seq()[j])
                    && folder_index@[folder_index.key_seq()[j]] == folder_index.val_seq()[j],
            views(candidates@).contains(root@),
            forall|j: int, c: int|
                0 <= j < k && 0 <= c < folder_index.val_seq()[j].children@.len()
                    ==> views(candidates@).contains(
                    #[trigger] folder_index.val_seq()[j].children@[c]@,
                ),
    {
        let node = folder_index.value_at(k);
        let nc = node.children.len();
        let ghost before = views(candidates@);
        for c in 0..nc
            invariant
                nc == node.children@.len(),
                forall|x: PathView| before.contains(x) ==> views(candidates@).contains(x),
                forall|t: int| 0 <= t < c ==> views(candidates@).contains(
                    #[trigger] node.children@[t]@,
                ),
        {
            let ghost prev = views(candidates@);
            candidates.push(node.children[c].duplicate());
            assert(views(candidates@) =~= prev.push(node.children@[c as int]@));
            assert forall|x: PathView| prev.contains(x) implies views(candidates@).contains(x) by {
                let t = choose|t: int| 0 <= t < prev.len() && prev[t] == x;
                assert(views(candidates@)[t] == x);
            }
            assert(views(candidates@)[prev.len() as int] == node.children@[c as int]@);
        }
    }
    // Every shown folder is a candidate.
    assert forall|f: PathView| #[trigger] shown_folders.contains(f) implies views(
        candidates@,
    ).contains(f) by {
        if f != root@ {
            let p = f.drop_last();
            assert(nodes.contains_key(p));
            assert(folder_index@.contains_key(p));
            let j = choose|j: int| 0 <= j < nk && folder_index.key_seq()[j] == p;
            let node = folder_index.val_seq()[j];
            assert(nodes[p] == node@);
            assert(views(node.children@).contains(f));
            let c = choose|c: int| 0 <= c < views(node.children@).len() && views(node.children@)[c]
                == f;
            assert(node.children@[c]@ == f);
        }
    }
    // Keep the shown candidates.
    let mut kept: Vec<FolderPath> = Vec::new();
    let ncand = candidates.len();
    for i in 0..ncand
        invariant
            ncand == candidates@.len(),
            folder_index.wf(),
            nav.wf(),
            nodes == node_views(folder_index@),
            shown_folders == shown_set(nodes, nav@.expanded, root@),
            views(kept@).to_set() == views(candidates@.take(i as int)).to_set().filter(
                |f: PathView| shown_folders.contains(f),
            ),
    {
        let ghost before = views(candidates@.take(i as int));
        assert(views(candidates@.take(i + 1)) =~= before.push(candidates@[i as int]@));
        proof {
            crate::keyed::lemma_push_to_set(before, candidates@[i as int]@);
        }
        if is_shown(folder_index, &nav.expanded, root, &candidates[i]) {
            let ghost prev = views(kept@);
            kept.push(candidates[i].duplicate());
            assert(views(kept@) =~= prev.push(candidates@[i as int]@));
            proof {
                crate::keyed::lemma_push_to_set(prev, candidates@[i as int]@);
            }
        }
        assert(views(kept@).to_set() =~= views(candidates@.take(i + 1)).to_set().filter(
            |f: PathView| shown_folders.contains(f),
        ));
    }
    assert(candidates@.take(ncand as int) =~= candidates@);
    assert(views(kept@).to_set() =~= shown_folders) by {
        assert forall|f: PathView| shown_folders.contains(f) implies views(
            candidates@,
        ).to_set().contains(f) by {
            assert(views(candidates@).contains(f));
        }
    }
    let ordered = sort_unique(&kept);
    // One row per shown folder.
    let mut rows: Vec<FolderRow> = Vec::new();
    let nr = ordered.len();
    for i in 0..nr
        invariant
            nr == ordered@.len(),
            folder_index.wf(),
            nav.wf(),
            nodes == node_views(folder_index@),
            views(ordered@).to_set() == shown_folders,
            shown_folders == shown_set(nodes, nav@.expanded, root@),
            rows@.len() == i,
            forall|t: int| 0 <= t < i ==> #[trigger] rows@[t].path@ == ordered@[t]@,
            forall|t: int|
                0 <= t < i ==> #[trigger] rows@[t]@ == row_for(nodes, nav@, root@, rows@[t].path@),
    {
        let path = &ordered[i];
        assert(views(ordered@).to_set().contains(path@)) by {
            assert(views(ordered@)[i as int] == path@);
        }
        proof {
            lemma_shown_below_root(nodes, nav@.expanded, root@, path@);
        }
        let at_root = path.same_as(root);
        let depth = path.depth() - root.depth();
        let (image_count, has_children) = match folder_index.get(path) {
            Some(node) => {
                assert(nodes[path@] == node@);
                (node.total_image_count, node.children.len() > 0)
            },
            None => (0, false),
        };
        let is_selected = match &nav.selected {
            Some(s) => s.same_as(path),
            None => false,
        };
        let shows_context_menu = at_root && nav.context_menu_open && match &nav.context_menu_root {
            Some(m) => m.same_as(path),
            None => false,
        };
        rows.push(
            FolderRow {
                path: path.duplicate(),
                depth,
                image_count,
                has_children,
                is_expanded: nav.expanded.contains(path),
                is_selected,
                shows_context_menu,
            },
        );
    }
    assert(row_paths(rows@) =~= views(ordered@));
    assert forall|i: int| 0 <= i < rows@.len() implies (#[trigger] rows@[i]).depth + root@.len()
        == rows@[i].path@.len() by {
        assert(views(ordered@).to_set().contains(rows@[i].path@)) by {
            assert(views(ordered@)[i] == rows@[i].path@);
        }
        lemma_shown_below_root(nodes, nav@.expanded, root@, rows@[i].path@);
        assert(rows@[i]@ == row_for(nodes, nav@, root@, rows@[i].path@));
    }
    assert forall|i: int| 0 <= i < rows@.len() implies {
        &&& (#[trigger] rows@[i]).is_selected == (nav@.selected == Some(rows@[i].path@))
        &&& rows@[i].is_expanded == nav@.expanded.contains(rows@[i].path@)
        &&& rows@[i].shows_context_menu == (rows@[i].path@ == root@ && nav@.context_menu_open
            && nav@.context_menu_root == Some(root@))
        &&& rows@[i].image_count == (if nodes.contains_key(rows@[i].path@) {
            nodes[rows@[i].path@].total
        } else {
            0
        })
        &&& rows@[i].has_children == (nodes.contains_key(rows@[i].path@)
            && nodes[rows@[i].path@].children.len() > 0)
    } by {
        assert(rows@[i]@ == row_for(nodes, nav@, root@, rows@[i].path@));
    }
    rows
}

/// The roots the navigator lists: the imported folders of the catalog, or the
/// model's roots while none are known.
pub fn directory_roots(imported_dirs: &Vec<FolderPath>, root_folders: &Vec<FolderPath>) -> (r: Vec<
    FolderPath,
>)
    ensures
        views(r@) == if imported_dirs@.len() > 0 {
            views(imported_dirs@)
        } else {
            views(root_folders@)
        },
{
    let source = if imported_dirs.len() > 0 {
        imported_dirs
    } else {
        root_folders
    };
    let mut r: Vec<FolderPath> = Vec::new();
    let n = source.len();
    for i in 0..n
        invariant
            n == source@.len(),
            r@.len() == i,
            forall|j: int| 0 <= j < i ==> #[trigger] r@[j]@ == source@[j]@,
    {
        r.push(source[i].duplicate());
    }
    assert(views(r@) =~= views(source@));
    r
}

/// Whether the root's context menu is shown under its loading row.
pub fn loading_row_shows_menu(root: &FolderPath, nav: &NavigatorState) -> (r: bool)
    ensures
        r == (nav@.context_menu_open && nav@.context_menu_root == Some(root@)),
{
    nav.context_menu_open && match &nav.context_menu_root {
        Some(m) => m.same_as(root),
        None => false,
    }
}

} // verus!
