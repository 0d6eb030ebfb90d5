//! Building the folder index: one node per folder with its direct count,
//! its subtree total and its sorted children.
use vstd::prelude::*;
use crate::keyed::{
    distinct, lemma_push_to_set, sort_unique, strictly_sorted, views, KeyedMap, KeyedSet,
};
use crate::path::{spec_parent, FolderPath, PathView};
use crate::totals::{
    direct_of, lemma_roll_up_step, lemma_sum_ext, lemma_sum_is_fold, lemma_sum_mono,
    lemma_sum_single, lemma_sum_split, reaches, rolled_into, subtree_total, sum_where,
};

verus! {

/// One folder of the workspace tree.
pub struct FolderNode {
    pub path: FolderPath,
    pub direct_image_count: usize,
    pub total_image_count: usize,
    pub children: Vec<FolderPath>,
}

/// The mathematical value of a [`FolderNode`].
pub struct NodeView {
    pub path: PathView,
    pub direct: nat,
    pub total: nat,
    pub children: Seq<PathView>,
}

impl View for FolderNode {
    type V = NodeView;

    open spec fn view(&self) -> NodeView {
        NodeView {
            path: self.path@,
            direct: self.direct_image_count as nat,
            total: self.total_image_count as nat,
            children: views(self.children@),
        }
    }
}

impl FolderNode {
    /// A node for `path` with no images and no children.
    pub fn new(path: FolderPath) -> (r: FolderNode)
        ensures
            r@ == (NodeView { path: path@, direct: 0, total: 0, children: Seq::empty() }),
    {
        let r = FolderNode {
            path,
            direct_image_count: 0,
            total_image_count: 0,
            children: Vec::new(),
        };
        assert(r@.children =~= Seq::<PathView>::empty());
        r
    }

    /// A copy of this node.
    pub fn duplicate(&self) -> (r: FolderNode)
        ensures
            r@ == self@,
    {
        let mut children: Vec<FolderPath> = Vec::new();
        let n = self.children.len();
        for i in 0..n
            invariant
                n == self.children@.len(),
                children@.len() == i,
                forall|j: int| 0 <= j < i ==> children@[j]@ == self.children@[j]@,
        {
            children.push(self.children[i].duplicate());
        }
        let r = FolderNode {
            path: self.path.duplicate(),
            direct_image_count: self.direct_image_count,
            total_image_count: self.total_image_count,
            children,
        };
        assert(r@.children =~= self@.children);
        r
    }
}

/// The folders of a scan: those discovered, together with the imported roots.
pub open spec fn folder_set(roots: Seq<PathView>, discovered: Set<PathView>) -> Set<PathView> {
    discovered + roots.to_set()
}

/// The folders that get a node: the scan's folders and every folder with a direct count.
pub open spec fn index_keys(
    roots: Seq<PathView>,
    discovered: Set<PathView>,
    d: Map<PathView, usize>,
) -> Set<PathView> {
    folder_set(roots, discovered) + d.dom()
}

/// The children of `f`: the scan's folders whose parent is `f`, provided `f`
/// is itself one of the scan's folders.
pub open spec fn children_within(folders: Set<PathView>, f: PathView) -> Set<PathView> {
    if folders.contains(f) {
        folders.filter(|g: PathView| spec_parent(g) == Some(f))
    } else {
        Set::empty()
    }
}

/// The nodes of an index, by their values.
pub open spec fn node_views(idx: Map<PathView, FolderNode>) -> Map<PathView, NodeView> {
    idx.map_values(|n: FolderNode| n@)
}

/// `idx` is the folder index of a scan: a node for each of its keys, holding the
/// folder's direct count, the total of its subtree and its children in order.
pub open spec fn is_folder_index(
    idx: Map<PathView, NodeView>,
    roots: Seq<PathView>,
    discovered: Set<PathView>,
    d: Map<PathView, usize>,
) -> bool {
    let folders = folder_set(roots, discovered);
    let keys = index_keys(roots, discovered, d);
    &&& idx.dom() == keys
    &&& forall|f: PathView| #[trigger]
        idx.contains_key(f) ==> {
            &&& idx[f].path == f
            &&& idx[f].direct == direct_of(d, f)
            &&& idx[f].total == subtree_total(keys, d, f)
            &&& strictly_sorted::<FolderPath>(idx[f].children)
            &&& idx[f].children.to_set() == children_within(folders, f)
        }
}

/// Every subtree total of the scan fits in a `usize`.
pub open spec fn totals_fit(
    roots: Seq<PathView>,
    discovered: Set<PathView>,
    d: Map<PathView, usize>,
) -> bool {
    forall|f: PathView| #[trigger]
        index_keys(roots, discovered, d).contains(f) ==> subtree_total(
            index_keys(roots, discovered, d),
            d,
            f,
        ) <= usize::MAX
}

/// The folders finished after the roll-up has handled every folder deeper
/// than `depth` and the first `i` folders of depth `depth`.
spec fn finished(kv: Seq<PathView>, depth: int, i: int) -> Set<PathView> {
    Set::new(
        |p: PathView|
            exists|k: int|
                0 <= k < kv.len() && kv[k] == p && (kv[k].len() > depth || (kv[k].len() == depth
                    && k < i)),
    )
}

proof fn lemma_partial_le_total(kv: Seq<PathView>, d: Map<PathView, usize>, done: Set<PathView>, h: int)
    requires
        distinct(kv),
        0 <= h < kv.len(),
        done.subset_of(kv.to_set()),
    ensures
        sum_where(kv, d, |g: PathView| rolled_into(done, g, kv[h])) <= subtree_total(
            kv.to_set(),
            d,
            kv[h],
        ),
{
    let keys = kv.to_set();
    let f = kv[h];
    assert(keys.contains(f));
    assert forall|i: int| 0 <= i < kv.len() && #[trigger] rolled_into(done, kv[i], f) implies reaches(
        keys,
        kv[i],
        f,
    ) by {
        if rolled_into(done, kv[i], f) {
            assert forall|j: int| f.len() <= j <= kv[i].len() implies #[trigger] keys.contains(
                kv[i].take(j),
            ) by {
                if j == f.len() {
                    assert(kv[i].take(j) =~= f);
                } else {
                    assert(done.contains(kv[i].take(j)));
                }
            }
        }
    }
    lemma_sum_mono(
        kv,
        d,
        |g: PathView| rolled_into(done, g, f),
        |g: PathView| reaches(keys, g, f),
    );
    lemma_sum_is_fold(kv, d, |g: PathView| reaches(keys, g, f));
}

fn find_path(kvec: &Vec<FolderPath>, p: &FolderPath) -> (r: Option<usize>)
    ensures
        match r {
            Some(q) => q < kvec@.len() && kvec@[q as int]@ == p@,
            None => forall|k: int| 0 <= k < kvec@.len() ==> kvec@[k]@ != p@,
        },
{
    let n = kvec.len();
    for k in 0..n
        invariant
            n == kvec@.len(),
            forall|j: int| 0 <= j < k ==> kvec@[j]@ != p@,
    {
        if kvec[k].same_as(p) {
            return Some(k);
        }
    }
    None
}

/// Adds the total of every folder to that of its parent, deepest folders
/// first, so that each folder ends with the total of its subtree.
fn roll_up_totals(kvec: &Vec<FolderPath>, dvals: &Vec<usize>, Ghost(d): Ghost<Map<PathView, usize>>) -> (r: Vec<usize>)
    requires
        distinct(views(kvec@)),
        dvals@.len() == kvec@.len(),
        forall|i: int| 0 <= i < kvec@.len() ==> dvals@[i] == direct_of(d, #[trigger] kvec@[i]@),
        forall|i: int|
            0 <= i < kvec@.len() ==> subtree_total(views(kvec@).to_set(), d, #[trigger] kvec@[i]@)
                <= usize::MAX,
    ensures
        r@.len() == kvec@.len(),
        forall|i: int|
            0 <= i < kvec@.len() ==> r@[i] == subtree_total(views(kvec@).to_set(), d, #[trigger] kvec@[i]@),
{
    let ghost kv = views(kvec@);
    let ghost keys = kv.to_set();
    let n = kvec.len();
    let mut max_depth: usize = 0;
    for i in 0..n
        invariant
            n == kvec@.len(),
            kv == views(kvec@),
            forall|j: int| 0 <= j < i ==> kv[j].len() <= max_depth,
    {
        if kvec[i].depth() > max_depth {
            max_depth = kvec[i].depth();
        }
    }
    let mut totals: Vec<usize> = Vec::new();
    for i in 0..n
        invariant
            n == kvec@.len(),
            dvals@.len() == n,
            totals@.len() == i,
            forall|j: int| 0 <= j < i ==> totals@[j] == dvals@[j],
    {
        totals.push(dvals[i]);
    }
    let mut depth: usize = max_depth;
    proof {
        assert forall|h: int| 0 <= h < n implies #[trigger] totals@[h] == sum_where(
            kv,
            d,
            |g: PathView| rolled_into(finished(kv, depth as int, 0), g, kv[h]),
        ) by {
            let none = finished(kv, depth as int, 0);
            assert(none =~= Set::<PathView>::empty()) by {
                assert forall|p: PathView| !none.contains(p) by {
                    if none.contains(p) {
                        let k = choose|k: int|
                            0 <= k < kv.len() && kv[k] == p && (kv[k].len() > depth || (kv[k].len()
                                == depth && k < 0));
                        assert(kv[k].len() <= max_depth);
                    }
                }
            }
            assert(dvals@[h] == direct_of(d, kvec@[h]@));
            assert(kvec@[h]@ == kv[h]);
            assert forall|i: int| 0 <= i < kv.len() implies #[trigger] rolled_into(none, kv[i], kv[h])
                == (kv[i] == kv[h]) by {
                assert(kv[h].take(kv[h].len() as int) =~= kv[h]);
                if rolled_into(none, kv[i], kv[h]) {
                    if kv[i].len() > kv[h].len() {
                        assert(none.contains(kv[i].take(kv[i].len() as int)));
                    }
                    assert(kv[i] =~= kv[i].take(kv[h].len() as int));
                }
            }
            let f = kv[h];
            lemma_sum_ext(
                kv,
                d,
                |g: PathView| rolled_into(none, g, f),
                |g: PathView| g == f,
            );
            lemma_sum_single(kv, d, f);
            assert(kv[h] == f);
            assert(kv.contains(f));
            assert(sum_where(kv, d, |g: PathView| g == f) == direct_of(d, f));
            assert(sum_where(kv, d, |g: PathView| rolled_into(none, g, kv[h])) == direct_of(d, kv[h]));
            assert(totals@[h] == dvals@[h]);
        }
    }
    loop
        invariant
            n == kvec@.len(),
            kv == views(kvec@),
            keys == kv.to_set(),
            distinct(kv),
            depth <= max_depth,
            forall|j: int| 0 <= j < n ==> kv[j].len() <= max_depth,
            totals@.len() == n,
            forall|h: int|
                0 <= h < n ==> #[trigger] totals@[h] == sum_where(
                    kv,
                    d,
                    |g: PathView| rolled_into(finished(kv, depth as int, 0), g, kv[h]),
                ),
            forall|i: int|
                0 <= i < n ==> subtree_total(keys, d, #[trigger] kvec@[i]@) <= usize::MAX,
        decreases depth,
    {
        for i in 0..n
            invariant
                n == kvec@.len(),
                kv == views(kvec@),
                keys == kv.to_set(),
                distinct(kv),
                totals@.len() == n,
                forall|h: int|
                    0 <= h < n ==> #[trigger] totals@[h] == sum_where(
                        kv,
                        d,
                        |g: PathView| rolled_into(finished(kv, depth as int, i as int), g, kv[h]),
                    ),
                forall|k: int|
                    0 <= k < n ==> subtree_total(keys, d, #[trigger] kvec@[k]@) <= usize::MAX,
        {
            let ghost done = finished(kv, depth as int, i as int);
            let ghost done2 = finished(kv, depth as int, i + 1);
            let ghost x = kv[i as int];
            assert(done2 =~= if x.len() == depth {
                done.insert(x)
            } else {
                done
            }) by {
                assert forall|p: PathView| done2.contains(p) implies (if x.len() == depth {
                    done.insert(x)
                } else {
                    done
                }).contains(p) by {
                    let k = choose|k: int|
                        0 <= k < kv.len() && kv[k] == p && (kv[k].len() > depth || (kv[k].len()
                            == depth && k < i + 1));
                    if k != i {
                        assert(done.contains(p));
                    }
                }
                if x.len() == depth {
                    assert(done2.contains(x));
                }
            }
            if kvec[i].depth() == depth {
                proof {
                    assert(!done.contains(x)) by {
                        if done.contains(x) {
                            let k = choose|k: int|
                                0 <= k < kv.len() && kv[k] == x && (kv[k].len() > depth || (
                                kv[k].len() == depth && k < i));
                            assert(k != i);
                        }
                    }
                    assert forall|p: PathView| #[trigger] done.contains(p) implies p.len() >= x.len() by {
                    }
                    assert(done.subset_of(keys)) by {
                        assert forall|p: PathView| done.contains(p) implies keys.contains(p) by {
                            let k = choose|k: int|
                                0 <= k < kv.len() && kv[k] == p && (kv[k].len() > depth || (
                                kv[k].len() == depth && k < i));
                            assert(kv.contains(p));
                        }
                    }
                    assert(done2.subset_of(keys)) by {
                        assert forall|p: PathView| done2.contains(p) implies keys.contains(p) by {
                            if p != x {
                                assert(done.contains(p));
                            }
                            assert(kv[i as int] == x);
                        }
                    }
                }
                let parent = kvec[i].parent();
                let target: Option<usize> = match &parent {
                    Some(p) => find_path(kvec, p),
                    None => None,
                };
                proof {
                    // Every other folder keeps its sum; only the parent of `x` gains the sum of `x`.
                    assert forall|h: int| #![trigger kv[h]] 0 <= h < n && target != Some(h as usize) implies sum_where(
                        kv,
                        d,
                        |g: PathView| rolled_into(done2, g, kv[h]),
                    ) == sum_where(kv, d, |g: PathView| rolled_into(done, g, kv[h])) by {
                        assert(spec_parent(x) != Some(kv[h])) by {
                            match parent {
                                Some(p) => {
                                    match target {
                                        Some(q) => {
                                            assert(kv[q as int] == p@);
                                            assert(q != h);
                                        },
                                        None => {
                                            assert(kvec@[h]@ != p@);
                                        },
                                    }
                                },
                                None => {},
                            }
                        }
                        assert forall|j: int| 0 <= j < kv.len() implies #[trigger] rolled_into(
                            done2,
                            kv[j],
                            kv[h],
                        ) == rolled_into(done, kv[j], kv[h]) by {
                            lemma_roll_up_step(done, x, kv[j], kv[h]);
                        }
                        lemma_sum_ext(
                            kv,
                            d,
                            |g: PathView| rolled_into(done2, g, kv[h]),
                            |g: PathView| rolled_into(done, g, kv[h]),
                        );
                    }
                }
                if let Some(q) = target {
                    proof {
                        let px = kv[q as int];
                        assert(spec_parent(x) == Some(px));
                        assert(q != i) by {
                            assert(px.len() < x.len());
                        }
                        assert forall|j: int| 0 <= j < kv.len() implies (#[trigger] rolled_into(
                            done2,
                            kv[j],
                            px,
                        ) == (rolled_into(done, kv[j], px) || rolled_into(done, kv[j], x))
                            && !(rolled_into(done, kv[j], px) && rolled_into(done, kv[j], x))) by {
                            lemma_roll_up_step(done, x, kv[j], px);
                        }
                        lemma_sum_split(
                            kv,
                            d,
                            |g: PathView| rolled_into(done2, g, px),
                            |g: PathView| rolled_into(done, g, px),
                            |g: PathView| rolled_into(done, g, x),
                        );
                        lemma_partial_le_total(kv, d, done2, q as int);
                        assert(kvec@[q as int]@ == px);
                    }
                    let sum = totals[q] + totals[i];
                    totals.set(q, sum);
                }
            } else {
                proof {
                    assert forall|h: int| #![trigger kv[h]] 0 <= h < n implies sum_where(
                        kv,
                        d,
                        |g: PathView| rolled_into(done2, g, kv[h]),
                    ) == sum_where(kv, d, |g: PathView| rolled_into(done, g, kv[h])) by {
                        assert(done2 == done);
                    }
                }
            }
        }
        let ghost all_done = finished(kv, depth as int, n as int);
        if depth == 0 {
            proof {
                assert(all_done =~= keys) by {
                    assert forall|p: PathView| keys.contains(p) implies all_done.contains(p) by {
                        let k = choose|k: int| 0 <= k < kv.len() && kv[k] == p;
                    }
                }
                assert forall|h: int| 0 <= h < n implies #[trigger] totals@[h] == subtree_total(
                    keys,
                    d,
                    kvec@[h]@,
                ) by {
                    let f = kv[h];
                    assert(keys.contains(f));
                    assert forall|j: int| 0 <= j < kv.len() implies #[trigger] rolled_into(
                        keys,
                        kv[j],
                        f,
                    ) == reaches(keys, kv[j], f) by {
                        assert(keys.contains(kv[j]));
                        if rolled_into(keys, kv[j], f) {
                            assert forall|jj: int| f.len() <= jj <= kv[j].len() implies #[trigger] keys.contains(
                                kv[j].take(jj),
                            ) by {
                                if jj == f.len() {
                                    assert(kv[j].take(jj) =~= f);
                                }
                            }
                        }
                    }
                    lemma_sum_ext(
                        kv,
                        d,
                        |g: PathView| rolled_into(keys, g, f),
                        |g: PathView| reaches(keys, g, f),
                    );
                    lemma_sum_is_fold(kv, d, |g: PathView| reaches(keys, g, f));
                }
            }
            return totals;
        }
        proof {
            assert(all_done =~= finished(kv, depth - 1, 0));
        }
        depth = depth - 1;
    }
}

/// The children of `f` among `folders`, in increasing order.
fn children_of(folders: &KeyedSet<FolderPath>, f: &FolderPath) -> (r: Vec<FolderPath>)
    requires
        folders.wf(),
    ensures
        strictly_sorted::<FolderPath>(views(r@)),
        views(r@).to_set() == children_within(folders@, f@),
{
    proof {
        folders.lemma_layout();
    }
    let mut found: Vec<FolderPath> = Vec::new();
    if folders.contains(f) {
        let n = folders.len();
        for j in 0..n
            invariant
                n == folders.item_seq().len(),
                folders.wf(),
                folders@ == folders.item_seq().to_set(),
                folders@.contains(f@),
                views(found@).to_set() == folders.item_seq().take(j as int).to_set().filter(
                    |g: PathView| spec_parent(g) == Some(f@),
                ),
        {
            let g = folders.item_at(j);
            let ghost before = folders.item_seq().take(j as int);
            assert(folders.item_seq().take(j + 1) =~= before.push(g@));
            proof {
                lemma_push_to_set(before, g@);
            }
            let is_child = match g.parent() {
                Some(p) => p.same_as(f),
                None => false,
            };
            if is_child {
                let ghost old_found = views(found@);
                found.push(g.duplicate());
                assert(views(found@) =~= old_found.push(g@));
                proof {
                    lemma_push_to_set(old_found, g@);
                }
                assert(views(found@).to_set() =~= before.push(g@).to_set().filter(
                    |g: PathView| spec_parent(g) == Some(f@),
                ));
            } else {
                assert(views(found@).to_set() =~= before.push(g@).to_set().filter(
                    |g: PathView| spec_parent(g) == Some(f@),
                ));
            }
        }
        assert(folders.item_seq().take(n as int) =~= folders.item_seq());
    } else {
        assert(views(found@).to_set() =~= Set::<PathView>::empty());
    }
    sort_unique(&found)
}

/// Builds the folder index of a scan: the discovered folders and the imported
/// roots, linked to their children, with direct counts and subtree totals.
pub fn build_folder_index(
    imported_roots: &[FolderPath],
    discovered_folders: KeyedSet<FolderPath>,
    direct_counts_by_folder: KeyedMap<FolderPath, usize>,
) -> (r: KeyedMap<FolderPath, FolderNode>)
    requires
        discovered_folders.wf(),
        direct_counts_by_folder.wf(),
        totals_fit(views(imported_roots@), discovered_folders@, direct_counts_by_folder@),
    ensures
        r.wf(),
        is_folder_index(
            node_views(r@),
            views(imported_roots@),
            discovered_folders@,
            direct_counts_by_folder@,
        ),
{
    let ghost roots = views(imported_roots@);
    let ghost d = direct_counts_by_folder@;
    let mut folders = discovered_folders;
    for i in 0..imported_roots.len()
        invariant
            folders.wf(),
            roots == views(imported_roots@),
            folders@ == discovered_folders@ + roots.take(i as int).to_set(),
    {
        let ghost before = roots.take(i as int);
        assert(roots.take(i + 1) =~= before.push(roots[i as int]));
        proof {
            lemma_push_to_set(before, roots[i as int]);
        }
        folders.insert(imported_roots[i].duplicate());
        assert(folders@ =~= discovered_folders@ + roots.take(i + 1).to_set());
    }
    assert(roots.take(imported_roots@.len() as int) =~= roots);
    let ghost fset = folders@;
    assert(fset == folder_set(roots, discovered_folders@));
    // Every folder with a node: the scan's folders, then those known only by a count.
    let mut keys: KeyedSet<FolderPath> = KeyedSet::new();
    proof {
        folders.lemma_layout();
        direct_counts_by_folder.lemma_layout();
    }
    let nf = folders.len();
    for i in 0..nf
        invariant
            nf == folders.item_seq().len(),
            keys.wf(),
            folders.wf(),
            folders@ == fset,
            fset == folders.item_seq().to_set(),
            keys@ == folders.item_seq().take(i as int).to_set(),
    {
        let ghost before = folders.item_seq().take(i as int);
        assert(folders.item_seq().take(i + 1) =~= before.push(folders.item_seq()[i as int]));
        proof {
            lemma_push_to_set(before, folders.item_seq()[i as int]);
        }
        keys.insert(folders.item_at(i).duplicate());
    }
    assert(folders.item_seq().take(folders.item_seq().len() as int) =~= folders.item_seq());
    let nd = direct_counts_by_folder.len();
    for i in 0..nd
        invariant
            nd == direct_counts_by_folder.key_seq().len(),
            keys.wf(),
            direct_counts_by_folder.wf(),
            d == direct_counts_by_folder@,
            d.dom() == direct_counts_by_folder.key_seq().to_set(),
            keys@ == fset + direct_counts_by_folder.key_seq().take(i as int).to_set(),
    {
        let ghost ks = direct_counts_by_folder.key_seq();
        let ghost before = ks.take(i as int);
        assert(ks.take(i + 1) =~= before.push(ks[i as int]));
        proof {
            lemma_push_to_set(before, ks[i as int]);
        }
        keys.insert(direct_counts_by_folder.key_at(i).duplicate());
        assert(keys@ =~= fset + ks.take(i + 1).to_set());
    }
    proof {
        let ks = direct_counts_by_folder.key_seq();
        assert(ks.take(ks.len() as int) =~= ks);
        assert(d.dom() =~= ks.to_set()) by {
            assert forall|k| d.dom().contains(k) implies ks.to_set().contains(k) by {
                let i = choose|i: int| 0 <= i < ks.len() && ks[i] == k;
            }
        }
        keys.lemma_layout();
    }
    let ghost all = keys@;
    assert(all == index_keys(roots, discovered_folders@, d));
    // The keys in a fixed order, with their direct counts.
    let mut kvec: Vec<FolderPath> = Vec::new();
    let mut dvals: Vec<usize> = Vec::new();
    let nk = keys.len();
    for i in 0..nk
        invariant
            nk == keys.item_seq().len(),
            keys.wf(),
            d == direct_counts_by_folder@,
            direct_counts_by_folder.wf(),
            views(kvec@) == keys.item_seq().take(i as int),
            dvals@.len() == i,
            forall|j: int| 0 <= j < i ==> dvals@[j] == direct_of(d, #[trigger] kvec@[j]@),
    {
        let k = keys.item_at(i).duplicate();
        let c: usize = match direct_counts_by_folder.get(&k) {
            Some(v) => *v,
            None => 0,
        };
        let ghost before = views(kvec@);
        let ghost kview = k@;
        kvec.push(k);
        dvals.push(c);
        assert(views(kvec@) =~= before.push(kview));
        assert(views(kvec@) =~= keys.item_seq().take(i + 1));
    }
    assert(keys.item_seq().take(nk as int) =~= keys.item_seq());
    let ghost kv = views(kvec@);
    assert(kv.to_set() == all);
    assert forall|i: int| 0 <= i < kvec@.len() implies subtree_total(
        views(kvec@).to_set(),
        d,
        #[trigger] kvec@[i]@,
    ) <= usize::MAX by {
        assert(all.contains(kv[i]));
    }
    let totals = roll_up_totals(&kvec, &dvals, Ghost(d));
    // Assemble the nodes.
    let mut index: KeyedMap<FolderPath, FolderNode> = KeyedMap::new();
    for i in 0..nk
        invariant
            nk == kvec@.len(),
            kv == views(kvec@),
            distinct(kv),
            totals@.len() == nk,
            dvals@.len() == nk,
            folders.wf(),
            folders@ == fset,
            index.wf(),
            index.key_seq() == kv.take(i as int),
            forall|j: int| 0 <= j < i ==> {
                &&& (#[trigger] index.val_seq()[j])@.path == kv[j]
                &&& index.val_seq()[j]@.direct == dvals@[j]
                &&& index.val_seq()[j]@.total == totals@[j]
                &&& strictly_sorted::<FolderPath>(index.val_seq()[j]@.children)
                &&& index.val_seq()[j]@.children.to_set() == children_within(fset, kv[j])
            },
    {
        let children = children_of(&folders, &kvec[i]);
        let node = FolderNode {
            path: kvec[i].duplicate(),
            direct_image_count: dvals[i],
            total_image_count: totals[i],
            children,
        };
        proof {
            index.lemma_layout();
            assert(!index@.contains_key(kv[i as int])) by {
                if index@.contains_key(kv[i as int]) {
                    let j = choose|j: int|
                        0 <= j < index.key_seq().len() && index.key_seq()[j] == kv[i as int];
                    assert(kv[j] == kv[i as int]);
                }
            }
        }
        index.push_new(kvec[i].duplicate(), node);
        assert(index.key_seq() =~= kv.take(i + 1));
    }
    proof {
        index.lemma_layout();
        assert(kv.take(nk as int) =~= kv);
        let nv = node_views(index@);
        assert(nv.dom() =~= all) by {
            assert forall|f| all.contains(f) implies index@.contains_key(f) by {
                let j = choose|j: int| 0 <= j < kv.len() && kv[j] == f;
                assert(index.key_seq()[j] == f);
            }
        }
        assert forall|f: PathView| #[trigger] nv.contains_key(f) implies {
            &&& nv[f].path == f
            &&& nv[f].direct == direct_of(d, f)
            &&& nv[f].total == subtree_total(all, d, f)
            &&& strictly_sorted::<FolderPath>(nv[f].children)
            &&& nv[f].children.to_set() == children_within(fset, f)
        } by {
            let j = choose|j: int| 0 <= j < index.key_seq().len() && index.key_seq()[j] == f;
            assert(index@[f] == index.val_seq()[j]);
            assert(kvec@[j]@ == f);
        }
    }
    index
}

} // verus!
