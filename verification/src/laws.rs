//! Properties of the library that span several calls or every state.
use vstd::prelude::*;
use crate::cache::{
    catalog_hashes, first_seen, hash_index, missing_images, unlisted_paths, CatalogImage,
};
use crate::folder_index::{children_within, folder_set, index_keys, is_folder_index, NodeView};
use crate::folder_tree::{is_tree, row_for, shown};
use crate::gallery::{is_stable_order, ranked_before, RankedKey};
use crate::keyed::{
    distinct, lemma_push_to_set, lemma_sorted_distinct, lemma_sorted_unique, OrderedKey,
};
use crate::scan::{ancestors_within_roots, lemma_ancestor_by_length};
use crate::path::{
    is_anchor, is_proper_ancestor, lemma_between_within, lemma_prefix_precedes, path_lt,
    spec_parent, spec_starts_with, FolderPath, PathView,
};
use crate::totals::{
    add_direct, direct_of, lemma_sum_is_fold, lemma_sum_single, lemma_sum_split, reaches,
    subtree_total, sum_where,
};
use crate::ui_state::{
    left_mode_after, right_mode_after, selection_after_click, toggled, LeftSidebarMode,
    RightSidebarMode,
};
use crate::workspace::{
    drop_key, filed_under_ancestors, merged_direct_counts, merged_folders, other_than,
    roots_after_adding, with_key, within_root, without_key, WorkspaceModel,
};

verus! {

/// In a folder index built from a scan, every folder's total count is at
/// least the number of images directly in it.
pub proof fn law_total_covers_direct(
    m: WorkspaceModel,
    roots: Seq<PathView>,
    discovered: Set<PathView>,
    d: Map<PathView, usize>,
    f: PathView,
)
    requires
        m.wf(),
        is_folder_index(m@.folder_index, roots, discovered, d),
        m@.folder_index.contains_key(f),
    ensures
        m@.folder_index[f].direct <= m@.folder_index[f].total,
{
    m.folder_index.lemma_layout();
    let keys = index_keys(roots, discovered, d);
    assert(m@.folder_index.dom() =~= m.folder_index@.dom());
    assert(keys.finite());
    let below = keys.filter(|g: PathView| reaches(keys, g, f));
    assert(below.contains(f)) by {
        assert(f.take(f.len() as int) =~= f);
    }
    let rest = below.remove(f);
    assert(below =~= rest.insert(f));
    vstd::set::fold::lemma_fold_insert(rest, 0nat, add_direct(d), f);
    assert(subtree_total(keys, d, f) == rest.fold(0nat, add_direct(d)) + direct_of(d, f));
}

/// Filing a key under the folders above an image lists it in every one of them.
pub proof fn law_upserted_key_listed_above(
    previews: Map<PathView, Seq<Seq<char>>>,
    key: Seq<char>,
    path: PathView,
    folder: PathView,
)
    requires
        is_proper_ancestor(folder, path),
    ensures
        filed_under_ancestors(previews, key, path).contains_key(folder),
        filed_under_ancestors(previews, key, path)[folder].contains(key),
{
    let keys = if previews.contains_key(folder) {
        previews[folder]
    } else {
        Seq::empty()
    };
    if !keys.contains(key) {
        assert(keys.push(key)[keys.len() as int] == key);
    }
}

/// Filing the same key for the same image twice changes nothing the second time.
pub proof fn law_upsert_idempotent(
    previews: Map<PathView, Seq<Seq<char>>>,
    key: Seq<char>,
    path: PathView,
)
    ensures
        filed_under_ancestors(filed_under_ancestors(previews, key, path), key, path)
            == filed_under_ancestors(previews, key, path),
{
    let once = filed_under_ancestors(previews, key, path);
    let twice = filed_under_ancestors(once, key, path);
    assert forall|f: PathView| #[trigger] twice.contains_key(f) implies twice[f] == once[f] by {
        if is_proper_ancestor(f, path) {
            law_upserted_key_listed_above(previews, key, path, f);
        }
    }
    assert(twice =~= once);
}

/// After a key is dropped, no folder lists it and every folder left lists something.
pub proof fn law_removed_key_unlisted(
    previews: Map<PathView, Seq<Seq<char>>>,
    key: Seq<char>,
    folder: PathView,
)
    requires
        without_key(previews, key).contains_key(folder),
    ensures
        !without_key(previews, key)[folder].contains(key),
        without_key(previews, key)[folder].len() > 0,
{
    let kept = drop_key(previews[folder], key);
    if kept.contains(key) {
        let i = choose|i: int| 0 <= i < kept.len() && kept[i] == key;
        previews[folder].lemma_filter_pred(other_than(key), i);
    }
}

/// Dropping a key from a list that had it added at the end gives what
/// dropping it from the list alone gives.
proof fn lemma_drop_after_with(keys: Seq<Seq<char>>, key: Seq<char>)
    ensures
        drop_key(with_key(keys, key), key) == drop_key(keys, key),
{
    if !keys.contains(key) {
        keys.lemma_filter_push(key, other_than(key));
    }
}

/// Dropping a key undoes filing it: the per-folder index after filing a key
/// for an image and then dropping it is the index with the key dropped.
pub proof fn law_remove_undoes_upsert(
    previews: Map<PathView, Seq<Seq<char>>>,
    key: Seq<char>,
    path: PathView,
)
    ensures
        without_key(filed_under_ancestors(previews, key, path), key) == without_key(previews, key),
{
    let filed = filed_under_ancestors(previews, key, path);
    assert forall|f: PathView| filed.contains_key(f) implies #[trigger] drop_key(filed[f], key)
        == (if previews.contains_key(f) {
        drop_key(previews[f], key)
    } else {
        Seq::empty()
    }) by {
        if is_proper_ancestor(f, path) {
            let base = if previews.contains_key(f) {
                previews[f]
            } else {
                Seq::empty()
            };
            lemma_drop_after_with(base, key);
            if !previews.contains_key(f) {
                reveal(Seq::filter);
                assert(base.filter(other_than(key)) =~= Seq::<Seq<char>>::empty());
            }
        }
    }
    assert(without_key(filed, key) =~= without_key(previews, key));
}

/// Dropping a key from the preview cache undoes recording it.
pub proof fn law_cache_remove_undoes_insert(
    cache: Map<Seq<char>, PathView>,
    key: Seq<char>,
    path: PathView,
)
    ensures
        cache.insert(key, path).remove(key) == cache.remove(key),
{
    assert(cache.insert(key, path).remove(key) =~= cache.remove(key));
}

/// Clicking the arrow of a folder twice leaves the expanded folders as they were.
pub proof fn law_toggle_twice_restores(expanded: Set<PathView>, path: PathView)
    ensures
        toggled(toggled(expanded, path), path) == expanded,
{
    if expanded.contains(path) {
        assert(expanded.remove(path).insert(path) =~= expanded);
    } else {
        assert(expanded.insert(path).remove(path) =~= expanded);
    }
}

/// Clicking a folder selects it, and clicking it again clears the selection.
pub proof fn law_select_twice_clears(selected: Option<PathView>, path: PathView)
    ensures
        selected != Some(path) ==> selection_after_click(selected, path) == Some(path),
        selected != Some(path) ==> selection_after_click(selection_after_click(selected, path), path)
            == None::<PathView>,
        selection_after_click(Some(path), path) == None::<PathView>,
{
}

/// Clicking a sidebar mode twice: from hidden it shows and hides again; from
/// that mode shown it hides and shows again; from another mode it switches
/// and then hides.
pub proof fn law_left_click_twice(current: LeftSidebarMode, clicked: LeftSidebarMode)
    requires
        clicked != LeftSidebarMode::Hidden,
    ensures
        left_mode_after(left_mode_after(current, clicked), clicked) == if current == clicked {
            clicked
        } else {
            LeftSidebarMode::Hidden
        },
{
}

/// The right sidebar follows the same rule as the left one.
pub proof fn law_right_click_twice(current: RightSidebarMode, clicked: RightSidebarMode)
    requires
        clicked != RightSidebarMode::Hidden,
    ensures
        right_mode_after(right_mode_after(current, clicked), clicked) == if current == clicked {
            clicked
        } else {
            RightSidebarMode::Hidden
        },
{
}

/// Every hash listed first-seen is a hash of the index.
proof fn lemma_first_seen_indexed(images: Seq<(PathView, Seq<char>)>)
    ensures
        forall|i: int|
            0 <= i < first_seen(images).len() ==> hash_index(images).contains_key(
                #[trigger] first_seen(images)[i],
            ),
    decreases images.len(),
{
    if images.len() > 0 {
        let rest = images.drop_last();
        lemma_first_seen_indexed(rest);
        let before = first_seen(rest);
        assert forall|i: int| 0 <= i < first_seen(images).len() implies hash_index(
            images,
        ).contains_key(#[trigger] first_seen(images)[i]) by {
            if i < before.len() {
                assert(first_seen(images)[i] == before[i]);
                assert(hash_index(rest).contains_key(before[i]));
            }
        }
    }
}

/// With every hash listed, nothing is unlisted.
proof fn lemma_unlisted_empty(
    hashes: Seq<Seq<char>>,
    listed: Set<Seq<char>>,
    index: Map<Seq<char>, PathView>,
)
    requires
        forall|i: int| 0 <= i < hashes.len() ==> listed.contains(#[trigger] hashes[i]),
    ensures
        unlisted_paths(hashes, listed, index) == Seq::<PathView>::empty(),
    decreases hashes.len(),
{
    if hashes.len() > 0 {
        let h = hashes.drop_last();
        assert forall|i: int| 0 <= i < h.len() implies listed.contains(#[trigger] h[i]) by {
            assert(h[i] == hashes[i]);
        }
        lemma_unlisted_empty(h, listed, index);
        assert(listed.contains(hashes[hashes.len() - 1]));
    }
}

/// With every catalog hash present, nothing is missing.
proof fn lemma_missing_empty(catalog: Seq<CatalogImage>, present: Set<Seq<char>>)
    requires
        forall|i: int| 0 <= i < catalog.len() ==> present.contains(#[trigger] catalog[i].hash@),
    ensures
        missing_images(catalog, present) == Seq::<CatalogImage>::empty(),
    decreases catalog.len(),
{
    if catalog.len() > 0 {
        let c = catalog.drop_last();
        assert forall|i: int| 0 <= i < c.len() implies present.contains(#[trigger] c[i].hash@) by {
            assert(c[i] == catalog[i]);
        }
        lemma_missing_empty(c, present);
        assert(present.contains(catalog[catalog.len() - 1].hash@));
    }
}

/// A folder whose images have exactly the hashes of the catalog has nothing
/// to add to the catalog and nothing to drop from it.
pub proof fn law_in_sync_no_difference(
    images: Seq<(PathView, Seq<char>)>,
    catalog: Seq<CatalogImage>,
)
    requires
        hash_index(images).dom() == catalog_hashes(catalog),
    ensures
        unlisted_paths(first_seen(images), catalog_hashes(catalog), hash_index(images))
            == Seq::<PathView>::empty(),
        missing_images(catalog, hash_index(images).dom()) == Seq::<CatalogImage>::empty(),
{
    lemma_first_seen_indexed(images);
    lemma_unlisted_empty(first_seen(images), catalog_hashes(catalog), hash_index(images));
    assert forall|i: int| 0 <= i < catalog.len() implies hash_index(images).dom().contains(
        #[trigger] catalog[i].hash@,
    ) by {
        assert(catalog_hashes(catalog).contains(catalog[i].hash@));
    }
    lemma_missing_empty(catalog, hash_index(images).dom());
}

/// The catalog images reported missing are exactly those whose hash is absent.
pub proof fn law_missing_images_absent(catalog: Seq<CatalogImage>, present: Set<Seq<char>>)
    ensures
        forall|i: int|
            0 <= i < missing_images(catalog, present).len() ==> !present.contains(
                #[trigger] missing_images(catalog, present)[i].hash@,
            ),
        forall|i: int|
            0 <= i < catalog.len() && !present.contains(#[trigger] catalog[i].hash@)
                ==> missing_images(catalog, present).contains(catalog[i]),
    decreases catalog.len(),
{
    if catalog.len() > 0 {
        let c = catalog.drop_last();
        law_missing_images_absent(c, present);
        let before = missing_images(c, present);
        assert forall|i: int|
            0 <= i < catalog.len() && !present.contains(#[trigger] catalog[i].hash@)
                implies missing_images(catalog, present).contains(catalog[i]) by {
            if i < catalog.len() - 1 {
                assert(c[i] == catalog[i]);
                let j = choose|j: int| 0 <= j < before.len() && before[j] == c[i];
                if !present.contains(catalog.last().hash@) {
                    assert(before.push(catalog.last())[j] == catalog[i]);
                }
            } else {
                assert(before.push(catalog.last())[before.len() as int] == catalog[i]);
            }
        }
    }
}

/// A folder index built from a scan is a tree: each node lists each child
/// once, and each child's parent is that node.
pub proof fn law_folder_index_is_tree(
    idx: Map<PathView, NodeView>,
    roots: Seq<PathView>,
    discovered: Set<PathView>,
    d: Map<PathView, usize>,
)
    requires
        is_folder_index(idx, roots, discovered, d),
    ensures
        is_tree(idx),
{
    assert forall|f: PathView| #[trigger] idx.contains_key(f) implies {
        &&& idx[f].children.no_duplicates()
        &&& forall|i: int|
            0 <= i < idx[f].children.len() ==> spec_parent(#[trigger] idx[f].children[i]) == Some(f)
    } by {
        let ch = idx[f].children;
        assert forall|i: int, j: int| 0 <= i < ch.len() && 0 <= j < ch.len() && i != j implies ch[i]
            != ch[j] by {
            if ch[i] == ch[j] {
                FolderPath::lemma_lt_irreflexive(ch[i]);
                if i < j {
                    assert(FolderPath::key_lt(ch[i], ch[j]));
                } else {
                    assert(FolderPath::key_lt(ch[j], ch[i]));
                }
            }
        }
        assert forall|i: int| 0 <= i < ch.len() implies spec_parent(#[trigger] ch[i]) == Some(f) by {
            assert(ch.to_set().contains(ch[i]));
            assert(children_within(folder_set(roots, discovered), f).contains(ch[i]));
        }
    }
}

/// Every folder shown under a root lies within that root.
pub proof fn law_shown_within_root(
    idx: Map<PathView, NodeView>,
    expanded: Set<PathView>,
    root: PathView,
    f: PathView,
)
    requires
        shown(idx, expanded, root, f),
    ensures
        spec_starts_with(f, root),
    decreases f.len(),
{
    if f == root {
        assert(f.take(root.len() as int) =~= root);
    } else {
        let p = f.drop_last();
        law_shown_within_root(idx, expanded, root, p);
        assert(f.take(root.len() as int) =~= p.take(root.len() as int));
    }
}

/// The (text, position) pairs an order visits.
spec fn visited_pairs(texts: Seq<Seq<char>>, order: Seq<usize>) -> Seq<(Seq<char>, usize)> {
    order.map_values(|i: usize| (texts[i as int], i))
}

/// A stable sort by text has a single outcome.
pub proof fn law_stable_order_unique(texts: Seq<Seq<char>>, o1: Seq<usize>, o2: Seq<usize>)
    requires
        is_stable_order(texts, o1),
        is_stable_order(texts, o2),
    ensures
        o1 == o2,
{
    let p1 = visited_pairs(texts, o1);
    let p2 = visited_pairs(texts, o2);
    assert forall|a: int, b: int| 0 <= a < b < p1.len() implies RankedKey::key_lt(
        #[trigger] p1[a],
        #[trigger] p1[b],
    ) by {
        assert(ranked_before((texts[o1[a] as int], o1[a]), (texts[o1[b] as int], o1[b])));
    }
    assert forall|a: int, b: int| 0 <= a < b < p2.len() implies RankedKey::key_lt(
        #[trigger] p2[a],
        #[trigger] p2[b],
    ) by {
        assert(ranked_before((texts[o2[a] as int], o2[a]), (texts[o2[b] as int], o2[b])));
    }
    assert forall|x: (Seq<char>, usize)| p1.to_set().contains(x) implies p2.to_set().contains(x) by {
        let a = choose|a: int| 0 <= a < p1.len() && p1[a] == x;
        assert(o1[a] < texts.len());
        assert(o2.contains(o1[a]));
        let b = choose|b: int| 0 <= b < o2.len() && o2[b] == o1[a];
        assert(p2[b] == x);
    }
    assert forall|x: (Seq<char>, usize)| p2.to_set().contains(x) implies p1.to_set().contains(x) by {
        let b = choose|b: int| 0 <= b < p2.len() && p2[b] == x;
        assert(o2[b] < texts.len());
        assert(o1.contains(o2[b]));
        let a = choose|a: int| 0 <= a < o1.len() && o1[a] == o2[b];
        assert(p1[a] == x);
    }
    assert(p1.to_set() =~= p2.to_set());
    lemma_sorted_unique::<RankedKey>(p1, p2);
    assert forall|i: int| 0 <= i < o1.len() implies o1[i] == o2[i] by {
        assert(p1[i].1 == p2[i].1);
    }
    assert(o1 =~= o2);
}

/// Sorting a list whose texts are already in order leaves it as it is.
pub proof fn law_sorted_list_stays(texts: Seq<Seq<char>>, order: Seq<usize>)
    requires
        is_stable_order(texts, order),
        texts.len() <= usize::MAX + 1,
        forall|i: int, j: int| 0 <= i < j < texts.len() ==> !String::key_lt(texts[j], texts[i]),
    ensures
        order == Seq::new(texts.len(), |i: int| i as usize),
{
    let id = Seq::new(texts.len(), |i: int| i as usize);
    assert(id.no_duplicates());
    assert forall|i: usize| i < texts.len() implies #[trigger] id.contains(i) by {
        assert(id[i as int] == i);
    }
    assert forall|a: int, b: int| 0 <= a < b < id.len() implies ranked_before(
        (texts[#[trigger] id[a] as int], id[a]),
        (texts[#[trigger] id[b] as int], id[b]),
    ) by {
        if texts[a] != texts[b] {
            String::lemma_lt_total(texts[a], texts[b]);
        }
    }
    assert(is_stable_order(texts, id));
    law_stable_order_unique(texts, order, id);
}

/// The sum of the totals of folders `cs` in the index.
pub open spec fn totals_of(idx: Map<PathView, NodeView>, cs: Seq<PathView>) -> nat
    decreases cs.len(),
{
    if cs.len() == 0 {
        0
    } else {
        totals_of(idx, cs.drop_last()) + idx[cs.last()].total
    }
}

/// A finite set listed without repeats.
proof fn lemma_listing(s: Set<PathView>) -> (ks: Seq<PathView>)
    requires
        s.finite(),
    ensures
        distinct(ks),
        ks.to_set() == s,
    decreases s.len(),
{
    if s.len() == 0 {
        assert(s =~= Set::<PathView>::empty());
        let ks = Seq::<PathView>::empty();
        assert(ks.to_set() =~= s);
        ks
    } else {
        let x = s.choose();
        let rest = lemma_listing(s.remove(x));
        let ks = rest.push(x);
        lemma_push_to_set(rest, x);
        assert(s.remove(x).insert(x) =~= s);
        assert forall|i: int, j: int| 0 <= i < ks.len() && 0 <= j < ks.len() && i != j implies ks[i]
            != ks[j] by {
            if i == rest.len() as int {
                assert(rest.to_set().contains(ks[j]));
            } else if j == rest.len() as int {
                assert(rest.to_set().contains(ks[i]));
            } else {
                assert(ks[i] == rest[i] && ks[j] == rest[j]);
            }
        }
        ks
    }
}

/// Whether `g` rolls up into one of the first `k` folders of `cs`.
spec fn in_first(keys: Set<PathView>, cs: Seq<PathView>, k: int) -> spec_fn(PathView) -> bool {
    |g: PathView| exists|i: int| 0 <= i < k && #[trigger] reaches(keys, g, cs[i])
}

/// Whether `g` rolls up into `f`.
spec fn rolls_into(keys: Set<PathView>, f: PathView) -> spec_fn(PathView) -> bool {
    |g: PathView| reaches(keys, g, f)
}

/// `cs` lists, once each, the indexed folders whose parent is `f`.
pub open spec fn lists_indexed_children(keys: Set<PathView>, f: PathView, cs: Seq<PathView>) -> bool {
    &&& cs.no_duplicates()
    &&& forall|c: PathView| #[trigger] cs.contains(c) <==> (keys.contains(c) && spec_parent(c) == Some(f))
}

/// The indexed folders whose parent is `f` split what rolls up into `f`.
proof fn lemma_rolls_into_listed(keys: Set<PathView>, f: PathView, cs: Seq<PathView>, g: PathView)
    requires
        keys.contains(f),
        lists_indexed_children(keys, f, cs),
    ensures
        reaches(keys, g, f) == (g == f || in_first(keys, cs, cs.len() as int)(g)),
        !(g == f && in_first(keys, cs, cs.len() as int)(g)),
{
    if g == f {
        assert(f.take(f.len() as int) =~= f);
        assert(reaches(keys, g, f));
    }
    if reaches(keys, g, f) && g != f {
        assert(g.len() > f.len()) by {
            if g.len() == f.len() {
                assert(g =~= g.take(f.len() as int));
            }
        }
        let c = g.take(f.len() as int + 1);
        assert(keys.contains(c));
        assert(c.drop_last() =~= f);
        assert(c.last() == g[f.len() as int]);
        assert(spec_parent(c) == Some(f));
        assert(cs.contains(c));
        let i = choose|i: int| 0 <= i < cs.len() && cs[i] == c;
        assert(reaches(keys, g, cs[i])) by {
            assert(g.take(c.len() as int) =~= c);
            assert forall|j: int| c.len() <= j <= g.len() implies #[trigger] keys.contains(
                g.take(j),
            ) by {
                assert(f.len() <= j);
            }
        }
        assert(in_first(keys, cs, cs.len() as int)(g));
    }
    if in_first(keys, cs, cs.len() as int)(g) {
        let i = choose|i: int| 0 <= i < cs.len() && #[trigger] reaches(keys, g, cs[i]);
        let c = cs[i];
        assert(cs.contains(c));
        assert(spec_parent(c) == Some(f));
        assert(c.drop_last() == f);
        assert(c.len() == f.len() + 1);
        assert(g != f);
        assert(reaches(keys, g, f)) by {
            assert(g.take(f.len() as int) =~= c.take(f.len() as int));
            assert(c.take(f.len() as int) =~= f);
            assert(g[f.len() as int] == c.last());
            assert forall|k: int| f.len() <= k < g.len() implies !is_anchor(#[trigger] g[k]) by {
                if k == f.len() {
                    assert(!is_anchor(c.last()));
                }
            }
            assert forall|j: int| f.len() <= j <= g.len() implies #[trigger] keys.contains(
                g.take(j),
            ) by {
                if j == f.len() {
                    assert(g.take(j) =~= f);
                }
            }
        }
    }
}

/// Summing over the first `k` listed children adds up their totals.
proof fn lemma_sum_listed(
    idx: Map<PathView, NodeView>,
    roots: Seq<PathView>,
    discovered: Set<PathView>,
    d: Map<PathView, usize>,
    f: PathView,
    cs: Seq<PathView>,
    ks: Seq<PathView>,
    k: int,
)
    requires
        is_folder_index(idx, roots, discovered, d),
        lists_indexed_children(index_keys(roots, discovered, d), f, cs),
        distinct(ks),
        ks.to_set() == index_keys(roots, discovered, d),
        0 <= k <= cs.len(),
    ensures
        sum_where(ks, d, in_first(index_keys(roots, discovered, d), cs, k)) == totals_of(
            idx,
            cs.take(k),
        ),
    decreases k,
{
    let keys = index_keys(roots, discovered, d);
    if k == 0 {
        assert forall|i: int| 0 <= i < ks.len() implies in_first(keys, cs, 0)(#[trigger] ks[i])
            == (|g: PathView| false)(ks[i]) by {}
        crate::totals::lemma_sum_ext(ks, d, in_first(keys, cs, 0), |g: PathView| false);
        lemma_sum_none(ks, d);
        assert(cs.take(0) =~= Seq::<PathView>::empty());
    } else {
        lemma_sum_listed(idx, roots, discovered, d, f, cs, ks, k - 1);
        let c = cs[k - 1];
        assert(cs.contains(c));
        assert(keys.contains(c));
        assert forall|i: int| 0 <= i < ks.len() implies (in_first(keys, cs, k)(#[trigger] ks[i]) == (
        in_first(keys, cs, k - 1)(ks[i]) || rolls_into(keys, c)(ks[i])) && !(in_first(
            keys,
            cs,
            k - 1,
        )(ks[i]) && rolls_into(keys, c)(ks[i]))) by {
            let g = ks[i];
            if in_first(keys, cs, k - 1)(g) && rolls_into(keys, c)(g) {
                let j = choose|j: int| 0 <= j < k - 1 && #[trigger] reaches(keys, g, cs[j]);
                assert(cs.contains(cs[j]));
                assert(spec_parent(cs[j]) == Some(f));
                assert(spec_parent(c) == Some(f));
                assert(cs[j].drop_last() == f);
                assert(c.drop_last() == f);
                assert(cs[j].len() > 0 && c.len() > 0);
                assert(cs[j].drop_last().len() == cs[j].len() - 1);
                assert(c.drop_last().len() == c.len() - 1);
                assert(cs[j].len() == c.len());
                lemma_ancestor_by_length(cs[j], c, g);
            }
            if in_first(keys, cs, k)(g) {
                let j = choose|j: int| 0 <= j < k && #[trigger] reaches(keys, g, cs[j]);
                if j < k - 1 {
                    assert(in_first(keys, cs, k - 1)(g));
                }
            }
            if in_first(keys, cs, k - 1)(g) {
                let j = choose|j: int| 0 <= j < k - 1 && #[trigger] reaches(keys, g, cs[j]);
                assert(in_first(keys, cs, k)(g));
            }
            if rolls_into(keys, c)(g) {
                assert(reaches(keys, g, cs[k - 1]));
                assert(in_first(keys, cs, k)(g));
            }
        }
        lemma_sum_split(ks, d, in_first(keys, cs, k), in_first(keys, cs, k - 1), rolls_into(keys, c));
        lemma_sum_is_fold(ks, d, rolls_into(keys, c));
        assert(keys.filter(rolls_into(keys, c)) =~= keys.filter(|g: PathView| reaches(keys, g, c)));
        assert(idx.contains_key(c));
        assert(cs.take(k).drop_last() =~= cs.take(k - 1));
        assert(cs.take(k).last() == c);
    }
}

/// Nothing is summed when nothing is selected.
proof fn lemma_sum_none(ks: Seq<PathView>, d: Map<PathView, usize>)
    ensures
        sum_where(ks, d, |g: PathView| false) == 0,
    decreases ks.len(),
{
    if ks.len() > 0 {
        lemma_sum_none(ks.drop_last(), d);
    }
}

/// Every folder's total is its direct count plus the totals of the indexed
/// folders whose parent it is (`cs` lists them, once each, in any order).
pub proof fn law_total_rolls_up(
    idx: Map<PathView, NodeView>,
    roots: Seq<PathView>,
    discovered: Set<PathView>,
    d: Map<PathView, usize>,
    f: PathView,
    cs: Seq<PathView>,
)
    requires
        is_folder_index(idx, roots, discovered, d),
        discovered.finite(),
        d.dom().finite(),
        idx.contains_key(f),
        lists_indexed_children(index_keys(roots, discovered, d), f, cs),
    ensures
        idx[f].total == idx[f].direct + totals_of(idx, cs),
{
    let keys = index_keys(roots, discovered, d);
    vstd::seq_lib::seq_to_set_is_finite(roots);
    let ks = lemma_listing(keys);
    // Split what rolls up into `f`: `f` itself, and what rolls into a listed child.
    assert forall|i: int| 0 <= i < ks.len() implies (rolls_into(keys, f)(#[trigger] ks[i]) == (
    (|g: PathView| g == f)(ks[i]) || in_first(keys, cs, cs.len() as int)(ks[i])) && !((
    |g: PathView| g == f)(ks[i]) && in_first(keys, cs, cs.len() as int)(ks[i]))) by {
        lemma_rolls_into_listed(keys, f, cs, ks[i]);
    }
    lemma_sum_split(
        ks,
        d,
        rolls_into(keys, f),
        |g: PathView| g == f,
        in_first(keys, cs, cs.len() as int),
    );
    lemma_sum_single(ks, d, f);
    assert(ks.to_set().contains(f));
    assert(ks.contains(f));
    lemma_sum_listed(idx, roots, discovered, d, f, cs, ks, cs.len() as int);
    assert(cs.take(cs.len() as int) =~= cs);
    lemma_sum_is_fold(ks, d, rolls_into(keys, f));
    assert(keys.filter(rolls_into(keys, f)) =~= keys.filter(|g: PathView| reaches(keys, g, f)));
}

/// When every counted folder is a scanned folder, the children a node lists
/// are all the indexed folders below it, so its total is its direct count
/// plus the totals of its children.
pub proof fn law_total_is_direct_plus_children(
    idx: Map<PathView, NodeView>,
    roots: Seq<PathView>,
    discovered: Set<PathView>,
    d: Map<PathView, usize>,
    f: PathView,
)
    requires
        is_folder_index(idx, roots, discovered, d),
        discovered.finite(),
        d.dom().subset_of(folder_set(roots, discovered)),
        idx.contains_key(f),
    ensures
        idx[f].total == idx[f].direct + totals_of(idx, idx[f].children),
{
    let keys = index_keys(roots, discovered, d);
    let folders = folder_set(roots, discovered);
    let cs = idx[f].children;
    assert(keys =~= folders);
    lemma_sorted_distinct::<FolderPath>(cs);
    vstd::seq_lib::seq_to_set_is_finite(roots);
    assert(d.dom().finite()) by {
        vstd::set_lib::lemma_len_subset(d.dom(), folders);
    }
    assert forall|c: PathView| #[trigger] cs.contains(c) <==> (keys.contains(c) && spec_parent(c)
        == Some(f)) by {
        if cs.contains(c) {
            assert(cs.to_set().contains(c));
        }
        if keys.contains(c) && spec_parent(c) == Some(f) {
            assert(children_within(folders, f).contains(c));
            assert(cs.to_set().contains(c));
        }
    }
    law_total_rolls_up(idx, roots, discovered, d, f, cs);
}

/// Updating one root from a scan of it keeps every folder outside that root,
/// with its direct image count.
pub proof fn law_root_update_keeps_other_folders(
    before: WorkspaceModel,
    after_index: Map<PathView, NodeView>,
    roots: Seq<PathView>,
    root: PathView,
    scanned_folders: Set<PathView>,
    scanned_counts: Map<PathView, usize>,
    f: PathView,
)
    requires
        before.wf(),
        is_folder_index(
            after_index,
            roots,
            merged_folders(before@.folder_index, root, scanned_folders),
            merged_direct_counts(before@.folder_index, root, scanned_counts),
        ),
        forall|p: PathView| #[trigger] scanned_counts.contains_key(p) ==> within_root(p, root),
        before@.folder_index.contains_key(f),
        !within_root(f, root),
    ensures
        after_index.contains_key(f),
        after_index[f].direct == before@.folder_index[f].direct,
{
    let old_idx = before@.folder_index;
    assert(merged_folders(old_idx, root, scanned_folders).contains(f));
    assert(!scanned_counts.contains_key(f));
    let merged = merged_direct_counts(old_idx, root, scanned_counts);
    assert(merged.contains_key(f));
    assert(merged[f] == old_idx[f].direct as usize);
    assert(old_idx[f].direct <= usize::MAX);
    assert(after_index.contains_key(f));
    assert(after_index[f].direct == direct_of(merged, f));
    assert(direct_of(merged, f) == merged[f] as nat);
}

/// A folder shown below the root has its parent shown too, and the parent's
/// row comes first.
pub proof fn law_parent_row_first(
    idx: Map<PathView, NodeView>,
    expanded: Set<PathView>,
    root: PathView,
    f: PathView,
)
    requires
        shown(idx, expanded, root, f),
        f != root,
    ensures
        shown(idx, expanded, root, f.drop_last()),
        path_lt(f.drop_last(), f),
{
    let p = f.drop_last();
    assert(f.take(p.len() as int) =~= p);
    lemma_prefix_precedes(p, f);
}

/// Rows come in path order, so whatever is listed between a folder and a
/// folder within it is itself within that folder: each expanded folder's
/// subtree is listed in one piece, right after it.
pub proof fn law_subtree_rows_contiguous(a: PathView, b: PathView, c: PathView)
    requires
        path_lt(a, b),
        path_lt(b, c),
        spec_starts_with(c, a),
    ensures
        spec_starts_with(b, a),
{
    lemma_between_within(a, b, c);
}

/// A scan fixes its folder index: two indexes of the same roots, folders and
/// counts are equal, so applying the same scan gives the same folder index
/// whatever the model held before, and applying it twice equals applying it once.
pub proof fn law_folder_index_unique(
    i1: Map<PathView, NodeView>,
    i2: Map<PathView, NodeView>,
    roots: Seq<PathView>,
    discovered: Set<PathView>,
    d: Map<PathView, usize>,
)
    requires
        is_folder_index(i1, roots, discovered, d),
        is_folder_index(i2, roots, discovered, d),
    ensures
        i1 == i2,
{
    assert forall|f: PathView| #[trigger] i1.contains_key(f) implies i1[f] == i2[f] by {
        assert(i2.contains_key(f));
        lemma_sorted_unique::<FolderPath>(i1[f].children, i2[f].children);
    }
    assert(i1 =~= i2);
}

/// On an empty model, updating one root from its scan gives the roots and the
/// folder index that applying that scan with that single root gives.
pub proof fn law_root_update_on_empty_is_scan(
    updated_roots: Seq<PathView>,
    updated_index: Map<PathView, NodeView>,
    scanned_index: Map<PathView, NodeView>,
    root: PathView,
    scanned_folders: Set<PathView>,
    scanned_counts: Map<PathView, usize>,
)
    requires
        roots_after_adding(Seq::empty(), root, updated_roots),
        is_folder_index(
            updated_index,
            updated_roots,
            merged_folders(Map::empty(), root, scanned_folders),
            merged_direct_counts(Map::empty(), root, scanned_counts),
        ),
        is_folder_index(scanned_index, seq![root], scanned_folders, scanned_counts),
    ensures
        updated_roots == seq![root],
        updated_index == scanned_index,
{
    assert(Seq::<PathView>::empty().to_set() =~= Set::<PathView>::empty());
    assert(updated_roots.to_set().contains(root));
    assert(updated_roots.len() == 1) by {
        if updated_roots.len() >= 2 {
            assert(updated_roots.to_set().contains(updated_roots[0]));
            assert(updated_roots.to_set().contains(updated_roots[1]));
            FolderPath::lemma_lt_irreflexive(root);
        }
        if updated_roots.len() == 0 {
            let i = choose|i: int| 0 <= i < updated_roots.len() && updated_roots[i] == root;
        }
    }
    let i = choose|i: int| 0 <= i < updated_roots.len() && updated_roots[i] == root;
    assert(updated_roots =~= seq![root]);
    assert(merged_folders(Map::empty(), root, scanned_folders) =~= scanned_folders);
    assert(merged_direct_counts(Map::empty(), root, scanned_counts) =~= scanned_counts);
    law_folder_index_unique(
        updated_index,
        scanned_index,
        seq![root],
        scanned_folders,
        scanned_counts,
    );
}

/// A navigator row is marked selected exactly when its own folder is the
/// selected folder: neither the folders above the selection nor any other.
pub proof fn law_row_selected_exactly(
    idx: Map<PathView, NodeView>,
    nav: crate::ui_state::NavigatorView,
    root: PathView,
    f: PathView,
)
    ensures
        row_for(idx, nav, root, f).is_selected <==> nav.selected == Some(f),
        row_for(idx, nav, root, f).path == f,
        row_for(idx, nav, root, f).is_expanded <==> nav.expanded.contains(f),
        row_for(idx, nav, root, f).shows_context_menu ==> f == root,
{
}

/// Every hash of the folder's index appears among its first-seen hashes, and back.
proof fn lemma_first_seen_is_index(images: Seq<(PathView, Seq<char>)>, h: Seq<char>)
    ensures
        first_seen(images).contains(h) <==> hash_index(images).contains_key(h),
    decreases images.len(),
{
    if images.len() > 0 {
        let rest = images.drop_last();
        lemma_first_seen_is_index(rest, h);
        let before = first_seen(rest);
        if first_seen(images).contains(h) {
            let j = choose|j: int| 0 <= j < first_seen(images).len() && first_seen(images)[j] == h;
            if j < before.len() {
                assert(before[j] == h);
            }
        }
        if before.contains(h) {
            let j = choose|j: int| 0 <= j < before.len() && before[j] == h;
            if !before.contains(images.last().1) {
                assert(before.push(images.last().1)[j] == h);
            }
        }
        if h == images.last().1 && !before.contains(h) {
            assert(before.push(h)[before.len() as int] == h);
        }
    }
}

/// Every listed hash that is not listed in `listed` has its path reported.
proof fn lemma_unlisted_reported(
    hashes: Seq<Seq<char>>,
    listed: Set<Seq<char>>,
    index: Map<Seq<char>, PathView>,
    h: Seq<char>,
)
    requires
        hashes.contains(h),
        !listed.contains(h),
    ensures
        unlisted_paths(hashes, listed, index).contains(index[h]),
    decreases hashes.len(),
{
    let rest = hashes.drop_last();
    let before = unlisted_paths(rest, listed, index);
    if hashes.last() == h {
        assert(before.push(index[h])[before.len() as int] == index[h]);
    } else {
        let j = choose|j: int| 0 <= j < hashes.len() && hashes[j] == h;
        assert(rest[j] == h);
        lemma_unlisted_reported(rest, listed, index, h);
        let k = choose|k: int| 0 <= k < before.len() && before[k] == index[h];
        if !listed.contains(hashes.last()) {
            assert(before.push(index[hashes.last()])[k] == index[h]);
        }
    }
}

/// Every reported path belongs to a hash that is not listed.
proof fn lemma_reported_unlisted(
    hashes: Seq<Seq<char>>,
    listed: Set<Seq<char>>,
    index: Map<Seq<char>, PathView>,
    x: PathView,
)
    requires
        unlisted_paths(hashes, listed, index).contains(x),
    ensures
        exists|j: int| 0 <= j < hashes.len() && !listed.contains(hashes[j]) && index[hashes[j]] == x,
    decreases hashes.len(),
{
    let rest = hashes.drop_last();
    let before = unlisted_paths(rest, listed, index);
    let k = choose|k: int|
        0 <= k < unlisted_paths(hashes, listed, index).len() && unlisted_paths(
            hashes,
            listed,
            index,
        )[k] == x;
    if k < before.len() {
        assert(before[k] == x);
        lemma_reported_unlisted(rest, listed, index, x);
        let j = choose|j: int| 0 <= j < rest.len() && !listed.contains(rest[j]) && index[rest[j]] == x;
        assert(hashes[j] == rest[j]);
    } else {
        assert(hashes[hashes.len() - 1] == hashes.last());
    }
}

/// The folder images reported as new are exactly the paths, in the folder's
/// hash index, of the hashes the catalog lacks: each such hash is reported,
/// and nothing else is.
pub proof fn law_new_images_reported(images: Seq<(PathView, Seq<char>)>, catalog: Seq<CatalogImage>)
    ensures
        forall|h: Seq<char>|
            #[trigger] hash_index(images).contains_key(h) && !catalog_hashes(catalog).contains(h)
                ==> unlisted_paths(first_seen(images), catalog_hashes(catalog), hash_index(images)).contains(
                hash_index(images)[h],
            ),
        forall|x: PathView|
            #[trigger] unlisted_paths(first_seen(images), catalog_hashes(catalog), hash_index(images)).contains(x)
                ==> exists|h: Seq<char>|
                hash_index(images).contains_key(h) && !catalog_hashes(catalog).contains(h)
                    && hash_index(images)[h] == x,
{
    let hs = first_seen(images);
    let listed = catalog_hashes(catalog);
    let index = hash_index(images);
    assert forall|h: Seq<char>| #[trigger] index.contains_key(h) && !listed.contains(h)
        implies unlisted_paths(hs, listed, index).contains(index[h]) by {
        lemma_first_seen_is_index(images, h);
        lemma_unlisted_reported(hs, listed, index, h);
    }
    assert forall|x: PathView| #[trigger] unlisted_paths(hs, listed, index).contains(x)
        implies exists|h: Seq<char>| index.contains_key(h) && !listed.contains(h) && index[h] == x by {
        lemma_reported_unlisted(hs, listed, index, x);
        let j = choose|j: int| 0 <= j < hs.len() && !listed.contains(hs[j]) && index[hs[j]] == x;
        assert(hs.contains(hs[j]));
        lemma_first_seen_is_index(images, hs[j]);
    }
}

/// Every folder between an imported root and an image within it (the image
/// itself excluded) is a folder of the scan.
pub proof fn law_scan_folders_cover_ancestors(
    roots: Seq<PathView>,
    imgs: Seq<PathView>,
    i: int,
    k: int,
    a: PathView,
)
    requires
        0 <= i < imgs.len(),
        0 <= k < roots.len(),
        is_proper_ancestor(a, imgs[i]),
        spec_starts_with(a, roots[k]),
    ensures
        ancestors_within_roots(roots, imgs).contains(a),
{
    assert(crate::scan::ancestors_within(imgs[i], roots[k]).contains(a));
}

/// A digit character gives back its value, and the value its character.
proof fn lemma_digit_round_trip(c: char)
    requires
        crate::display::is_digit(c),
    ensures
        0 <= crate::display::digit_of(c) <= 9,
        crate::display::digit_char(crate::display::digit_of(c) as nat) == c,
{
    assert((48 + (c as int - 48)) == c as int);
}

/// Two digits written back from the number they form are those digits.
proof fn lemma_two_digits_round_trip(v: Seq<char>, i: int)
    requires
        0 <= i,
        i + 1 < v.len(),
        crate::display::is_digit(v[i]),
        crate::display::is_digit(v[i + 1]),
    ensures
        0 <= crate::display::two_digits(v, i) <= 99,
        crate::display::two_digit_text(crate::display::two_digits(v, i)) == v.subrange(i, i + 2),
{
    lemma_digit_round_trip(v[i]);
    lemma_digit_round_trip(v[i + 1]);
    let a = crate::display::digit_of(v[i]);
    let b = crate::display::digit_of(v[i + 1]);
    assert((a * 10 + b) / 10 == a && (a * 10 + b) % 10 == b) by (nonlinear_arith)
        requires
            0 <= a <= 9,
            0 <= b <= 9,
    ;
    assert(crate::display::two_digit_text(a * 10 + b) =~= v.subrange(i, i + 2));
}

/// A camera timestamp is shown as itself with dashes in its date: reading it
/// in the camera layout and writing the fields in the shown layout changes
/// only the two date separators.
pub proof fn law_camera_fields_shown_with_dashes(value: Seq<char>)
    requires
        crate::display::in_camera_layout(value),
    ensures
        0 <= crate::display::camera_fields(value).year <= 9999,
        crate::display::shown_text(crate::display::camera_fields(value)) == crate::display::dashed(
            value,
        ),
{
    let p = crate::display::camera_fields(value);
    assert(crate::display::is_digit(value[0]) && crate::display::is_digit(value[1]));
    assert(crate::display::is_digit(value[2]) && crate::display::is_digit(value[3]));
    assert(crate::display::is_digit(value[5]) && crate::display::is_digit(value[6]));
    assert(crate::display::is_digit(value[8]) && crate::display::is_digit(value[9]));
    assert(crate::display::is_digit(value[11]) && crate::display::is_digit(value[12]));
    assert(crate::display::is_digit(value[14]) && crate::display::is_digit(value[15]));
    assert(crate::display::is_digit(value[17]) && crate::display::is_digit(value[18]));
    lemma_two_digits_round_trip(value, 0);
    lemma_two_digits_round_trip(value, 2);
    lemma_two_digits_round_trip(value, 5);
    lemma_two_digits_round_trip(value, 8);
    lemma_two_digits_round_trip(value, 11);
    lemma_two_digits_round_trip(value, 14);
    lemma_two_digits_round_trip(value, 17);
    let hi = crate::display::two_digits(value, 0);
    let lo = crate::display::two_digits(value, 2);
    assert((hi * 100 + lo) / 100 == hi && (hi * 100 + lo) % 100 == lo) by (nonlinear_arith)
        requires
            0 <= hi <= 99,
            0 <= lo <= 99,
    ;
    assert(p.year == hi * 100 + lo);
    assert(crate::display::shown_text(p) =~= crate::display::dashed(value));
}

/// Lower-casing an ASCII name keeps its whole length and every character
/// that is no upper-case letter, so a name already in lower case sorts as
/// itself, and two different such names keep different sort texts.
pub proof fn law_ascii_lowercase_whole_name(t: Seq<char>, u: Seq<char>)
    ensures
        crate::gallery::ascii_lowercase(t).len() == t.len(),
        forall|i: int|
            0 <= i < t.len() ==> crate::gallery::ascii_lowercase(t)[i]
                == crate::gallery::ascii_lower_char(#[trigger] t[i]),
        (forall|i: int| 0 <= i < t.len() ==> !(65 <= (#[trigger] t[i]) as int <= 90))
            ==> crate::gallery::ascii_lowercase(t) == t,
        (forall|i: int| 0 <= i < t.len() ==> !(65 <= (#[trigger] t[i]) as int <= 90)) && (forall|
            i: int,
        |
            0 <= i < u.len() ==> !(65 <= (#[trigger] u[i]) as int <= 90)) && t != u
            ==> crate::gallery::ascii_lowercase(t) != crate::gallery::ascii_lowercase(u),
{
    if forall|i: int| 0 <= i < t.len() ==> !(65 <= (#[trigger] t[i]) as int <= 90) {
        assert(crate::gallery::ascii_lowercase(t) =~= t);
    }
    if forall|i: int| 0 <= i < u.len() ==> !(65 <= (#[trigger] u[i]) as int <= 90) {
        assert(crate::gallery::ascii_lowercase(u) =~= u);
    }
}

} // verus!
