//! The result of a filesystem scan, as the workspace model consumes it.
use vstd::prelude::*;
use crate::keyed::{lemma_push_to_set, views, KeyedMap, KeyedSet};
use crate::path::{
    is_anchor, is_ancestor_or_self, is_proper_ancestor, spec_parent, spec_starts_with,
    FolderPath, PathView,
};

verus! {

/// Input payload produced by a filesystem scan: the images found, the folders
/// found (roots and empty folders included) and the direct image count of
/// each folder (images whose parent is that folder).
pub struct WorkspaceScanResult {
    pub all_image_paths: Vec<FolderPath>,
    pub all_folders: KeyedSet<FolderPath>,
    pub direct_counts_by_folder: KeyedMap<FolderPath, usize>,
}

/// The folders that are the parent of one of `imgs`.
pub open spec fn image_parents(imgs: Seq<PathView>) -> Set<PathView> {
    Set::new(|p: PathView| exists|i: int| 0 <= i < imgs.len() && spec_parent(imgs[i]) == Some(p))
}

/// The folders above `img` (the image itself excluded) that lie within `root`.
pub open spec fn ancestors_within(img: PathView, root: PathView) -> Set<PathView> {
    Set::new(|a: PathView| is_proper_ancestor(a, img) && spec_starts_with(a, root))
}

/// The path `p` and the folders above it that lie within `root`.
pub open spec fn ancestors_or_self_within(p: PathView, root: PathView) -> Set<PathView> {
    Set::new(|a: PathView| is_ancestor_or_self(a, p) && spec_starts_with(a, root))
}

/// The folders above an image are its parent and the folders above that.
proof fn lemma_ancestors_of_image(img: PathView, root: PathView)
    ensures
        spec_parent(img) matches Some(q) ==> ancestors_within(img, root)
            == ancestors_or_self_within(q, root),
        spec_parent(img) is None ==> ancestors_within(img, root) == Set::<PathView>::empty(),
{
    match spec_parent(img) {
        Some(q) => {
            assert(q =~= img.drop_last());
            assert forall|a: PathView| ancestors_within(img, root).contains(a) implies ancestors_or_self_within(q, root).contains(a) by {
                assert(q.take(a.len() as int) =~= img.take(a.len() as int));
                assert forall|k: int| a.len() <= k < q.len() implies !is_anchor(#[trigger] q[k]) by {
                    assert(q[k] == img[k]);
                }
            }
            assert forall|a: PathView| ancestors_or_self_within(q, root).contains(a) implies ancestors_within(img, root).contains(a) by {
                assert(q.take(a.len() as int) =~= img.take(a.len() as int));
                assert forall|k: int| a.len() <= k < img.len() implies !is_anchor(#[trigger] img[k]) by {
                    if k < q.len() {
                        assert(q[k] == img[k]);
                    } else {
                        assert(img[k] == img.last());
                    }
                }
            }
            assert(ancestors_within(img, root) =~= ancestors_or_self_within(q, root));
        },
        None => {
            assert forall|a: PathView| !ancestors_within(img, root).contains(a) by {
                if ancestors_within(img, root).contains(a) {
                    assert(!is_anchor(img[img.len() - 1]));
                    assert(img[img.len() - 1] == img.last());
                }
            }
            assert(ancestors_within(img, root) =~= Set::<PathView>::empty());
        },
    }
}

/// The folders above the images that lie within one of the roots.
pub open spec fn ancestors_within_roots(roots: Seq<PathView>, imgs: Seq<PathView>) -> Set<PathView> {
    Set::new(
        |a: PathView|
            exists|i: int, r: int|
                0 <= i < imgs.len() && 0 <= r < roots.len() && #[trigger] ancestors_within(
                    imgs[i],
                    roots[r],
                ).contains(a),
    )
}

/// How many of `imgs` have `p` as their parent.
pub open spec fn images_with_parent(imgs: Seq<PathView>, p: PathView) -> nat
    decreases imgs.len(),
{
    if imgs.len() == 0 {
        0
    } else {
        images_with_parent(imgs.drop_last(), p) + if spec_parent(imgs.last()) == Some(p) {
            1nat
        } else {
            0nat
        }
    }
}

proof fn lemma_images_with_parent_bound(imgs: Seq<PathView>, p: PathView)
    ensures
        images_with_parent(imgs, p) <= imgs.len(),
    decreases imgs.len(),
{
    if imgs.len() > 0 {
        lemma_images_with_parent_bound(imgs.drop_last(), p);
    }
}

/// Two ancestors of the same path with the same length are the same path.
pub proof fn lemma_ancestor_by_length(a: PathView, b: PathView, p: PathView)
    requires
        is_ancestor_or_self(a, p),
        is_ancestor_or_self(b, p),
        a.len() == b.len(),
    ensures
        a == b,
{
    assert(a =~= p.take(a.len() as int));
    assert(b =~= p.take(b.len() as int));
}

/// Adds to `folders` the path `image` and every folder above it that lie
/// within `root`, walking up and stopping at `root`.
fn insert_ancestors_within(folders: &mut KeyedSet<FolderPath>, image: &FolderPath, root: &FolderPath)
    requires
        old(folders).wf(),
    ensures
        final(folders).wf(),
        final(folders)@ == old(folders)@ + ancestors_or_self_within(image@, root@),
{
    let ghost w = ancestors_or_self_within(image@, root@);
    let ghost base = folders@;
    if !image.starts_with(root) {
        assert(w =~= Set::<PathView>::empty()) by {
            assert forall|a: PathView| !w.contains(a) by {
                if w.contains(a) {
                    assert(image@.take(root@.len() as int) =~= a.take(root@.len() as int));
                }
            }
        }
        assert(base + w =~= base);
        return;
    }
    let mut cur = image.duplicate();
    assert(image@.take(image@.len() as int) =~= image@);
    loop
        invariant
            folders.wf(),
            base == old(folders)@,
            is_ancestor_or_self(cur@, image@),
            w == ancestors_or_self_within(image@, root@),
            folders@ == base + w.filter(|a: PathView| a.len() > cur@.len()),
        decreases cur@.len(),
    {
        let ghost c = cur@;
        let ghost upper = w.filter(|a: PathView| a.len() > c.len());
        if cur.same_as(root) {
            folders.insert(cur.duplicate());
            assert(folders@ =~= base + w) by {
                assert forall|a: PathView| w.contains(a) implies upper.insert(c).contains(a) by {
                    if a.len() <= c.len() {
                        assert(a.len() == c.len());
                        lemma_ancestor_by_length(a, c, image@);
                    }
                }
                assert(w.contains(c)) by {
                    assert(c.take(root@.len() as int) =~= c);
                }
            }
            return;
        }
        if cur.starts_with(root) {
            folders.insert(cur.duplicate());
            assert(w.contains(c));
            match cur.parent() {
                Some(p) => {
                    proof {
                        assert(c[c.len() - 1] == c.last());
                        assert(p@ =~= image@.take(p@.len() as int)) by {
                            assert(c =~= image@.take(c.len() as int));
                        }
                        assert(is_ancestor_or_self(p@, image@)) by {
                            assert forall|k: int| p@.len() <= k < image@.len() implies !is_anchor(
                                #[trigger] image@[k],
                            ) by {
                                if k == p@.len() {
                                    assert(image@[k] == c[k]);
                                }
                            }
                        }
                        assert(folders@ =~= base + w.filter(|a: PathView| a.len() > p@.len())) by {
                            assert forall|a: PathView| #[trigger] w.contains(a) && a.len() == c.len()
                                implies a == c by {
                                lemma_ancestor_by_length(a, c, image@);
                            }
                        }
                    }
                    cur = p;
                },
                None => {
                    proof {
                        assert(folders@ =~= base + w) by {
                            assert forall|a: PathView| w.contains(a) implies upper.insert(
                                c,
                            ).contains(a) by {
                                if a.len() < c.len() {
                                    assert(!is_anchor(image@[c.len() - 1]));
                                    assert(image@[c.len() - 1] == c.last()) by {
                                        assert(c =~= image@.take(c.len() as int));
                                    }
                                } else if a.len() == c.len() {
                                    lemma_ancestor_by_length(a, c, image@);
                                }
                            }
                        }
                    }
                    return;
                },
            }
        } else {
            proof {
                assert(folders@ =~= base + w) by {
                    assert forall|a: PathView| w.contains(a) implies upper.contains(a) by {
                        if a.len() <= c.len() {
                            assert(c.take(root@.len() as int) =~= image@.take(root@.len() as int))
                                by {
                                assert(c =~= image@.take(c.len() as int));
                            }
                            assert(a.take(root@.len() as int) =~= image@.take(root@.len() as int))
                                by {
                                assert(a =~= image@.take(a.len() as int));
                            }
                        }
                    }
                }
            }
            return;
        }
    }
}

impl WorkspaceScanResult {
    /// The set and the map hold no repeated key.
    pub open spec fn wf(&self) -> bool {
        self.all_folders.wf() && self.direct_counts_by_folder.wf()
    }

    pub fn new(
        all_image_paths: Vec<FolderPath>,
        all_folders: KeyedSet<FolderPath>,
        direct_counts_by_folder: KeyedMap<FolderPath, usize>,
    ) -> (r: Self)
        requires
            all_folders.wf(),
            direct_counts_by_folder.wf(),
        ensures
            r.wf(),
            views(r.all_image_paths@) == views(all_image_paths@),
            r.all_folders@ == all_folders@,
            r.direct_counts_by_folder@ == direct_counts_by_folder@,
    {
        WorkspaceScanResult { all_image_paths, all_folders, direct_counts_by_folder }
    }

    /// Derives a minimal scan result from image paths alone: the roots, the
    /// parent of every image, and every folder above an image (the image
    /// itself excluded) that lies within a root are folders; each image counts
    /// for its parent. Empty folders cannot be discovered this way.
    pub fn from_image_paths(imported_roots: &[FolderPath], image_paths: Vec<FolderPath>) -> (r: Self)
        ensures
            r.wf(),
            views(r.all_image_paths@) == views(image_paths@),
            r.all_folders@ == views(imported_roots@).to_set() + image_parents(views(image_paths@))
                + ancestors_within_roots(views(imported_roots@), views(image_paths@)),
            r.direct_counts_by_folder@.dom() == image_parents(views(image_paths@)),
            forall|p: PathView| #[trigger]
                r.direct_counts_by_folder@.contains_key(p) ==> r.direct_counts_by_folder@[p]
                    == images_with_parent(views(image_paths@), p),
            forall|i: int, k: int, a: PathView|
                #![trigger is_proper_ancestor(a, views(image_paths@)[i]), spec_starts_with(a, views(imported_roots@)[k])]
                0 <= i < image_paths@.len() && 0 <= k < imported_roots@.len() && is_proper_ancestor(
                    a,
                    views(image_paths@)[i],
                ) && spec_starts_with(a, views(imported_roots@)[k]) ==> r.all_folders@.contains(a),
            forall|i: int|
                0 <= i < image_paths@.len() && spec_parent(#[trigger] views(image_paths@)[i]) is Some
                    ==> r.all_folders@.contains(spec_parent(views(image_paths@)[i])->0)
                    && r.direct_counts_by_folder@.contains_key(spec_parent(views(image_paths@)[i])->0),
    {
        let ghost roots = views(imported_roots@);
        let ghost imgs = views(image_paths@);
        let mut all_folders: KeyedSet<FolderPath> = KeyedSet::new();
        let nr = imported_roots.len();
        for i in 0..nr
            invariant
                nr == roots.len(),
                roots == views(imported_roots@),
                all_folders.wf(),
                all_folders@ == roots.take(i as int).to_set(),
        {
            let ghost before = roots.take(i as int);
            assert(roots.take(i + 1) =~= before.push(roots[i as int]));
            proof {
                lemma_push_to_set(before, roots[i as int]);
            }
            all_folders.insert(imported_roots[i].duplicate());
        }
        assert(roots.take(nr as int) =~= roots);
        let mut direct: KeyedMap<FolderPath, usize> = KeyedMap::new();
        let n = image_paths.len();
        for i in 0..n
            invariant
                n == imgs.len(),
                nr == roots.len(),
                roots == views(imported_roots@),
                imgs == views(image_paths@),
                all_folders.wf(),
                direct.wf(),
                all_folders@ == roots.to_set() + image_parents(imgs.take(i as int))
                    + ancestors_within_roots(roots, imgs.take(i as int)),
                direct@.dom() == image_parents(imgs.take(i as int)),
                forall|p: PathView| #[trigger]
                    direct@.contains_key(p) ==> direct@[p] == images_with_parent(
                        imgs.take(i as int),
                        p,
                    ),
        {
            let image = &image_paths[i];
            let ghost before = imgs.take(i as int);
            let ghost after = imgs.take(i + 1);
            let ghost img = imgs[i as int];
            assert(after =~= before.push(img));
            assert(after.drop_last() =~= before);
            let ghost folders0 = all_folders@;
            let parent_of_image = image.parent();
            match &parent_of_image {
                Some(parent) => {
                    all_folders.insert(parent.duplicate());
                    proof {
                        lemma_images_with_parent_bound(before, parent@);
                    }
                    match direct.find(&parent) {
                        Some(pos) => {
                            proof {
                                direct.lemma_layout();
                            }
                            let c = *direct.value_at(pos);
                            proof {
                                assert(direct@.contains_key(parent@));
                                assert(direct@[parent@] == c);
                                assert(c == images_with_parent(before, parent@));
                            }
                            direct.set_value_at(pos, c + 1);
                        },
                        None => {
                            proof {
                                assert(images_with_parent(before, parent@) == 0) by {
                                    if images_with_parent(before, parent@) > 0 {
                                        lemma_positive_count_has_parent(before, parent@);
                                    }
                                }
                            }
                            direct.push_new(parent.duplicate(), 1);
                        },
                    }
                    proof {
                        assert(image_parents(after) =~= image_parents(before).insert(
                            spec_parent(img).unwrap(),
                        )) by {
                            assert forall|p: PathView| #[trigger]
                                image_parents(after).contains(p) implies image_parents(
                                before,
                            ).insert(spec_parent(img).unwrap()).contains(p) by {
                                let k = choose|k: int|
                                    0 <= k < after.len() && spec_parent(after[k]) == Some(p);
                                if k < before.len() {
                                    assert(before[k] == after[k]);
                                }
                            }
                            assert(after[i as int] == img);
                            assert forall|p: PathView| #[trigger]
                                image_parents(before).contains(p) implies image_parents(
                                after,
                            ).contains(p) by {
                                let k = choose|k: int|
                                    0 <= k < before.len() && spec_parent(before[k]) == Some(p);
                                assert(after[k] == before[k]);
                            }
                        }
                        assert(direct@.dom() =~= image_parents(after));
                    }
                },
                None => {
                    proof {
                        assert(image_parents(after) =~= image_parents(before)) by {
                            assert forall|p: PathView| #[trigger]
                                image_parents(after).contains(p) implies image_parents(
                                before,
                            ).contains(p) by {
                                let k = choose|k: int|
                                    0 <= k < after.len() && spec_parent(after[k]) == Some(p);
                                if k < before.len() {
                                    assert(before[k] == after[k]);
                                }
                            }
                            assert forall|p: PathView| #[trigger]
                                image_parents(before).contains(p) implies image_parents(
                                after,
                            ).contains(p) by {
                                let k = choose|k: int|
                                    0 <= k < before.len() && spec_parent(before[k]) == Some(p);
                                assert(after[k] == before[k]);
                            }
                        }
                    }
                },
            }
            let ghost folders1 = all_folders@;
            for r in 0..nr
                invariant
                    nr == roots.len(),
                    roots == views(imported_roots@),
                    img == image@,
                    parent_of_image matches Some(q) ==> spec_parent(img) == Some(q@),
                    parent_of_image is None ==> spec_parent(img) is None,
                    all_folders.wf(),
                    all_folders@ == folders1 + Set::new(
                        |a: PathView|
                            exists|rr: int|
                                0 <= rr < r && #[trigger] ancestors_within(img, roots[rr]).contains(
                                    a,
                                ),
                    ),
            {
                let ghost f0 = all_folders@;
                proof {
                    lemma_ancestors_of_image(img, roots[r as int]);
                }
                match &parent_of_image {
                    Some(q) => {
                        insert_ancestors_within(&mut all_folders, q, &imported_roots[r]);
                    },
                    None => {},
                }
                proof {
                    assert(all_folders@ =~= folders1 + Set::new(
                        |a: PathView|
                            exists|rr: int|
                                0 <= rr < r + 1 && #[trigger] ancestors_within(
                                    img,
                                    roots[rr],
                                ).contains(a),
                    ));
                }
            }
            proof {
                assert(all_folders@ =~= roots.to_set() + image_parents(after)
                    + ancestors_within_roots(roots, after)) by {
                    assert forall|a: PathView| #[trigger]
                        ancestors_within_roots(roots, after).contains(a) implies all_folders@.contains(
                        a,
                    ) by {
                        let (k, rr) = choose|k: int, rr: int|
                            0 <= k < after.len() && 0 <= rr < roots.len()
                                && #[trigger] ancestors_within(after[k], roots[rr]).contains(a);
                        if k < before.len() {
                            assert(before[k] == after[k]);
                            assert(ancestors_within_roots(roots, before).contains(a));
                        }
                    }
                    assert forall|a: PathView| #[trigger]
                        ancestors_within_roots(roots, before).contains(a) implies ancestors_within_roots(
                        roots,
                        after,
                    ).contains(a) by {
                        let (k, rr) = choose|k: int, rr: int|
                            0 <= k < before.len() && 0 <= rr < roots.len()
                                && #[trigger] ancestors_within(before[k], roots[rr]).contains(a);
                        assert(after[k] == before[k]);
                    }
                    assert forall|a: PathView| all_folders@.contains(a) && !folders0.contains(a)
                        && !(spec_parent(img) == Some(a)) implies ancestors_within_roots(
                        roots,
                        after,
                    ).contains(a) by {
                        let rr = choose|rr: int|
                            0 <= rr < nr && #[trigger] ancestors_within(img, roots[rr]).contains(a);
                        assert(after[i as int] == img);
                    }
                    assert forall|a: PathView| image_parents(after).contains(a) implies all_folders@.contains(
                        a,
                    ) by {
                        let k = choose|k: int|
                            0 <= k < after.len() && spec_parent(after[k]) == Some(a);
                        if k < before.len() {
                            assert(before[k] == after[k]);
                            assert(image_parents(before).contains(a));
                        }
                    }
                    assert forall|a: PathView| #[trigger] folders0.contains(a) implies (roots.to_set()
                        + image_parents(after) + ancestors_within_roots(roots, after)).contains(a) by {
                        if image_parents(before).contains(a) {
                            let k = choose|k: int|
                                0 <= k < before.len() && spec_parent(before[k]) == Some(a);
                            assert(after[k] == before[k]);
                        }
                    }
                    assert forall|a: PathView| spec_parent(img) == Some(a) implies image_parents(
                        after,
                    ).contains(a) by {
                        assert(after[i as int] == img);
                    }
                }
                assert forall|p: PathView| #[trigger]
                    direct@.contains_key(p) implies direct@[p] == images_with_parent(after, p) by {
                    assert(after.last() == img);
                    assert(images_with_parent(after, p) == images_with_parent(before, p) + if spec_parent(img) == Some(p) { 1nat } else { 0nat });
                }
            }
        }
        assert(imgs.take(n as int) =~= imgs);
        assert forall|i: int, k: int, a: PathView|
            0 <= i < imgs.len() && 0 <= k < roots.len() && is_proper_ancestor(a, imgs[i])
                && spec_starts_with(a, roots[k]) implies all_folders@.contains(a) by {
            crate::laws::law_scan_folders_cover_ancestors(roots, imgs, i, k, a);
        }
        assert forall|i: int|
            0 <= i < imgs.len() && spec_parent(#[trigger] imgs[i]) is Some implies all_folders@.contains(
                spec_parent(imgs[i])->0,
            ) && direct@.contains_key(spec_parent(imgs[i])->0) by {
            assert(image_parents(imgs).contains(spec_parent(imgs[i])->0));
        }
        WorkspaceScanResult { all_image_paths: image_paths, all_folders, direct_counts_by_folder: direct }
    }
}

proof fn lemma_positive_count_has_parent(imgs: Seq<PathView>, p: PathView)
    requires
        images_with_parent(imgs, p) > 0,
    ensures
        image_parents(imgs).contains(p),
    decreases imgs.len(),
{
    if spec_parent(imgs.last()) == Some(p) {
        assert(imgs[imgs.len() - 1] == imgs.last());
    } else {
        lemma_positive_count_has_parent(imgs.drop_last(), p);
        let k = choose|k: int|
            0 <= k < imgs.drop_last().len() && spec_parent(imgs.drop_last()[k]) == Some(p);
        assert(imgs[k] == imgs.drop_last()[k]);
    }
}

} // verus!
