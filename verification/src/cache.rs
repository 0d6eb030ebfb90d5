//! Comparing the images found in a folder with the images of the catalog,
//! both keyed by content hash.
use vstd::prelude::*;
use crate::keyed::{views, KeyedMap, KeyedSet};
use crate::path::{FolderPath, PathView};

verus! {

/// An image as the catalog stores it.
#[derive(Debug, Clone, PartialEq, Eq)]
pub struct CatalogImage {
    /// The content hash of the image.
    pub hash: String,
    /// Where the original image was found.
    pub path: String,
}

/// The images of a folder, each with its content hash.
pub open spec fn hashed_views(images: Seq<(FolderPath, String)>) -> Seq<(PathView, Seq<char>)> {
    images.map_values(|e: (FolderPath, String)| (e.0@, e.1@))
}

/// Hash to path; of images with the same hash the last one stands.
pub open spec fn hash_index(images: Seq<(PathView, Seq<char>)>) -> Map<Seq<char>, PathView>
    decreases images.len(),
{
    if images.len() == 0 {
        Map::empty()
    } else {
        hash_index(images.drop_last()).insert(images.last().1, images.last().0)
    }
}

/// The hashes of `images`, each once, in the order they first appear.
pub open spec fn first_seen(images: Seq<(PathView, Seq<char>)>) -> Seq<Seq<char>>
    decreases images.len(),
{
    if images.len() == 0 {
        Seq::empty()
    } else {
        let before = first_seen(images.drop_last());
        if before.contains(images.last().1) {
            before
        } else {
            before.push(images.last().1)
        }
    }
}

/// The views of the paths of a hash index.
pub open spec fn path_views(index: Map<Seq<char>, FolderPath>) -> Map<Seq<char>, PathView> {
    index.map_values(|p: FolderPath| p@)
}

/// The hashes the catalog holds.
pub open spec fn catalog_hashes(catalog: Seq<CatalogImage>) -> Set<Seq<char>> {
    Set::new(|h: Seq<char>| exists|i: int| 0 <= i < catalog.len() && catalog[i].hash@ == h)
}

/// For each hash of `hashes` that is not `listed`, its path in `index`.
pub open spec fn unlisted_paths(
    hashes: Seq<Seq<char>>,
    listed: Set<Seq<char>>,
    index: Map<Seq<char>, PathView>,
) -> Seq<PathView>
    decreases hashes.len(),
{
    if hashes.len() == 0 {
        Seq::empty()
    } else {
        let before = unlisted_paths(hashes.drop_last(), listed, index);
        if listed.contains(hashes.last()) {
            before
        } else {
            before.push(index[hashes.last()])
        }
    }
}

/// The catalog images whose hash is not among `present`, in catalog order.
pub open spec fn missing_images(catalog: Seq<CatalogImage>, present: Set<Seq<char>>) -> Seq<
    CatalogImage,
>
    decreases catalog.len(),
{
    if catalog.len() == 0 {
        Seq::empty()
    } else {
        let before = missing_images(catalog.drop_last(), present);
        if present.contains(catalog.last().hash@) {
            before
        } else {
            before.push(catalog.last())
        }
    }
}

/// Splits the difference between a folder and the catalog: the paths of the
/// folder's images whose hash the catalog lacks (one per hash, the last path
/// found for it, in the order the hashes first appear), and the catalog
/// images whose hash no image of the folder has (in catalog order).
pub fn compare_cache_to_fs(
    hashed_images_in_folder: Vec<(FolderPath, String)>,
    image_dos_in_catalog: Vec<CatalogImage>,
) -> (r: (Vec<FolderPath>, Vec<CatalogImage>))
    ensures
        views(r.0@) == unlisted_paths(
            first_seen(hashed_views(hashed_images_in_folder@)),
            catalog_hashes(image_dos_in_catalog@),
            hash_index(hashed_views(hashed_images_in_folder@)),
        ),
        r.1@ == missing_images(
            image_dos_in_catalog@,
            hash_index(hashed_views(hashed_images_in_folder@)).dom(),
        ),
        forall|h: Seq<char>|
            #[trigger] hash_index(hashed_views(hashed_images_in_folder@)).contains_key(h)
                && !catalog_hashes(image_dos_in_catalog@).contains(h) ==> views(r.0@).contains(
                hash_index(hashed_views(hashed_images_in_folder@))[h],
            ),
        forall|x: PathView|
            #[trigger] views(r.0@).contains(x) ==> exists|h: Seq<char>|
                hash_index(hashed_views(hashed_images_in_folder@)).contains_key(h)
                    && !catalog_hashes(image_dos_in_catalog@).contains(h) && hash_index(
                    hashed_views(hashed_images_in_folder@),
                )[h] == x,
        forall|i: int|
            0 <= i < r.1@.len() ==> !hash_index(hashed_views(hashed_images_in_folder@)).contains_key(
                #[trigger] r.1@[i].hash@,
            ),
        forall|i: int|
            0 <= i < image_dos_in_catalog@.len() && !hash_index(
                hashed_views(hashed_images_in_folder@),
            ).contains_key(#[trigger] image_dos_in_catalog@[i].hash@) ==> r.1@.contains(
                image_dos_in_catalog@[i],
            ),
{
    let ghost imgs = hashed_views(hashed_images_in_folder@);
    let ghost cat = image_dos_in_catalog@;
    // Hash to path for the folder's images.
    let mut index: KeyedMap<String, FolderPath> = KeyedMap::new();
    let n = hashed_images_in_folder.len();
    for i in 0..n
        invariant
            n == hashed_images_in_folder@.len(),
            imgs == hashed_views(hashed_images_in_folder@),
            index.wf(),
            path_views(index@) == hash_index(imgs.take(i as int)),
            index.key_seq() == first_seen(imgs.take(i as int)),
    {
        let path = hashed_images_in_folder[i].0.duplicate();
        let hash = hashed_images_in_folder[i].1.clone();
        assert(imgs[i as int] == (path@, hash@));
        assert(imgs.take(i + 1).drop_last() =~= imgs.take(i as int));
        proof {
            index.lemma_layout();
            assert(index@.contains_key(hash@) <==> index.key_seq().contains(hash@)) by {
                if index.key_seq().contains(hash@) {
                    let j = choose|j: int|
                        0 <= j < index.key_seq().len() && index.key_seq()[j] == hash@;
                    assert(index@.contains_key(index.key_seq()[j]));
                }
            }
        }
        let ghost pv = path@;
        let ghost hv = hash@;
        let ghost before = index@;
        index.insert(hash, path);
        assert(path_views(index@) =~= path_views(before).insert(hv, pv));
    }
    assert(imgs.take(n as int) =~= imgs);
    assert(path_views(index@).dom() =~= index@.dom());
    // The catalog's hashes.
    let mut listed: KeyedSet<String> = KeyedSet::new();
    let m = image_dos_in_catalog.len();
    for i in 0..m
        invariant
            m == cat.len(),
            cat == image_dos_in_catalog@,
            listed.wf(),
            listed@ == Set::new(|h: Seq<char>| exists|j: int| 0 <= j < i && cat[j].hash@ == h),
    {
        let ghost before = listed@;
        listed.insert(image_dos_in_catalog[i].hash.clone());
        assert(listed@ =~= Set::new(
            |h: Seq<char>| exists|j: int| 0 <= j < i + 1 && cat[j].hash@ == h,
        )) by {
            assert forall|h: Seq<char>|
                (exists|j: int| 0 <= j < i + 1 && cat[j].hash@ == h) implies listed@.contains(h) by {
                let j = choose|j: int| 0 <= j < i + 1 && cat[j].hash@ == h;
                if j < i {
                    assert(before.contains(h));
                }
            }
        }
    }
    assert(listed@ =~= catalog_hashes(cat));
    // Folder images the catalog lacks.
    let ghost hs = index.key_seq();
    let mut unlisted: Vec<FolderPath> = Vec::new();
    let k = index.len();
    for j in 0..k
        invariant
            k == hs.len(),
            index.wf(),
            hs == index.key_seq(),
            listed.wf(),
            listed@ == catalog_hashes(cat),
            views(unlisted@) == unlisted_paths(hs.take(j as int), listed@, path_views(index@)),
    {
        proof {
            index.lemma_layout();
        }
        assert(hs.take(j + 1).drop_last() =~= hs.take(j as int));
        if !listed.contains(index.key_at(j)) {
            unlisted.push(index.value_at(j).duplicate());
        }
        assert(views(unlisted@) =~= unlisted_paths(hs.take(j + 1), listed@, path_views(index@)));
    }
    assert(hs.take(k as int) =~= hs);
    // Catalog images the folder lacks.
    let mut missing: Vec<CatalogImage> = Vec::new();
    let mut rest = image_dos_in_catalog;
    let mut i: usize = 0;
    while rest.len() > 0
        invariant
            m == cat.len(),
            i + rest@.len() == cat.len(),
            rest@ == cat.skip(i as int),
            index.wf(),
            missing@ == missing_images(cat.take(i as int), index@.dom()),
        decreases rest@.len(),
    {
        let img = rest.remove(0);
        assert(img == cat[i as int]);
        assert(cat.take(i + 1).drop_last() =~= cat.take(i as int));
        assert(rest@ =~= cat.skip(i + 1));
        if !index.contains_key(&img.hash) {
            missing.push(img);
        }
        i = i + 1;
    }
    assert(cat.take(i as int) =~= cat);
    proof {
        crate::laws::law_new_images_reported(imgs, cat);
        crate::laws::law_missing_images_absent(cat, hash_index(imgs).dom());
    }
    (unlisted, missing)
}

} // verus!
