//! The previews shown for the selected folder and the order they are shown in.
use vstd::prelude::*;
use crate::cache::path_views;
use crate::keyed::{sort_unique, views, KeyedMap, KeyedSet, OrderedKey};
use vstd::set_lib::{lemma_int_range, set_int_range};
use crate::path::{text_eq, text_less, ComponentView, FolderPath, PathComponent, PathView};
use crate::ui_state::SortingOption;
use crate::workspace::{is_within_root, with_key, within_root, WorkspaceModel};

verus! {

/// What `str::to_lowercase` makes of a text.
pub uninterp spec fn lowercased(text: Seq<char>) -> Seq<char>;

/// Whether every character of `t` is ASCII.
pub open spec fn is_ascii_text(t: Seq<char>) -> bool {
    forall|i: int| 0 <= i < t.len() ==> (#[trigger] t[i]) as int <= 127
}

/// `c` with an upper-case ASCII letter turned into its lower-case letter.
pub open spec fn ascii_lower_char(c: char) -> char {
    if 65 <= c as int <= 90 {
        (c as int + 32) as char
    } else {
        c
    }
}

/// `t` with every upper-case ASCII letter turned into its lower-case letter.
pub open spec fn ascii_lowercase(t: Seq<char>) -> Seq<char> {
    t.map_values(|c: char| ascii_lower_char(c))
}

/// Lower-cases a text with `str::to_lowercase`. Claimed: the result is a
/// function of the text alone, and on an ASCII text it turns each upper-case
/// letter into its lower-case letter and keeps every other character.
#[verifier::external_body]
fn lowercase(text: &str) -> (r: String)
    ensures
        r@ == lowercased(text@),
        is_ascii_text(text@) ==> r@ == ascii_lowercase(text@),
{
    text.to_lowercase()
}

/// The file name of a path: its last component when that is a name, else empty.
pub open spec fn file_name_text(p: PathView) -> Seq<char> {
    if p.len() > 0 {
        match p.last() {
            ComponentView::Normal(s) => s,
            _ => Seq::empty(),
        }
    } else {
        Seq::empty()
    }
}

/// The file name of `path`, empty when its last component is no name.
pub fn file_name(path: &FolderPath) -> (r: String)
    ensures
        r@ == file_name_text(path@),
{
    let n = path.components.len();
    if n == 0 {
        return String::new();
    }
    match &path.components[n - 1] {
        PathComponent::Normal(s) => s.clone(),
        _ => String::new(),
    }
}

/// The text a preview is sorted by: the lower-cased file name of its
/// original image, or of the empty name when the preview is unknown.
pub open spec fn sort_text(originals: Map<Seq<char>, PathView>, key: Seq<char>) -> Seq<char> {
    lowercased(
        if originals.contains_key(key) {
            file_name_text(originals[key])
        } else {
            Seq::empty()
        },
    )
}

/// The sort texts of `keys`, position by position.
pub open spec fn sort_texts(originals: Map<Seq<char>, PathView>, keys: Seq<Seq<char>>) -> Seq<
    Seq<char>,
> {
    keys.map_values(|k: Seq<char>| sort_text(originals, k))
}

/// Whether (text, position) `a` comes before `b`: by text, then by position.
pub open spec fn ranked_before(a: (Seq<char>, usize), b: (Seq<char>, usize)) -> bool {
    String::key_lt(a.0, b.0) || (a.0 == b.0 && a.1 < b.1)
}

/// `order` lists every position of `texts` exactly once, ordered by text and,
/// among equal texts, by position: the order of a stable sort by text.
pub open spec fn is_stable_order(texts: Seq<Seq<char>>, order: Seq<usize>) -> bool {
    &&& order.no_duplicates()
    &&& forall|i: int| 0 <= i < order.len() ==> #[trigger] order[i] < texts.len()
    &&& forall|i: usize| i < texts.len() ==> #[trigger] order.contains(i)
    &&& forall|a: int, b: int|
        0 <= a < b < order.len() ==> ranked_before(
            (texts[#[trigger] order[a] as int], order[a]),
            (texts[#[trigger] order[b] as int], order[b]),
        )
}

/// A position in a list together with the text it is sorted by.
pub struct RankedKey {
    pub text: String,
    pub place: usize,
}

impl View for RankedKey {
    type V = (Seq<char>, usize);

    open spec fn view(&self) -> (Seq<char>, usize) {
        (self.text@, self.place)
    }
}

impl OrderedKey for RankedKey {
    open spec fn key_lt(a: (Seq<char>, usize), b: (Seq<char>, usize)) -> bool {
        ranked_before(a, b)
    }

    proof fn lemma_lt_irreflexive(a: (Seq<char>, usize)) {
        String::lemma_lt_irreflexive(a.0);
    }

    proof fn lemma_lt_transitive(a: (Seq<char>, usize), b: (Seq<char>, usize), c: (Seq<char>, usize)) {
        if String::key_lt(a.0, b.0) && String::key_lt(b.0, c.0) {
            String::lemma_lt_transitive(a.0, b.0, c.0);
        }
    }

    proof fn lemma_lt_total(a: (Seq<char>, usize), b: (Seq<char>, usize)) {
        if a.0 != b.0 {
            String::lemma_lt_total(a.0, b.0);
        }
    }

    fn key_less(&self, other: &Self) -> (r: bool) {
        text_less(&self.text, &other.text) || (text_eq(&self.text, &other.text) && self.place
            < other.place)
    }

    fn key_same(&self, other: &Self) -> (r: bool) {
        text_eq(&self.text, &other.text) && self.place == other.place
    }

    fn key_copy(&self) -> (r: Self) {
        RankedKey { text: self.text.clone(), place: self.place }
    }
}

/// The file name a preview is sorted by: that of its original, or the empty
/// name when the preview is unknown.
pub open spec fn sort_name(originals: Map<Seq<char>, PathView>, key: Seq<char>) -> Seq<char> {
    if originals.contains_key(key) {
        file_name_text(originals[key])
    } else {
        Seq::empty()
    }
}

/// The text preview `key` is sorted by.
fn preview_sort_text(originals: &KeyedMap<String, FolderPath>, key: &String) -> (r: String)
    requires
        originals.wf(),
    ensures
        r@ == sort_text(path_views(originals@), key@),
        is_ascii_text(sort_name(path_views(originals@), key@)) ==> r@ == ascii_lowercase(
            sort_name(path_views(originals@), key@),
        ),
{
    match originals.get(key) {
        Some(path) => {
            let name = file_name(path);
            lowercase(name.as_str())
        },
        None => {
            let name = String::new();
            lowercase(name.as_str())
        },
    }
}

/// Orders the preview keys by the selected option: by the lower-cased file
/// name of each preview's original image, keeping the current order among
/// equal names (a stable sort); a key with no known original sorts as an
/// empty name.
pub fn sort_previews(
    sorted_preview_keys: &mut Vec<String>,
    originals: &KeyedMap<String, FolderPath>,
    option: SortingOption,
)
    requires
        originals.wf(),
    ensures
        views(final(sorted_preview_keys)@).len() == views(old(sorted_preview_keys)@).len(),
        forall|i: int|
            0 <= i < views(old(sorted_preview_keys)@).len() && is_ascii_text(
                sort_name(path_views(originals@), #[trigger] views(old(sorted_preview_keys)@)[i]),
            ) ==> sort_texts(path_views(originals@), views(old(sorted_preview_keys)@))[i]
                == ascii_lowercase(
                sort_name(path_views(originals@), views(old(sorted_preview_keys)@)[i]),
            ),
        exists|order: Seq<usize>|
            is_stable_order(
                sort_texts(path_views(originals@), views(old(sorted_preview_keys)@)),
                order,
            ) && views(final(sorted_preview_keys)@) == order.map_values(
                |i: usize| views(old(sorted_preview_keys)@)[i as int],
            ),
{
    match option {
        SortingOption::FileName => {},
    }
    let ghost keys = views(sorted_preview_keys@);
    let ghost texts = sort_texts(path_views(originals@), keys);
    let n = sorted_preview_keys.len();
    let mut ranked: Vec<RankedKey> = Vec::new();
    for i in 0..n
        invariant
            n == keys.len(),
            keys == views(sorted_preview_keys@),
            texts == sort_texts(path_views(originals@), keys),
            originals.wf(),
            views(ranked@) == Seq::new(i as nat, |j: int| (texts[j], j as usize)),
            forall|j: int|
                0 <= j < i && is_ascii_text(sort_name(path_views(originals@), #[trigger] keys[j]))
                    ==> texts[j] == ascii_lowercase(sort_name(path_views(originals@), keys[j])),
    {
        let text = preview_sort_text(originals, &sorted_preview_keys[i]);
        assert(keys[i as int] == sorted_preview_keys@[i as int]@);
        assert(texts[i as int] == sort_text(path_views(originals@), keys[i as int]));
        let ghost before = views(ranked@);
        ranked.push(RankedKey { text, place: i });
        assert(views(ranked@) == before.push((texts[i as int], i)));
        assert(views(ranked@) =~= Seq::new((i + 1) as nat, |j: int| (texts[j], j as usize)));
    }
    let ghost pairs = views(ranked@);
    let sorted = sort_unique(&ranked);
    let ghost s = views(sorted@);
    let ghost order = s.map_values(|x: (Seq<char>, usize)| x.1);
    // Every sorted entry is the pair of its own position.
    assert forall|j: int| 0 <= j < s.len() implies #[trigger] s[j].1 < n && s[j] == (
        texts[s[j].1 as int],
        s[j].1,
    ) by {
        assert(pairs.to_set().contains(s[j])) by {
            assert(s.to_set().contains(s[j]));
        }
        let k = choose|k: int| 0 <= k < pairs.len() && pairs[k] == s[j];
    }
    let mut out: Vec<String> = Vec::new();
    let m = sorted.len();
    for j in 0..m
        invariant
            m == s.len(),
            s == views(sorted@),
            n == keys.len(),
            keys == views(sorted_preview_keys@),
            forall|t: int| 0 <= t < s.len() ==> #[trigger] s[t].1 < n,
            views(out@) == Seq::new(j as nat, |t: int| keys[s[t].1 as int]),
    {
        let place = sorted[j].place;
        assert(s[j as int].1 == place);
        assert(place < n);
        let ghost before = views(out@);
        out.push(sorted_preview_keys[place].clone());
        assert(views(out@) == before.push(keys[place as int]));
        assert(views(out@) =~= Seq::new((j + 1) as nat, |t: int| keys[s[t].1 as int]));
    }
    proof {
        assert(order.no_duplicates()) by {
            assert forall|a: int, b: int| 0 <= a < order.len() && 0 <= b < order.len() && a != b
                implies order[a] != order[b] by {
                if order[a] == order[b] {
                    assert(s[a] == s[b]);
                    if a < b {
                        RankedKey::lemma_lt_irreflexive(s[a]);
                    } else {
                        RankedKey::lemma_lt_irreflexive(s[b]);
                    }
                }
            }
        }
        assert forall|i: usize| i < texts.len() implies #[trigger] order.contains(i) by {
            assert(pairs[i as int] == (texts[i as int], i));
            assert(pairs.to_set().contains(pairs[i as int]));
            assert(s.to_set().contains(pairs[i as int]));
            let j = choose|j: int| 0 <= j < s.len() && s[j] == pairs[i as int];
            assert(order[j] == i);
        }
        assert forall|a: int, b: int| 0 <= a < b < order.len() implies ranked_before(
            (texts[#[trigger] order[a] as int], order[a]),
            (texts[#[trigger] order[b] as int], order[b]),
        ) by {
            assert(RankedKey::key_lt(s[a], s[b]));
        }
        assert(views(out@) =~= order.map_values(|i: usize| keys[i as int]));
        // Both the order and the positions are the numbers below `n`, once each.
        assert(order.to_set() =~= set_int_range(0, n as int).map(|i: int| i as usize)) by {
            assert forall|x: usize| order.to_set().contains(x) implies set_int_range(
                0,
                n as int,
            ).map(|i: int| i as usize).contains(x) by {
                let j = choose|j: int| 0 <= j < order.len() && order[j] == x;
                assert(set_int_range(0, n as int).contains(x as int));
            }
            assert forall|x: usize| set_int_range(0, n as int).map(|i: int| i as usize).contains(
                x,
            ) implies order.to_set().contains(x) by {
                assert(order.contains(x));
            }
        }
        order.unique_seq_to_set();
        lemma_usize_range_len(n);
    }
    *sorted_preview_keys = out;
    assert(is_stable_order(texts, order));
    assert(views(sorted_preview_keys@) =~= order.map_values(
        |i: usize| views(old(sorted_preview_keys)@)[i as int],
    ));
}

/// There are `n` positions below `n`.
proof fn lemma_usize_range_len(n: usize)
    ensures
        set_int_range(0, n as int).map(|i: int| i as usize).len() == n,
        set_int_range(0, n as int).map(|i: int| i as usize).finite(),
{
    lemma_int_range(0, n as int);
    let f = |i: int| i as usize;
    assert forall|a: int, b: int|
        set_int_range(0, n as int).contains(a) && set_int_range(0, n as int).contains(b) && f(a)
            == f(b) implies a == b by {}
    vstd::set_lib::lemma_map_size(set_int_range(0, n as int), set_int_range(0, n as int).map(f), f);
}

/// Whether `key` is among `cached`.
pub open spec fn in_set(cached: Set<Seq<char>>) -> spec_fn(Seq<char>) -> bool {
    |k: Seq<char>| cached.contains(k)
}

/// The keys listed for `folder`, in order.
pub open spec fn listed_keys(previews: Map<PathView, Seq<Seq<char>>>, folder: PathView) -> Seq<
    Seq<char>,
> {
    if previews.contains_key(folder) {
        previews[folder]
    } else {
        Seq::empty()
    }
}

/// The preview keys to show: those filed under the selected folder whose
/// preview is cached, in the folder's order; none without a selection.
pub fn visible_preview_keys(
    model: &WorkspaceModel,
    selected: &Option<FolderPath>,
    cached: &KeyedSet<String>,
) -> (r: Vec<String>)
    requires
        model.wf(),
        cached.wf(),
    ensures
        views(r@) == match selected {
            Some(f) => listed_keys(model@.previews_by_folder, f@).filter(in_set(cached@)),
            None => Seq::empty(),
        },
{
    match selected {
        None => {
            let r: Vec<String> = Vec::new();
            assert(views(r@) =~= Seq::<Seq<char>>::empty());
            r
        },
        Some(folder) => {
            let listed = model.preview_keys_for_selected_folder(folder);
            let ghost ks = views(listed@);
            let mut r: Vec<String> = Vec::new();
            let n = listed.len();
            proof {
                reveal(Seq::filter);
                assert(ks.take(0).filter(in_set(cached@)) =~= Seq::<Seq<char>>::empty());
            }
            for i in 0..n
                invariant
                    n == ks.len(),
                    ks == views(listed@),
                    cached.wf(),
                    views(r@) == ks.take(i as int).filter(in_set(cached@)),
            {
                assert(ks.take(i + 1) =~= ks.take(i as int).push(ks[i as int]));
                proof {
                    ks.take(i as int).lemma_filter_push(ks[i as int], in_set(cached@));
                }
                if cached.contains(&listed[i]) {
                    r.push(listed[i].clone());
                }
                assert(views(r@) =~= ks.take(i + 1).filter(in_set(cached@)));
            }
            assert(ks.take(n as int) =~= ks);
            r
        },
    }
}

/// Adds `key` at the end of the shown keys unless it is shown already.
pub fn include_preview_key(sorted_preview_keys: &mut Vec<String>, key: String)
    ensures
        views(final(sorted_preview_keys)@) == with_key(views(old(sorted_preview_keys)@), key@),
{
    let ghost keys = views(sorted_preview_keys@);
    let n = sorted_preview_keys.len();
    for i in 0..n
        invariant
            n == keys.len(),
            keys == views(sorted_preview_keys@),
            forall|j: int| 0 <= j < i ==> keys[j] != key@,
    {
        if text_eq(&sorted_preview_keys[i], &key) {
            assert(keys[i as int] == key@);
            return;
        }
    }
    assert(!keys.contains(key@));
    sorted_preview_keys.push(key);
    assert(views(sorted_preview_keys@) =~= keys.push(key@));
}

/// Whether a preview whose original is at `original` belongs to the
/// selection: there is a selected folder and the original lies within it.
pub fn preview_in_selection(selected: &Option<FolderPath>, original: &FolderPath) -> (r: bool)
    ensures
        r == match selected {
            Some(f) => within_root(original@, f@),
            None => false,
        },
{
    match selected {
        Some(f) => is_within_root(original, f),
        None => false,
    }
}

/// Whether `key` is shown with an original that lies within `selected`.
pub open spec fn shown_within(shown: Map<Seq<char>, PathView>, selected: PathView) -> spec_fn(
    Seq<char>,
) -> bool {
    |k: Seq<char>| shown.contains_key(k) && within_root(shown[k], selected)
}

/// Which previews a folder's sync marks as having lost their original: of
/// the hashes the catalog no longer finds, those in the preview cache, and
/// those shown with an original within the selected folder, each in the order
/// of `deleted`.
pub fn missing_preview_marks(
    deleted: &Vec<String>,
    cached: &KeyedSet<String>,
    shown: &KeyedMap<String, FolderPath>,
    selected: &FolderPath,
) -> (r: (Vec<String>, Vec<String>))
    requires
        cached.wf(),
        shown.wf(),
    ensures
        views(r.0@) == views(deleted@).filter(in_set(cached@)),
        views(r.1@) == views(deleted@).filter(shown_within(path_views(shown@), selected@)),
{
    let ghost ds = views(deleted@);
    let ghost pv = path_views(shown@);
    let mut in_cache: Vec<String> = Vec::new();
    let mut in_view: Vec<String> = Vec::new();
    let n = deleted.len();
    proof {
        reveal(Seq::filter);
        assert(ds.take(0).filter(in_set(cached@)) =~= Seq::<Seq<char>>::empty());
        assert(ds.take(0).filter(shown_within(pv, selected@)) =~= Seq::<Seq<char>>::empty());
    }
    for i in 0..n
        invariant
            n == ds.len(),
            ds == views(deleted@),
            pv == path_views(shown@),
            cached.wf(),
            shown.wf(),
            views(in_cache@) == ds.take(i as int).filter(in_set(cached@)),
            views(in_view@) == ds.take(i as int).filter(shown_within(pv, selected@)),
    {
        let hash = &deleted[i];
        assert(ds.take(i + 1) =~= ds.take(i as int).push(ds[i as int]));
        proof {
            ds.take(i as int).lemma_filter_push(ds[i as int], in_set(cached@));
            ds.take(i as int).lemma_filter_push(ds[i as int], shown_within(pv, selected@));
        }
        if cached.contains(hash) {
            in_cache.push(hash.clone());
        }
        let shown_here = match shown.get(hash) {
            Some(original) => is_within_root(original, selected),
            None => false,
        };
        if shown_here {
            in_view.push(hash.clone());
        }
        assert(views(in_cache@) =~= ds.take(i + 1).filter(in_set(cached@)));
        assert(views(in_view@) =~= ds.take(i + 1).filter(shown_within(pv, selected@)));
    }
    assert(ds.take(n as int) =~= ds);
    (in_cache, in_view)
}

} // verus!
