//! Image totals of folder subtrees: what a folder's total is, and the facts
//! that the bottom-up roll-up relies on.
use vstd::prelude::*;
use crate::keyed::distinct;
use crate::path::{is_anchor, is_ancestor_or_self, spec_parent, spec_starts_with, PathView};

verus! {

/// The direct image count recorded for `f`, zero when none is recorded.
pub open spec fn direct_of(d: Map<PathView, usize>, f: PathView) -> nat {
    if d.contains_key(f) {
        d[f] as nat
    } else {
        0
    }
}

/// Whether `g` rolls up into `f` among the folders `keys`: `f` is reached from
/// `g` by taking parents, and every folder on the way, both ends included, is
/// one of `keys`.
pub open spec fn reaches(keys: Set<PathView>, g: PathView, f: PathView) -> bool {
    &&& is_ancestor_or_self(f, g)
    &&& forall|j: int| f.len() <= j <= g.len() ==> #[trigger] keys.contains(g.take(j))
}

/// Adds the direct count of a folder to an accumulated sum.
pub open spec fn add_direct(d: Map<PathView, usize>) -> spec_fn(nat, PathView) -> nat {
    |acc: nat, g: PathView| acc + direct_of(d, g)
}

/// The total image count of folder `f`: the direct counts of all folders
/// among `keys` that roll up into `f`, `f` itself included.
pub open spec fn subtree_total(keys: Set<PathView>, d: Map<PathView, usize>, f: PathView) -> nat {
    keys.filter(|g: PathView| reaches(keys, g, f)).fold(0nat, add_direct(d))
}

/// Sum of the direct counts of the elements of `ks` that satisfy `pred`.
pub open spec fn sum_where(
    ks: Seq<PathView>,
    d: Map<PathView, usize>,
    pred: spec_fn(PathView) -> bool,
) -> nat
    decreases ks.len(),
{
    if ks.len() == 0 {
        0
    } else {
        sum_where(ks.drop_last(), d, pred) + if pred(ks.last()) {
            direct_of(d, ks.last())
        } else {
            0
        }
    }
}

/// Whether `g` reaches `h` through folders of `done` only (`h` itself excepted).
pub open spec fn rolled_into(done: Set<PathView>, g: PathView, h: PathView) -> bool {
    &&& is_ancestor_or_self(h, g)
    &&& forall|j: int| h.len() < j <= g.len() ==> #[trigger] done.contains(g.take(j))
}

pub proof fn lemma_sum_ext(
    ks: Seq<PathView>,
    d: Map<PathView, usize>,
    p1: spec_fn(PathView) -> bool,
    p2: spec_fn(PathView) -> bool,
)
    requires
        forall|i: int| 0 <= i < ks.len() ==> p1(#[trigger] ks[i]) == p2(ks[i]),
    ensures
        sum_where(ks, d, p1) == sum_where(ks, d, p2),
    decreases ks.len(),
{
    if ks.len() > 0 {
        let ks1 = ks.drop_last();
        assert forall|i: int| 0 <= i < ks1.len() implies p1(#[trigger] ks1[i]) == p2(ks1[i]) by {
            assert(ks1[i] == ks[i]);
        }
        lemma_sum_ext(ks1, d, p1, p2);
        assert(ks.last() == ks[ks.len() - 1]);
    }
}

pub proof fn lemma_sum_split(
    ks: Seq<PathView>,
    d: Map<PathView, usize>,
    p: spec_fn(PathView) -> bool,
    p1: spec_fn(PathView) -> bool,
    p2: spec_fn(PathView) -> bool,
)
    requires
        forall|i: int|
            0 <= i < ks.len() ==> (p(#[trigger] ks[i]) == (p1(ks[i]) || p2(ks[i])) && !(p1(ks[i])
                && p2(ks[i]))),
    ensures
        sum_where(ks, d, p) == sum_where(ks, d, p1) + sum_where(ks, d, p2),
    decreases ks.len(),
{
    if ks.len() > 0 {
        let ks1 = ks.drop_last();
        assert forall|i: int| 0 <= i < ks1.len() implies (p(#[trigger] ks1[i]) == (p1(ks1[i]) || p2(
            ks1[i],
        )) && !(p1(ks1[i]) && p2(ks1[i]))) by {
            assert(ks1[i] == ks[i]);
        }
        lemma_sum_split(ks1, d, p, p1, p2);
        assert(ks.last() == ks[ks.len() - 1]);
    }
}

pub proof fn lemma_sum_mono(
    ks: Seq<PathView>,
    d: Map<PathView, usize>,
    p1: spec_fn(PathView) -> bool,
    p2: spec_fn(PathView) -> bool,
)
    requires
        forall|i: int| 0 <= i < ks.len() ==> p1(#[trigger] ks[i]) ==> p2(ks[i]),
    ensures
        sum_where(ks, d, p1) <= sum_where(ks, d, p2),
    decreases ks.len(),
{
    if ks.len() > 0 {
        let ks1 = ks.drop_last();
        assert forall|i: int| 0 <= i < ks1.len() && p1(#[trigger] ks1[i]) implies p2(ks1[i]) by {
            assert(ks1[i] == ks[i]);
        }
        lemma_sum_mono(ks1, d, p1, p2);
        assert(ks.last() == ks[ks.len() - 1]);
    }
}

/// In a sequence without repeats, summing over the single value `h` gives its direct count.
pub proof fn lemma_sum_single(ks: Seq<PathView>, d: Map<PathView, usize>, h: PathView)
    requires
        distinct(ks),
    ensures
        sum_where(ks, d, |g: PathView| g == h) == if ks.contains(h) {
            direct_of(d, h)
        } else {
            0
        },
    decreases ks.len(),
{
    if ks.len() > 0 {
        let ks1 = ks.drop_last();
        assert(distinct(ks1)) by {
            assert forall|i: int, j: int|
                0 <= i < ks1.len() && 0 <= j < ks1.len() && i != j implies ks1[i] != ks1[j] by {
                assert(ks1[i] == ks[i] && ks1[j] == ks[j]);
            }
        }
        lemma_sum_single(ks1, d, h);
        if ks.last() == h {
            assert(!ks1.contains(h)) by {
                if ks1.contains(h) {
                    let i = choose|i: int| 0 <= i < ks1.len() && ks1[i] == h;
                    assert(ks[i] == ks[ks.len() - 1]);
                }
            }
            assert(ks.contains(h)) by {
                assert(ks[ks.len() - 1] == h);
            }
        } else {
            assert(ks.contains(h) == ks1.contains(h)) by {
                if ks.contains(h) {
                    let i = choose|i: int| 0 <= i < ks.len() && ks[i] == h;
                    assert(i != ks.len() - 1);
                    assert(ks1[i] == h);
                }
                if ks1.contains(h) {
                    let i = choose|i: int| 0 <= i < ks1.len() && ks1[i] == h;
                    assert(ks[i] == h);
                }
            }
        }
    }
}

proof fn lemma_add_direct_commutative(d: Map<PathView, usize>)
    ensures
        vstd::set::fold::is_fun_commutative(add_direct(d)),
{
}

/// Over a sequence without repeats, the sum equals the fold over the set of its elements.
pub proof fn lemma_sum_is_fold(
    ks: Seq<PathView>,
    d: Map<PathView, usize>,
    pred: spec_fn(PathView) -> bool,
)
    requires
        distinct(ks),
    ensures
        sum_where(ks, d, pred) == ks.to_set().filter(pred).fold(0nat, add_direct(d)),
    decreases ks.len(),
{
    lemma_add_direct_commutative(d);
    if ks.len() == 0 {
        assert(ks.to_set().filter(pred) =~= Set::<PathView>::empty());
        vstd::set::fold::lemma_fold_empty(0nat, add_direct(d));
    } else {
        let ks1 = ks.drop_last();
        let x = ks.last();
        assert(distinct(ks1)) by {
            assert forall|i: int, j: int|
                0 <= i < ks1.len() && 0 <= j < ks1.len() && i != j implies ks1[i] != ks1[j] by {
                assert(ks1[i] == ks[i] && ks1[j] == ks[j]);
            }
        }
        lemma_sum_is_fold(ks1, d, pred);
        assert(ks =~= ks1.push(x));
        crate::keyed::lemma_push_to_set(ks1, x);
        assert(!ks1.to_set().contains(x)) by {
            if ks1.to_set().contains(x) {
                let i = choose|i: int| 0 <= i < ks1.len() && ks1[i] == x;
                assert(ks[i] == ks[ks.len() - 1]);
            }
        }
        let s1 = ks1.to_set().filter(pred);
        ks1.to_set().lemma_len_filter(pred);
        if pred(x) {
            assert(ks.to_set().filter(pred) =~= s1.insert(x));
            vstd::set::fold::lemma_fold_insert(s1, 0nat, add_direct(d), x);
        } else {
            assert(ks.to_set().filter(pred) =~= s1);
        }
    }
}

/// Rolling up the folder `x` into its parent `px`: the folders that now reach
/// `px` through finished folders are those that did before, plus those that
/// reached `x`; nothing else changes.
pub proof fn lemma_roll_up_step(
    done: Set<PathView>,
    x: PathView,
    g: PathView,
    h: PathView,
)
    requires
        !done.contains(x),
        forall|p: PathView| #[trigger] done.contains(p) ==> p.len() >= x.len(),
    ensures
        spec_parent(x) == Some(h) ==> (rolled_into(done.insert(x), g, h) == (rolled_into(
            done,
            g,
            h,
        ) || rolled_into(done, g, x)) && !(rolled_into(done, g, h) && rolled_into(done, g, x))),
        spec_parent(x) != Some(h) ==> rolled_into(done.insert(x), g, h) == rolled_into(done, g, h),
{
    let done2 = done.insert(x);
    if spec_parent(x) == Some(h) {
        if g.len() >= x.len() && g.take(x.len() as int) == x {
            if rolled_into(done2, g, h) {
                assert forall|j: int| x.len() < j <= g.len() implies #[trigger] done.contains(
                    g.take(j),
                ) by {
                    assert(done2.contains(g.take(j)));
                    assert(g.take(j).len() != x.len());
                }
                assert(g.take(x.len() as int) =~= x);
                assert(spec_starts_with(g, x)) by {
                    assert(g.take(x.len() as int) == x);
                }
            }
            if rolled_into(done, g, x) {
                assert(spec_starts_with(g, h)) by {
                    assert(g.take(h.len() as int) =~= x.take(h.len() as int));
                    assert(h =~= x.take(h.len() as int));
                }
                assert(g[h.len() as int] == x.last());
                assert forall|j: int| h.len() < j <= g.len() implies #[trigger] done2.contains(
                    g.take(j),
                ) by {
                    if j == x.len() {
                    } else {
                        assert(done.contains(g.take(j)));
                    }
                }
            }
            assert(!rolled_into(done, g, h)) by {
                if rolled_into(done, g, h) {
                    assert(done.contains(g.take(x.len() as int)));
                }
            }
        } else {
            assert(!rolled_into(done, g, x)) by {
                if rolled_into(done, g, x) {
                    assert(g.take(x.len() as int) == x);
                }
            }
            if rolled_into(done2, g, h) {
                assert forall|j: int| h.len() < j <= g.len() implies #[trigger] done.contains(
                    g.take(j),
                ) by {
                    assert(done2.contains(g.take(j)));
                    if g.take(j) == x {
                        assert(j == x.len());
                    }
                }
            }
        }
    } else {
        if rolled_into(done2, g, h) && !rolled_into(done, g, h) {
            let j = choose|j: int| h.len() < j <= g.len() && !#[trigger] done.contains(g.take(j));
            assert(done2.contains(g.take(j)));
            assert(g.take(j) == x);
            assert(j == x.len());
            // `x` is strictly inside the chain, so its parent is in the chain as well.
            assert(x.len() > 0);
            assert(!is_anchor(g[j - 1]));
            assert(x.last() == g[j - 1]);
            assert(spec_parent(x) == Some(x.drop_last()));
            assert(x.drop_last() =~= g.take(j - 1));
            if j - 1 > h.len() {
                assert(done2.contains(g.take(j - 1)));
                assert(g.take(j - 1).len() < x.len());
            } else {
                assert(h =~= g.take(h.len() as int));
            }
        }
    }
}

} // verus!
