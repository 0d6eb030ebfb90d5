//! Keys with a total order, and the small maps, sets and sorting built on them.
use vstd::prelude::*;

verus! {

/// A value that can be compared, ordered and copied through its view.
pub trait OrderedKey: View + Sized {
    /// Strict order on views.
    spec fn key_lt(a: <Self as View>::V, b: <Self as View>::V) -> bool;

    proof fn lemma_lt_irreflexive(a: <Self as View>::V)
        ensures
            !Self::key_lt(a, a),
    ;

    proof fn lemma_lt_transitive(a: <Self as View>::V, b: <Self as View>::V, c: <Self as View>::V)
        requires
            Self::key_lt(a, b),
            Self::key_lt(b, c),
        ensures
            Self::key_lt(a, c),
    ;

    proof fn lemma_lt_total(a: <Self as View>::V, b: <Self as View>::V)
        requires
            a != b,
        ensures
            Self::key_lt(a, b) || Self::key_lt(b, a),
    ;

    fn key_less(&self, other: &Self) -> (r: bool)
        ensures
            r == Self::key_lt(self@, other@),
    ;

    fn key_same(&self, other: &Self) -> (r: bool)
        ensures
            r == (self@ == other@),
    ;

    fn key_copy(&self) -> (r: Self)
        ensures
            r@ == self@,
    ;
}

/// The views of a sequence of values.
pub open spec fn views<T: View>(s: Seq<T>) -> Seq<T::V> {
    s.map_values(|x: T| x@)
}

/// No value occurs twice.
pub open spec fn distinct<A>(s: Seq<A>) -> bool {
    forall|i: int, j: int| 0 <= i < s.len() && 0 <= j < s.len() && i != j ==> s[i] != s[j]
}

/// Strictly increasing in the key order.
pub open spec fn strictly_sorted<K: OrderedKey>(s: Seq<<K as View>::V>) -> bool {
    forall|i: int, j: int| 0 <= i < j < s.len() ==> K::key_lt(#[trigger] s[i], #[trigger] s[j])
}

/// Two strictly sorted sequences with the same elements are equal.
pub proof fn lemma_sorted_unique<K: OrderedKey>(a: Seq<<K as View>::V>, b: Seq<<K as View>::V>)
    requires
        strictly_sorted::<K>(a),
        strictly_sorted::<K>(b),
        a.to_set() == b.to_set(),
    ensures
        a == b,
    decreases a.len() + b.len(),
{
    if a.len() == 0 {
        if b.len() > 0 {
            assert(b.to_set().contains(b[0]));
        }
        assert(a =~= b);
    } else if b.len() == 0 {
        assert(a.to_set().contains(a[0]));
    } else {
        // The first elements are the least ones, so they coincide.
        assert(a.to_set().contains(a[0]));
        assert(b.to_set().contains(b[0]));
        let ia = choose|i: int| 0 <= i < a.len() && a[i] == b[0];
        let ib = choose|i: int| 0 <= i < b.len() && b[i] == a[0];
        if a[0] != b[0] {
            assert(ia > 0);
            assert(ib > 0);
            assert(K::key_lt(a[0], b[0]));
            assert(K::key_lt(b[0], a[0]));
            K::lemma_lt_transitive(a[0], b[0], a[0]);
            K::lemma_lt_irreflexive(a[0]);
        }
        let a1 = a.drop_first();
        let b1 = b.drop_first();
        assert forall|x| a1.to_set().contains(x) implies b1.to_set().contains(x) by {
            let i = choose|i: int| 0 <= i < a1.len() && a1[i] == x;
            assert(a[i + 1] == x);
            assert(K::key_lt(a[0], x));
            assert(b.to_set().contains(x));
            let j = choose|j: int| 0 <= j < b.len() && b[j] == x;
            if j == 0 {
                K::lemma_lt_irreflexive(x);
            }
            assert(b1[j - 1] == x);
        }
        assert forall|x| b1.to_set().contains(x) implies a1.to_set().contains(x) by {
            let i = choose|i: int| 0 <= i < b1.len() && b1[i] == x;
            assert(b[i + 1] == x);
            assert(K::key_lt(b[0], x));
            assert(a.to_set().contains(x));
            let j = choose|j: int| 0 <= j < a.len() && a[j] == x;
            if j == 0 {
                K::lemma_lt_irreflexive(x);
            }
            assert(a1[j - 1] == x);
        }
        assert(a1.to_set() =~= b1.to_set());
        lemma_sorted_unique::<K>(a1, b1);
        assert(a =~= seq![a[0]] + a1);
        assert(b =~= seq![b[0]] + b1);
    }
}

/// Removing the element at `i` from a sequence without repeats removes its value from the set.
pub proof fn lemma_remove_distinct<A>(s: Seq<A>, i: int)
    requires
        distinct(s),
        0 <= i < s.len(),
    ensures
        distinct(s.remove(i)),
        s.remove(i).to_set() == s.to_set().remove(s[i]),
{
    let r = s.remove(i);
    assert forall|a: int, b: int| 0 <= a < r.len() && 0 <= b < r.len() && a != b implies r[a]
        != r[b] by {
        let sa = if a < i { a } else { a + 1 };
        let sb = if b < i { b } else { b + 1 };
        assert(r[a] == s[sa]);
        assert(r[b] == s[sb]);
    }
    assert forall|x| r.to_set().contains(x) <==> s.to_set().remove(s[i]).contains(x) by {
        if r.to_set().contains(x) {
            let j = choose|j: int| 0 <= j < r.len() && r[j] == x;
            let sj = if j < i { j } else { j + 1 };
            assert(s[sj] == x);
            assert(sj != i);
        }
        if s.to_set().remove(s[i]).contains(x) {
            let j = choose|j: int| 0 <= j < s.len() && s[j] == x;
            assert(j != i);
            if j < i {
                assert(r[j] == x);
            } else {
                assert(r[j - 1] == x);
            }
        }
    }
    assert(r.to_set() =~= s.to_set().remove(s[i]));
}

/// Appending to a sequence adds the value to its set.
pub proof fn lemma_push_to_set<A>(s: Seq<A>, x: A)
    ensures
        s.push(x).to_set() == s.to_set().insert(x),
{
    assert forall|y| s.push(x).to_set().contains(y) <==> s.to_set().insert(x).contains(y) by {
        if s.push(x).to_set().contains(y) {
            let i = choose|i: int| 0 <= i < s.push(x).len() && s.push(x)[i] == y;
            if i < s.len() {
                assert(s[i] == y);
            }
        }
        if s.to_set().contains(y) {
            let i = choose|i: int| 0 <= i < s.len() && s[i] == y;
            assert(s.push(x)[i] == y);
        }
        assert(s.push(x)[s.len() as int] == x);
    }
    assert(s.push(x).to_set() =~= s.to_set().insert(x));
}

/// Inserting into a sequence adds the value to its set.
pub proof fn lemma_insert_to_set<A>(s: Seq<A>, k: int, x: A)
    requires
        0 <= k <= s.len(),
    ensures
        s.insert(k, x).to_set() == s.to_set().insert(x),
{
    let t = s.insert(k, x);
    assert forall|y| t.to_set().contains(y) <==> s.to_set().insert(x).contains(y) by {
        if t.to_set().contains(y) {
            let i = choose|i: int| 0 <= i < t.len() && t[i] == y;
            if i < k {
                assert(s[i] == y);
            } else if i > k {
                assert(s[i - 1] == y);
            }
        }
        if s.to_set().contains(y) {
            let i = choose|i: int| 0 <= i < s.len() && s[i] == y;
            if i < k {
                assert(t[i] == y);
            } else {
                assert(t[i + 1] == y);
            }
        }
        assert(t[k] == x);
    }
    assert(t.to_set() =~= s.to_set().insert(x));
}

/// A strictly sorted sequence has no repeated value.
pub proof fn lemma_sorted_distinct<K: OrderedKey>(s: Seq<<K as View>::V>)
    requires
        strictly_sorted::<K>(s),
    ensures
        distinct(s),
{
    assert forall|i: int, j: int| 0 <= i < s.len() && 0 <= j < s.len() && i != j implies s[i]
        != s[j] by {
        if i < j {
            K::lemma_lt_irreflexive(s[i]);
        } else {
            K::lemma_lt_irreflexive(s[j]);
        }
    }
}

/// The values of `v`, each once, in increasing order (`sort` followed by `dedup`).
pub fn sort_unique<K: OrderedKey>(v: &Vec<K>) -> (r: Vec<K>)
    ensures
        strictly_sorted::<K>(views(r@)),
        views(r@).to_set() == views(v@).to_set(),
{
    let mut r: Vec<K> = Vec::new();
    let n = v.len();
    for i in 0..n
        invariant
            n == v@.len(),
            strictly_sorted::<K>(views(r@)),
            views(r@).to_set() == views(v@.take(i as int)).to_set(),
    {
        let x = &v[i];
        let mut pos: usize = 0;
        while pos < r.len() && r[pos].key_less(x)
            invariant
                pos <= r@.len(),
                forall|j: int| 0 <= j < pos ==> K::key_lt(#[trigger] r@[j]@, x@),
            decreases r@.len() - pos,
        {
            pos = pos + 1;
        }
        let ghost old_r = views(r@);
        assert(views(v@.take(i + 1)) =~= views(v@.take(i as int)).push(x@));
        proof {
            lemma_push_to_set(views(v@.take(i as int)), x@);
        }
        if pos < r.len() && r[pos].key_same(x) {
            assert(old_r[pos as int] == x@);
            assert(old_r.to_set().contains(x@));
            assert(views(r@).to_set() =~= views(v@.take(i + 1)).to_set());
        } else {
            proof {
                if pos < r@.len() {
                    K::lemma_lt_total(r@[pos as int]@, x@);
                }
            }
            r.insert(pos, x.key_copy());
            assert(views(r@) =~= old_r.insert(pos as int, x@));
            proof {
                lemma_insert_to_set(old_r, pos as int, x@);
            }
            assert forall|a: int, b: int| 0 <= a < b < views(r@).len() implies K::key_lt(
                #[trigger] views(r@)[a],
                #[trigger] views(r@)[b],
            ) by {
                if a < pos && b == pos {
                } else if a < pos && b > pos {
                    assert(old_r[b - 1] == views(r@)[b]);
                } else if a == pos && b > pos {
                    if b - 1 > pos {
                        K::lemma_lt_transitive(x@, old_r[pos as int], old_r[b - 1]);
                    }
                } else if a > pos {
                    assert(old_r[a - 1] == views(r@)[a]);
                    assert(old_r[b - 1] == views(r@)[b]);
                } else {
                }
            }
            assert(views(r@).to_set() =~= views(v@.take(i + 1)).to_set());
        }
    }
    assert(v@.take(n as int) =~= v@);
    r
}

/// A finite map held as two parallel vectors with distinct keys.
pub struct KeyedMap<K: OrderedKey, V> {
    keys: Vec<K>,
    vals: Vec<V>,
}

/// The map given by parallel key and value sequences (the first match wins).
pub open spec fn map_of<KV, V>(ks: Seq<KV>, vs: Seq<V>) -> Map<KV, V> {
    Map::new(
        |k: KV| exists|i: int| 0 <= i < ks.len() && ks[i] == k,
        |k: KV| vs[choose|i: int| 0 <= i < ks.len() && ks[i] == k],
    )
}

pub proof fn lemma_map_of<KV, V>(ks: Seq<KV>, vs: Seq<V>)
    requires
        distinct(ks),
    ensures
        forall|i: int| 0 <= i < ks.len() ==> #[trigger] map_of(ks, vs).contains_key(ks[i]),
        forall|i: int| 0 <= i < ks.len() ==> #[trigger] map_of(ks, vs)[ks[i]] == vs[i],
        forall|k: KV| #[trigger]
            map_of(ks, vs).contains_key(k) ==> exists|i: int| 0 <= i < ks.len() && ks[i] == k,
{
    assert forall|i: int| 0 <= i < ks.len() implies #[trigger] map_of(ks, vs)[ks[i]] == vs[i] by {
        assert(map_of(ks, vs).contains_key(ks[i]));
        let j = choose|j: int| 0 <= j < ks.len() && ks[j] == ks[i];
        assert(j == i);
    }
}

impl<K: OrderedKey, V> KeyedMap<K, V> {
    /// The keys and values line up and no key occurs twice.
    pub closed spec fn wf(&self) -> bool {
        &&& self.keys@.len() == self.vals@.len()
        &&& distinct(views(self.keys@))
    }

    /// The views of the keys, in storage order.
    pub closed spec fn key_seq(&self) -> Seq<<K as View>::V> {
        views(self.keys@)
    }

    /// The values, in storage order.
    pub closed spec fn val_seq(&self) -> Seq<V> {
        self.vals@
    }

    /// How the stored sequences make up the map.
    pub proof fn lemma_layout(&self)
        requires
            self.wf(),
        ensures
            self.key_seq().len() == self.val_seq().len(),
            distinct(self.key_seq()),
            self@ == map_of(self.key_seq(), self.val_seq()),
            forall|i: int|
                0 <= i < self.key_seq().len() ==> #[trigger] self@.contains_key(self.key_seq()[i]),
            forall|i: int|
                0 <= i < self.key_seq().len() ==> #[trigger] self@[self.key_seq()[i]]
                    == self.val_seq()[i],
            forall|k: <K as View>::V| #[trigger]
                self@.contains_key(k) ==> exists|i: int|
                    0 <= i < self.key_seq().len() && self.key_seq()[i] == k,
            self@.dom().finite(),
    {
        lemma_map_of(self.key_seq(), self.val_seq());
        assert(self@.dom() =~= self.key_seq().to_set());
    }

    pub fn new() -> (r: Self)
        ensures
            r.wf(),
            r@ == Map::<<K as View>::V, V>::empty(),
            r.key_seq() == Seq::<<K as View>::V>::empty(),
    {
        let r = KeyedMap { keys: Vec::new(), vals: Vec::new() };
        assert(r@ =~= Map::<<K as View>::V, V>::empty());
        assert(r.key_seq() =~= Seq::<<K as View>::V>::empty());
        r
    }

    pub fn len(&self) -> (r: usize)
        requires
            self.wf(),
        ensures
            r == self.key_seq().len(),
    {
        self.keys.len()
    }

    /// The position of `k`, if it is a key.
    pub fn find(&self, k: &K) -> (r: Option<usize>)
        requires
            self.wf(),
        ensures
            match r {
                Some(i) => i < self.key_seq().len() && self.key_seq()[i as int] == k@,
                None => !self@.contains_key(k@),
            },
    {
        proof {
            self.lemma_layout();
        }
        let n = self.keys.len();
        for i in 0..n
            invariant
                n == self.key_seq().len(),
                self.key_seq() == views(self.keys@),
                forall|j: int| 0 <= j < i ==> self.key_seq()[j] != k@,
        {
            if self.keys[i].key_same(k) {
                return Some(i);
            }
        }
        None
    }

    pub fn contains_key(&self, k: &K) -> (r: bool)
        requires
            self.wf(),
        ensures
            r == self@.contains_key(k@),
    {
        proof {
            self.lemma_layout();
        }
        match self.find(k) {
            Some(i) => true,
            None => false,
        }
    }

    pub fn get(&self, k: &K) -> (r: Option<&V>)
        requires
            self.wf(),
        ensures
            match r {
                Some(v) => self@.contains_key(k@) && self@[k@] == *v,
                None => !self@.contains_key(k@),
            },
    {
        proof {
            self.lemma_layout();
        }
        match self.find(k) {
            Some(i) => Some(&self.vals[i]),
            None => None,
        }
    }

    pub fn key_at(&self, i: usize) -> (r: &K)
        requires
            self.wf(),
            i < self.key_seq().len(),
        ensures
            r@ == self.key_seq()[i as int],
    {
        &self.keys[i]
    }

    pub fn value_at(&self, i: usize) -> (r: &V)
        requires
            self.wf(),
            i < self.key_seq().len(),
        ensures
            *r == self.val_seq()[i as int],
    {
        &self.vals[i]
    }

    /// Replaces the value stored at position `i`.
    pub fn set_value_at(&mut self, i: usize, v: V)
        requires
            old(self).wf(),
            i < old(self).key_seq().len(),
        ensures
            final(self).wf(),
            final(self).key_seq() == old(self).key_seq(),
            final(self).val_seq() == old(self).val_seq().update(i as int, v),
            final(self)@ == old(self)@.insert(old(self).key_seq()[i as int], v),
    {
        proof {
            self.lemma_layout();
        }
        let ghost k = self.key_seq()[i as int];
        let ghost old_map = self@;
        self.vals.set(i, v);
        proof {
            self.lemma_layout();
            assert(self@ =~= old_map.insert(k, v));
        }
    }

    /// Adds a key that is not present yet.
    pub fn push_new(&mut self, k: K, v: V)
        requires
            old(self).wf(),
            !old(self)@.contains_key(k@),
        ensures
            final(self).wf(),
            final(self).key_seq() == old(self).key_seq().push(k@),
            final(self).val_seq() == old(self).val_seq().push(v),
            final(self)@ == old(self)@.insert(k@, v),
    {
        proof {
            self.lemma_layout();
        }
        let ghost old_map = self@;
        let ghost kv = k@;
        let ghost old_keys = self.key_seq();
        assert(forall|j: int| 0 <= j < old_keys.len() ==> old_keys[j] != kv);
        self.keys.push(k);
        self.vals.push(v);
        assert(views(self.keys@) =~= old_keys.push(kv));
        proof {
            self.lemma_layout();
            let ks = self.key_seq();
            assert forall|kk| #[trigger] self@.contains_key(kk) <==> old_map.insert(
                kv,
                v,
            ).contains_key(kk) by {
                if self@.contains_key(kk) {
                    let j = choose|j: int| 0 <= j < ks.len() && ks[j] == kk;
                    if j < old_keys.len() {
                        assert(old_keys[j] == kk);
                    }
                }
                if old_map.contains_key(kk) {
                    let j = choose|j: int| 0 <= j < old_keys.len() && old_keys[j] == kk;
                    assert(ks[j] == kk);
                }
                assert(ks[old_keys.len() as int] == kv);
            }
            assert forall|kk| #[trigger] self@.contains_key(kk) implies self@[kk] == old_map.insert(
                kv,
                v,
            )[kk] by {
                let j = choose|j: int| 0 <= j < ks.len() && ks[j] == kk;
                if j < old_keys.len() {
                    assert(old_keys[j] == kk);
                    assert(self.val_seq()[j] == old_map[kk]);
                }
            }
            assert(self@ =~= old_map.insert(kv, v));
        }
    }

    /// Sets the value of `k`, adding the key if needed.
    pub fn insert(&mut self, k: K, v: V)
        requires
            old(self).wf(),
        ensures
            final(self).wf(),
            final(self)@ == old(self)@.insert(k@, v),
            final(self).key_seq() == if old(self)@.contains_key(k@) {
                old(self).key_seq()
            } else {
                old(self).key_seq().push(k@)
            },
    {
        proof {
            self.lemma_layout();
        }
        match self.find(&k) {
            Some(i) => {
                proof {
                    self.lemma_layout();
                }
                self.set_value_at(i, v);
            },
            None => {
                self.push_new(k, v);
            },
        }
    }

    /// Removes `k` if present.
    pub fn remove(&mut self, k: &K)
        requires
            old(self).wf(),
        ensures
            final(self).wf(),
            final(self)@ == old(self)@.remove(k@),
    {
        proof {
            self.lemma_layout();
        }
        let ghost old_map = self@;
        match self.find(k) {
            Some(i) => {
                let ghost old_keys = self.key_seq();
                let ghost old_vals = self.val_seq();
                self.keys.remove(i);
                self.vals.remove(i);
                assert(views(self.keys@) =~= old_keys.remove(i as int));
                assert(self.vals@ =~= old_vals.remove(i as int));
                proof {
                    self.lemma_layout();
                    assert forall|kk| #[trigger] self@.contains_key(kk) <==> old_map.remove(
                        k@,
                    ).contains_key(kk) by {
                        if self@.contains_key(kk) {
                            let j = choose|j: int|
                                0 <= j < self.key_seq().len() && self.key_seq()[j] == kk;
                            if j < i {
                                assert(old_keys[j] == kk);
                            } else {
                                assert(old_keys[j + 1] == kk);
                            }
                        }
                        if old_map.remove(k@).contains_key(kk) {
                            let j = choose|j: int| 0 <= j < old_keys.len() && old_keys[j] == kk;
                            if j < i {
                                assert(self.key_seq()[j] == kk);
                            } else {
                                assert(j != i);
                                assert(self.key_seq()[j - 1] == kk);
                            }
                        }
                    }
                    assert forall|kk| #[trigger] self@.contains_key(kk) implies self@[kk]
                        == old_map.remove(k@)[kk] by {
                        let j = choose|j: int|
                            0 <= j < self.key_seq().len() && self.key_seq()[j] == kk;
                        if j < i {
                            assert(old_keys[j] == kk);
                        } else {
                            assert(old_keys[j + 1] == kk);
                        }
                    }
                    assert(self@ =~= old_map.remove(k@));
                }
            },
            None => {
                assert(old_map.remove(k@) =~= old_map);
            },
        }
    }

    pub fn clear(&mut self)
        requires
            old(self).wf(),
        ensures
            final(self).wf(),
            final(self)@ == Map::<<K as View>::V, V>::empty(),
            final(self).key_seq() == Seq::<<K as View>::V>::empty(),
    {
        self.keys.clear();
        self.vals.clear();
        proof {
            assert(self@ =~= Map::<<K as View>::V, V>::empty());
            assert(self.key_seq() =~= Seq::<<K as View>::V>::empty());
        }
    }

    /// Takes the map apart into its keys and values.
    pub fn into_parts(self) -> (r: (Vec<K>, Vec<V>))
        requires
            self.wf(),
        ensures
            views(r.0@) == self.key_seq(),
            r.1@ == self.val_seq(),
    {
        (self.keys, self.vals)
    }
}

impl<K: OrderedKey, V> View for KeyedMap<K, V> {
    type V = Map<<K as View>::V, V>;

    closed spec fn view(&self) -> Map<<K as View>::V, V> {
        map_of(views(self.keys@), self.vals@)
    }
}

/// The entries of `m` whose key is also a key of `keep`.
pub fn retain_keys_of<K: OrderedKey, V, W>(m: KeyedMap<K, V>, keep: &KeyedMap<K, W>) -> (r: KeyedMap<K, V>)
    requires
        m.wf(),
        keep.wf(),
    ensures
        r.wf(),
        r@ == m@.restrict(keep@.dom()),
{
    proof {
        m.lemma_layout();
    }
    let ghost old_map = m@;
    let ghost ks = m.key_seq();
    let ghost vs = m.val_seq();
    let n = m.len();
    let (mut keys, mut vals) = m.into_parts();
    let mut r: KeyedMap<K, V> = KeyedMap::new();
    let mut i: usize = 0;
    while i < n
        invariant
            n == ks.len(),
            ks.len() == vs.len(),
            distinct(ks),
            i <= n,
            views(keys@) == ks.skip(i as int),
            vals@ == vs.skip(i as int),
            forall|j: int| 0 <= j < ks.len() ==> old_map.contains_key(#[trigger] ks[j]) && old_map[ks[j]] == vs[j],
            keep.wf(),
            r.wf(),
            r@ == old_map.restrict(keep@.dom().intersect(ks.take(i as int).to_set())),
        decreases n - i,
    {
        assert(views(keys@)[0] == ks[i as int]);
        assert(keys@.len() == views(keys@).len());
        let ghost kview = views(keys@);
        let k = keys.remove(0);
        let v = vals.remove(0);
        assert(k@ == ks[i as int]);
        assert(v == vs[i as int]);
        assert(views(keys@) =~= kview.drop_first());
        assert(views(keys@) =~= ks.skip(i + 1));
        assert(vals@ =~= vs.skip(i + 1));
        let ghost before = ks.take(i as int);
        assert(ks.take(i + 1) =~= before.push(ks[i as int]));
        proof {
            lemma_push_to_set(before, ks[i as int]);
            r.lemma_layout();
        }
        if keep.contains_key(&k) {
            assert(!r@.contains_key(k@)) by {
                if r@.contains_key(k@) {
                    let j = choose|j: int| 0 <= j < before.len() && before[j] == k@;
                    assert(ks[j] == ks[i as int]);
                }
            }
            r.push_new(k, v);
            assert(r@ =~= old_map.restrict(keep@.dom().intersect(ks.take(i + 1).to_set())));
        } else {
            assert(r@ =~= old_map.restrict(keep@.dom().intersect(ks.take(i + 1).to_set())));
        }
        i = i + 1;
    }
    proof {
        assert(ks.take(n as int) =~= ks);
        assert(keep@.dom().intersect(ks.to_set()) =~= keep@.dom().intersect(old_map.dom())) by {
            assert forall|k| old_map.dom().contains(k) implies ks.to_set().contains(k) by {
                m.lemma_layout();
            }
        }
        assert(r@ =~= old_map.restrict(keep@.dom()));
    }
    r
}

/// Sets every entry of `other` in `m`, overriding what `m` held for its keys.
pub fn extend_map<K: OrderedKey, V: Copy>(m: &mut KeyedMap<K, V>, other: &KeyedMap<K, V>)
    requires
        old(m).wf(),
        other.wf(),
    ensures
        final(m).wf(),
        final(m)@ == old(m)@.union_prefer_right(other@),
{
    proof {
        other.lemma_layout();
    }
    let ghost ks = other.key_seq();
    let ghost start = m@;
    let n = other.len();
    for i in 0..n
        invariant
            n == ks.len(),
            ks == other.key_seq(),
            other.wf(),
            distinct(ks),
            forall|j: int| 0 <= j < ks.len() ==> other@.contains_key(#[trigger] ks[j]) && other@[ks[j]] == other.val_seq()[j],
            m.wf(),
            m@ == start.union_prefer_right(other@.restrict(ks.take(i as int).to_set())),
    {
        let k = other.key_at(i).key_copy();
        let v = *other.value_at(i);
        let ghost before = ks.take(i as int);
        assert(ks.take(i + 1) =~= before.push(ks[i as int]));
        proof {
            lemma_push_to_set(before, ks[i as int]);
        }
        m.insert(k, v);
        assert(m@ =~= start.union_prefer_right(other@.restrict(ks.take(i + 1).to_set())));
    }
    proof {
        assert(ks.take(n as int) =~= ks);
        assert(other@.restrict(ks.to_set()) =~= other@) by {
            assert forall|k| other@.contains_key(k) implies ks.to_set().contains(k) by {
            }
        }
    }
}

/// A finite set held as a vector without repeats.
pub struct KeyedSet<K: OrderedKey> {
    items: Vec<K>,
}

impl<K: OrderedKey> KeyedSet<K> {
    /// No element occurs twice.
    pub closed spec fn wf(&self) -> bool {
        distinct(views(self.items@))
    }

    /// The views of the elements, in storage order.
    pub closed spec fn item_seq(&self) -> Seq<<K as View>::V> {
        views(self.items@)
    }

    pub proof fn lemma_layout(&self)
        requires
            self.wf(),
        ensures
            distinct(self.item_seq()),
            self@ == self.item_seq().to_set(),
            self@.finite(),
    {
    }

    pub fn new() -> (r: Self)
        ensures
            r.wf(),
            r@ == Set::<<K as View>::V>::empty(),
            r.item_seq() == Seq::<<K as View>::V>::empty(),
    {
        let r = KeyedSet { items: Vec::new() };
        assert(r@ =~= Set::<<K as View>::V>::empty());
        assert(r.item_seq() =~= Seq::<<K as View>::V>::empty());
        r
    }

    pub fn len(&self) -> (r: usize)
        requires
            self.wf(),
        ensures
            r == self.item_seq().len(),
    {
        self.items.len()
    }

    pub fn item_at(&self, i: usize) -> (r: &K)
        requires
            self.wf(),
            i < self.item_seq().len(),
        ensures
            r@ == self.item_seq()[i as int],
    {
        &self.items[i]
    }

    pub fn contains(&self, k: &K) -> (r: bool)
        requires
            self.wf(),
        ensures
            r == self@.contains(k@),
    {
        proof {
            self.lemma_layout();
        }
        let n = self.items.len();
        for i in 0..n
            invariant
                n == self.item_seq().len(),
                self.item_seq() == views(self.items@),
                forall|j: int| 0 <= j < i ==> self.item_seq()[j] != k@,
        {
            if self.items[i].key_same(k) {
                assert(self.item_seq().to_set().contains(self.item_seq()[i as int]));
                return true;
            }
        }
        false
    }

    /// Adds `k` unless it is already present.
    pub fn insert(&mut self, k: K)
        requires
            old(self).wf(),
        ensures
            final(self).wf(),
            final(self)@ == old(self)@.insert(k@),
    {
        if !self.contains(&k) {
            let ghost old_items = self.item_seq();
            let ghost kv = k@;
            proof {
                self.lemma_layout();
                assert(forall|j: int| 0 <= j < old_items.len() ==> old_items[j] != kv) by {
                    assert forall|j: int| 0 <= j < old_items.len() implies old_items[j] != kv by {
                        assert(old_items.to_set().contains(old_items[j]));
                    }
                }
            }
            self.items.push(k);
            assert(views(self.items@) =~= old_items.push(kv));
            proof {
                lemma_push_to_set(old_items, kv);
            }
        } else {
            assert(self@.insert(k@) =~= self@);
        }
    }

    /// The set of the values in `v`.
    pub fn from_vec(v: Vec<K>) -> (r: Self)
        ensures
            r.wf(),
            r@ == views(v@).to_set(),
    {
        let ghost orig = v@;
        let mut r = KeyedSet::new();
        let n = v.len();
        let mut it = v;
        let mut i: usize = 0;
        while it.len() > 0
            invariant
                orig.len() == n,
                i + it@.len() == n,
                r.wf(),
                it@ == orig.skip(i as int),
                r@ == views(orig.take(i as int)).to_set(),
            decreases it@.len(),
        {
            let x = it.remove(0);
            assert(views(orig.take(i + 1)) =~= views(orig.take(i as int)).push(x@));
            r.insert(x);
            assert(it@ =~= orig.skip(i + 1));
            proof {
                lemma_push_to_set(views(orig.take(i as int)), x@);
            }
            i = i + 1;
        }
        assert(orig.take(n as int) =~= orig);
        r
    }

    /// The position of `k`, if it is an element.
    pub fn position(&self, k: &K) -> (r: Option<usize>)
        requires
            self.wf(),
        ensures
            match r {
                Some(i) => i < self.item_seq().len() && self.item_seq()[i as int] == k@,
                None => !self@.contains(k@),
            },
    {
        let n = self.items.len();
        for i in 0..n
            invariant
                n == self.item_seq().len(),
                self.item_seq() == views(self.items@),
                forall|j: int| 0 <= j < i ==> self.item_seq()[j] != k@,
        {
            if self.items[i].key_same(k) {
                return Some(i);
            }
        }
        proof {
            assert forall|x| self@.contains(x) implies x != k@ by {
                let j = choose|j: int| 0 <= j < self.item_seq().len() && self.item_seq()[j] == x;
            }
        }
        None
    }

    /// Removes `k` if present.
    pub fn remove(&mut self, k: &K)
        requires
            old(self).wf(),
        ensures
            final(self).wf(),
            final(self)@ == old(self)@.remove(k@),
    {
        match self.position(k) {
            Some(i) => {
                let ghost old_items = self.item_seq();
                self.items.remove(i);
                assert(self.item_seq() =~= old_items.remove(i as int));
                proof {
                    lemma_remove_distinct(old_items, i as int);
                }
            },
            None => {
                assert(self@.remove(k@) =~= self@);
            },
        }
    }

    /// Adds every element of `other`.
    pub fn extend(&mut self, other: &KeyedSet<K>)
        requires
            old(self).wf(),
            other.wf(),
        ensures
            final(self).wf(),
            final(self)@ == old(self)@ + other@,
    {
        let ghost start = self@;
        let ghost items = other.item_seq();
        let n = other.len();
        for i in 0..n
            invariant
                n == items.len(),
                other.wf(),
                items == other.item_seq(),
                other@ == items.to_set(),
                self.wf(),
                self@ == start + items.take(i as int).to_set(),
        {
            let ghost before = items.take(i as int);
            assert(items.take(i + 1) =~= before.push(items[i as int]));
            proof {
                lemma_push_to_set(before, items[i as int]);
            }
            self.insert(other.item_at(i).key_copy());
            assert(self@ =~= start + items.take(i + 1).to_set());
        }
        assert(items.take(n as int) =~= items);
    }

    pub fn clear(&mut self)
        requires
            old(self).wf(),
        ensures
            final(self).wf(),
            final(self)@ == Set::<<K as View>::V>::empty(),
    {
        self.items.clear();
        assert(self@ =~= Set::<<K as View>::V>::empty());
    }
}

impl<K: OrderedKey> View for KeyedSet<K> {
    type V = Set<<K as View>::V>;

    closed spec fn view(&self) -> Set<<K as View>::V> {
        views(self.items@).to_set()
    }
}

} // verus!
