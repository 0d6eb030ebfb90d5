//! Folder and image paths, modelled by their sequence of components.
//!
//! Two paths are equal, ordered, and related by `parent`/`starts_with`
//! exactly as their component sequences are; this is how the standard
//! library compares and walks paths as well.
use vstd::prelude::*;
use crate::keyed::OrderedKey;

verus! {

/// One component of a path, mirroring the standard library's component kinds.
#[derive(Debug, Clone, PartialEq, Eq, Hash)]
pub enum PathComponent {
    /// A drive or UNC prefix (only produced on Windows).
    Prefix(String),
    /// The root directory `/`.
    RootDir,
    /// A `.` component (only kept at the start of a path).
    CurDir,
    /// A `..` component.
    ParentDir,
    /// A file or folder name.
    Normal(String),
}

/// The mathematical value of a [`PathComponent`].
pub enum ComponentView {
    Prefix(Seq<char>),
    RootDir,
    CurDir,
    ParentDir,
    Normal(Seq<char>),
}

/// The mathematical value of a path: its component sequence.
pub type PathView = Seq<ComponentView>;

impl View for PathComponent {
    type V = ComponentView;

    open spec fn view(&self) -> ComponentView {
        match self {
            PathComponent::Prefix(s) => ComponentView::Prefix(s@),
            PathComponent::RootDir => ComponentView::RootDir,
            PathComponent::CurDir => ComponentView::CurDir,
            PathComponent::ParentDir => ComponentView::ParentDir,
            PathComponent::Normal(s) => ComponentView::Normal(s@),
        }
    }
}

impl PathComponent {
    /// A copy of this component.
    pub fn duplicate(&self) -> (r: PathComponent)
        ensures
            r@ == self@,
    {
        match self {
            PathComponent::Prefix(s) => PathComponent::Prefix(s.clone()),
            PathComponent::RootDir => PathComponent::RootDir,
            PathComponent::CurDir => PathComponent::CurDir,
            PathComponent::ParentDir => PathComponent::ParentDir,
            PathComponent::Normal(s) => PathComponent::Normal(s.clone()),
        }
    }
}

/// A path, held as its components.
#[derive(Debug, Clone, PartialEq, Eq, Hash)]
pub struct FolderPath {
    pub components: Vec<PathComponent>,
}

impl View for FolderPath {
    type V = PathView;

    open spec fn view(&self) -> PathView {
        self.components@.map_values(|c: PathComponent| c@)
    }
}

/// Whether `c` ends a path that has no parent (a root or a prefix).
pub open spec fn is_anchor(c: ComponentView) -> bool {
    c is RootDir || c is Prefix
}

/// The parent of a path: the path without its last component, unless the path
/// is empty or ends in a root or prefix, in which case there is none.
pub open spec fn spec_parent(p: PathView) -> Option<PathView> {
    if p.len() == 0 || is_anchor(p.last()) {
        None
    } else {
        Some(p.drop_last())
    }
}

/// Whether `base` is a leading part of `p`, compared component by component.
pub open spec fn spec_starts_with(p: PathView, base: PathView) -> bool {
    base.len() <= p.len() && p.take(base.len() as int) == base
}

/// Whether `a` is reached from `p` by taking `parent` zero or more times.
pub open spec fn is_ancestor_or_self(a: PathView, p: PathView) -> bool {
    &&& spec_starts_with(p, a)
    &&& forall|k: int| a.len() <= k < p.len() ==> !is_anchor(#[trigger] p[k])
}

/// Whether `a` is reached from `p` by taking `parent` one or more times.
pub open spec fn is_proper_ancestor(a: PathView, p: PathView) -> bool {
    is_ancestor_or_self(a, p) && a.len() < p.len()
}

/// Strict lexicographic order on byte strings.
pub open spec fn bytes_lt(a: Seq<u8>, b: Seq<u8>) -> bool
    decreases a.len(),
{
    if a.len() == 0 {
        b.len() > 0
    } else if b.len() == 0 {
        false
    } else if a[0] < b[0] {
        true
    } else if a[0] == b[0] {
        bytes_lt(a.drop_first(), b.drop_first())
    } else {
        false
    }
}

/// The UTF-8 bytes of a text.
pub open spec fn text_bytes(s: Seq<char>) -> Seq<u8> {
    vstd::utf8::encode_utf8(s)
}

/// Rank of a component kind in the standard library's component order.
pub open spec fn component_rank(c: ComponentView) -> int {
    match c {
        ComponentView::Prefix(_) => 0,
        ComponentView::RootDir => 1,
        ComponentView::CurDir => 2,
        ComponentView::ParentDir => 3,
        ComponentView::Normal(_) => 4,
    }
}

/// The text of a prefix or name component (empty for the others).
pub open spec fn component_text(c: ComponentView) -> Seq<char> {
    match c {
        ComponentView::Prefix(s) => s,
        ComponentView::Normal(s) => s,
        _ => Seq::empty(),
    }
}

/// Strict order on components: by kind, then names by their bytes.
pub open spec fn component_lt(a: ComponentView, b: ComponentView) -> bool {
    component_rank(a) < component_rank(b) || (component_rank(a) == component_rank(b)
        && bytes_lt(text_bytes(component_text(a)), text_bytes(component_text(b))))
}

/// Strict lexicographic order on paths, component by component.
pub open spec fn path_lt(a: PathView, b: PathView) -> bool
    decreases a.len(),
{
    if a.len() == 0 {
        b.len() > 0
    } else if b.len() == 0 {
        false
    } else if component_lt(a[0], b[0]) {
        true
    } else if a[0] == b[0] {
        path_lt(a.drop_first(), b.drop_first())
    } else {
        false
    }
}

impl FolderPath {
    /// A copy of this path.
    pub fn duplicate(&self) -> (r: FolderPath)
        ensures
            r@ == self@,
    {
        let mut components: Vec<PathComponent> = Vec::new();
        let n = self.components.len();
        for i in 0..n
            invariant
                n == self.components@.len(),
                components@.len() == i,
                forall|j: int| 0 <= j < i ==> components@[j]@ == self.components@[j]@,
        {
            components.push(self.components[i].duplicate());
        }
        let r = FolderPath { components };
        assert(r@ =~= self@);
        r
    }

    /// Number of components.
    pub fn depth(&self) -> (r: usize)
        ensures
            r == self@.len(),
    {
        self.components.len()
    }

    /// The parent path, as `std::path::Path::parent` gives it.
    pub fn parent(&self) -> (r: Option<FolderPath>)
        ensures
            match r {
                Some(q) => spec_parent(self@) == Some(q@),
                None => spec_parent(self@) is None,
            },
    {
        let n = self.components.len();
        if n == 0 {
            return None;
        }
        match &self.components[n - 1] {
            PathComponent::RootDir => {
                return None;
            },
            PathComponent::Prefix(_) => {
                return None;
            },
            _ => {},
        }
        let mut components: Vec<PathComponent> = Vec::new();
        for i in 0..n - 1
            invariant
                n == self.components@.len(),
                n > 0,
                components@.len() == i,
                forall|j: int| 0 <= j < i ==> components@[j]@ == self.components@[j]@,
        {
            components.push(self.components[i].duplicate());
        }
        let r = FolderPath { components };
        assert(r@ =~= self@.drop_last());
        Some(r)
    }

    /// Whether `base` is a leading part of this path, component by component.
    pub fn starts_with(&self, base: &FolderPath) -> (r: bool)
        ensures
            r == spec_starts_with(self@, base@),
    {
        let n = base.components.len();
        if n > self.components.len() {
            return false;
        }
        for i in 0..n
            invariant
                n == base.components@.len(),
                n <= self.components@.len(),
                forall|j: int| 0 <= j < i ==> self@[j] == base@[j],
        {
            if !component_eq(&self.components[i], &base.components[i]) {
                assert(self@.take(n as int)[i as int] != base@[i as int]);
                return false;
            }
        }
        assert(self@.take(n as int) =~= base@);
        true
    }

    /// Whether both paths have the same components.
    pub fn same_as(&self, other: &FolderPath) -> (r: bool)
        ensures
            r == (self@ == other@),
    {
        if self.components.len() != other.components.len() {
            assert(self@.len() != other@.len());
            return false;
        }
        let r = self.starts_with(other);
        proof {
            assert(self@.len() == other@.len());
            assert(self@ =~= self@.take(other@.len() as int));
        }
        r
    }

    /// Whether this path sorts strictly before `other`.
    pub fn precedes(&self, other: &FolderPath) -> (r: bool)
        ensures
            r == path_lt(self@, other@),
    {
        let n = self.components.len();
        let m = other.components.len();
        let mut i: usize = 0;
        assert(self@.skip(0) =~= self@);
        assert(other@.skip(0) =~= other@);
        while i < n && i < m
            invariant
                n == self@.len(),
                m == other@.len(),
                i <= n,
                i <= m,
                forall|j: int| 0 <= j < i ==> self@[j] == other@[j],
                path_lt(self@, other@) == path_lt(self@.skip(i as int), other@.skip(i as int)),
            decreases n - i,
        {
            let a = &self.components[i];
            let b = &other.components[i];
            proof {
                lemma_path_lt_step(self@.skip(i as int), other@.skip(i as int));
            }
            if component_less(a, b) {
                return true;
            }
            if !component_eq(a, b) {
                return false;
            }
            proof {
                assert(self@.skip(i as int).drop_first() =~= self@.skip(i + 1));
                assert(other@.skip(i as int).drop_first() =~= other@.skip(i + 1));
            }
            i = i + 1;
        }
        proof {
            reveal_with_fuel(path_lt, 1);
        }
        i == n && i < m
    }
}

proof fn lemma_path_lt_step(a: PathView, b: PathView)
    requires
        a.len() > 0,
        b.len() > 0,
    ensures
        path_lt(a, b) == (component_lt(a[0], b[0]) || (a[0] == b[0] && path_lt(
            a.drop_first(),
            b.drop_first(),
        ))),
{
}

/// Whether two strings have the same characters.
pub fn text_eq(a: &String, b: &String) -> (r: bool)
    ensures
        r == (a@ == b@),
{
    *a == *b
}

/// Whether the bytes of `a` sort strictly before those of `b`.
pub fn text_less(a: &String, b: &String) -> (r: bool)
    ensures
        r == bytes_lt(text_bytes(a@), text_bytes(b@)),
{
    let x = a.as_str().as_bytes();
    let y = b.as_str().as_bytes();
    let n = x.len();
    let m = y.len();
    let mut i: usize = 0;
    assert(x@.skip(0) =~= x@);
    assert(y@.skip(0) =~= y@);
    while i < n && i < m
        invariant
            x@ == text_bytes(a@),
            y@ == text_bytes(b@),
            n == x@.len(),
            m == y@.len(),
            i <= n,
            i <= m,
            bytes_lt(x@, y@) == bytes_lt(x@.skip(i as int), y@.skip(i as int)),
        decreases n - i,
    {
        let p = x[i];
        let q = y[i];
        proof {
            assert(x@.skip(i as int)[0] == p);
            assert(y@.skip(i as int)[0] == q);
            assert(x@.skip(i as int).drop_first() =~= x@.skip(i + 1));
            assert(y@.skip(i as int).drop_first() =~= y@.skip(i + 1));
        }
        if p < q {
            return true;
        }
        if p > q {
            return false;
        }
        i = i + 1;
    }
    i == n && i < m
}

/// Whether two components are equal.
pub fn component_eq(a: &PathComponent, b: &PathComponent) -> (r: bool)
    ensures
        r == (a@ == b@),
{
    match (a, b) {
        (PathComponent::Prefix(x), PathComponent::Prefix(y)) => text_eq(x, y),
        (PathComponent::RootDir, PathComponent::RootDir) => true,
        (PathComponent::CurDir, PathComponent::CurDir) => true,
        (PathComponent::ParentDir, PathComponent::ParentDir) => true,
        (PathComponent::Normal(x), PathComponent::Normal(y)) => text_eq(x, y),
        _ => false,
    }
}

fn rank(c: &PathComponent) -> (r: u8)
    ensures
        r as int == component_rank(c@),
{
    match c {
        PathComponent::Prefix(_) => 0,
        PathComponent::RootDir => 1,
        PathComponent::CurDir => 2,
        PathComponent::ParentDir => 3,
        PathComponent::Normal(_) => 4,
    }
}

/// Whether component `a` sorts strictly before component `b`.
pub fn component_less(a: &PathComponent, b: &PathComponent) -> (r: bool)
    ensures
        r == component_lt(a@, b@),
{
    let ra = rank(a);
    let rb = rank(b);
    if ra != rb {
        return ra < rb;
    }
    match (a, b) {
        (PathComponent::Prefix(x), PathComponent::Prefix(y)) => text_less(x, y),
        (PathComponent::Normal(x), PathComponent::Normal(y)) => text_less(x, y),
        _ => {
            proof {
                assert(component_text(a@) == Seq::<char>::empty());
                assert(component_text(b@) == Seq::<char>::empty());
            }
            false
        },
    }
}


proof fn lemma_bytes_lt_irreflexive(a: Seq<u8>)
    ensures
        !bytes_lt(a, a),
    decreases a.len(),
{
    if a.len() > 0 {
        lemma_bytes_lt_irreflexive(a.drop_first());
    }
}

proof fn lemma_bytes_lt_transitive(a: Seq<u8>, b: Seq<u8>, c: Seq<u8>)
    requires
        bytes_lt(a, b),
        bytes_lt(b, c),
    ensures
        bytes_lt(a, c),
    decreases a.len(),
{
    if a.len() > 0 && b.len() > 0 && c.len() > 0 && a[0] == b[0] && b[0] == c[0] {
        lemma_bytes_lt_transitive(a.drop_first(), b.drop_first(), c.drop_first());
    }
}

proof fn lemma_bytes_lt_total(a: Seq<u8>, b: Seq<u8>)
    requires
        a != b,
    ensures
        bytes_lt(a, b) || bytes_lt(b, a),
    decreases a.len(),
{
    if a.len() == 0 {
        assert(b.len() > 0) by {
            if b.len() == 0 {
                assert(a =~= b);
            }
        }
    } else if b.len() > 0 && a[0] == b[0] {
        if a.drop_first() == b.drop_first() {
            assert(a.drop_first().len() == b.drop_first().len());
            assert(a.len() == b.len());
            assert(a =~= b) by {
                assert forall|i: int| 0 <= i < a.len() implies a[i] == b[i] by {
                    if i > 0 {
                        assert(a[i] == a.drop_first()[i - 1]);
                        assert(b[i] == b.drop_first()[i - 1]);
                    }
                }
            }
        }
        lemma_bytes_lt_total(a.drop_first(), b.drop_first());
    }
}

proof fn lemma_text_bytes_injective(a: Seq<char>, b: Seq<char>)
    requires
        text_bytes(a) == text_bytes(b),
    ensures
        a == b,
{
    vstd::utf8::encode_utf8_decode_utf8(a);
    vstd::utf8::encode_utf8_decode_utf8(b);
}

proof fn lemma_component_lt_irreflexive(a: ComponentView)
    ensures
        !component_lt(a, a),
{
    lemma_bytes_lt_irreflexive(text_bytes(component_text(a)));
}

proof fn lemma_component_lt_transitive(a: ComponentView, b: ComponentView, c: ComponentView)
    requires
        component_lt(a, b),
        component_lt(b, c),
    ensures
        component_lt(a, c),
{
    if component_rank(a) == component_rank(b) && component_rank(b) == component_rank(c) {
        lemma_bytes_lt_transitive(
            text_bytes(component_text(a)),
            text_bytes(component_text(b)),
            text_bytes(component_text(c)),
        );
    }
}

proof fn lemma_component_lt_total(a: ComponentView, b: ComponentView)
    requires
        a != b,
    ensures
        component_lt(a, b) || component_lt(b, a),
{
    if component_rank(a) == component_rank(b) {
        if text_bytes(component_text(a)) == text_bytes(component_text(b)) {
            lemma_text_bytes_injective(component_text(a), component_text(b));
        } else {
            lemma_bytes_lt_total(text_bytes(component_text(a)), text_bytes(component_text(b)));
        }
    }
}

/// A path sorts before every longer path that starts with it.
pub proof fn lemma_prefix_precedes(x: PathView, y: PathView)
    requires
        spec_starts_with(y, x),
        x.len() < y.len(),
    ensures
        path_lt(x, y),
    decreases x.len(),
{
    if x.len() > 0 {
        assert(y[0] == y.take(x.len() as int)[0]);
        lemma_component_lt_irreflexive(x[0]);
        assert(y.drop_first().take(x.drop_first().len() as int) =~= x.drop_first()) by {
            assert forall|i: int| 0 <= i < x.len() - 1 implies y.drop_first()[i] == x.drop_first()[i] by {
                assert(y[i + 1] == y.take(x.len() as int)[i + 1]);
            }
        }
        lemma_prefix_precedes(x.drop_first(), y.drop_first());
    }
}

/// In path order, a path between `a` and a path within `a` is itself within `a`.
pub proof fn lemma_between_within(a: PathView, b: PathView, c: PathView)
    requires
        path_lt(a, b),
        path_lt(b, c),
        spec_starts_with(c, a),
    ensures
        spec_starts_with(b, a),
    decreases a.len(),
{
    if a.len() == 0 {
        assert(b.take(0) =~= a);
    } else {
        assert(c[0] == c.take(a.len() as int)[0]);
        assert(b.len() > 0);
        if component_lt(a[0], b[0]) {
            // Then `c`, which begins like `a`, would sort before `b`.
            lemma_component_lt_irreflexive(b[0]);
            if component_lt(b[0], c[0]) {
                lemma_component_lt_transitive(a[0], b[0], a[0]);
                lemma_component_lt_irreflexive(a[0]);
            }
        } else {
            assert(a[0] == b[0]);
            lemma_component_lt_irreflexive(b[0]);
            assert(c.drop_first().take(a.drop_first().len() as int) =~= a.drop_first()) by {
                assert forall|i: int| 0 <= i < a.len() - 1 implies c.drop_first()[i]
                    == a.drop_first()[i] by {
                    assert(c[i + 1] == c.take(a.len() as int)[i + 1]);
                }
            }
            lemma_between_within(a.drop_first(), b.drop_first(), c.drop_first());
            assert(b.take(a.len() as int) =~= a) by {
                assert forall|i: int| 0 <= i < a.len() implies b[i] == a[i] by {
                    if i > 0 {
                        assert(b.drop_first().take(a.drop_first().len() as int)[i - 1] == a.drop_first()[i - 1]);
                    }
                }
            }
        }
    }
}

proof fn lemma_path_lt_irreflexive(a: PathView)
    ensures
        !path_lt(a, a),
    decreases a.len(),
{
    if a.len() > 0 {
        lemma_component_lt_irreflexive(a[0]);
        lemma_path_lt_irreflexive(a.drop_first());
    }
}

proof fn lemma_path_lt_transitive(a: PathView, b: PathView, c: PathView)
    requires
        path_lt(a, b),
        path_lt(b, c),
    ensures
        path_lt(a, c),
    decreases a.len(),
{
    if a.len() > 0 && b.len() > 0 && c.len() > 0 {
        if component_lt(a[0], b[0]) && component_lt(b[0], c[0]) {
            lemma_component_lt_transitive(a[0], b[0], c[0]);
        } else if a[0] == b[0] && b[0] == c[0] {
            lemma_path_lt_transitive(a.drop_first(), b.drop_first(), c.drop_first());
        }
    }
}

proof fn lemma_path_lt_total(a: PathView, b: PathView)
    requires
        a != b,
    ensures
        path_lt(a, b) || path_lt(b, a),
    decreases a.len(),
{
    if a.len() == 0 {
        assert(b.len() > 0) by {
            if b.len() == 0 {
                assert(a =~= b);
            }
        }
    } else if b.len() > 0 {
        if a[0] == b[0] {
            if a.drop_first() == b.drop_first() {
                assert(a.drop_first().len() == b.drop_first().len());
                assert(a.len() == b.len());
                assert(a =~= b) by {
                    assert forall|i: int| 0 <= i < a.len() implies a[i] == b[i] by {
                        if i > 0 {
                            assert(a[i] == a.drop_first()[i - 1]);
                            assert(b[i] == b.drop_first()[i - 1]);
                        }
                    }
                }
            }
            lemma_path_lt_total(a.drop_first(), b.drop_first());
        } else {
            lemma_component_lt_total(a[0], b[0]);
        }
    }
}

impl OrderedKey for FolderPath {
    open spec fn key_lt(a: PathView, b: PathView) -> bool {
        path_lt(a, b)
    }

    proof fn lemma_lt_irreflexive(a: PathView) {
        lemma_path_lt_irreflexive(a);
    }

    proof fn lemma_lt_transitive(a: PathView, b: PathView, c: PathView) {
        lemma_path_lt_transitive(a, b, c);
    }

    proof fn lemma_lt_total(a: PathView, b: PathView) {
        lemma_path_lt_total(a, b);
    }

    fn key_less(&self, other: &Self) -> (r: bool) {
        self.precedes(other)
    }

    fn key_same(&self, other: &Self) -> (r: bool) {
        self.same_as(other)
    }

    fn key_copy(&self) -> (r: Self) {
        self.duplicate()
    }
}

impl OrderedKey for String {
    open spec fn key_lt(a: Seq<char>, b: Seq<char>) -> bool {
        bytes_lt(text_bytes(a), text_bytes(b))
    }

    proof fn lemma_lt_irreflexive(a: Seq<char>) {
        lemma_bytes_lt_irreflexive(text_bytes(a));
    }

    proof fn lemma_lt_transitive(a: Seq<char>, b: Seq<char>, c: Seq<char>) {
        lemma_bytes_lt_transitive(text_bytes(a), text_bytes(b), text_bytes(c));
    }

    proof fn lemma_lt_total(a: Seq<char>, b: Seq<char>) {
        if text_bytes(a) == text_bytes(b) {
            lemma_text_bytes_injective(a, b);
        } else {
            lemma_bytes_lt_total(text_bytes(a), text_bytes(b));
        }
    }

    fn key_less(&self, other: &Self) -> (r: bool) {
        text_less(self, other)
    }

    fn key_same(&self, other: &Self) -> (r: bool) {
        text_eq(self, other)
    }

    fn key_copy(&self) -> (r: Self) {
        self.clone()
    }
}

} // verus!
