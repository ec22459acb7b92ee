//! The navigation tree: every item's path from the unit root, a canonical
//! order of siblings, depth-first ids, and the name-to-id index.
use vstd::prelude::*;
use vstd::string::{StrSliceExecFns, StringExecFns};
use crate::maps::{find_name, lemma_same_keys, string_keys, get_or, has_key, key_pos, lemma_get_put, lemma_key_pos, lemma_key_pos_bounds, lemma_put_unique, put, unique_keys};

verus! {

broadcast use vstd::std_specs::vec::axiom_vec_index_decreases;

/// The kind of one path segment; the declaration order is the canonical
/// order of kinds.
#[derive(Clone, Copy, Debug, PartialEq, Eq, Structural, PartialOrd, Ord, Hash)]
pub enum DefPathKind {
    Mod,
    Fn,
    AssocFn,
    Struct,
    Enum,
    Union,
    TraitDecl,
    Ty,
    ImplTrait,
}

pub open spec fn kind_order(k: DefPathKind) -> int {
    match k {
        DefPathKind::Mod => 0,
        DefPathKind::Fn => 1,
        DefPathKind::AssocFn => 2,
        DefPathKind::Struct => 3,
        DefPathKind::Enum => 4,
        DefPathKind::Union => 5,
        DefPathKind::TraitDecl => 6,
        DefPathKind::Ty => 7,
        DefPathKind::ImplTrait => 8,
    }
}

fn kind_index(k: DefPathKind) -> (r: u8)
    ensures
        r as int == kind_order(k),
{
    match k {
        DefPathKind::Mod => 0,
        DefPathKind::Fn => 1,
        DefPathKind::AssocFn => 2,
        DefPathKind::Struct => 3,
        DefPathKind::Enum => 4,
        DefPathKind::Union => 5,
        DefPathKind::TraitDecl => 6,
        DefPathKind::Ty => 7,
        DefPathKind::ImplTrait => 8,
    }
}

/// One path segment: a kind and a name.
#[derive(Clone, Debug)]
pub struct DefPath {
    pub kind: DefPathKind,
    pub name: String,
}

/// Whether two segments are equal.
pub open spec fn dp_eq(a: DefPath, b: DefPath) -> bool {
    a.kind == b.kind && a.name@ == b.name@
}

/// Lexicographic order on names, by character.
pub open spec fn lex_le(a: Seq<char>, b: Seq<char>) -> bool
    decreases a.len(),
{
    if a.len() == 0 {
        true
    } else if b.len() == 0 {
        false
    } else if a[0] != b[0] {
        a[0] < b[0]
    } else {
        lex_le(a.drop_first(), b.drop_first())
    }
}

pub proof fn lemma_lex_total(a: Seq<char>, b: Seq<char>)
    ensures
        lex_le(a, b) || lex_le(b, a),
        lex_le(a, b) && lex_le(b, a) ==> a == b,
    decreases a.len(),
{
    if a.len() > 0 && b.len() > 0 && a[0] == b[0] {
        lemma_lex_total(a.drop_first(), b.drop_first());
        if a.drop_first() == b.drop_first() {
            assert(a =~= seq![a[0]] + a.drop_first());
            assert(b =~= seq![b[0]] + b.drop_first());
        }
    }
    if a.len() == 0 && b.len() == 0 {
        assert(a =~= b);
    }
}

pub proof fn lemma_lex_trans(a: Seq<char>, b: Seq<char>, c: Seq<char>)
    requires
        lex_le(a, b),
        lex_le(b, c),
    ensures
        lex_le(a, c),
    decreases a.len(),
{
    if a.len() > 0 && b.len() > 0 && c.len() > 0 && a[0] == b[0] && b[0] == c[0] {
        lemma_lex_trans(a.drop_first(), b.drop_first(), c.drop_first());
    }
}

/// The canonical order of segments: by kind, then by name.
pub open spec fn key_le(a: DefPath, b: DefPath) -> bool {
    kind_order(a.kind) < kind_order(b.kind) || (a.kind == b.kind && lex_le(a.name@, b.name@))
}

pub proof fn lemma_key_total(a: DefPath, b: DefPath)
    ensures
        key_le(a, b) || key_le(b, a),
        key_le(a, b) && key_le(b, a) ==> dp_eq(a, b),
{
    lemma_lex_total(a.name@, b.name@);
}

pub proof fn lemma_key_trans(a: DefPath, b: DefPath, c: DefPath)
    requires
        key_le(a, b),
        key_le(b, c),
    ensures
        key_le(a, c),
{
    if a.kind == b.kind && b.kind == c.kind {
        lemma_lex_trans(a.name@, b.name@, c.name@);
    }
}

pub(crate) fn name_le(a: &String, b: &String) -> (r: bool)
    ensures
        r == lex_le(a@, b@),
{
    let sa = a.as_str();
    let sb = b.as_str();
    let la = sa.unicode_len();
    let lb = sb.unicode_len();
    let mut i: usize = 0;
    assert(a@.skip(0) =~= a@);
    assert(b@.skip(0) =~= b@);
    while i < la && i < lb && sa.get_char(i) == sb.get_char(i)
        invariant
            la == a@.len(),
            lb == b@.len(),
            sa@ == a@,
            sb@ == b@,
            i <= la,
            i <= lb,
            lex_le(a@, b@) == lex_le(a@.skip(i as int), b@.skip(i as int)),
        decreases la - i,
    {
        proof {
            assert(a@.skip(i as int).drop_first() =~= a@.skip(i + 1));
            assert(b@.skip(i as int).drop_first() =~= b@.skip(i + 1));
        }
        i += 1;
    }
    if i == la {
        true
    } else if i == lb {
        false
    } else {
        sa.get_char(i) < sb.get_char(i)
    }
}

impl DefPath {
    pub fn new(kind: DefPathKind, name: &str) -> (r: DefPath)
        ensures
            r.kind == kind,
            r.name@ == name@,
    {
        DefPath { kind, name: name.to_owned() }
    }

    /// An equal copy.
    pub fn duplicate(&self) -> (r: DefPath)
        ensures
            r == *self,
    {
        DefPath { kind: self.kind, name: self.name.clone() }
    }

    /// Whether two segments are equal.
    pub fn same(&self, o: &DefPath) -> (r: bool)
        ensures
            r == dp_eq(*self, *o),
    {
        self.kind == o.kind && self.name == o.name
    }

    /// Whether `self` comes before or equals `o` in the canonical order.
    pub fn key_le(&self, o: &DefPath) -> (r: bool)
        ensures
            r == key_le(*self, *o),
    {
        let a = kind_index(self.kind);
        let b = kind_index(o.kind);
        if a < b {
            true
        } else if a > b {
            false
        } else {
            name_le(&self.name, &o.name)
        }
    }
}

/// A tree node: its segment and its id.
#[derive(Clone, Debug)]
pub struct Node {
    pub inner: DefPath,
    pub id: usize,
}

/// A tree of path segments.
pub struct Tree {
    pub node: Node,
    pub sub: Vec<Tree>,
}

/// Whether the children are in the canonical order.
pub open spec fn sorted_level(s: Seq<Tree>) -> bool {
    forall|i: int, j: int| 0 <= i < j < s.len() ==> key_le(#[trigger] s[i].node.inner, #[trigger] s[j].node.inner)
}

/// Whether every level of the tree is in the canonical order.
pub open spec fn sorted_tree(t: Tree) -> bool
    decreases t,
{
    sorted_level(t.sub@) && sorted_list(t.sub@)
}

/// Whether every tree of the list is sorted at every level.
pub open spec fn sorted_list(s: Seq<Tree>) -> bool
    decreases s,
{
    s.len() == 0 || (sorted_list(s.drop_last()) && sorted_tree(s.last()))
}

pub proof fn lemma_sorted_list(s: Seq<Tree>)
    ensures
        sorted_list(s) == forall|i: int| 0 <= i < s.len() ==> #[trigger] sorted_tree(s[i]),
    decreases s.len(),
{
    if s.len() > 0 {
        lemma_sorted_list(s.drop_last());
        if !sorted_list(s) {
            if !sorted_tree(s.last()) {
                assert(!sorted_tree(s[s.len() - 1]));
            } else {
                let i = choose|i: int| 0 <= i < s.len() - 1 && !#[trigger] sorted_tree(s.drop_last()[i]);
                assert(s.drop_last()[i] == s[i]);
            }
        } else {
            assert forall|i: int| 0 <= i < s.len() implies #[trigger] sorted_tree(s[i]) by {
                if i < s.len() - 1 {
                    assert(s.drop_last()[i] == s[i]);
                }
            }
        }
    }
}

/// The number of nodes.
pub open spec fn size(t: Tree) -> nat
    decreases t,
{
    1 + size_list(t.sub@)
}

pub open spec fn size_list(s: Seq<Tree>) -> nat
    decreases s,
{
    if s.len() == 0 {
        0
    } else {
        size_list(s.drop_last()) + size(s.last())
    }
}

/// The ids in depth-first pre-order.
pub open spec fn preorder_ids(t: Tree) -> Seq<usize>
    decreases t,
{
    seq![t.node.id] + preorder_list(t.sub@)
}

pub open spec fn preorder_list(s: Seq<Tree>) -> Seq<usize>
    decreases s,
{
    if s.len() == 0 {
        seq![]
    } else {
        preorder_list(s.drop_last()) + preorder_ids(s.last())
    }
}

/// Same segments and the same structure; ids may differ.
pub open spec fn same_shape(a: Tree, b: Tree) -> bool
    decreases a,
{
    a.node.inner == b.node.inner && same_list(a.sub@, b.sub@)
}

pub open spec fn same_list(s1: Seq<Tree>, s2: Seq<Tree>) -> bool
    decreases s1,
{
    s1.len() == s2.len() && (s1.len() == 0 || (same_list(s1.drop_last(), s2.drop_last()) && same_shape(s1.last(), s2.last())))
}

pub proof fn lemma_same_list(s1: Seq<Tree>, s2: Seq<Tree>)
    ensures
        same_list(s1, s2) == (s1.len() == s2.len() && forall|i: int| 0 <= i < s1.len() ==> #[trigger] same_shape(s1[i], s2[i])),
    decreases s1.len(),
{
    if s1.len() > 0 && s1.len() == s2.len() {
        lemma_same_list(s1.drop_last(), s2.drop_last());
        if !same_list(s1, s2) {
            if !same_shape(s1.last(), s2.last()) {
                assert(!same_shape(s1[s1.len() - 1], s2[s1.len() - 1]));
            } else {
                let i = choose|i: int| 0 <= i < s1.len() - 1 && !#[trigger] same_shape(s1.drop_last()[i], s2.drop_last()[i]);
                assert(s1.drop_last()[i] == s1[i]);
                assert(s2.drop_last()[i] == s2[i]);
            }
        } else {
            assert forall|i: int| 0 <= i < s1.len() implies #[trigger] same_shape(s1[i], s2[i]) by {
                if i < s1.len() - 1 {
                    assert(s1.drop_last()[i] == s1[i]);
                    assert(s2.drop_last()[i] == s2[i]);
                }
            }
        }
    }
}

/// Trees of the same shape have the same size, and one is sorted exactly
/// when the other is.
pub proof fn lemma_same_size(a: Tree, b: Tree)
    requires
        same_shape(a, b),
    ensures
        size(a) == size(b),
        sorted_tree(a) == sorted_tree(b),
    decreases a,
{
    lemma_same_size_list(a.sub@, b.sub@);
}

pub proof fn lemma_same_size_list(s1: Seq<Tree>, s2: Seq<Tree>)
    requires
        same_list(s1, s2),
    ensures
        size_list(s1) == size_list(s2),
        sorted_list(s1) == sorted_list(s2),
        sorted_level(s1) == sorted_level(s2),
    decreases s1,
{
    lemma_same_list(s1, s2);
    if s1.len() > 0 {
        lemma_same_size_list(s1.drop_last(), s2.drop_last());
        lemma_same_size(s1.last(), s2.last());
    }
    assert forall|i: int| 0 <= i < s1.len() implies #[trigger] s1[i].node.inner == s2[i].node.inner by {
        assert(same_shape(s1[i], s2[i]));
    }
    if sorted_level(s1) {
        assert forall|i: int, j: int| 0 <= i < j < s2.len() implies key_le(#[trigger] s2[i].node.inner, #[trigger] s2[j].node.inner) by {
            assert(s1[i].node.inner == s2[i].node.inner);
            assert(s1[j].node.inner == s2[j].node.inner);
        }
    }
    if sorted_level(s2) {
        assert forall|i: int, j: int| 0 <= i < j < s1.len() implies key_le(#[trigger] s1[i].node.inner, #[trigger] s1[j].node.inner) by {
            assert(s1[i].node.inner == s2[i].node.inner);
            assert(s1[j].node.inner == s2[j].node.inner);
        }
    }
}

impl Tree {
    /// A single node for `def_path`, with id 0.
    pub fn new(def_path: DefPath) -> (r: Tree)
        ensures
            r.node.inner == def_path,
            r.node.id == 0,
            r.sub@.len() == 0,
    {
        Tree { node: Node { inner: def_path, id: 0 }, sub: Vec::new() }
    }

    /// Numbers the nodes in depth-first pre-order, starting at `*id`, and
    /// leaves `*id` one past the last number used.
    pub fn fill_id(&mut self, id: &mut usize)
        requires
            *old(id) + size(*old(self)) <= usize::MAX,
        ensures
            preorder_ids(*final(self)) == Seq::new(size(*old(self)), |k: int| (*old(id) + k) as usize),
            *final(id) == *old(id) + size(*old(self)),
            same_shape(*final(self), *old(self)),
        decreases *old(self),
    {
        let ghost start = *id;
        self.node.id = *id;
        *id = *id + 1;
        let mut i: usize = 0;
        while i < self.sub.len()
            invariant
                i <= self.sub.len(),
                self.sub.len() == old(self).sub.len(),
                self.node.inner == old(self).node.inner,
                self.node.id == start,
                start + size(*old(self)) <= usize::MAX,
                size(*old(self)) == 1 + size_list(old(self).sub@),
                *id == start + 1 + size_list(old(self).sub@.take(i as int)),
                preorder_list(self.sub@.take(i as int)) == Seq::new(size_list(old(self).sub@.take(i as int)), |k: int| (start + 1 + k) as usize),
                forall|j: int| 0 <= j < i ==> #[trigger] same_shape(self.sub@[j], old(self).sub@[j]),
                forall|j: int| i <= j < self.sub.len() ==> #[trigger] self.sub@[j] == old(self).sub@[j],
                size_list(self.sub@.take(i as int)) == size_list(old(self).sub@.take(i as int)),
            decreases self.sub.len() - i,
        {
            proof {
                assert(old(self).sub@.take(i + 1).drop_last() =~= old(self).sub@.take(i as int));
                assert(old(self).sub@.take(i + 1).last() == old(self).sub@[i as int]);
                lemma_size_list_le(old(self).sub@, i + 1);
                assert(decreases_to!(*old(self) => old(self).sub));
                assert(decreases_to!(old(self).sub => old(self).sub[i as int]));
            }
            let ghost before = self.sub@;
            let ghost id0 = *id;
            self.sub[i].fill_id(id);
            proof {
                assert forall|j: int| 0 <= j < self.sub.len() && j != i implies #[trigger] self.sub@[j] == before[j] by {}
                assert(self.sub@.take(i + 1).drop_last() =~= self.sub@.take(i as int));
                assert(self.sub@.take(i as int) =~= before.take(i as int));
                lemma_same_size(self.sub@[i as int], old(self).sub@[i as int]);
                lemma_size_list_le(self.sub@, i + 1);
                assert(preorder_list(self.sub@.take(i + 1)) =~= Seq::new(size_list(old(self).sub@.take(i + 1)), |k: int| (start + 1 + k) as usize));
            }
            i += 1;
        }
        proof {
            assert(old(self).sub@.take(i as int) =~= old(self).sub@);
            assert(self.sub@.take(i as int) =~= self.sub@);
            assert(preorder_ids(*self) =~= Seq::new(size(*old(self)), |k: int| (start + k) as usize));
            lemma_same_list(self.sub@, old(self).sub@);
        }
    }
}

pub proof fn lemma_size_list_le(s: Seq<Tree>, n: int)
    requires
        0 <= n <= s.len(),
    ensures
        size_list(s.take(n)) <= size_list(s),
        n > 0 ==> size_list(s.take(n)) == size_list(s.take(n - 1)) + size(s[n - 1]),
    decreases s.len() - n,
{
    if n > 0 {
        assert(s.take(n).drop_last() =~= s.take(n - 1));
    }
    if n < s.len() {
        lemma_size_list_le(s, n + 1);
    } else {
        assert(s.take(n) =~= s);
    }
}

pub proof fn lemma_size_list_remove(s: Seq<Tree>, i: int)
    requires
        0 <= i < s.len(),
    ensures
        size_list(s) == size_list(s.remove(i)) + size(s[i]),
    decreases s.len(),
{
    if i == s.len() - 1 {
        assert(s.remove(i) =~= s.drop_last());
    } else {
        assert(s.remove(i).drop_last() =~= s.drop_last().remove(i));
        assert(s.remove(i).last() == s.last());
        lemma_size_list_remove(s.drop_last(), i);
    }
}

pub proof fn lemma_size_list_pointwise(s1: Seq<Tree>, s2: Seq<Tree>)
    requires
        s1.len() == s2.len(),
        forall|i: int| 0 <= i < s1.len() ==> #[trigger] size(s1[i]) == size(s2[i]),
    ensures
        size_list(s1) == size_list(s2),
    decreases s1.len(),
{
    if s1.len() > 0 {
        lemma_size_list_pointwise(s1.drop_last(), s2.drop_last());
        assert(size(s1[s1.len() - 1]) == size(s2[s1.len() - 1]));
    }
}

/// Inserts `x` into the sorted list, after every element not above it.
fn insert_sorted(v: &mut Vec<Tree>, x: Tree)
    requires
        sorted_level(old(v)@),
    ensures
        sorted_level(final(v)@),
        exists|p: int| 0 <= p <= old(v).len() && final(v)@ == old(v)@.insert(p, x),
{
    let mut p: usize = 0;
    while p < v.len() && v[p].node.inner.key_le(&x.node.inner)
        invariant
            p <= v.len(),
            forall|j: int| 0 <= j < p ==> key_le(#[trigger] v@[j].node.inner, x.node.inner),
        decreases v.len() - p,
    {
        p += 1;
    }
    proof {
        if p < v.len() {
            lemma_key_total(v@[p as int].node.inner, x.node.inner);
            assert forall|j: int| p <= j < v.len() implies key_le(x.node.inner, #[trigger] v@[j].node.inner) by {
                if j > p {
                    lemma_key_trans(x.node.inner, v@[p as int].node.inner, v@[j].node.inner);
                }
            }
        }
    }
    let ghost before = v@;
    v.insert(p, x);
    proof {
        assert forall|i: int, j: int| 0 <= i < j < v@.len() implies key_le(#[trigger] v@[i].node.inner, #[trigger] v@[j].node.inner) by {
            if i < p && j < p {
                assert(v@[i] == before[i] && v@[j] == before[j]);
            } else if i < p && j == p {
            } else if i < p {
                assert(v@[i] == before[i] && v@[j] == before[j - 1]);
                assert(key_le(before[i].node.inner, before[j - 1].node.inner));
            } else if i == p {
                assert(v@[j] == before[j - 1]);
            } else {
                assert(v@[i] == before[i - 1] && v@[j] == before[j - 1]);
            }
        }
    }
}

impl Tree {
    /// Sorts the children of every node into the canonical order.
    pub fn sort(&mut self)
        requires
            wf_tree(*old(self)),
        ensures
            wf_tree(*final(self)),
            preserves(*old(self), *final(self)),
            preserves(*final(self), *old(self)),
            sorted_tree(*final(self)),
            final(self).node == old(self).node,
            final(self).sub@.len() == old(self).sub@.len(),
            size(*final(self)) == size(*old(self)),
            child_segments(final(self).sub@).to_multiset() == child_segments(old(self).sub@).to_multiset(),
        decreases *old(self),
    {
        proof {
            lemma_wf_list(old(self).sub@);
        }
        let mut i: usize = 0;
        while i < self.sub.len()
            invariant
                i <= self.sub.len(),
                self.sub.len() == old(self).sub.len(),
                self.node == old(self).node,
                forall|j: int| 0 <= j < i ==> #[trigger] sorted_tree(self.sub@[j]),
                forall|j: int| 0 <= j < i ==> #[trigger] size(self.sub@[j]) == size(old(self).sub@[j]),
                forall|j: int| 0 <= j < i ==> #[trigger] self.sub@[j].node == old(self).sub@[j].node,
                forall|j: int| 0 <= j < i ==> #[trigger] wf_tree(self.sub@[j]),
                forall|j: int| 0 <= j < i ==> preserves(old(self).sub@[j], #[trigger] self.sub@[j])
                    && preserves(self.sub@[j], old(self).sub@[j]),
                forall|j: int| i <= j < self.sub.len() ==> #[trigger] self.sub@[j] == old(self).sub@[j],
                forall|j: int| 0 <= j < old(self).sub.len() ==> #[trigger] wf_tree(old(self).sub@[j]),
            decreases self.sub.len() - i,
        {
            proof {
                assert(decreases_to!(*old(self) => old(self).sub));
                assert(decreases_to!(old(self).sub => old(self).sub[i as int]));
            }
            let ghost before = self.sub@;
            self.sub[i].sort();
            proof {
                assert forall|j: int| 0 <= j < self.sub.len() && j != i implies #[trigger] self.sub@[j] == before[j] by {}
            }
            i += 1;
        }
        proof {
            lemma_size_list_pointwise(self.sub@, old(self).sub@);
            assert(child_segments(self.sub@) =~= child_segments(old(self).sub@));
        }
        let ghost total = size_list(self.sub@);
        let ghost keys = child_segments(self.sub@);
        let ghost mid = self.sub@;
        proof {
            assert forall|a: int, b: int| 0 <= a < mid.len() && 0 <= b < mid.len() && a != b implies !dp_eq(#[trigger] mid[a].node.inner, #[trigger] mid[b].node.inner) by {
                assert(mid[a].node == old(self).sub@[a].node);
                assert(mid[b].node == old(self).sub@[b].node);
            }
        }
        let mut rest: Vec<Tree> = Vec::new();
        std::mem::swap(&mut rest, &mut self.sub);
        let n = rest.len();
        let mut out: Vec<Tree> = Vec::new();
        proof {
            assert(child_segments(out@) =~= Seq::<DefPath>::empty());
            child_segments(out@).to_multiset_ensures();
            assert(child_segments(rest@) == keys);
            assert(child_segments(out@).to_multiset().add(child_segments(rest@).to_multiset()) =~= keys.to_multiset());
        }
        while rest.len() > 0
            invariant
                sorted_level(out@),
                out.len() + rest.len() == n,
                size_list(out@) + size_list(rest@) == total,
                forall|j: int| 0 <= j < out.len() ==> #[trigger] sorted_tree(out@[j]),
                forall|j: int| 0 <= j < rest.len() ==> #[trigger] sorted_tree(rest@[j]),
                child_segments(out@).to_multiset().add(child_segments(rest@).to_multiset()) == keys.to_multiset(),
                n == mid.len(),
                rest@ == mid.take(rest.len() as int),
                distinct_level(mid),
                distinct_level(out@),
                forall|j: int| 0 <= j < out.len() ==> exists|k: int| rest.len() <= k < n && #[trigger] out@[j] == mid[k],
                forall|k: int| rest.len() <= k < n ==> out@.contains(#[trigger] mid[k]),
            decreases rest.len(),
        {
            let ghost r0 = rest@;
            let ghost o0 = out@;
            let x = rest.pop().unwrap();
            proof {
                assert(rest@ =~= r0.drop_last());
                assert(sorted_tree(x)) by {
                    assert(x == r0[r0.len() - 1]);
                }
            }
            insert_sorted(&mut out, x);
            proof {
                let p = choose|p: int| 0 <= p <= o0.len() && out@ == o0.insert(p, x);
                assert(out@.remove(p) =~= o0);
                let rl = rest.len() as int;
                assert(x == mid[rl]);
                assert(rest@ =~= mid.take(rl));
                assert forall|j: int| 0 <= j < o0.len() implies !dp_eq(#[trigger] o0[j].node.inner, x.node.inner) by {
                    let k = choose|k: int| rl + 1 <= k < n && o0[j] == mid[k];
                }
                assert forall|a: int, b: int| 0 <= a < out.len() && 0 <= b < out.len() && a != b implies !dp_eq(#[trigger] out@[a].node.inner, #[trigger] out@[b].node.inner) by {
                    let oa = if a < p { a } else { a - 1 };
                    let ob = if b < p { b } else { b - 1 };
                    if a != p && b != p {
                        assert(out@[a] == o0[oa] && out@[b] == o0[ob]);
                    } else if a == p {
                        assert(out@[b] == o0[ob]);
                    } else {
                        assert(out@[a] == o0[oa]);
                    }
                }
                assert forall|j: int| 0 <= j < out.len() implies exists|k: int| rest.len() <= k < n && #[trigger] out@[j] == mid[k] by {
                    if j == p {
                        assert(out@[j] == mid[rl]);
                    } else {
                        let oj = if j < p { j } else { j - 1 };
                        assert(out@[j] == o0[oj]);
                        let k = choose|k: int| rl + 1 <= k < n && o0[oj] == mid[k];
                    }
                }
                assert forall|k: int| rest.len() <= k < n implies out@.contains(#[trigger] mid[k]) by {
                    if k == rl {
                        assert(out@[p] == mid[k]);
                    } else {
                        assert(o0.contains(mid[k]));
                        let j = choose|j: int| 0 <= j < o0.len() && o0[j] == mid[k];
                        let oj = if j < p { j } else { j + 1 };
                        assert(out@[oj] == mid[k]);
                    }
                }
                assert(child_segments(out@) =~= child_segments(o0).insert(p, x.node.inner));
                vstd::seq_lib::to_multiset_insert(child_segments(o0), p, x.node.inner);
                assert(child_segments(r0) =~= child_segments(rest@).push(x.node.inner));
                child_segments(rest@).to_multiset_ensures();
                assert(child_segments(out@).to_multiset().add(child_segments(rest@).to_multiset()) =~= keys.to_multiset());
                lemma_size_list_remove(out@, p);
                assert forall|j: int| 0 <= j < out.len() implies #[trigger] sorted_tree(out@[j]) by {
                    if j < p {
                        assert(out@[j] == o0[j]);
                    } else if j > p {
                        assert(out@[j] == o0[j - 1]);
                    }
                }
                assert forall|j: int| 0 <= j < rest.len() implies #[trigger] sorted_tree(rest@[j]) by {
                    assert(rest@[j] == r0[j]);
                }
            }
        }
        self.sub = out;
        proof {
            lemma_sorted_list(self.sub@);
            let fin = self.sub@;
            assert forall|k: int| 0 <= k < old(self).sub@.len() implies has_image(#[trigger] old(self).sub@[k], fin) by {
                assert(fin.contains(mid[k]));
                let j = choose|j: int| 0 <= j < fin.len() && fin[j] == mid[k];
                assert(fin[j].node.inner == old(self).sub@[k].node.inner && preserves(old(self).sub@[k], fin[j]));
            }
            assert forall|j: int| 0 <= j < fin.len() implies has_image(#[trigger] fin[j], old(self).sub@) by {
                let k = choose|k: int| 0 <= k < n && fin[j] == mid[k];
                assert(old(self).sub@[k].node.inner == fin[j].node.inner && preserves(fin[j], old(self).sub@[k]));
            }
            assert forall|j: int| 0 <= j < fin.len() implies #[trigger] wf_tree(fin[j]) by {
                let k = choose|k: int| 0 <= k < n && fin[j] == mid[k];
            }
            lemma_wf_list(fin);
            lemma_preserves(*old(self), *self);
            lemma_preserves(*self, *old(self));
            assert(child_segments(rest@) =~= Seq::<DefPath>::empty());
            child_segments(rest@).to_multiset_ensures();
            assert(child_segments(self.sub@).to_multiset() =~= keys.to_multiset());
        }
    }
}

/// The segments of the children, in order.
pub open spec fn child_segments(s: Seq<Tree>) -> Seq<DefPath> {
    s.map_values(|t: Tree| t.node.inner)
}

/// The key of a child, for position lookups.
pub open spec fn child_keys(s: Seq<Tree>) -> Seq<((DefPathKind, Seq<char>), ())> {
    s.map_values(|t: Tree| ((t.node.inner.kind, t.node.inner.name@), ()))
}

/// Position of the first child whose segment equals `d`, or `s.len()`.
pub open spec fn child_pos(s: Seq<Tree>, d: DefPath) -> int {
    key_pos(child_keys(s), (d.kind, d.name@))
}

/// The id of the node that the path reaches from segment `i` on: a segment
/// equal to the current node's is skipped; any other must equal a child's.
pub open spec fn find_spec(t: Tree, path: Seq<DefPath>, i: int) -> Option<usize>
    decreases path.len() - i,
{
    if i >= path.len() {
        Some(t.node.id)
    } else if dp_eq(path[i], t.node.inner) {
        find_spec(t, path, i + 1)
    } else {
        let p = child_pos(t.sub@, path[i]);
        if 0 <= p < t.sub@.len() {
            find_spec(t.sub@[p], path, i + 1)
        } else {
            None
        }
    }
}

fn find_child(s: &Vec<Tree>, d: &DefPath) -> (r: usize)
    ensures
        r as int == child_pos(s@, *d),
        r <= s.len(),
{
    let mut i: usize = 0;
    while i < s.len() && !s[i].node.inner.same(d)
        invariant
            i <= s.len(),
            forall|j: int| 0 <= j < i ==> !dp_eq(#[trigger] s@[j].node.inner, *d),
        decreases s.len() - i,
    {
        i += 1;
    }
    proof {
        let ks = child_keys(s@);
        assert forall|j: int| 0 <= j < i implies #[trigger] ks[j].0 != (d.kind, d.name@) by {
            assert(!dp_eq(s@[j].node.inner, *d));
        }
        if i < s.len() {
            assert(ks[i as int].0 == (d.kind, d.name@));
        }
        lemma_key_pos(ks, (d.kind, d.name@), i as int);
    }
    i
}

impl Tree {
    /// The id of the node that `path` reaches, or `None` when a segment is
    /// not found.
    pub fn find_idx(&self, path: &ItemPath) -> (r: Option<usize>)
        ensures
            r == find_spec(*self, path@, 0),
    {
        let mut t: &Tree = self;
        let mut i: usize = 0;
        while i < path.len()
            invariant
                i <= path.len(),
                find_spec(*self, path@, 0) == find_spec(*t, path@, i as int),
            decreases path.len() - i,
        {
            if !path[i].same(&t.node.inner) {
                let p = find_child(&t.sub, &path[i]);
                if p == t.sub.len() {
                    return None;
                }
                t = &t.sub[p];
            }
            i += 1;
        }
        Some(t.node.id)
    }
}

/// No two children have equal segments.
pub open spec fn distinct_level(s: Seq<Tree>) -> bool {
    forall|i: int, j: int|
        0 <= i < s.len() && 0 <= j < s.len() && i != j ==> !dp_eq(#[trigger] s[i].node.inner, #[trigger] s[j].node.inner)
}

/// Siblings are distinct at every level.
pub open spec fn wf_tree(t: Tree) -> bool
    decreases t,
{
    distinct_level(t.sub@) && wf_list(t.sub@)
}

pub open spec fn wf_list(s: Seq<Tree>) -> bool
    decreases s,
{
    s.len() == 0 || (wf_list(s.drop_last()) && wf_tree(s.last()))
}

pub proof fn lemma_wf_list(s: Seq<Tree>)
    ensures
        wf_list(s) == forall|i: int| 0 <= i < s.len() ==> #[trigger] wf_tree(s[i]),
    decreases s.len(),
{
    if s.len() > 0 {
        lemma_wf_list(s.drop_last());
        if !wf_list(s) {
            if !wf_tree(s.last()) {
                assert(!wf_tree(s[s.len() - 1]));
            } else {
                let i = choose|i: int| 0 <= i < s.len() - 1 && !#[trigger] wf_tree(s.drop_last()[i]);
                assert(s.drop_last()[i] == s[i]);
            }
        } else {
            assert forall|i: int| 0 <= i < s.len() implies #[trigger] wf_tree(s[i]) by {
                if i < s.len() - 1 {
                    assert(s.drop_last()[i] == s[i]);
                }
            }
        }
    }
}

proof fn lemma_only_last(s: Seq<Tree>, d: DefPath)
    requires
        s.len() > 0,
        distinct_level(s),
        dp_eq(s.last().node.inner, d),
    ensures
        child_pos(s, d) == s.len() - 1,
{
    let ks = child_keys(s);
    assert forall|j: int| 0 <= j < s.len() - 1 implies #[trigger] ks[j].0 != (d.kind, d.name@) by {
        assert(!dp_eq(s[j].node.inner, s[s.len() - 1].node.inner));
    }
    assert(ks[s.len() - 1].0 == (d.kind, d.name@));
    lemma_key_pos(ks, (d.kind, d.name@), s.len() - 1);
}

/// Every path that resolves in `a` from any segment resolves in `b`.
pub open spec fn preserves(a: Tree, b: Tree) -> bool {
    forall|q: Seq<DefPath>, j: int| #[trigger] find_spec(a, q, j) is Some ==> find_spec(b, q, j) is Some
}

/// Some tree of `s` has `a`'s segment and keeps what resolves in `a`.
pub open spec fn has_image(a: Tree, s: Seq<Tree>) -> bool {
    exists|k: int| 0 <= k < s.len() && s[k].node.inner == a.node.inner && preserves(a, s[k])
}

proof fn lemma_only_at(s: Seq<Tree>, d: DefPath, k: int)
    requires
        0 <= k < s.len(),
        distinct_level(s),
        dp_eq(s[k].node.inner, d),
    ensures
        child_pos(s, d) == k,
{
    let ks = child_keys(s);
    assert forall|j: int| 0 <= j < k implies #[trigger] ks[j].0 != (d.kind, d.name@) by {
        assert(!dp_eq(s[j].node.inner, s[k].node.inner));
    }
    assert(ks[k].0 == (d.kind, d.name@));
    lemma_key_pos(ks, (d.kind, d.name@), k);
}

proof fn lemma_find_preserved(t: Tree, t2: Tree, q: Seq<DefPath>, j: int)
    requires
        t.node.inner == t2.node.inner,
        distinct_level(t2.sub@),
        forall|k: int| 0 <= k < t.sub@.len() ==> has_image(#[trigger] t.sub@[k], t2.sub@),
        find_spec(t, q, j) is Some,
    ensures
        find_spec(t2, q, j) is Some,
    decreases q.len() - j,
{
    if j < q.len() {
        if dp_eq(q[j], t.node.inner) {
            lemma_find_preserved(t, t2, q, j + 1);
        } else {
            let p = child_pos(t.sub@, q[j]);
            lemma_key_pos_bounds(child_keys(t.sub@), (q[j].kind, q[j].name@));
            assert(0 <= p < t.sub@.len());
            assert(child_keys(t.sub@)[p].0 == (q[j].kind, q[j].name@));
            let c = t.sub@[p];
            assert(has_image(c, t2.sub@));
            let k2 = choose|k: int| 0 <= k < t2.sub@.len() && t2.sub@[k].node.inner == c.node.inner && preserves(c, t2.sub@[k]);
            lemma_only_at(t2.sub@, q[j], k2);
            assert(find_spec(c, q, j + 1) is Some);
        }
    }
}

proof fn lemma_preserves(t: Tree, t2: Tree)
    requires
        t.node.inner == t2.node.inner,
        distinct_level(t2.sub@),
        forall|k: int| 0 <= k < t.sub@.len() ==> has_image(#[trigger] t.sub@[k], t2.sub@),
    ensures
        preserves(t, t2),
{
    assert forall|q: Seq<DefPath>, j: int| #[trigger] find_spec(t, q, j) is Some implies find_spec(t2, q, j) is Some by {
        lemma_find_preserved(t, t2, q, j);
    }
}

proof fn lemma_preserves_refl(t: Tree)
    ensures
        preserves(t, t),
{
}

impl Tree {
    /// Makes the child for `def_path` the last child, moving an existing
    /// one to the end or adding a new one, and returns its index.
    pub fn push_direct_sub(&mut self, def_path: DefPath) -> (r: usize)
        requires
            distinct_level(old(self).sub@),
            forall|i: int| 0 <= i < old(self).sub@.len() ==> #[trigger] wf_tree(old(self).sub@[i]),
        ensures
            r + 1 == final(self).sub.len(),
            dp_eq(final(self).sub@[r as int].node.inner, def_path),
            child_pos(final(self).sub@, def_path) == r,
            distinct_level(final(self).sub@),
            forall|i: int| 0 <= i < final(self).sub@.len() ==> #[trigger] wf_tree(final(self).sub@[i]),
            final(self).node == old(self).node,
            forall|k: int| 0 <= k < old(self).sub@.len() ==> #[trigger] final(self).sub@.contains(old(self).sub@[k]),
            child_pos(old(self).sub@, def_path) < old(self).sub@.len() ==> final(self).sub@ == old(self).sub@.remove(
                child_pos(old(self).sub@, def_path),
            ).push(old(self).sub@[child_pos(old(self).sub@, def_path)]),
            child_pos(old(self).sub@, def_path) >= old(self).sub@.len() ==> final(self).sub@.drop_last() == old(self).sub@
                && final(self).sub@.last().node.inner == def_path && final(self).sub@.last().node.id == 0
                && final(self).sub@.last().sub@.len() == 0,
    {
        let p = find_child(&self.sub, &def_path);
        proof {
            lemma_key_pos_bounds(child_keys(self.sub@), (def_path.kind, def_path.name@));
        }
        let ghost before = self.sub@;
        if p < self.sub.len() {
            assert(child_keys(before)[p as int].0 == (def_path.kind, def_path.name@));
            let t = self.sub.remove(p);
            self.sub.push(t);
            assert(self.sub@ == before.remove(p as int).push(before[p as int]));
            proof {
                let s = self.sub@;
                assert forall|i: int, j: int| 0 <= i < s.len() && 0 <= j < s.len() && i != j implies !dp_eq(#[trigger] s[i].node.inner, #[trigger] s[j].node.inner) by {
                    let bi = if i == s.len() - 1 { p as int } else if i < p { i } else { i + 1 };
                    let bj = if j == s.len() - 1 { p as int } else if j < p { j } else { j + 1 };
                    assert(s[i] == before[bi]);
                    assert(s[j] == before[bj]);
                }
                assert forall|i: int| 0 <= i < s.len() implies #[trigger] wf_tree(s[i]) by {
                    let bi = if i == s.len() - 1 { p as int } else if i < p { i } else { i + 1 };
                    assert(s[i] == before[bi]);
                }
                assert forall|k: int| 0 <= k < before.len() implies #[trigger] s.contains(before[k]) by {
                    let i = if k == p { s.len() - 1 } else if k < p { k } else { k - 1 };
                    assert(s[i] == before[k]);
                }
            }
        } else {
            proof {
                let ks = child_keys(before);
                assert forall|j: int| 0 <= j < before.len() implies !dp_eq(#[trigger] before[j].node.inner, def_path) by {
                    if dp_eq(before[j].node.inner, def_path) {
                        assert(ks[j].0 == (def_path.kind, def_path.name@));
                    }
                }
            }
            self.sub.push(Tree::new(def_path));
            assert(self.sub@.drop_last() =~= before);
            proof {
                let s = self.sub@;
                assert forall|i: int, j: int| 0 <= i < s.len() && 0 <= j < s.len() && i != j implies !dp_eq(#[trigger] s[i].node.inner, #[trigger] s[j].node.inner) by {
                    if i < before.len() {
                        assert(s[i] == before[i]);
                    }
                    if j < before.len() {
                        assert(s[j] == before[j]);
                    }
                }
                assert forall|i: int| 0 <= i < s.len() implies #[trigger] wf_tree(s[i]) by {
                    if i < before.len() {
                        assert(s[i] == before[i]);
                    } else {
                        assert(wf_list(s[i].sub@));
                    }
                }
                assert forall|k: int| 0 <= k < before.len() implies #[trigger] s.contains(before[k]) by {
                    assert(s[k] == before[k]);
                }
            }
        }
        proof {
            lemma_only_last(self.sub@, def_path);
        }
        self.sub.len() - 1
    }

    /// Inserts the path from segment `i` on: a segment equal to the current
    /// node's is skipped, any other descends into the matching child,
    /// created when missing and moved to the end of its siblings.
    pub fn push_from(&mut self, v_path: &Vec<DefPath>, i: usize)
        requires
            wf_tree(*old(self)),
        ensures
            wf_tree(*final(self)),
            final(self).node == old(self).node,
            find_spec(*final(self), v_path@, i as int) is Some,
            preserves(*old(self), *final(self)),
        decreases v_path.len() - i,
    {
        if i >= v_path.len() {
            return;
        }
        if v_path[i].same(&self.node.inner) {
            self.push_from(v_path, i + 1);
            return;
        }
        proof {
            lemma_wf_list(self.sub@);
        }
        let last = self.push_direct_sub(v_path[i].duplicate());
        let ghost before = self.sub@;
        self.sub[last].push_from(v_path, i + 1);
        proof {
            let s = self.sub@;
            assert forall|j: int| 0 <= j < s.len() && j != last implies #[trigger] s[j] == before[j] by {}
            assert forall|a: int, b: int| 0 <= a < s.len() && 0 <= b < s.len() && a != b implies !dp_eq(#[trigger] s[a].node.inner, #[trigger] s[b].node.inner) by {
                assert(s[a].node == before[a].node);
                assert(s[b].node == before[b].node);
            }
            assert forall|j: int| 0 <= j < s.len() implies #[trigger] wf_tree(s[j]) by {}
            lemma_wf_list(s);
            lemma_only_last(s, v_path@[i as int]);
            assert forall|k: int| 0 <= k < old(self).sub@.len() implies has_image(#[trigger] old(self).sub@[k], s) by {
                let c = old(self).sub@[k];
                assert(before.contains(c));
                let k2 = choose|k2: int| 0 <= k2 < before.len() && before[k2] == c;
                if k2 == last {
                    assert(s[k2].node == c.node);
                    assert(preserves(c, s[k2]));
                } else {
                    assert(s[k2] == c);
                    lemma_preserves_refl(c);
                }
            }
            lemma_preserves(*old(self), *self);
        }
    }

    /// Inserts a whole path.
    pub fn push(&mut self, v_path: &Vec<DefPath>)
        requires
            wf_tree(*old(self)),
        ensures
            wf_tree(*final(self)),
            final(self).node == old(self).node,
            find_spec(*final(self), v_path@, 0) is Some,
            preserves(*old(self), *final(self)),
    {
        self.push_from(v_path, 0);
    }
}

/// An item path: segments from the unit root to the item.
pub type ItemPath = Vec<DefPath>;

/// Builds the tree of all item paths under the unit root.
pub fn make_tree(v_path: &Vec<ItemPath>, crate_root: &DefPath) -> (r: Tree)
    ensures
        r.node.inner == *crate_root,
        r.node.id == 0,
        wf_tree(r),
        forall|k: int| 0 <= k < v_path@.len() ==> #[trigger] find_spec(r, v_path@[k]@, 0) is Some,
{
    let mut tree = Tree::new(crate_root.duplicate());
    let mut i: usize = 0;
    while i < v_path.len()
        invariant
            i <= v_path.len(),
            tree.node.inner == *crate_root,
            tree.node.id == 0,
            wf_tree(tree),
            forall|k: int| 0 <= k < i ==> #[trigger] find_spec(tree, v_path@[k]@, 0) is Some,
        decreases v_path.len() - i,
    {
        let ghost before = tree;
        tree.push(&v_path[i]);
        proof {
            assert forall|k: int| 0 <= k < i + 1 implies #[trigger] find_spec(tree, v_path@[k]@, 0) is Some by {
                if k < i {
                    assert(find_spec(before, v_path@[k]@, 0) is Some);
                }
            }
        }
        i += 1;
    }
    tree
}

/// Every item path, and each item's fully qualified name with its path.
pub struct FreeItems {
    /// Item paths in the order found.
    pub v_path: Vec<ItemPath>,
    /// Names, each once, with their paths.
    pub name_to_path: Vec<(String, ItemPath)>,
}

pub open spec fn paths_view(s: Seq<(String, ItemPath)>) -> Seq<(Seq<char>, Seq<DefPath>)> {
    s.map_values(|e: (String, ItemPath)| (e.0@, e.1@))
}

/// The value at `k`, if any.
pub open spec fn lookup<V>(m: Seq<(Seq<char>, V)>, k: Seq<char>) -> Option<V> {
    if has_key(m, k) {
        Some(m[key_pos(m, k)].1)
    } else {
        None
    }
}

fn copy_path(v: &ItemPath) -> (r: ItemPath)
    ensures
        r@ == v@,
{
    let mut r: ItemPath = Vec::new();
    let mut i: usize = 0;
    while i < v.len()
        invariant
            i <= v.len(),
            r@ == v@.take(i as int),
        decreases v.len() - i,
    {
        r.push(v[i].duplicate());
        i += 1;
        assert(r@ =~= v@.take(i as int));
    }
    assert(v@.take(v.len() as int) =~= v@);
    r
}

impl FreeItems {
    pub fn new() -> (r: FreeItems)
        ensures
            r.v_path@.len() == 0,
            r.name_to_path@.len() == 0,
            unique_keys(paths_view(r.name_to_path@)),
    {
        FreeItems { v_path: Vec::new(), name_to_path: Vec::new() }
    }

    /// Records an item: its path is added to the list, and the name maps to
    /// it (a repeated name keeps its position and takes the new path).
    pub fn push_item(&mut self, name: String, path: ItemPath)
        ensures
            final(self).v_path@ == old(self).v_path@.push(path),
            paths_view(final(self).name_to_path@) == put(paths_view(old(self).name_to_path@), name@, path@),
            unique_keys(paths_view(old(self).name_to_path@)) ==> unique_keys(paths_view(final(self).name_to_path@)),
    {
        let ghost before = paths_view(self.name_to_path@);
        let k = find_name(&self.name_to_path, &name);
        proof {
            lemma_same_keys(string_keys(self.name_to_path@), before, name@);
        }
        let copy = copy_path(&path);
        self.v_path.push(path);
        if k < self.name_to_path.len() {
            self.name_to_path.set(k, (name, copy));
        } else {
            self.name_to_path.push((name, copy));
        }
        assert(paths_view(self.name_to_path@) =~= put(before, name@, copy@));
        proof {
            if unique_keys(before) {
                lemma_put_unique(before, name@, copy@);
            }
        }
    }
}

impl FreeItems {
    /// Records a free item (function, type or trait declaration) from its
    /// kind, name and enclosing modules; its name key is the root's name,
    /// `::`, then `def_path_str`.
    pub fn push_plain_item(&mut self, kind: DefPathKind, name: &str, mods: &Vec<String>, def_path_str: &str, crate_root: &DefPath)
        ensures
            final(self).v_path@.len() == old(self).v_path@.len() + 1,
            final(self).v_path@.drop_last() == old(self).v_path@,
            ({
                let p = final(self).v_path@.last()@;
                &&& p.len() == mods@.len() + 2
                &&& p[0] == *crate_root
                &&& forall|i: int| 0 <= i < mods@.len() ==> (#[trigger] p[i + 1]).kind == DefPathKind::Mod && p[i + 1].name@ == mods@[i]@
                &&& p.last().kind == kind && p.last().name@ == name@
                &&& paths_view(final(self).name_to_path@) == put(
                    paths_view(old(self).name_to_path@),
                    crate::output::qualified(crate_root.name@, def_path_str@),
                    p,
                )
            }),
            unique_keys(paths_view(old(self).name_to_path@)) ==> unique_keys(paths_view(final(self).name_to_path@)),
    {
        let path = plain_item_path(kind, name, mods, crate_root);
        let key = crate_root.name.clone().concat("::").concat(def_path_str);
        self.push_item(key, path);
    }

    /// Records a method of an impl block from its `Self` path, its trait's
    /// path for a trait impl, and its name; its name key is the root's name,
    /// `::`, then `def_path_str`.
    pub fn push_impl_fn(
        &mut self,
        self_path: ItemPath,
        trait_path: Option<ItemPath>,
        fn_name: &str,
        def_path_str: &str,
        crate_root: &DefPath,
    )
        requires
            self_path@.len() > 0,
            trait_path is Some ==> trait_path->0@.len() > 0,
        ensures
            final(self).v_path@.len() == old(self).v_path@.len() + 1,
            final(self).v_path@.drop_last() == old(self).v_path@,
            ({
                let p = final(self).v_path@.last()@;
                &&& p.len() > 0
                &&& p.last().kind == DefPathKind::AssocFn && p.last().name@ == fn_name@
                &&& trait_path is None ==> p.drop_last() == self_path@
                &&& trait_path is Some && dp_eq(self_path@[0], *crate_root) ==> p.drop_last() == self_path@ + trait_path->0@
                &&& trait_path is Some && !dp_eq(self_path@[0], *crate_root) && dp_eq(trait_path->0@[0], *crate_root)
                    ==> p.drop_last() == trait_path->0@ + self_path@
                &&& trait_path is Some && !dp_eq(self_path@[0], *crate_root) && !dp_eq(trait_path->0@[0], *crate_root)
                    ==> p.len() == self_path@.len() + trait_path->0@.len() + 3 && p[0] == *crate_root && is_phony(p[1])
                    && p.drop_last().skip(2) == self_path@ + trait_path->0@
                &&& paths_view(final(self).name_to_path@) == put(
                    paths_view(old(self).name_to_path@),
                    crate::output::qualified(crate_root.name@, def_path_str@),
                    p,
                )
            }),
            unique_keys(paths_view(old(self).name_to_path@)) ==> unique_keys(paths_view(final(self).name_to_path@)),
    {
        let path = impl_fn_path(self_path, trait_path, fn_name, crate_root);
        let key = crate_root.name.clone().concat("::").concat(def_path_str);
        self.push_item(key, path);
    }
}

/// `new` is `old` put under the unit root: unchanged when it starts at the
/// root, else `[root, __phony] + old`.
pub open spec fn normalized(new: Seq<DefPath>, old: Seq<DefPath>, root: DefPath) -> bool {
    if dp_eq(old[0], root) {
        new == old
    } else {
        new.len() == old.len() + 2 && new[0] == root && is_phony(new[1]) && new.skip(2) == old
    }
}

impl FreeItems {
    /// Puts every path that does not start at the unit root under
    /// `[root, __phony]`.
    pub fn normalize(&mut self, crate_root: &DefPath)
        requires
            forall|k: int| 0 <= k < old(self).v_path@.len() ==> (#[trigger] old(self).v_path@[k])@.len() > 0,
            forall|k: int| 0 <= k < old(self).name_to_path@.len() ==> (#[trigger] old(self).name_to_path@[k]).1@.len() > 0,
        ensures
            final(self).v_path@.len() == old(self).v_path@.len(),
            forall|k: int| 0 <= k < old(self).v_path@.len() ==> normalized(#[trigger] final(self).v_path@[k]@, old(self).v_path@[k]@, *crate_root),
            final(self).name_to_path@.len() == old(self).name_to_path@.len(),
            forall|k: int| 0 <= k < old(self).name_to_path@.len() ==> (#[trigger] final(self).name_to_path@[k]).0 == old(self).name_to_path@[k].0
                && normalized(final(self).name_to_path@[k].1@, old(self).name_to_path@[k].1@, *crate_root),
    {
        let mut i: usize = 0;
        while i < self.v_path.len()
            invariant
                i <= self.v_path.len(),
                self.v_path@.len() == old(self).v_path@.len(),
                self.name_to_path == old(self).name_to_path,
                forall|k: int| 0 <= k < old(self).v_path@.len() ==> (#[trigger] old(self).v_path@[k])@.len() > 0,
                forall|k: int| 0 <= k < i ==> normalized(#[trigger] self.v_path@[k]@, old(self).v_path@[k]@, *crate_root),
                forall|k: int| i <= k < self.v_path.len() ==> #[trigger] self.v_path@[k] == old(self).v_path@[k],
            decreases self.v_path.len() - i,
        {
            let ghost before = self.v_path@;
            normalize_root(&mut self.v_path[i], crate_root);
            proof {
                assert forall|k: int| 0 <= k < self.v_path.len() && k != i implies #[trigger] self.v_path@[k] == before[k] by {}
            }
            i += 1;
        }
        let mut i: usize = 0;
        while i < self.name_to_path.len()
            invariant
                i <= self.name_to_path.len(),
                self.name_to_path@.len() == old(self).name_to_path@.len(),
                self.v_path@.len() == old(self).v_path@.len(),
                forall|k: int| 0 <= k < old(self).v_path@.len() ==> normalized(#[trigger] self.v_path@[k]@, old(self).v_path@[k]@, *crate_root),
                forall|k: int| 0 <= k < old(self).name_to_path@.len() ==> (#[trigger] old(self).name_to_path@[k]).1@.len() > 0,
                forall|k: int| 0 <= k < i ==> (#[trigger] self.name_to_path@[k]).0 == old(self).name_to_path@[k].0
                    && normalized(self.name_to_path@[k].1@, old(self).name_to_path@[k].1@, *crate_root),
                forall|k: int| i <= k < self.name_to_path.len() ==> #[trigger] self.name_to_path@[k] == old(self).name_to_path@[k],
            decreases self.name_to_path.len() - i,
        {
            let ghost before = self.name_to_path@;
            normalize_root(&mut self.name_to_path[i].1, crate_root);
            proof {
                assert forall|k: int| 0 <= k < self.name_to_path.len() && k != i implies #[trigger] self.name_to_path@[k] == before[k] by {}
            }
            i += 1;
        }
    }
}

/// The name index over a finished tree: each name whose path resolves maps
/// to the id of the node it reaches; a name whose path does not resolve is
/// left out.
pub open spec fn index_spec(t: Tree, np: Seq<(Seq<char>, Seq<DefPath>)>) -> Seq<(Seq<char>, usize)>
    decreases np.len(),
{
    if np.len() == 0 {
        seq![]
    } else {
        let m = index_spec(t, np.drop_last());
        match find_spec(t, np.last().1, 0) {
            Some(id) => put(m, np.last().0, id),
            None => m,
        }
    }
}

pub open spec fn ids_view(s: Seq<(String, usize)>) -> Seq<(Seq<char>, usize)> {
    s.map_values(|e: (String, usize)| (e.0@, e.1))
}

/// The finished tree and the name index.
pub struct Navigation {
    pub tree: Tree,
    pub name_to_id: Vec<(String, usize)>,
}

impl Navigation {
    /// Sorts every level of the tree, numbers the nodes in depth-first
    /// pre-order from 0, and resolves every item name to its node.
    pub fn new(tree: Tree, free: &FreeItems) -> (r: Navigation)
        requires
            size(tree) <= usize::MAX,
            wf_tree(tree),
        ensures
            wf_tree(r.tree),
            forall|q: Seq<DefPath>, j: int| #[trigger] find_spec(tree, q, j) is Some ==> find_spec(r.tree, q, j) is Some,
            forall|q: Seq<DefPath>, j: int| #[trigger] find_spec(r.tree, q, j) is Some ==> find_spec(tree, q, j) is Some,
            unique_keys(paths_view(free.name_to_path@)) ==> forall|k: int| 0 <= k < free.name_to_path@.len() ==>
                lookup(ids_view(r.name_to_id@), #[trigger] paths_view(free.name_to_path@)[k].0) == find_spec(r.tree, paths_view(free.name_to_path@)[k].1, 0),
            sorted_tree(r.tree),
            preorder_ids(r.tree) == Seq::new(size(tree), |k: int| k as usize),
            r.tree.node.inner == tree.node.inner,
            ids_view(r.name_to_id@) == index_spec(r.tree, paths_view(free.name_to_path@)),
    {
        let mut tree = tree;
        tree.sort();
        let ghost sorted = tree;
        let mut id: usize = 0;
        tree.fill_id(&mut id);
        proof {
            lemma_same_size(tree, sorted);
            assert(Seq::new(size(sorted), |k: int| (0 + k) as usize) =~= Seq::new(size(sorted), |k: int| k as usize));
            lemma_same_shape_wf(tree, sorted);
            assert forall|q: Seq<DefPath>, j: int| #[trigger] find_spec(tree, q, j) is Some implies find_spec(sorted, q, j) is Some by {
                lemma_same_shape_find(tree, sorted, q, j);
            }
            assert forall|q: Seq<DefPath>, j: int| #[trigger] find_spec(sorted, q, j) is Some implies find_spec(tree, q, j) is Some by {
                lemma_same_shape_find(tree, sorted, q, j);
            }
        }
        let ghost np = paths_view(free.name_to_path@);
        let mut m: Vec<(String, usize)> = Vec::new();
        let mut i: usize = 0;
        assert(ids_view(m@) =~= Seq::empty());
        while i < free.name_to_path.len()
            invariant
                i <= free.name_to_path.len(),
                np == paths_view(free.name_to_path@),
                ids_view(m@) == index_spec(tree, np.take(i as int)),
            decreases free.name_to_path.len() - i,
        {
            let name = &free.name_to_path[i].0;
            let path = &free.name_to_path[i].1;
            proof {
                assert(np.take(i + 1).drop_last() =~= np.take(i as int));
                assert(np[i as int] == (name@, path@));
            }
            match tree.find_idx(path) {
                Some(found) => {
                    let ghost before = ids_view(m@);
                    let k = find_name(&m, name);
                    proof {
                        lemma_same_keys(string_keys(m@), before, name@);
                    }
                    if k < m.len() {
                        m.set(k, (name.clone(), found));
                    } else {
                        m.push((name.clone(), found));
                    }
                    assert(ids_view(m@) =~= put(before, name@, found));
                },
                None => {},
            }
            i += 1;
        }
        assert(np.take(free.name_to_path.len() as int) =~= np);
        proof {
            if unique_keys(np) {
                assert forall|k: int| 0 <= k < np.len() implies lookup(ids_view(m@), #[trigger] np[k].0) == find_spec(tree, np[k].1, 0) by {
                    lemma_name_round_trip(tree, np, k);
                }
            }
        }
        Navigation { tree, name_to_id: m }
    }

    /// The id of the node that the named item's path reaches.
    pub fn name_to_id(&self, name: &str) -> (r: Option<usize>)
        ensures
            r == lookup(ids_view(self.name_to_id@), name@),
    {
        let key = name.to_owned();
        let ghost v = ids_view(self.name_to_id@);
        let k = find_name(&self.name_to_id, &key);
        proof {
            lemma_same_keys(string_keys(self.name_to_id@), v, name@);
            lemma_key_pos_bounds(v, name@);
        }
        if k < self.name_to_id.len() {
            Some(self.name_to_id[k].1)
        } else {
            None
        }
    }

    /// The name of the unit root.
    pub fn crate_root(&self) -> (r: &str)
        ensures
            r@ == self.tree.node.inner.name@,
    {
        self.tree.node.inner.name.as_str()
    }
}

/// Trees of the same shape resolve the same paths.
pub proof fn lemma_same_shape_find(a: Tree, b: Tree, q: Seq<DefPath>, j: int)
    requires
        same_shape(a, b),
    ensures
        find_spec(a, q, j) is Some <==> find_spec(b, q, j) is Some,
    decreases q.len() - j,
{
    if j < q.len() {
        if dp_eq(q[j], a.node.inner) {
            lemma_same_shape_find(a, b, q, j + 1);
        } else {
            lemma_same_list(a.sub@, b.sub@);
            assert(child_keys(a.sub@) =~= child_keys(b.sub@)) by {
                assert forall|i: int| 0 <= i < a.sub@.len() implies #[trigger] a.sub@[i].node.inner == b.sub@[i].node.inner by {
                    assert(same_shape(a.sub@[i], b.sub@[i]));
                }
            }
            let p = child_pos(a.sub@, q[j]);
            if 0 <= p < a.sub@.len() {
                assert(same_shape(a.sub@[p], b.sub@[p]));
                lemma_same_shape_find(a.sub@[p], b.sub@[p], q, j + 1);
            }
        }
    }
}

/// A tree of the same shape as a well-formed one is well-formed.
pub proof fn lemma_same_shape_wf(a: Tree, b: Tree)
    requires
        same_shape(a, b),
        wf_tree(b),
    ensures
        wf_tree(a),
    decreases a,
{
    lemma_same_list(a.sub@, b.sub@);
    lemma_wf_list(a.sub@);
    lemma_wf_list(b.sub@);
    assert forall|i: int| 0 <= i < a.sub@.len() implies #[trigger] wf_tree(a.sub@[i]) by {
        assert(same_shape(a.sub@[i], b.sub@[i]));
        lemma_same_shape_wf(a.sub@[i], b.sub@[i]);
    }
    assert forall|i: int, j: int| 0 <= i < a.sub@.len() && 0 <= j < a.sub@.len() && i != j implies !dp_eq(#[trigger] a.sub@[i].node.inner, #[trigger] a.sub@[j].node.inner) by {
        assert(same_shape(a.sub@[i], b.sub@[i]));
        assert(same_shape(a.sub@[j], b.sub@[j]));
    }
}

/// Resolving an item's name through the index lands on the node that its
/// path reaches in the finished tree, when names are distinct.
pub proof fn lemma_name_round_trip(t: Tree, np: Seq<(Seq<char>, Seq<DefPath>)>, k: int)
    requires
        0 <= k < np.len(),
        unique_keys(np),
    ensures
        lookup(index_spec(t, np), np[k].0) == find_spec(t, np[k].1, 0),
    decreases np.len(),
{
    let m = index_spec(t, np.drop_last());
    let last = np.last();
    let name = np[k].0;
    assert forall|a: int, b: int| 0 <= a < np.len() - 1 && 0 <= b < np.len() - 1 && a != b implies (#[trigger] np.drop_last()[a]).0 != (#[trigger] np.drop_last()[b]).0 by {
        assert(np[a] == np.drop_last()[a] && np[b] == np.drop_last()[b]);
    }
    if k == np.len() - 1 {
        assert forall|a: int| 0 <= a < np.len() - 1 implies #[trigger] np.drop_last()[a].0 != name by {
            assert(np[a] == np.drop_last()[a]);
        }
        lemma_absent(t, np.drop_last(), name);
        match find_spec(t, last.1, 0) {
            Some(id) => {
                lemma_get_put(m, last.0, id, name, 0);
                lemma_key_pos_bounds(put(m, last.0, id), name);
            },
            None => {},
        }
    } else {
        assert(np.drop_last()[k] == np[k]);
        lemma_name_round_trip(t, np.drop_last(), k);
        match find_spec(t, last.1, 0) {
            Some(id) => {
                assert(last.0 != name);
                lemma_get_put(m, last.0, id, name, 0);
                lemma_key_pos_bounds(put(m, last.0, id), name);
                lemma_key_pos_bounds(m, name);
            },
            None => {},
        }
    }
}

proof fn lemma_absent(t: Tree, np: Seq<(Seq<char>, Seq<DefPath>)>, name: Seq<char>)
    requires
        forall|a: int| 0 <= a < np.len() ==> #[trigger] np[a].0 != name,
    ensures
        !has_key(index_spec(t, np), name),
    decreases np.len(),
{
    if np.len() > 0 {
        assert forall|a: int| 0 <= a < np.len() - 1 implies #[trigger] np.drop_last()[a].0 != name by {
            assert(np.drop_last()[a] == np[a]);
        }
        lemma_absent(t, np.drop_last(), name);
        match find_spec(t, np.last().1, 0) {
            Some(id) => {
                lemma_get_put(index_spec(t, np.drop_last()), np.last().0, id, name, 0);
            },
            None => {},
        }
    }
}

/// Depth-first ids are a permutation of `start..start + n` in pre-order:
/// the `k`-th node visited has id `start + k`.
pub proof fn lemma_preorder_ids(t: Tree, start: usize, k: int)
    requires
        preorder_ids(t) == Seq::new(size(t), |j: int| (start + j) as usize),
        start + size(t) <= usize::MAX,
        0 <= k < size(t),
    ensures
        preorder_ids(t).len() == size(t),
        preorder_ids(t)[k] == start + k,
        forall|a: int, b: int| 0 <= a < b < size(t) ==> #[trigger] preorder_ids(t)[a] != #[trigger] preorder_ids(t)[b],
{
}

/// The kind of definition a path is built for.
#[derive(Clone, Copy, Debug, PartialEq, Eq, Structural)]
pub enum DefKind {
    Struct,
    Enum,
    Union,
    Trait,
    Other,
}

pub open spec fn is_phony(d: DefPath) -> bool {
    d.kind == DefPathKind::Mod && d.name@ == "__phony"@
}

pub open spec fn is_primitive(d: DefPath) -> bool {
    d.kind == DefPathKind::Mod && d.name@ == "__primitive"@
}

impl DefPath {
    /// The root segment of a unit: a module named after it.
    pub fn crate_root(crate_name: &str) -> (r: DefPath)
        ensures
            r.kind == DefPathKind::Mod,
            r.name@ == crate_name@,
    {
        DefPath::new(DefPathKind::Mod, crate_name)
    }

    /// The synthetic module under the root that hosts items whose type and
    /// trait are both foreign.
    pub fn phony() -> (r: DefPath)
        ensures
            is_phony(r),
    {
        DefPath::new(DefPathKind::Mod, "__phony")
    }

    /// The synthetic module under the root that hosts types that are not
    /// structured types.
    pub fn primitive() -> (r: DefPath)
        ensures
            is_primitive(r),
    {
        DefPath::new(DefPathKind::Mod, "__primitive")
    }

    /// The path of a method's `Self` type: the structured type's own path
    /// when there is one, else `[root, __primitive, Ty(name)]`.
    pub fn from_ty(adt_path: Option<ItemPath>, ty_name: &str, crate_root: &DefPath) -> (r: ItemPath)
        ensures
            adt_path is Some ==> r@ == adt_path->0@,
            adt_path is None ==> r@.len() == 3 && r@[0] == *crate_root && is_primitive(r@[1])
                && r@[2].kind == DefPathKind::Ty && r@[2].name@ == ty_name@,
    {
        match adt_path {
            Some(v) => v,
            None => {
                let mut v: ItemPath = Vec::new();
                v.push(crate_root.duplicate());
                v.push(DefPath::primitive());
                v.push(DefPath::new(DefPathKind::Ty, ty_name));
                v
            },
        }
    }
}

/// `[root, __phony] + v`.
pub fn put_under_phony(v: ItemPath, crate_root: &DefPath) -> (r: ItemPath)
    ensures
        r@.len() == v@.len() + 2,
        r@[0] == *crate_root,
        is_phony(r@[1]),
        r@.skip(2) == v@,
{
    let ghost orig = v@;
    let mut v = v;
    v.insert(0, DefPath::phony());
    v.insert(0, crate_root.duplicate());
    assert(v@.skip(2) =~= orig);
    v
}

/// Whether a path starts at the unit root.
pub fn is_local_path(v: &ItemPath, crate_root: &DefPath) -> (r: bool)
    requires
        v@.len() > 0,
    ensures
        r == dp_eq(v@[0], *crate_root),
{
    v[0].same(crate_root)
}

/// Puts a path that does not start at the unit root under `[root, __phony]`.
pub fn normalize_root(item_path: &mut ItemPath, crate_root: &DefPath)
    requires
        old(item_path)@.len() > 0,
    ensures
        dp_eq(old(item_path)@[0], *crate_root) ==> final(item_path)@ == old(item_path)@,
        !dp_eq(old(item_path)@[0], *crate_root) ==> final(item_path)@.len() == old(item_path)@.len() + 2
            && final(item_path)@[0] == *crate_root && is_phony(final(item_path)@[1])
            && final(item_path)@.skip(2) == old(item_path)@,
{
    if !is_local_path(item_path, crate_root) {
        let mut v: ItemPath = Vec::new();
        std::mem::swap(&mut v, item_path);
        *item_path = put_under_phony(v, crate_root);
    }
}

/// The path of a free item: the root, the enclosing modules from the
/// outermost in, then the item.
pub fn plain_item_path(kind: DefPathKind, name: &str, mods: &Vec<String>, crate_root: &DefPath) -> (r: ItemPath)
    ensures
        r@.len() == mods@.len() + 2,
        r@[0] == *crate_root,
        forall|i: int| 0 <= i < mods@.len() ==> (#[trigger] r@[i + 1]).kind == DefPathKind::Mod && r@[i + 1].name@ == mods@[i]@,
        r@.last().kind == kind && r@.last().name@ == name@,
{
    let mut v: ItemPath = Vec::new();
    v.push(crate_root.duplicate());
    let mut i: usize = 0;
    while i < mods.len()
        invariant
            i <= mods.len(),
            v@.len() == i + 1,
            v@[0] == *crate_root,
            forall|j: int| 0 <= j < i ==> (#[trigger] v@[j + 1]).kind == DefPathKind::Mod && v@[j + 1].name@ == mods@[j]@,
        decreases mods.len() - i,
    {
        v.push(DefPath::new(DefPathKind::Mod, mods[i].as_str()));
        i += 1;
    }
    v.push(DefPath::new(kind, name));
    v
}

/// The path of a type or trait definition: a module per segment starting
/// with the crate, the last one taking the definition's kind (a trait
/// becomes `ImplTrait`); any other definition is one `Ty` segment with its
/// display name.
pub fn def_path(kind: DefKind, crate_name: &str, segments: &Vec<String>, display: &str) -> (r: ItemPath)
    ensures
        kind == DefKind::Other ==> r@.len() == 1 && r@[0].kind == DefPathKind::Ty && r@[0].name@ == display@,
        kind != DefKind::Other ==> r@.len() == segments@.len() + 1
            && r@[0].name@ == crate_name@
            && (r@.len() > 1 ==> r@[0].kind == DefPathKind::Mod)
            && (forall|i: int| 0 <= i < segments@.len() ==> (#[trigger] r@[i + 1]).name@ == segments@[i]@)
            && (forall|i: int| 1 <= i < segments@.len() ==> (#[trigger] r@[i]).kind == DefPathKind::Mod)
            && r@.last().kind == def_kind_segment(kind),
{
    let last_kind = match kind {
        DefKind::Struct => DefPathKind::Struct,
        DefKind::Enum => DefPathKind::Enum,
        DefKind::Union => DefPathKind::Union,
        DefKind::Trait => DefPathKind::ImplTrait,
        DefKind::Other => {
            let mut v: ItemPath = Vec::new();
            v.push(DefPath::new(DefPathKind::Ty, display));
            return v;
        },
    };
    let mut v: ItemPath = Vec::new();
    let n = segments.len();
    let k0 = if n == 0 {
        last_kind
    } else {
        DefPathKind::Mod
    };
    v.push(DefPath::new(k0, crate_name));
    let mut i: usize = 0;
    while i < n
        invariant
            i <= n,
            n == segments@.len(),
            v@.len() == i + 1,
            v@[0].name@ == crate_name@,
            v@[0].kind == k0,
            forall|j: int| 0 <= j < i ==> (#[trigger] v@[j + 1]).name@ == segments@[j]@,
            forall|j: int| 1 <= j <= i ==> (#[trigger] v@[j]).kind == if j == n { last_kind } else { DefPathKind::Mod },
        decreases n - i,
    {
        let k = if i + 1 == n {
            last_kind
        } else {
            DefPathKind::Mod
        };
        v.push(DefPath::new(k, segments[i].as_str()));
        i += 1;
    }
    v
}

pub open spec fn def_kind_segment(k: DefKind) -> DefPathKind {
    match k {
        DefKind::Struct => DefPathKind::Struct,
        DefKind::Enum => DefPathKind::Enum,
        DefKind::Union => DefPathKind::Union,
        _ => DefPathKind::ImplTrait,
    }
}

fn append_path(a: &mut ItemPath, b: ItemPath)
    ensures
        final(a)@ == old(a)@ + b@,
{
    let mut b = b;
    a.append(&mut b);
}

/// The path of a method in an impl block. An inherent method goes under
/// its type. A trait method goes under its type then the trait when the
/// type is local; under the trait then the type when only the trait is
/// local; else under `[root, __phony]`, then the type, then the trait.
pub fn impl_fn_path(self_path: ItemPath, trait_path: Option<ItemPath>, fn_name: &str, crate_root: &DefPath) -> (r: ItemPath)
    requires
        self_path@.len() > 0,
        trait_path is Some ==> trait_path->0@.len() > 0,
    ensures
        r@.len() > 0,
        r@.last().kind == DefPathKind::AssocFn,
        r@.last().name@ == fn_name@,
        trait_path is None ==> r@.drop_last() == self_path@,
        trait_path is Some && dp_eq(self_path@[0], *crate_root) ==> r@.drop_last() == self_path@ + trait_path->0@,
        trait_path is Some && !dp_eq(self_path@[0], *crate_root) && dp_eq(trait_path->0@[0], *crate_root)
            ==> r@.drop_last() == trait_path->0@ + self_path@,
        trait_path is Some && !dp_eq(self_path@[0], *crate_root) && !dp_eq(trait_path->0@[0], *crate_root)
            ==> r@.len() == self_path@.len() + trait_path->0@.len() + 3 && r@[0] == *crate_root && is_phony(r@[1])
            && r@.drop_last().skip(2) == self_path@ + trait_path->0@,
{
    let mut path = self_path;
    match trait_path {
        None => {},
        Some(tp) => {
            if is_local_path(&path, crate_root) {
                append_path(&mut path, tp);
            } else if is_local_path(&tp, crate_root) {
                let mut t = tp;
                append_path(&mut t, path);
                path = t;
            } else {
                append_path(&mut path, tp);
                let ghost joined = path@;
                path = put_under_phony(path, crate_root);
                assert(path@.skip(2) == joined);
            }
        },
    }
    let ghost before = path@;
    path.push(DefPath::new(DefPathKind::AssocFn, fn_name));
    assert(path@.drop_last() =~= before);
    proof {
        if path@.len() > 3 {
            assert(path@.drop_last().skip(2) =~= before.skip(2));
        }
    }
    path
}

} // verus!
