//! Per-type access profiles and the privilege rank of each function's
//! relationship to a type.
use vstd::prelude::*;
use crate::info_fn::{callees_view, is_argument_spec, touches_view, CalleeInfo, FnInfo, LocalsAccess, LocalsView};
use crate::maps::{lemma_put_twice, ensure_key, find_adt, find_key, find_name, lemma_same_keys, string_keys, get_or, has_key, key_pos, lemma_get_or_entry, lemma_get_put, lemma_put_entry, lemma_key_pos, lemma_key_pos_bounds, lemma_put_via_slot, put};
use crate::ty::{flatten, AccessView, Adt, AdtAccess, AdtKind, Mutability, Ty};

verus! {

/// The call shape of a function; lower is more specific.
#[derive(Clone, Copy, Debug, PartialEq, Eq, Structural, PartialOrd, Ord)]
pub enum FnKind {
    Method,
    AssocFn,
    FreeFn,
}

/// How a method takes its receiver.
#[derive(Clone, Copy, Debug, PartialEq, Eq, Structural)]
pub enum ReceiverKind {
    Owned,
    MutableRef,
    ImmutableRef,
}

/// The receiver of a method whose `self` is a structured type, or a
/// reference to one: `adt` is that type's definition.
#[derive(Clone, Copy, Debug, PartialEq, Eq, Structural)]
pub struct Receiver {
    pub adt: u64,
    pub kind: ReceiverKind,
}

/// One function's evidence for one access kind of a type.
#[derive(Clone, Copy, Debug, PartialEq, Eq, Structural)]
pub struct FnDefAdt {
    pub fn_def: u64,
    /// Whether one of the locals involved is an argument.
    pub as_argument: bool,
    pub fn_kind: FnKind,
    pub receiver: Option<Receiver>,
}

/// The functions that touch a place, split by how.
pub struct Access {
    /// Through a shared reference.
    pub read: Vec<u64>,
    /// Through an exclusive reference or a dereference.
    pub write: Vec<u64>,
    /// Owned, or through an unrecognised projection.
    pub other: Vec<u64>,
}

/// The value of an [`Access`].
pub struct AccessLists {
    pub read: Seq<u64>,
    pub write: Seq<u64>,
    pub other: Seq<u64>,
}

impl View for Access {
    type V = AccessLists;

    open spec fn view(&self) -> AccessLists {
        AccessLists { read: self.read@, write: self.write@, other: self.other@ }
    }
}

pub open spec fn empty_lists() -> AccessLists {
    AccessLists { read: seq![], write: seq![], other: seq![] }
}

impl Access {
    /// Empty buckets.
    pub fn new() -> (r: Access)
        ensures
            r@ == empty_lists(),
    {
        let r = Access { read: Vec::new(), write: Vec::new(), other: Vec::new() };
        assert(r@.read =~= empty_lists().read);
        assert(r@.write =~= empty_lists().write);
        assert(r@.other =~= empty_lists().other);
        r
    }
}

/// The access profile of one type.
pub struct AdtInfo {
    /// Per access kind, the functions observed with it.
    pub map: Vec<(AdtAccess, Vec<FnDefAdt>)>,
    /// Functions whose return value owns the type.
    pub constructors: Vec<u64>,
    /// Whole-type accesses through argument locals.
    pub as_argument: Access,
    /// Whole-type accesses through other locals.
    pub otherwise: Access,
    /// Per field, the accesses to it; empty unless the type is a struct.
    pub fields: Vec<Access>,
}

/// The value of an [`AdtInfo`].
pub struct AdtInfoView {
    pub map: Seq<(AccessView, Seq<FnDefAdt>)>,
    pub constructors: Seq<u64>,
    pub as_argument: AccessLists,
    pub otherwise: AccessLists,
    pub fields: Seq<AccessLists>,
}

pub open spec fn kinds_view(s: Seq<(AdtAccess, Vec<FnDefAdt>)>) -> Seq<(AccessView, Seq<FnDefAdt>)> {
    s.map_values(|e: (AdtAccess, Vec<FnDefAdt>)| (e.0@, e.1@))
}

pub open spec fn lists_view(s: Seq<Access>) -> Seq<AccessLists> {
    s.map_values(|a: Access| a@)
}

impl View for AdtInfo {
    type V = AdtInfoView;

    open spec fn view(&self) -> AdtInfoView {
        AdtInfoView {
            map: kinds_view(self.map@),
            constructors: self.constructors@,
            as_argument: self.as_argument@,
            otherwise: self.otherwise@,
            fields: lists_view(self.fields@),
        }
    }
}

pub open spec fn infos_view(s: Seq<(Adt, AdtInfo)>) -> Seq<(Adt, AdtInfoView)> {
    s.map_values(|e: (Adt, AdtInfo)| (e.0, e.1@))
}

pub open spec fn empty_info() -> AdtInfoView {
    AdtInfoView {
        map: seq![],
        constructors: seq![],
        as_argument: empty_lists(),
        otherwise: empty_lists(),
        fields: seq![],
    }
}

/// The evidence that function `f` gives through the locals `l`.
pub open spec fn evidence(f: u64, info: FnInfo, l: LocalsView) -> FnDefAdt {
    FnDefAdt {
        fn_def: f,
        as_argument: is_argument_spec(l, info.arg_count),
        fn_kind: info.fn_kind,
        receiver: info.receiver,
    }
}

/// Appends `e` under each access kind in `accs`.
pub open spec fn push_kinds(m: Seq<(AccessView, Seq<FnDefAdt>)>, accs: Seq<AccessView>, e: FnDefAdt) -> Seq<(AccessView, Seq<FnDefAdt>)>
    decreases accs.len(),
{
    if accs.len() == 0 {
        m
    } else {
        let m1 = push_kinds(m, accs.drop_last(), e);
        put(m1, accs.last(), get_or(m1, accs.last(), seq![]).push(e))
    }
}

/// Folds the types that function `f` touches into the profiles.
pub open spec fn add_touches(m: Seq<(Adt, AdtInfoView)>, f: u64, info: FnInfo, ts: Seq<(Adt, LocalsView)>) -> Seq<(Adt, AdtInfoView)>
    decreases ts.len(),
{
    if ts.len() == 0 {
        m
    } else {
        let m1 = add_touches(m, f, info, ts.drop_last());
        let t = ts.last();
        let ai = get_or(m1, t.0, empty_info());
        put(m1, t.0, AdtInfoView { map: push_kinds(ai.map, t.1.access, evidence(f, info, t.1)), ..ai })
    }
}

/// Records `f` as a constructor of each type in `adts`.
pub open spec fn add_ctors(m: Seq<(Adt, AdtInfoView)>, f: u64, adts: Seq<Adt>) -> Seq<(Adt, AdtInfoView)>
    decreases adts.len(),
{
    if adts.len() == 0 {
        m
    } else {
        let m1 = add_ctors(m, f, adts.drop_last());
        let ai = get_or(m1, adts.last(), empty_info());
        put(m1, adts.last(), AdtInfoView { constructors: ai.constructors.push(f), ..ai })
    }
}

/// The raw profiles (before backfilling) built from the function summaries.
pub open spec fn collect(fns: Seq<(u64, FnInfo)>) -> Seq<(Adt, AdtInfoView)>
    decreases fns.len(),
{
    if fns.len() == 0 {
        seq![]
    } else {
        let e = fns.last();
        add_ctors(add_touches(collect(fns.drop_last()), e.0, e.1, touches_view(e.1.adts@)), e.0, e.1.ret_adts@)
    }
}

fn new_info() -> (r: AdtInfo)
    ensures
        r@ == empty_info(),
{
    let r = AdtInfo {
        map: Vec::new(),
        constructors: Vec::new(),
        as_argument: Access::new(),
        otherwise: Access::new(),
        fields: Vec::new(),
    };
    assert(r@.map =~= empty_info().map);
    assert(r@.constructors =~= empty_info().constructors);
    assert(r@.fields =~= empty_info().fields);
    r
}

/// The slot of `a`, added with an empty profile when absent.
fn info_slot(m: &mut Vec<(Adt, AdtInfo)>, a: Adt) -> (k: usize)
    ensures
        infos_view(final(m)@) == ensure_key(infos_view(old(m)@), a, empty_info()),
        k == key_pos(infos_view(old(m)@), a),
        k < final(m).len(),
{
    let k = find_adt(m, a);
    proof {
        lemma_same_keys(m@, infos_view(m@), a);
    }
    proof {
        lemma_key_pos_bounds(infos_view(m@), a);
    }
    if k == m.len() {
        m.push((a, new_info()));
        assert(infos_view(m@) =~= ensure_key(infos_view(old(m)@), a, empty_info()));
    }
    k
}

fn find_kind(m: &Vec<(AdtAccess, Vec<FnDefAdt>)>, a: &AdtAccess) -> (r: usize)
    ensures
        r == key_pos(kinds_view(m@), a@),
        r <= m.len(),
{
    let mut i: usize = 0;
    while i < m.len() && !m[i].0.same(a)
        invariant
            i <= m.len(),
            forall|j: int| 0 <= j < i ==> #[trigger] m@[j].0@ != a@,
        decreases m.len() - i,
    {
        i += 1;
    }
    proof {
        let v = kinds_view(m@);
        if i < m.len() {
            assert(v[i as int].0 == m@[i as int].0@);
        }
        assert forall|j: int| 0 <= j < i implies #[trigger] v[j].0 != a@ by {
            assert(v[j].0 == m@[j].0@);
        }
        lemma_key_pos(v, a@, i as int);
    }
    i
}

/// Appends `e` under each access kind of `l`.
fn push_all_kinds(m: &mut Vec<(AdtAccess, Vec<FnDefAdt>)>, l: &LocalsAccess, e: FnDefAdt)
    ensures
        kinds_view(final(m)@) == push_kinds(kinds_view(old(m)@), l@.access, e),
{
    let mut i: usize = 0;
    while i < l.access.len()
        invariant
            i <= l.access.len(),
            kinds_view(m@) == push_kinds(kinds_view(old(m)@), l@.access.take(i as int), e),
        decreases l.access.len() - i,
    {
        let acc = &l.access[i];
        proof {
            assert(l@.access.take(i + 1).drop_last() =~= l@.access.take(i as int));
            assert(l@.access.take(i + 1).last() == acc@);
        }
        let ghost before = kinds_view(m@);
        let j = find_kind(m, acc);
        proof {
            lemma_put_via_slot(before, acc@, Seq::<FnDefAdt>::empty());
            lemma_key_pos_bounds(before, acc@);
        }
        if j == m.len() {
            m.push((acc.duplicate(), Vec::new()));
            assert(kinds_view(m@) =~= ensure_key(before, acc@, seq![]));
        }
        assert(kinds_view(m@) == ensure_key(before, acc@, seq![]));
        m[j].1.push(e);
        assert(kinds_view(m@) =~= put(before, acc@, get_or(before, acc@, seq![]).push(e)));
        i += 1;
    }
    assert(l@.access.take(l.access.len() as int) =~= l@.access);
}

/// Merges the per-function summaries into per-type access profiles.
pub fn adt_info(map_fn: &Vec<(u64, FnInfo)>) -> (r: Vec<(Adt, AdtInfo)>)
    ensures
        infos_view(r@) == finalize(collect(map_fn@)),
{
    let mut m: Vec<(Adt, AdtInfo)> = Vec::new();
    let mut i: usize = 0;
    while i < map_fn.len()
        invariant
            i <= map_fn.len(),
            infos_view(m@) == collect(map_fn@.take(i as int)),
        decreases map_fn.len() - i,
    {
        let f = map_fn[i].0;
        let info = &map_fn[i].1;
        proof {
            assert(map_fn@.take(i + 1).drop_last() =~= map_fn@.take(i as int));
            assert(infos_view(Seq::empty()) =~= Seq::empty());
        }
        let ghost start = infos_view(m@);
        let ghost ts = touches_view(info.adts@);
        let mut t: usize = 0;
        while t < info.adts.len()
            invariant
                t <= info.adts.len(),
                ts == touches_view(info.adts@),
                infos_view(m@) == add_touches(start, f, *info, ts.take(t as int)),
            decreases info.adts.len() - t,
        {
            let a = info.adts[t].0;
            let l = &info.adts[t].1;
            proof {
                assert(ts.take(t + 1).drop_last() =~= ts.take(t as int));
                assert(ts[t as int] == (a, l@));
            }
            let e = FnDefAdt {
                fn_def: f,
                as_argument: l.is_argument(info.arg_count),
                fn_kind: info.fn_kind,
                receiver: info.receiver,
            };
            let ghost before = infos_view(m@);
            proof {
                lemma_put_via_slot(before, a, empty_info());
            }
            let k = info_slot(&mut m, a);
            push_all_kinds(&mut m[k].1.map, l, e);
            assert(infos_view(m@) =~= add_touches(start, f, *info, ts.take(t + 1)));
            t += 1;
        }
        assert(ts.take(info.adts.len() as int) =~= ts);
        let ghost mid = infos_view(m@);
        let mut c: usize = 0;
        while c < info.ret_adts.len()
            invariant
                c <= info.ret_adts.len(),
                infos_view(m@) == add_ctors(mid, f, info.ret_adts@.take(c as int)),
            decreases info.ret_adts.len() - c,
        {
            let a = info.ret_adts[c];
            proof {
                assert(info.ret_adts@.take(c + 1).drop_last() =~= info.ret_adts@.take(c as int));
            }
            let ghost before = infos_view(m@);
            proof {
                lemma_put_via_slot(before, a, empty_info());
            }
            let k = info_slot(&mut m, a);
            m[k].1.constructors.push(f);
            assert(infos_view(m@) =~= add_ctors(mid, f, info.ret_adts@.take(c + 1)));
            c += 1;
        }
        assert(info.ret_adts@.take(info.ret_adts.len() as int) =~= info.ret_adts@);
        i += 1;
    }
    assert(map_fn@.take(map_fn.len() as int) =~= map_fn@);
    let ghost raw = infos_view(m@);
    let mut k: usize = 0;
    while k < m.len()
        invariant
            k <= m.len(),
            raw.len() == m.len(),
            forall|j: int| 0 <= j < k ==> #[trigger] infos_view(m@)[j] == finalize(raw)[j],
            forall|j: int| k <= j < m.len() ==> #[trigger] infos_view(m@)[j] == raw[j],
        decreases m.len() - k,
    {
        let a = m[k].0;
        let ghost before = m@;
        m[k].1.init(&a);
        proof {
            assert forall|j: int| 0 <= j < m.len() && j != k implies #[trigger] m@[j] == before[j] by {}
            assert(infos_view(before)[k as int] == raw[k as int]);
            assert(before[k as int].0 == a);
            assert(m@[k as int].0 == a);
            assert(m@[k as int].1@ == init_info(a, before[k as int].1@));
            assert(infos_view(m@)[k as int] == finalize(raw)[k as int]);
            assert forall|j: int| 0 <= j < m.len() && j != k implies #[trigger] infos_view(m@)[j] == infos_view(before)[j] by {
                assert(m@[j] == before[j]);
            }
        }
        k += 1;
    }
    assert(infos_view(m@) =~= finalize(raw));
    m
}

/// The number of field buckets a type gets: its fields when it is a struct.
pub open spec fn field_count(a: Adt) -> nat {
    if a.kind == AdtKind::Struct {
        a.num_fields as nat
    } else {
        0
    }
}

/// The functions of `v` whose `as_argument` is `as_arg`, in order.
pub open spec fn split_fns(v: Seq<FnDefAdt>, as_arg: bool) -> Seq<u64>
    decreases v.len(),
{
    if v.len() == 0 {
        seq![]
    } else {
        let r = split_fns(v.drop_last(), as_arg);
        if v.last().as_argument == as_arg {
            r.push(v.last().fn_def)
        } else {
            r
        }
    }
}

pub open spec fn fn_defs(v: Seq<FnDefAdt>) -> Seq<u64> {
    v.map_values(|f: FnDefAdt| f.fn_def)
}

/// Which bucket an access kind fills: 0 read, 1 write, 2 other.
pub open spec fn bucket(a: AccessView) -> int {
    match a {
        AccessView::Ref => 0,
        AccessView::RefVariantField(_) => 0,
        AccessView::MutRef => 1,
        AccessView::Deref => 1,
        AccessView::MutRefVariantField(_) => 1,
        AccessView::DerefVariantField(_) => 1,
        _ => 2,
    }
}

/// The field index of a field-level access kind.
pub open spec fn field_of(a: AccessView) -> Option<usize> {
    match a {
        AccessView::RefVariantField(i) => Some(i),
        AccessView::MutRefVariantField(i) => Some(i),
        AccessView::DerefVariantField(i) => Some(i),
        _ => None,
    }
}

pub open spec fn extend_bucket(l: AccessLists, b: int, x: Seq<u64>) -> AccessLists {
    if b == 0 {
        AccessLists { read: l.read + x, ..l }
    } else if b == 1 {
        AccessLists { write: l.write + x, ..l }
    } else {
        AccessLists { other: l.other + x, ..l }
    }
}

/// Whether a field-level access lands on a field bucket of `adt`.
pub open spec fn lands(adt: Adt, nfields: nat, a: AccessView) -> bool {
    field_of(a) is Some && adt.kind == AdtKind::Struct && (field_of(a)->0 as nat) < nfields
}

/// Backfills the buckets from one access kind and its functions.
pub open spec fn backfill_one(adt: Adt, s: AdtInfoView, e: (AccessView, Seq<FnDefAdt>)) -> AdtInfoView {
    let b = bucket(e.0);
    if field_of(e.0) is Some {
        if lands(adt, s.fields.len(), e.0) {
            let i = field_of(e.0)->0 as int;
            AdtInfoView { fields: s.fields.update(i, extend_bucket(s.fields[i], b, fn_defs(e.1))), ..s }
        } else {
            s
        }
    } else {
        AdtInfoView {
            as_argument: extend_bucket(s.as_argument, b, split_fns(e.1, true)),
            otherwise: extend_bucket(s.otherwise, b, split_fns(e.1, false)),
            ..s
        }
    }
}

pub open spec fn backfill(adt: Adt, s: AdtInfoView, es: Seq<(AccessView, Seq<FnDefAdt>)>) -> AdtInfoView
    decreases es.len(),
{
    if es.len() == 0 {
        s
    } else {
        backfill_one(adt, backfill(adt, s, es.drop_last()), es.last())
    }
}

/// The finished profile: one empty bucket per field, then the buckets
/// backfilled from the access kinds in order.
pub open spec fn init_info(adt: Adt, raw: AdtInfoView) -> AdtInfoView {
    backfill(adt, AdtInfoView { fields: Seq::new(field_count(adt), |i: int| empty_lists()), ..raw }, raw.map)
}

pub open spec fn finalize(m: Seq<(Adt, AdtInfoView)>) -> Seq<(Adt, AdtInfoView)> {
    m.map_values(|e: (Adt, AdtInfoView)| (e.0, init_info(e.0, e.1)))
}

fn split_push(arg: &mut Vec<u64>, oth: &mut Vec<u64>, v: &Vec<FnDefAdt>)
    ensures
        final(arg)@ == old(arg)@ + split_fns(v@, true),
        final(oth)@ == old(oth)@ + split_fns(v@, false),
{
    let mut i: usize = 0;
    while i < v.len()
        invariant
            i <= v.len(),
            arg@ == old(arg)@ + split_fns(v@.take(i as int), true),
            oth@ == old(oth)@ + split_fns(v@.take(i as int), false),
        decreases v.len() - i,
    {
        proof {
            assert(v@.take(i + 1).drop_last() =~= v@.take(i as int));
        }
        if v[i].as_argument {
            arg.push(v[i].fn_def);
        } else {
            oth.push(v[i].fn_def);
        }
        i += 1;
        assert(arg@ =~= old(arg)@ + split_fns(v@.take(i as int), true));
        assert(oth@ =~= old(oth)@ + split_fns(v@.take(i as int), false));
    }
    assert(v@.take(v.len() as int) =~= v@);
}

fn extend_fns(dst: &mut Vec<u64>, v: &Vec<FnDefAdt>)
    ensures
        final(dst)@ == old(dst)@ + fn_defs(v@),
{
    let mut i: usize = 0;
    while i < v.len()
        invariant
            i <= v.len(),
            dst@ == old(dst)@ + fn_defs(v@.take(i as int)),
        decreases v.len() - i,
    {
        dst.push(v[i].fn_def);
        i += 1;
        assert(dst@ =~= old(dst)@ + fn_defs(v@.take(i as int)));
    }
    assert(v@.take(v.len() as int) =~= v@);
}

fn extend_lists(l: &mut Access, b: u8, v: &Vec<FnDefAdt>)
    requires
        b <= 2,
    ensures
        final(l)@ == extend_bucket(old(l)@, b as int, fn_defs(v@)),
{
    if b == 0 {
        extend_fns(&mut l.read, v);
    } else if b == 1 {
        extend_fns(&mut l.write, v);
    } else {
        extend_fns(&mut l.other, v);
    }
}

fn bucket_of(a: &AdtAccess) -> (r: u8)
    ensures
        r as int == bucket(a@),
{
    match a {
        AdtAccess::Ref => 0,
        AdtAccess::RefVariantField(_) => 0,
        AdtAccess::MutRef => 1,
        AdtAccess::Deref => 1,
        AdtAccess::MutRefVariantField(_) => 1,
        AdtAccess::DerefVariantField(_) => 1,
        _ => 2,
    }
}

fn field_index(a: &AdtAccess) -> (r: Option<usize>)
    ensures
        r == field_of(a@),
{
    match a {
        AdtAccess::RefVariantField(i) => Some(*i),
        AdtAccess::MutRefVariantField(i) => Some(*i),
        AdtAccess::DerefVariantField(i) => Some(*i),
        _ => None,
    }
}

impl AdtInfo {
    /// Allocates the field buckets and backfills all buckets from `map`.
    pub fn init(&mut self, adt: &Adt)
        ensures
            final(self)@ == init_info(*adt, old(self)@),
    {
        let n: usize = if adt.kind == AdtKind::Struct {
            adt.num_fields
        } else {
            0
        };
        let mut fields: Vec<Access> = Vec::new();
        while fields.len() < n
            invariant
                fields.len() <= n,
                lists_view(fields@) == Seq::new(fields.len() as nat, |i: int| empty_lists()),
            decreases n - fields.len(),
        {
            let ghost before = fields@;
            fields.push(Access::new());
            assert(lists_view(fields@) =~= lists_view(before).push(empty_lists()));
            assert(lists_view(fields@) =~= Seq::new(fields.len() as nat, |i: int| empty_lists()));
        }
        self.fields = fields;
        let ghost start = self@;
        assert(start == (AdtInfoView { fields: Seq::new(field_count(*adt), |i: int| empty_lists()), ..old(self)@ }));
        let mut map: Vec<(AdtAccess, Vec<FnDefAdt>)> = Vec::new();
        std::mem::swap(&mut map, &mut self.map);
        let ghost es = kinds_view(map@);
        let mut i: usize = 0;
        while i < map.len()
            invariant
                i <= map.len(),
                es == kinds_view(map@),
                es == old(self)@.map,
                self.map@.len() == 0,
                (AdtInfoView { map: es, ..self@ }) == backfill(*adt, start, es.take(i as int)),
            decreases map.len() - i,
        {
            let acc = &map[i].0;
            let v = &map[i].1;
            proof {
                assert(es.take(i + 1).drop_last() =~= es.take(i as int));
                assert(es[i as int] == (acc@, v@));
            }
            let b = bucket_of(acc);
            match field_index(acc) {
                Some(idx) => {
                    if adt.kind == AdtKind::Struct && idx < self.fields.len() {
                        let ghost before = self@;
                        extend_lists(&mut self.fields[idx], b, v);
                        assert(self@.fields =~= before.fields.update(idx as int, extend_bucket(before.fields[idx as int], b as int, fn_defs(v@))));
                    }
                },
                None => {
                    if b == 0 {
                        split_push(&mut self.as_argument.read, &mut self.otherwise.read, v);
                    } else if b == 1 {
                        split_push(&mut self.as_argument.write, &mut self.otherwise.write, v);
                    } else {
                        split_push(&mut self.as_argument.other, &mut self.otherwise.other, v);
                    }
                },
            }
            i += 1;
        }
        assert(es.take(map.len() as int) =~= es);
        std::mem::swap(&mut map, &mut self.map);
    }
}

/// The most privileged relationship a function has to a type; earlier
/// variants are more privileged.
#[derive(Clone, Copy, Debug, PartialEq, Eq, Structural, PartialOrd, Ord)]
pub enum AdtFnKind {
    Constructor,
    MethodOwnedReceiver,
    MethodMutableRefReceiver,
    MethodImmutableRefReceiver,
    MutableAsArgument,
    ImmutableAsArgument,
}

/// The position of a rank in the order of privilege.
pub open spec fn rank(k: AdtFnKind) -> int {
    match k {
        AdtFnKind::Constructor => 0,
        AdtFnKind::MethodOwnedReceiver => 1,
        AdtFnKind::MethodMutableRefReceiver => 2,
        AdtFnKind::MethodImmutableRefReceiver => 3,
        AdtFnKind::MutableAsArgument => 4,
        AdtFnKind::ImmutableAsArgument => 5,
    }
}

pub open spec fn min_kind(a: AdtFnKind, b: AdtFnKind) -> AdtFnKind {
    if rank(a) <= rank(b) {
        a
    } else {
        b
    }
}

pub open spec fn fn_kind_order(k: FnKind) -> int {
    match k {
        FnKind::Method => 0,
        FnKind::AssocFn => 1,
        FnKind::FreeFn => 2,
    }
}

pub open spec fn min_fn_kind(a: FnKind, b: FnKind) -> FnKind {
    if fn_kind_order(a) <= fn_kind_order(b) {
        a
    } else {
        b
    }
}

pub open spec fn or_receiver(a: Option<Receiver>, b: Option<Receiver>) -> Option<Receiver> {
    if a is Some {
        a
    } else {
        b
    }
}

impl AdtFnKind {
    /// The more privileged of two ranks.
    pub fn min_of(self, o: AdtFnKind) -> (r: AdtFnKind)
        ensures
            r == min_kind(self, o),
    {
        if self.order() <= o.order() {
            self
        } else {
            o
        }
    }

    /// The position of this rank in the order of privilege.
    pub fn order(&self) -> (r: u8)
        ensures
            r as int == rank(*self),
    {
        match self {
            AdtFnKind::Constructor => 0,
            AdtFnKind::MethodOwnedReceiver => 1,
            AdtFnKind::MethodMutableRefReceiver => 2,
            AdtFnKind::MethodImmutableRefReceiver => 3,
            AdtFnKind::MutableAsArgument => 4,
            AdtFnKind::ImmutableAsArgument => 5,
        }
    }
}

/// One function's merged call shape for a type.
pub type Shape = (FnKind, Option<Receiver>);

/// Merges one piece of evidence into the per-function shapes: the more
/// specific call shape and the first receiver that is known.
pub open spec fn merge_shape(m: Seq<(u64, Shape)>, e: FnDefAdt) -> Seq<(u64, Shape)> {
    let o = get_or(m, e.fn_def, (e.fn_kind, e.receiver));
    put(m, e.fn_def, (min_fn_kind(o.0, e.fn_kind), or_receiver(o.1, e.receiver)))
}

pub open spec fn merge_list(m: Seq<(u64, Shape)>, v: Seq<FnDefAdt>) -> Seq<(u64, Shape)>
    decreases v.len(),
{
    if v.len() == 0 {
        m
    } else {
        merge_shape(merge_list(m, v.drop_last()), v.last())
    }
}

/// The merged shapes over all the evidence of a type, in order.
pub open spec fn shapes(es: Seq<(AccessView, Seq<FnDefAdt>)>) -> Seq<(u64, Shape)>
    decreases es.len(),
{
    if es.len() == 0 {
        seq![]
    } else {
        merge_list(shapes(es.drop_last()), es.last().1)
    }
}

/// The rank of function `f` for the type defined by `d`: a receiver rank
/// when `f` is a method whose receiver is that type, else `default`.
pub open spec fn arg_rank(sh: Seq<(u64, Shape)>, d: u64, f: u64, default: AdtFnKind) -> AdtFnKind {
    let s = get_or(sh, f, (FnKind::FreeFn, None));
    if s.0 == FnKind::Method && s.1 is Some && s.1->0.adt == d {
        match s.1->0.kind {
            ReceiverKind::Owned => AdtFnKind::MethodOwnedReceiver,
            ReceiverKind::MutableRef => AdtFnKind::MethodMutableRefReceiver,
            ReceiverKind::ImmutableRef => AdtFnKind::MethodImmutableRefReceiver,
        }
    } else {
        default
    }
}

/// A rank derived for (function, type definition).
pub type RankEvent = (u64, u64, AdtFnKind);

pub open spec fn ctor_events(d: u64, v: Seq<u64>) -> Seq<RankEvent> {
    v.map_values(|f: u64| (f, d, AdtFnKind::Constructor))
}

pub open spec fn arg_events(sh: Seq<(u64, Shape)>, d: u64, v: Seq<u64>, default: AdtFnKind) -> Seq<RankEvent> {
    v.map_values(|f: u64| (f, d, arg_rank(sh, d, f, default)))
}

/// Every rank that the evidence of one type gives, in order: constructors,
/// then argument reads, then argument writes.
pub open spec fn type_events(a: Adt, info: AdtInfoView) -> Seq<RankEvent> {
    let sh = shapes(info.map);
    ctor_events(a.def, info.constructors)
        + arg_events(sh, a.def, info.as_argument.read, AdtFnKind::ImmutableAsArgument)
        + arg_events(sh, a.def, info.as_argument.write, AdtFnKind::MutableAsArgument)
}

pub open spec fn all_events(m: Seq<(Adt, AdtInfoView)>) -> Seq<RankEvent>
    decreases m.len(),
{
    if m.len() == 0 {
        seq![]
    } else {
        all_events(m.drop_last()) + type_events(m.last().0, m.last().1)
    }
}

/// Keeps the more privileged rank for the event's (function, type) pair.
pub open spec fn put_min(m: Seq<(u64, Seq<(u64, AdtFnKind)>)>, e: RankEvent) -> Seq<(u64, Seq<(u64, AdtFnKind)>)> {
    let inner = get_or(m, e.0, seq![]);
    put(m, e.0, put(inner, e.1, min_kind(get_or(inner, e.1, e.2), e.2)))
}

pub open spec fn apply_ranks(m: Seq<(u64, Seq<(u64, AdtFnKind)>)>, evs: Seq<RankEvent>) -> Seq<(u64, Seq<(u64, AdtFnKind)>)>
    decreases evs.len(),
{
    if evs.len() == 0 {
        m
    } else {
        put_min(apply_ranks(m, evs.drop_last()), evs.last())
    }
}

/// The function-to-type rank map for the given profiles.
pub open spec fn fn_adt_spec(m: Seq<(Adt, AdtInfoView)>) -> Seq<(u64, Seq<(u64, AdtFnKind)>)> {
    apply_ranks(seq![], all_events(m))
}

pub open spec fn fam_view(s: Seq<(u64, Vec<(u64, AdtFnKind)>)>) -> Seq<(u64, Seq<(u64, AdtFnKind)>)> {
    s.map_values(|e: (u64, Vec<(u64, AdtFnKind)>)| (e.0, e.1@))
}

fn shape_slot_merge(m: &mut Vec<(u64, Shape)>, e: FnDefAdt)
    ensures
        final(m)@ == merge_shape(old(m)@, e),
{
    let k = find_key(m, e.fn_def);
    proof {
        lemma_key_pos(m@, e.fn_def, k as int);
    }
    if k < m.len() {
        let o = m[k].1;
        let kind = if fn_kind_rank(o.0) <= fn_kind_rank(e.fn_kind) {
            o.0
        } else {
            e.fn_kind
        };
        let recv = if o.1.is_some() {
            o.1
        } else {
            e.receiver
        };
        m.set(k, (e.fn_def, (kind, recv)));
    } else {
        m.push((e.fn_def, (e.fn_kind, e.receiver)));
    }
}

fn fn_kind_rank(k: FnKind) -> (r: u8)
    ensures
        r as int == fn_kind_order(k),
{
    match k {
        FnKind::Method => 0,
        FnKind::AssocFn => 1,
        FnKind::FreeFn => 2,
    }
}

/// The merged shapes of the functions in a type's evidence.
fn merged_shapes(info: &AdtInfo) -> (r: Vec<(u64, Shape)>)
    ensures
        r@ == shapes(info@.map),
{
    let mut m: Vec<(u64, Shape)> = Vec::new();
    let ghost es = info@.map;
    let mut i: usize = 0;
    while i < info.map.len()
        invariant
            i <= info.map.len(),
            es == info@.map,
            m@ == shapes(es.take(i as int)),
        decreases info.map.len() - i,
    {
        let v = &info.map[i].1;
        proof {
            assert(es.take(i + 1).drop_last() =~= es.take(i as int));
            assert(es[i as int].1 == v@);
        }
        let ghost start = m@;
        let mut j: usize = 0;
        while j < v.len()
            invariant
                j <= v.len(),
                m@ == merge_list(start, v@.take(j as int)),
            decreases v.len() - j,
        {
            proof {
                assert(v@.take(j + 1).drop_last() =~= v@.take(j as int));
            }
            shape_slot_merge(&mut m, v[j]);
            j += 1;
        }
        assert(v@.take(v.len() as int) =~= v@);
        i += 1;
    }
    assert(es.take(info.map.len() as int) =~= es);
    m
}

fn arg_rank_exec(sh: &Vec<(u64, Shape)>, d: u64, f: u64, default: AdtFnKind) -> (r: AdtFnKind)
    ensures
        r == arg_rank(sh@, d, f, default),
{
    let k = find_key(sh, f);
    proof {
        lemma_key_pos(sh@, f, k as int);
    }
    let s = if k < sh.len() {
        sh[k].1
    } else {
        (FnKind::FreeFn, None)
    };
    match (s.0, s.1) {
        (FnKind::Method, Some(recv)) if recv.adt == d => match recv.kind {
            ReceiverKind::Owned => AdtFnKind::MethodOwnedReceiver,
            ReceiverKind::MutableRef => AdtFnKind::MethodMutableRefReceiver,
            ReceiverKind::ImmutableRef => AdtFnKind::MethodImmutableRefReceiver,
        },
        _ => default,
    }
}

/// Keeps the more privileged of `kind` and the rank already recorded for
/// `fn_def` and the type defined by `d`.
fn push_adt_fn(map: &mut Vec<(u64, Vec<(u64, AdtFnKind)>)>, d: u64, fn_def: u64, kind: AdtFnKind)
    ensures
        fam_view(final(map)@) == put_min(fam_view(old(map)@), (fn_def, d, kind)),
{
    let ghost before = fam_view(map@);
    let k = find_key(map, fn_def);
    proof {
        assert forall|j: int| 0 <= j < k implies #[trigger] before[j].0 != fn_def by {
            assert(before[j].0 == map@[j].0);
        }
        if k < map.len() {
            assert(before[k as int].0 == map@[k as int].0);
        }
        lemma_key_pos(before, fn_def, k as int);
    }
    if k == map.len() {
        map.push((fn_def, Vec::new()));
    }
    assert(fam_view(map@) =~= ensure_key(before, fn_def, seq![]));
    proof {
        lemma_put_via_slot(before, fn_def, Seq::<(u64, AdtFnKind)>::empty());
    }
    let ghost inner = map@[k as int].1@;
    let j = find_key(&map[k].1, d);
    proof {
        lemma_key_pos(inner, d, j as int);
    }
    if j < map[k].1.len() {
        let o = map[k].1[j].1;
        map[k].1.set(j, (d, o.min_of(kind)));
    } else {
        map[k].1.push((d, kind));
    }
    assert(map@[k as int].1@ =~= put(inner, d, min_kind(get_or(inner, d, kind), kind)));
    assert(fam_view(map@) =~= put_min(before, (fn_def, d, kind)));
}

/// Folding two runs of events is folding their concatenation.
pub proof fn lemma_apply_concat(m: Seq<(u64, Seq<(u64, AdtFnKind)>)>, a: Seq<RankEvent>, b: Seq<RankEvent>)
    ensures
        apply_ranks(m, a + b) == apply_ranks(apply_ranks(m, a), b),
    decreases b.len(),
{
    if b.len() == 0 {
        assert(a + b =~= a);
    } else {
        assert((a + b).drop_last() =~= a + b.drop_last());
        lemma_apply_concat(m, a, b.drop_last());
    }
}

/// Applies the ranks of `evs`, which are the events of `v` mapped one to one.
fn apply_list(
    map: &mut Vec<(u64, Vec<(u64, AdtFnKind)>)>,
    sh: &Vec<(u64, Shape)>,
    d: u64,
    v: &Vec<u64>,
    ctor: bool,
    default: AdtFnKind,
)
    ensures
        fam_view(final(map)@) == apply_ranks(fam_view(old(map)@), if ctor {
            ctor_events(d, v@)
        } else {
            arg_events(sh@, d, v@, default)
        }),
{
    let ghost evs = if ctor {
        ctor_events(d, v@)
    } else {
        arg_events(sh@, d, v@, default)
    };
    let mut i: usize = 0;
    while i < v.len()
        invariant
            i <= v.len(),
            evs.len() == v.len(),
            evs == (if ctor { ctor_events(d, v@) } else { arg_events(sh@, d, v@, default) }),
            fam_view(map@) == apply_ranks(fam_view(old(map)@), evs.take(i as int)),
        decreases v.len() - i,
    {
        let f = v[i];
        let kind = if ctor {
            AdtFnKind::Constructor
        } else {
            arg_rank_exec(sh, d, f, default)
        };
        proof {
            assert(evs.take(i + 1).drop_last() =~= evs.take(i as int));
            assert(evs[i as int] == (f, d, kind));
        }
        push_adt_fn(map, d, f, kind);
        i += 1;
    }
    assert(evs.take(v.len() as int) =~= evs);
}

/// Per caller, per callee name: the ranks the callee has for the types
/// that the caller itself touches.
pub type CalleeAdts = Seq<(Seq<char>, Seq<(u64, AdtFnKind)>)>;

/// Copies, for each type the caller touches, the callee's rank for it.
pub open spec fn copy_ranks(am: Seq<(u64, AdtFnKind)>, ranks: Seq<(u64, AdtFnKind)>, touched: Seq<(Adt, LocalsView)>) -> Seq<(u64, AdtFnKind)>
    decreases touched.len(),
{
    if touched.len() == 0 {
        am
    } else {
        let m1 = copy_ranks(am, ranks, touched.drop_last());
        let d = touched.last().0.def;
        if has_key(ranks, d) {
            put(m1, d, get_or(ranks, d, AdtFnKind::Constructor))
        } else {
            m1
        }
    }
}

pub open spec fn callee_steps(
    m: CalleeAdts,
    fam: Seq<(u64, Seq<(u64, AdtFnKind)>)>,
    touched: Seq<(Adt, LocalsView)>,
    cs: Seq<(u64, Seq<char>)>,
) -> CalleeAdts
    decreases cs.len(),
{
    if cs.len() == 0 {
        m
    } else {
        let m1 = callee_steps(m, fam, touched, cs.drop_last());
        let c = cs.last();
        if has_key(fam, c.0) {
            put(m1, c.1, copy_ranks(get_or(m1, c.1, seq![]), get_or(fam, c.0, seq![]), touched))
        } else {
            m1
        }
    }
}

/// The caller/callee cross-reference for the given function summaries.
pub open spec fn callers_spec(fam: Seq<(u64, Seq<(u64, AdtFnKind)>)>, fns: Seq<(u64, FnInfo)>) -> Seq<(u64, CalleeAdts)>
    decreases fns.len(),
{
    if fns.len() == 0 {
        seq![]
    } else {
        let m = callers_spec(fam, fns.drop_last());
        let e = fns.last();
        put(m, e.0, callee_steps(get_or(m, e.0, seq![]), fam, touches_view(e.1.adts@), callees_view(e.1.callees@)))
    }
}

pub open spec fn callee_adts_view(s: Seq<(String, Vec<(u64, AdtFnKind)>)>) -> CalleeAdts {
    s.map_values(|e: (String, Vec<(u64, AdtFnKind)>)| (e.0@, e.1@))
}

pub open spec fn ccm_view(s: Seq<(u64, Vec<(String, Vec<(u64, AdtFnKind)>)>)>) -> Seq<(u64, CalleeAdts)> {
    s.map_values(|e: (u64, Vec<(String, Vec<(u64, AdtFnKind)>)>)| (e.0, callee_adts_view(e.1@)))
}

/// The rank maps of a whole analysis.
pub struct AdtFnCollector {
    /// Per function, per type definition, the most privileged rank.
    pub fn_adt_map: Vec<(u64, Vec<(u64, AdtFnKind)>)>,
    /// Per caller, per callee name, per type definition the caller touches,
    /// the callee's rank for it.
    pub caller_callee_map: Vec<(u64, Vec<(String, Vec<(u64, AdtFnKind)>)>)>,
}

fn copy_ranks_exec(am: &mut Vec<(u64, AdtFnKind)>, ranks: &Vec<(u64, AdtFnKind)>, touched: &Vec<(Adt, LocalsAccess)>)
    ensures
        final(am)@ == copy_ranks(old(am)@, ranks@, touches_view(touched@)),
{
    let ghost ts = touches_view(touched@);
    let mut i: usize = 0;
    while i < touched.len()
        invariant
            i <= touched.len(),
            ts == touches_view(touched@),
            am@ == copy_ranks(old(am)@, ranks@, ts.take(i as int)),
        decreases touched.len() - i,
    {
        let d = touched[i].0.def;
        proof {
            assert(ts.take(i + 1).drop_last() =~= ts.take(i as int));
            assert(ts[i as int].0.def == d);
        }
        let r = find_key(ranks, d);
        proof {
            lemma_key_pos(ranks@, d, r as int);
            lemma_key_pos_bounds(ranks@, d);
        }
        if r < ranks.len() {
            let kind = ranks[r].1;
            let k = find_key(am, d);
            proof {
                lemma_key_pos(am@, d, k as int);
            }
            if k < am.len() {
                am.set(k, (d, kind));
            } else {
                am.push((d, kind));
            }
        }
        i += 1;
    }
    assert(ts.take(touched.len() as int) =~= ts);
}

impl AdtFnCollector {
    /// Ranks every (function, type) relationship, and annotates each call
    /// with the callee's ranks for the types that the caller touches.
    pub fn new(map_adt: &Vec<(Adt, AdtInfo)>, map_fn: &Vec<(u64, FnInfo)>) -> (r: AdtFnCollector)
        ensures
            fam_view(r.fn_adt_map@) == fn_adt_spec(infos_view(map_adt@)),
            ccm_view(r.caller_callee_map@) == callers_spec(fn_adt_spec(infos_view(map_adt@)), map_fn@),
    {
        let ghost mv = infos_view(map_adt@);
        let mut fam: Vec<(u64, Vec<(u64, AdtFnKind)>)> = Vec::new();
        let mut i: usize = 0;
        assert(fam_view(fam@) =~= Seq::empty());
        while i < map_adt.len()
            invariant
                i <= map_adt.len(),
                mv == infos_view(map_adt@),
                fam_view(fam@) == apply_ranks(seq![], all_events(mv.take(i as int))),
            decreases map_adt.len() - i,
        {
            let a = map_adt[i].0;
            let info = &map_adt[i].1;
            proof {
                assert(mv.take(i + 1).drop_last() =~= mv.take(i as int));
                assert(mv[i as int] == (a, info@));
            }
            let sh = merged_shapes(info);
            let ghost s0 = fam_view(fam@);
            apply_list(&mut fam, &sh, a.def, &info.constructors, true, AdtFnKind::Constructor);
            apply_list(&mut fam, &sh, a.def, &info.as_argument.read, false, AdtFnKind::ImmutableAsArgument);
            apply_list(&mut fam, &sh, a.def, &info.as_argument.write, false, AdtFnKind::MutableAsArgument);
            proof {
                let c = ctor_events(a.def, info@.constructors);
                let rd = arg_events(sh@, a.def, info@.as_argument.read, AdtFnKind::ImmutableAsArgument);
                let wr = arg_events(sh@, a.def, info@.as_argument.write, AdtFnKind::MutableAsArgument);
                lemma_apply_concat(s0, c, rd);
                lemma_apply_concat(s0, c + rd, wr);
                assert(type_events(a, info@) == c + rd + wr);
                lemma_apply_concat(seq![], all_events(mv.take(i as int)), type_events(a, info@));
            }
            i += 1;
        }
        assert(mv.take(map_adt.len() as int) =~= mv);

        let ghost famv = fam_view(fam@);
        let mut ccm: Vec<(u64, Vec<(String, Vec<(u64, AdtFnKind)>)>)> = Vec::new();
        assert(ccm_view(ccm@) =~= Seq::empty());
        let mut i: usize = 0;
        while i < map_fn.len()
            invariant
                i <= map_fn.len(),
                famv == fam_view(fam@),
                ccm_view(ccm@) == callers_spec(famv, map_fn@.take(i as int)),
            decreases map_fn.len() - i,
        {
            let caller = map_fn[i].0;
            let info = &map_fn[i].1;
            proof {
                assert(map_fn@.take(i + 1).drop_last() =~= map_fn@.take(i as int));
            }
            let ghost before = ccm_view(ccm@);
            let k = find_key(&ccm, caller);
            proof {
                assert forall|j: int| 0 <= j < k implies #[trigger] before[j].0 != caller by {
                    assert(before[j].0 == ccm@[j].0);
                }
                if k < ccm.len() {
                    assert(before[k as int].0 == ccm@[k as int].0);
                }
                lemma_key_pos(before, caller, k as int);
                lemma_put_via_slot(before, caller, Seq::<(Seq<char>, Seq<(u64, AdtFnKind)>)>::empty());
            }
            if k == ccm.len() {
                ccm.push((caller, Vec::new()));
                assert(callee_adts_view(ccm@[k as int].1@) =~= Seq::empty());
            }
            assert(ccm_view(ccm@) =~= ensure_key(before, caller, seq![]));
            let ghost start = callee_adts_view(ccm@[k as int].1@);
            let ghost cs = callees_view(info.callees@);
            let mut c: usize = 0;
            while c < info.callees.len()
                invariant
                    c <= info.callees.len(),
                    k < ccm.len(),
                    cs == callees_view(info.callees@),
                    famv == fam_view(fam@),
                    forall|j: int| 0 <= j < ccm.len() && j != k ==> #[trigger] ccm_view(ccm@)[j] == ensure_key(before, caller, seq![])[j],
                    ccm.len() == ensure_key(before, caller, seq![]).len(),
                    ccm@[k as int].0 == caller,
                    callee_adts_view(ccm@[k as int].1@) == callee_steps(start, famv, touches_view(info.adts@), cs.take(c as int)),
                decreases info.callees.len() - c,
            {
                let callee = info.callees[c].0;
                let cinfo: &CalleeInfo = &info.callees[c].1;
                proof {
                    assert(cs.take(c + 1).drop_last() =~= cs.take(c as int));
                    assert(cs[c as int] == (callee, cinfo.non_instance_name@));
                }
                let f = find_key(&fam, callee);
                proof {
                    assert forall|j: int| 0 <= j < f implies #[trigger] famv[j].0 != callee by {
                        assert(famv[j].0 == fam@[j].0);
                    }
                    if f < fam.len() {
                        assert(famv[f as int].0 == fam@[f as int].0);
                    }
                    lemma_key_pos(famv, callee, f as int);
                    lemma_key_pos_bounds(famv, callee);
                }
                let ghost prev = ccm@;
                if f < fam.len() {
                    let ghost cur = callee_adts_view(ccm@[k as int].1@);
                    let n = find_name(&ccm[k].1, &cinfo.non_instance_name);
                    proof {
                        lemma_same_keys(string_keys(ccm@[k as int].1@), cur, cinfo.non_instance_name@);
                    }
                    proof {
                        lemma_put_via_slot(cur, cinfo.non_instance_name@, Seq::<(u64, AdtFnKind)>::empty());
                    }
                    if n == ccm[k].1.len() {
                        ccm[k].1.push((cinfo.non_instance_name.clone(), Vec::new()));
                    }
                    assert(callee_adts_view(ccm@[k as int].1@) =~= ensure_key(cur, cinfo.non_instance_name@, seq![]));
                    copy_ranks_exec(&mut ccm[k].1[n].1, &fam[f].1, &info.adts);
                    assert(callee_adts_view(ccm@[k as int].1@) =~= callee_steps(start, famv, touches_view(info.adts@), cs.take(c + 1)));
                }
                proof {
                    assert forall|j: int| 0 <= j < ccm.len() && j != k implies #[trigger] ccm_view(ccm@)[j] == ensure_key(before, caller, seq![])[j] by {
                        assert(ccm@[j] == prev[j]);
                        assert(ccm_view(prev)[j] == ensure_key(before, caller, seq![])[j]);
                    }
                }
                c += 1;
            }
            assert(cs.take(info.callees.len() as int) =~= cs);
            assert(ccm_view(ccm@) =~= callers_spec(famv, map_fn@.take(i + 1)));
            i += 1;
        }
        assert(map_fn@.take(map_fn.len() as int) =~= map_fn@);
        AdtFnCollector { fn_adt_map: fam, caller_callee_map: ccm }
    }
}

/// The rank recorded for (function `f`, type definition `d`), if any.
pub open spec fn rank_of(fam: Seq<(u64, Seq<(u64, AdtFnKind)>)>, f: u64, d: u64) -> Option<AdtFnKind> {
    let inner = get_or(fam, f, seq![]);
    if has_key(fam, f) && has_key(inner, d) {
        Some(get_or(inner, d, AdtFnKind::Constructor))
    } else {
        None
    }
}

/// Whether some event derives a rank for (`f`, `d`).
pub open spec fn derived(evs: Seq<RankEvent>, f: u64, d: u64) -> bool {
    exists|i: int| 0 <= i < evs.len() && (#[trigger] evs[i]).0 == f && evs[i].1 == d
}

/// Folding the events keeps, for every (function, type) pair, exactly the
/// most privileged of the ranks derived for it.
pub proof fn lemma_apply_ranks_min(evs: Seq<RankEvent>, f: u64, d: u64)
    ensures
        rank_of(apply_ranks(seq![], evs), f, d) is Some == derived(evs, f, d),
        rank_of(apply_ranks(seq![], evs), f, d) is Some ==> {
            let k = rank_of(apply_ranks(seq![], evs), f, d)->0;
            &&& forall|i: int| 0 <= i < evs.len() && (#[trigger] evs[i]).0 == f && evs[i].1 == d ==> rank(k) <= rank(evs[i].2)
            &&& exists|i: int| 0 <= i < evs.len() && (#[trigger] evs[i]).0 == f && evs[i].1 == d && evs[i].2 == k
        },
    decreases evs.len(),
{
    if evs.len() == 0 {
        let e: Seq<(u64, Seq<(u64, AdtFnKind)>)> = seq![];
        assert(!has_key(e, f));
    } else {
        let prev = evs.drop_last();
        let e = evs.last();
        let n = evs.len() - 1;
        lemma_apply_ranks_min(prev, f, d);
        let fam = apply_ranks(seq![], prev);
        let inner = get_or(fam, e.0, seq![]);
        let nv = min_kind(get_or(inner, e.1, e.2), e.2);
        let inner2 = put(inner, e.1, nv);
        let fam2 = put(fam, e.0, inner2);
        assert(apply_ranks(seq![], evs) == fam2);
        lemma_get_put(fam, e.0, inner2, f, seq![]);
        lemma_key_pos_bounds(fam, f);
        lemma_key_pos_bounds(fam, e.0);
        if !has_key(fam, e.0) {
            assert(inner =~= Seq::<(u64, AdtFnKind)>::empty());
            assert(!has_key(inner, d));
            assert(!has_key(inner, e.1));
        }
        assert forall|i: int| 0 <= i < n implies #[trigger] prev[i] == evs[i] by {}
        if f == e.0 {
            lemma_get_put(inner, e.1, nv, d, AdtFnKind::Constructor);
            if d == e.1 {
                assert(evs[n] == e);
                assert(derived(evs, f, d));
                lemma_key_pos_bounds(inner, d);
                let old = rank_of(fam, f, d);
                if old is Some {
                    let i0 = choose|i: int| 0 <= i < prev.len() && (#[trigger] prev[i]).0 == f && prev[i].1 == d && prev[i].2 == old->0;
                    assert(evs[i0] == prev[i0]);
                    assert(get_or(inner, e.1, e.2) == old->0);
                    assert forall|i: int| 0 <= i < evs.len() && (#[trigger] evs[i]).0 == f && evs[i].1 == d implies rank(nv) <= rank(evs[i].2) by {
                        if i < n {
                            assert(prev[i] == evs[i]);
                        }
                    }
                } else {
                    assert(!derived(prev, f, d));
                    if has_key(fam, f) {
                        assert(!has_key(inner, d));
                    }
                    lemma_key_pos_bounds(inner, d);
                    assert(get_or(inner, e.1, e.2) == e.2);
                    assert forall|i: int| 0 <= i < evs.len() && (#[trigger] evs[i]).0 == f && evs[i].1 == d implies rank(nv) <= rank(evs[i].2) by {
                        if i < n {
                            assert(prev[i] == evs[i]);
                            assert(derived(prev, f, d));
                        }
                    }
                }
            } else {
                if derived(evs, f, d) {
                    let i = choose|i: int| 0 <= i < evs.len() && (#[trigger] evs[i]).0 == f && evs[i].1 == d;
                    assert(i < n);
                    assert(prev[i] == evs[i]);
                }
                if derived(prev, f, d) {
                    let i = choose|i: int| 0 <= i < prev.len() && (#[trigger] prev[i]).0 == f && prev[i].1 == d;
                    assert(evs[i] == prev[i]);
                }
                if rank_of(fam, f, d) is Some {
                    let k = rank_of(fam, f, d)->0;
                    let i0 = choose|i: int| 0 <= i < prev.len() && (#[trigger] prev[i]).0 == f && prev[i].1 == d && prev[i].2 == k;
                    assert(evs[i0] == prev[i0]);
                    assert forall|i: int| 0 <= i < evs.len() && (#[trigger] evs[i]).0 == f && evs[i].1 == d implies rank(k) <= rank(evs[i].2) by {
                        assert(i < n);
                        assert(prev[i] == evs[i]);
                    }
                }
            }
        } else {
            if derived(evs, f, d) {
                let i = choose|i: int| 0 <= i < evs.len() && (#[trigger] evs[i]).0 == f && evs[i].1 == d;
                assert(i < n);
                assert(prev[i] == evs[i]);
            }
            if derived(prev, f, d) {
                let i = choose|i: int| 0 <= i < prev.len() && (#[trigger] prev[i]).0 == f && prev[i].1 == d;
                assert(evs[i] == prev[i]);
            }
            if rank_of(fam, f, d) is Some {
                let k = rank_of(fam, f, d)->0;
                let i0 = choose|i: int| 0 <= i < prev.len() && (#[trigger] prev[i]).0 == f && prev[i].1 == d && prev[i].2 == k;
                assert(evs[i0] == prev[i0]);
                assert forall|i: int| 0 <= i < evs.len() && (#[trigger] evs[i]).0 == f && evs[i].1 == d implies rank(k) <= rank(evs[i].2) by {
                    assert(i < n);
                    assert(prev[i] == evs[i]);
                }
            }
        }
    }
}

/// A function's rank for a type is the most privileged of all ranks that
/// the profiles independently derive for that pair (constructor, receiver
/// or argument ranks), and a pair with no derived rank has none.
pub proof fn lemma_rank_is_minimum(m: Seq<(Adt, AdtInfoView)>, f: u64, d: u64)
    ensures
        rank_of(fn_adt_spec(m), f, d) is Some == derived(all_events(m), f, d),
        rank_of(fn_adt_spec(m), f, d) is Some ==> {
            let k = rank_of(fn_adt_spec(m), f, d)->0;
            let evs = all_events(m);
            &&& forall|i: int| 0 <= i < evs.len() && (#[trigger] evs[i]).0 == f && evs[i].1 == d ==> rank(k) <= rank(evs[i].2)
            &&& exists|i: int| 0 <= i < evs.len() && (#[trigger] evs[i]).0 == f && evs[i].1 == d && evs[i].2 == k
        },
{
    lemma_apply_ranks_min(all_events(m), f, d);
}

/// Whether some function `f` of `fns` returns a value owning type `a`.
pub open spec fn returns_type(fns: Seq<(u64, FnInfo)>, f: u64, a: Adt) -> bool {
    exists|i: int| 0 <= i < fns.len() && fns[i].0 == f && fns[i].1.ret_adts@.contains(a)
}

/// Every constructor recorded in `m` is a function of `fns` whose returned
/// types include the type.
pub open spec fn ctors_justified(m: Seq<(Adt, AdtInfoView)>, fns: Seq<(u64, FnInfo)>) -> bool {
    forall|j: int, c: int|
        0 <= j < m.len() && 0 <= c < m[j].1.constructors.len() ==> returns_type(fns, #[trigger] m[j].1.constructors[c], m[j].0)
}

proof fn lemma_put_ctors(m1: Seq<(Adt, AdtInfoView)>, k: Adt, v: AdtInfoView, fns: Seq<(u64, FnInfo)>, f: u64)
    requires
        ctors_justified(m1, fns),
        v.constructors == get_or(m1, k, empty_info()).constructors
            || (v.constructors == get_or(m1, k, empty_info()).constructors.push(f) && returns_type(fns, f, k)),
    ensures
        ctors_justified(put(m1, k, v), fns),
{
    let r = put(m1, k, v);
    let old_c = get_or(m1, k, empty_info()).constructors;
    lemma_get_or_entry(m1, k, empty_info());
    assert forall|j: int, c: int| 0 <= j < r.len() && 0 <= c < r[j].1.constructors.len() implies returns_type(fns, #[trigger] r[j].1.constructors[c], r[j].0) by {
        lemma_put_entry(m1, k, v, j);
        if r[j] == (k, v) {
            if c < old_c.len() {
                let p = key_pos(m1, k);
                assert(m1[p].1.constructors[c] == r[j].1.constructors[c]);
                assert(m1[p].0 == r[j].0);
            }
        } else {
            assert(m1[j].1.constructors[c] == r[j].1.constructors[c]);
        }
    }
}

proof fn lemma_touches_keep_ctors(m: Seq<(Adt, AdtInfoView)>, f: u64, info: FnInfo, ts: Seq<(Adt, LocalsView)>, fns: Seq<(u64, FnInfo)>)
    requires
        ctors_justified(m, fns),
    ensures
        ctors_justified(add_touches(m, f, info, ts), fns),
    decreases ts.len(),
{
    if ts.len() > 0 {
        lemma_touches_keep_ctors(m, f, info, ts.drop_last(), fns);
        let m1 = add_touches(m, f, info, ts.drop_last());
        let t = ts.last();
        let ai = get_or(m1, t.0, empty_info());
        let v = AdtInfoView { map: push_kinds(ai.map, t.1.access, evidence(f, info, t.1)), ..ai };
        lemma_put_ctors(m1, t.0, v, fns, f);
    }
}

proof fn lemma_ctors_justified_step(m: Seq<(Adt, AdtInfoView)>, f: u64, adts: Seq<Adt>, fns: Seq<(u64, FnInfo)>, i0: int)
    requires
        ctors_justified(m, fns),
        0 <= i0 < fns.len(),
        fns[i0].0 == f,
        forall|a: Adt| adts.contains(a) ==> fns[i0].1.ret_adts@.contains(a),
    ensures
        ctors_justified(add_ctors(m, f, adts), fns),
    decreases adts.len(),
{
    if adts.len() > 0 {
        assert forall|a: Adt| adts.drop_last().contains(a) implies fns[i0].1.ret_adts@.contains(a) by {
            let k = choose|k: int| 0 <= k < adts.len() - 1 && adts.drop_last()[k] == a;
            assert(adts[k] == a);
            assert(adts.contains(a));
        }
        lemma_ctors_justified_step(m, f, adts.drop_last(), fns, i0);
        let m1 = add_ctors(m, f, adts.drop_last());
        let a = adts.last();
        assert(adts.contains(a)) by {
            assert(adts[adts.len() - 1] == a);
        }
        assert(returns_type(fns, f, a));
        let ai = get_or(m1, a, empty_info());
        let v = AdtInfoView { constructors: ai.constructors.push(f), ..ai };
        lemma_put_ctors(m1, a, v, fns, f);
    }
}

proof fn lemma_collect_ctors(fns: Seq<(u64, FnInfo)>, n: int)
    requires
        0 <= n <= fns.len(),
    ensures
        ctors_justified(collect(fns.take(n)), fns),
    decreases n,
{
    if n > 0 {
        let pre = fns.take(n);
        assert(pre.drop_last() =~= fns.take(n - 1));
        lemma_collect_ctors(fns, n - 1);
        let e = pre.last();
        assert(e == fns[n - 1]);
        lemma_touches_keep_ctors(collect(fns.take(n - 1)), e.0, e.1, touches_view(e.1.adts@), fns);
        lemma_ctors_justified_step(add_touches(collect(fns.take(n - 1)), e.0, e.1, touches_view(e.1.adts@)), e.0, e.1.ret_adts@, fns, n - 1);
    } else {
        assert(collect(fns.take(0)) == Seq::<(Adt, AdtInfoView)>::empty());
    }
}

proof fn lemma_backfill_keeps_ctors(adt: Adt, s: AdtInfoView, es: Seq<(AccessView, Seq<FnDefAdt>)>)
    ensures
        backfill(adt, s, es).constructors == s.constructors,
        backfill(adt, s, es).fields.len() == s.fields.len(),
        backfill(adt, s, es).map == s.map,
    decreases es.len(),
{
    if es.len() > 0 {
        lemma_backfill_keeps_ctors(adt, s, es.drop_last());
    }
}

/// Every function in a type's constructor list returns a value that owns
/// the type: the type is reachable from the function's return type through
/// generic arguments, array elements and tuple members.
pub proof fn lemma_constructors_reach_type(fns: Seq<(u64, FnInfo)>, rets: Seq<Ty>, j: int, c: int)
    requires
        rets.len() == fns.len(),
        forall|i: int| 0 <= i < fns.len() ==> (#[trigger] fns[i]).1.ret_adts@ == flatten(rets[i]),
        0 <= j < finalize(collect(fns)).len(),
        0 <= c < finalize(collect(fns))[j].1.constructors.len(),
    ensures
        exists|i: int|
            0 <= i < fns.len() && fns[i].0 == finalize(collect(fns))[j].1.constructors[c]
                && flatten(rets[i]).contains(finalize(collect(fns))[j].0),
{
    lemma_collect_ctors(fns, fns.len() as int);
    assert(fns.take(fns.len() as int) =~= fns);
    let m = collect(fns);
    let raw = m[j].1;
    lemma_backfill_keeps_ctors(m[j].0, AdtInfoView { fields: Seq::new(field_count(m[j].0), |i: int| empty_lists()), ..raw }, raw.map);
    assert(finalize(m)[j].1.constructors == raw.constructors);
    assert(returns_type(fns, m[j].1.constructors[c], m[j].0));
    let i = choose|i: int| 0 <= i < fns.len() && fns[i].0 == m[j].1.constructors[c] && fns[i].1.ret_adts@.contains(m[j].0);
    assert(fns[i].1.ret_adts@ == flatten(rets[i]));
}

pub open spec fn lists_len(l: AccessLists) -> nat {
    l.read.len() + l.write.len() + l.other.len()
}

pub open spec fn fields_total(s: Seq<AccessLists>) -> nat
    decreases s.len(),
{
    if s.len() == 0 {
        0
    } else {
        fields_total(s.drop_last()) + lists_len(s.last())
    }
}

/// The number of function entries over all buckets of a profile.
pub open spec fn bucket_total(v: AdtInfoView) -> nat {
    lists_len(v.as_argument) + lists_len(v.otherwise) + fields_total(v.fields)
}

/// The number of (function, access kind) entries recorded.
pub open spec fn recorded_pairs(es: Seq<(AccessView, Seq<FnDefAdt>)>) -> nat
    decreases es.len(),
{
    if es.len() == 0 {
        0
    } else {
        recorded_pairs(es.drop_last()) + es.last().1.len()
    }
}

/// The number of entries whose field-level access does not land on a field
/// bucket (not a struct, or the index is out of range).
pub open spec fn skipped_pairs(adt: Adt, nfields: nat, es: Seq<(AccessView, Seq<FnDefAdt>)>) -> nat
    decreases es.len(),
{
    if es.len() == 0 {
        0
    } else {
        skipped_pairs(adt, nfields, es.drop_last()) + if field_of(es.last().0) is Some && !lands(adt, nfields, es.last().0) {
            es.last().1.len()
        } else {
            0
        }
    }
}

proof fn lemma_split_len(v: Seq<FnDefAdt>)
    ensures
        split_fns(v, true).len() + split_fns(v, false).len() == v.len(),
    decreases v.len(),
{
    if v.len() > 0 {
        lemma_split_len(v.drop_last());
    }
}

proof fn lemma_fields_total_update(s: Seq<AccessLists>, i: int, x: AccessLists)
    requires
        0 <= i < s.len(),
    ensures
        fields_total(s.update(i, x)) + lists_len(s[i]) == fields_total(s) + lists_len(x),
    decreases s.len(),
{
    if i == s.len() - 1 {
        assert(s.update(i, x).drop_last() =~= s.drop_last());
    } else {
        assert(s.update(i, x).drop_last() =~= s.drop_last().update(i, x));
        lemma_fields_total_update(s.drop_last(), i, x);
    }
}

proof fn lemma_fields_total_empty(n: nat)
    ensures
        fields_total(Seq::new(n, |i: int| empty_lists())) == 0,
    decreases n,
{
    if n > 0 {
        assert(Seq::new(n, |i: int| empty_lists()).drop_last() =~= Seq::new((n - 1) as nat, |i: int| empty_lists()));
        lemma_fields_total_empty((n - 1) as nat);
    }
}

proof fn lemma_backfill_count(adt: Adt, s: AdtInfoView, es: Seq<(AccessView, Seq<FnDefAdt>)>)
    ensures
        bucket_total(backfill(adt, s, es)) + skipped_pairs(adt, s.fields.len(), es) == bucket_total(s) + recorded_pairs(es),
    decreases es.len(),
{
    if es.len() > 0 {
        lemma_backfill_count(adt, s, es.drop_last());
        lemma_backfill_keeps_ctors(adt, s, es.drop_last());
        let p = backfill(adt, s, es.drop_last());
        let e = es.last();
        let b = bucket(e.0);
        if field_of(e.0) is Some {
            if lands(adt, p.fields.len(), e.0) {
                let i = field_of(e.0)->0 as int;
                lemma_fields_total_update(p.fields, i, extend_bucket(p.fields[i], b, fn_defs(e.1)));
            }
        } else {
            lemma_split_len(e.1);
        }
    }
}

pub open spec fn buckets_empty(m: Seq<(Adt, AdtInfoView)>) -> bool {
    forall|j: int| 0 <= j < m.len() ==> (#[trigger] m[j]).1.as_argument == empty_lists() && m[j].1.otherwise == empty_lists()
}

proof fn lemma_put_empty(m: Seq<(Adt, AdtInfoView)>, k: Adt, v: AdtInfoView)
    requires
        buckets_empty(m),
        v.as_argument == empty_lists(),
        v.otherwise == empty_lists(),
    ensures
        buckets_empty(put(m, k, v)),
{
    assert forall|j: int| 0 <= j < put(m, k, v).len() implies (#[trigger] put(m, k, v)[j]).1.as_argument == empty_lists()
        && put(m, k, v)[j].1.otherwise == empty_lists() by {
        lemma_put_entry(m, k, v, j);
    }
}

proof fn lemma_touches_empty(m: Seq<(Adt, AdtInfoView)>, f: u64, info: FnInfo, ts: Seq<(Adt, LocalsView)>)
    requires
        buckets_empty(m),
    ensures
        buckets_empty(add_touches(m, f, info, ts)),
    decreases ts.len(),
{
    if ts.len() > 0 {
        lemma_touches_empty(m, f, info, ts.drop_last());
        let m1 = add_touches(m, f, info, ts.drop_last());
        let t = ts.last();
        lemma_get_or_entry(m1, t.0, empty_info());
        let ai = get_or(m1, t.0, empty_info());
        if ai != empty_info() {
            assert(m1[key_pos(m1, t.0)].1 == ai);
        }
        lemma_put_empty(m1, t.0, AdtInfoView { map: push_kinds(ai.map, t.1.access, evidence(f, info, t.1)), ..ai });
    }
}

proof fn lemma_ctors_empty(m: Seq<(Adt, AdtInfoView)>, f: u64, adts: Seq<Adt>)
    requires
        buckets_empty(m),
    ensures
        buckets_empty(add_ctors(m, f, adts)),
    decreases adts.len(),
{
    if adts.len() > 0 {
        lemma_ctors_empty(m, f, adts.drop_last());
        let m1 = add_ctors(m, f, adts.drop_last());
        let a = adts.last();
        lemma_get_or_entry(m1, a, empty_info());
        let ai = get_or(m1, a, empty_info());
        if ai != empty_info() {
            assert(m1[key_pos(m1, a)].1 == ai);
        }
        lemma_put_empty(m1, a, AdtInfoView { constructors: ai.constructors.push(f), ..ai });
    }
}

/// For every type, the entries over its argument and other buckets and its
/// field buckets, plus the entries whose field access was skipped, equal the
/// (function, access kind) entries recorded for it: none is dropped or
/// duplicated.
pub proof fn lemma_bucket_count(fns: Seq<(u64, FnInfo)>, j: int)
    requires
        0 <= j < finalize(collect(fns)).len(),
    ensures
        ({
            let raw = collect(fns)[j];
            bucket_total(finalize(collect(fns))[j].1) + skipped_pairs(raw.0, field_count(raw.0), raw.1.map)
                == recorded_pairs(raw.1.map)
        }),
{
    let m = collect(fns);
    lemma_collect_empty(fns);
    let raw = m[j];
    let start = AdtInfoView { fields: Seq::new(field_count(raw.0), |i: int| empty_lists()), ..raw.1 };
    lemma_fields_total_empty(field_count(raw.0));
    lemma_backfill_count(raw.0, start, raw.1.map);
}

proof fn lemma_collect_empty(fns: Seq<(u64, FnInfo)>)
    ensures
        buckets_empty(collect(fns)),
    decreases fns.len(),
{
    if fns.len() > 0 {
        let e = fns.last();
        lemma_collect_empty(fns.drop_last());
        lemma_touches_empty(collect(fns.drop_last()), e.0, e.1, touches_view(e.1.adts@));
        lemma_ctors_empty(add_touches(collect(fns.drop_last()), e.0, e.1, touches_view(e.1.adts@)), e.0, e.1.ret_adts@);
    }
}

/// The receiver that a method's `self` type gives: the structured type
/// itself (owned), or one reference to it; any other shape gives none.
pub open spec fn receiver_spec(self_ty: Ty) -> Option<Receiver> {
    match self_ty {
        Ty::Adt(a, _) => Some(Receiver { adt: a.def, kind: ReceiverKind::Owned }),
        Ty::Ref(m, inner) => match *inner {
            Ty::Adt(a, _) => Some(Receiver {
                adt: a.def,
                kind: if m == Mutability::Mut {
                    ReceiverKind::MutableRef
                } else {
                    ReceiverKind::ImmutableRef
                },
            }),
            _ => None,
        },
        _ => None,
    }
}

/// The call shape of a function: a free function when it is not an
/// associated item; a method, with its receiver, when its first input is
/// `self` (whose type is `self_ty`); else an associated function.
pub fn fn_kind(is_assoc: bool, self_ty: Option<&Ty>) -> (r: (FnKind, Option<Receiver>))
    ensures
        !is_assoc ==> r == (FnKind::FreeFn, None::<Receiver>),
        is_assoc && self_ty is None ==> r == (FnKind::AssocFn, None::<Receiver>),
        is_assoc && self_ty is Some ==> r == (FnKind::Method, receiver_spec(*self_ty->0)),
{
    if !is_assoc {
        return (FnKind::FreeFn, None);
    }
    match self_ty {
        None => (FnKind::AssocFn, None),
        Some(t) => {
            let receiver = match t {
                Ty::Adt(a, _) => Some(Receiver { adt: a.def, kind: ReceiverKind::Owned }),
                Ty::Ref(m, inner) => match &**inner {
                    Ty::Adt(a, _) => Some(Receiver {
                        adt: a.def,
                        kind: if *m == Mutability::Mut {
                            ReceiverKind::MutableRef
                        } else {
                            ReceiverKind::ImmutableRef
                        },
                    }),
                    _ => None,
                },
                _ => None,
            };
            (FnKind::Method, receiver)
        },
    }
}

/// The field indices of field-level accesses to a struct that fall outside
/// its field buckets, in the order of `es`.
pub open spec fn out_of_range(adt: Adt, nfields: nat, es: Seq<(AccessView, Seq<FnDefAdt>)>) -> Seq<usize>
    decreases es.len(),
{
    if es.len() == 0 {
        seq![]
    } else {
        let r = out_of_range(adt, nfields, es.drop_last());
        let a = es.last().0;
        if field_of(a) is Some && adt.kind == AdtKind::Struct && field_of(a)->0 as nat >= nfields {
            r.push(field_of(a)->0)
        } else {
            r
        }
    }
}

impl AdtInfo {
    /// The field indices whose accesses were skipped because they fall
    /// outside the struct's fields: the diagnostics to report.
    pub fn out_of_range_fields(&self, adt: &Adt) -> (r: Vec<usize>)
        ensures
            r@ == out_of_range(*adt, self.fields@.len() as nat, self@.map),
    {
        let ghost es = self@.map;
        let mut r: Vec<usize> = Vec::new();
        let mut i: usize = 0;
        while i < self.map.len()
            invariant
                i <= self.map.len(),
                es == self@.map,
                r@ == out_of_range(*adt, self.fields@.len() as nat, es.take(i as int)),
            decreases self.map.len() - i,
        {
            proof {
                assert(es.take(i + 1).drop_last() =~= es.take(i as int));
                assert(es[i as int].0 == self.map@[i as int].0@);
            }
            match field_index(&self.map[i].0) {
                Some(idx) => {
                    if adt.kind == AdtKind::Struct && idx >= self.fields.len() {
                        r.push(idx);
                    }
                },
                None => {},
            }
            i += 1;
        }
        assert(es.take(self.map.len() as int) =~= es);
        r
    }
}

/// Whether the profile of `a` in `m` lists `f` as a constructor.
pub open spec fn lists_ctor(m: Seq<(Adt, AdtInfoView)>, a: Adt, f: u64) -> bool {
    has_key(m, a) && get_or(m, a, empty_info()).constructors.contains(f)
}

proof fn lemma_touches_keep_ctor(m: Seq<(Adt, AdtInfoView)>, g: u64, info: FnInfo, ts: Seq<(Adt, LocalsView)>, a: Adt, f: u64)
    requires
        lists_ctor(m, a, f),
    ensures
        lists_ctor(add_touches(m, g, info, ts), a, f),
    decreases ts.len(),
{
    if ts.len() > 0 {
        lemma_touches_keep_ctor(m, g, info, ts.drop_last(), a, f);
        let m1 = add_touches(m, g, info, ts.drop_last());
        let t = ts.last();
        let ai = get_or(m1, t.0, empty_info());
        let v = AdtInfoView { map: push_kinds(ai.map, t.1.access, evidence(g, info, t.1)), ..ai };
        lemma_get_put(m1, t.0, v, a, empty_info());
    }
}

proof fn lemma_ctors_keep_ctor(m: Seq<(Adt, AdtInfoView)>, g: u64, adts: Seq<Adt>, a: Adt, f: u64)
    requires
        lists_ctor(m, a, f) || (g == f && adts.contains(a)),
    ensures
        lists_ctor(add_ctors(m, g, adts), a, f),
    decreases adts.len(),
{
    if adts.len() > 0 {
        let m1 = add_ctors(m, g, adts.drop_last());
        let b = adts.last();
        if lists_ctor(m, a, f) || adts.drop_last().contains(a) {
            if !lists_ctor(m, a, f) {
                let k = choose|k: int| 0 <= k < adts.len() - 1 && adts.drop_last()[k] == a;
            }
            lemma_ctors_keep_ctor(m, g, adts.drop_last(), a, f);
        }
        let ai = get_or(m1, b, empty_info());
        let v = AdtInfoView { constructors: ai.constructors.push(g), ..ai };
        lemma_get_put(m1, b, v, a, empty_info());
        if b == a && g == f {
            assert(v.constructors[ai.constructors.len() as int] == f);
        } else if !lists_ctor(m, a, f) && !adts.drop_last().contains(a) {
            let k = choose|k: int| 0 <= k < adts.len() && adts[k] == a;
            if k < adts.len() - 1 {
                assert(adts.drop_last()[k] == a);
            }
        } else if b == a {
            assert(ai.constructors.contains(f));
            let k = choose|k: int| 0 <= k < ai.constructors.len() && ai.constructors[k] == f;
            assert(v.constructors[k] == f);
        }
    }
}

proof fn lemma_collect_lists_ctor(fns: Seq<(u64, FnInfo)>, i: int, n: int, a: Adt)
    requires
        0 <= i < n <= fns.len(),
        fns[i].1.ret_adts@.contains(a),
    ensures
        lists_ctor(collect(fns.take(n)), a, fns[i].0),
    decreases n,
{
    let pre = fns.take(n);
    assert(pre.drop_last() =~= fns.take(n - 1));
    let e = pre.last();
    assert(e == fns[n - 1]);
    let m0 = collect(fns.take(n - 1));
    let m1 = add_touches(m0, e.0, e.1, touches_view(e.1.adts@));
    if i < n - 1 {
        lemma_collect_lists_ctor(fns, i, n - 1, a);
        lemma_touches_keep_ctor(m0, e.0, e.1, touches_view(e.1.adts@), a, fns[i].0);
    }
    lemma_ctors_keep_ctor(m1, e.0, e.1.ret_adts@, a, fns[i].0);
}

/// A function whose return value owns a type is recorded as one of that
/// type's constructors.
pub proof fn lemma_returned_type_lists_constructor(fns: Seq<(u64, FnInfo)>, i: int, a: Adt)
    requires
        0 <= i < fns.len(),
        fns[i].1.ret_adts@.contains(a),
    ensures
        exists|j: int|
            0 <= j < finalize(collect(fns)).len() && finalize(collect(fns))[j].0 == a
                && (#[trigger] finalize(collect(fns))[j]).1.constructors.contains(fns[i].0),
{
    lemma_collect_lists_ctor(fns, i, fns.len() as int, a);
    assert(fns.take(fns.len() as int) =~= fns);
    let m = collect(fns);
    lemma_key_pos_bounds(m, a);
    let j = key_pos(m, a);
    let raw = m[j].1;
    lemma_backfill_keeps_ctors(a, AdtInfoView { fields: Seq::new(field_count(a), |k: int| empty_lists()), ..raw }, raw.map);
    assert(finalize(m)[j].1.constructors == raw.constructors);
}

/// Keeping the more privileged rank is idempotent: recording the same
/// rank for the same (function, type) pair a second time changes nothing,
/// and the recorded rank is never less privileged than the one recorded.
pub proof fn lemma_put_min_idempotent(m: Seq<(u64, Seq<(u64, AdtFnKind)>)>, e: RankEvent)
    ensures
        put_min(put_min(m, e), e) == put_min(m, e),
        rank_of(put_min(m, e), e.0, e.1) is Some,
        rank(rank_of(put_min(m, e), e.0, e.1)->0) <= rank(e.2),
        rank_of(m, e.0, e.1) is Some ==> rank(rank_of(put_min(m, e), e.0, e.1)->0) <= rank(rank_of(m, e.0, e.1)->0),
{
    let inner = get_or(m, e.0, seq![]);
    let nv = min_kind(get_or(inner, e.1, e.2), e.2);
    let inner1 = put(inner, e.1, nv);
    let m1 = put(m, e.0, inner1);
    lemma_get_put(m, e.0, inner1, e.0, seq![]);
    lemma_get_put(inner, e.1, nv, e.1, e.2);
    lemma_get_put(inner, e.1, nv, e.1, AdtFnKind::Constructor);
    assert(get_or(m1, e.0, seq![]) == inner1);
    assert(get_or(inner1, e.1, e.2) == nv);
    assert(min_kind(nv, e.2) == nv);
    lemma_put_twice(inner, e.1, nv);
    lemma_put_twice(m, e.0, inner1);
    lemma_key_pos_bounds(m, e.0);
    lemma_key_pos_bounds(inner, e.1);
}

/// Whether some piece of evidence is from `f`.
pub open spec fn evidence_mentions(v: Seq<FnDefAdt>, f: u64) -> bool {
    exists|x: int| 0 <= x < v.len() && (#[trigger] v[x]).fn_def == f
}

/// Whether some access kind has evidence from `f`.
pub open spec fn map_mentions(m: Seq<(AccessView, Seq<FnDefAdt>)>, f: u64) -> bool {
    exists|k: int| 0 <= k < m.len() && evidence_mentions((#[trigger] m[k]).1, f)
}

pub open spec fn lists_mention(l: AccessLists, f: u64) -> bool {
    l.read.contains(f) || l.write.contains(f) || l.other.contains(f)
}

pub open spec fn fields_mention(s: Seq<AccessLists>, f: u64) -> bool {
    exists|k: int| 0 <= k < s.len() && lists_mention(#[trigger] s[k], f)
}

/// Whether `f` appears anywhere in a profile.
pub open spec fn profile_mentions(v: AdtInfoView, f: u64) -> bool {
    v.constructors.contains(f) || map_mentions(v.map, f) || lists_mention(v.as_argument, f)
        || lists_mention(v.otherwise, f) || fields_mention(v.fields, f)
}

/// No profile of type `a` mentions `f`.
pub open spec fn clear_of(m: Seq<(Adt, AdtInfoView)>, a: Adt, f: u64) -> bool {
    forall|j: int| 0 <= j < m.len() && (#[trigger] m[j]).0 == a ==> !profile_mentions(m[j].1, f)
}

proof fn lemma_put_clear(m: Seq<(Adt, AdtInfoView)>, k: Adt, v: AdtInfoView, a: Adt, f: u64)
    requires
        clear_of(m, a, f),
        k == a ==> !profile_mentions(v, f),
    ensures
        clear_of(put(m, k, v), a, f),
{
    assert forall|j: int| 0 <= j < put(m, k, v).len() && (#[trigger] put(m, k, v)[j]).0 == a implies !profile_mentions(put(m, k, v)[j].1, f) by {
        lemma_put_entry(m, k, v, j);
    }
}

proof fn lemma_get_clear(m: Seq<(Adt, AdtInfoView)>, a: Adt, f: u64)
    requires
        clear_of(m, a, f),
    ensures
        !profile_mentions(get_or(m, a, empty_info()), f),
{
    lemma_get_or_entry(m, a, empty_info());
    let e = empty_info();
    if get_or(m, a, e) == e {
        assert(!fields_mention(e.fields, f));
        assert(!map_mentions(e.map, f));
    }
}

proof fn lemma_push_kinds_clear(m: Seq<(AccessView, Seq<FnDefAdt>)>, accs: Seq<AccessView>, e: FnDefAdt, f: u64)
    requires
        !map_mentions(m, f),
        e.fn_def != f,
    ensures
        !map_mentions(push_kinds(m, accs, e), f),
    decreases accs.len(),
{
    if accs.len() > 0 {
        lemma_push_kinds_clear(m, accs.drop_last(), e, f);
        let m1 = push_kinds(m, accs.drop_last(), e);
        let a = accs.last();
        let old = get_or(m1, a, seq![]);
        let v = old.push(e);
        lemma_get_or_entry(m1, a, seq![]);
        assert(!evidence_mentions(old, f)) by {
            if old != Seq::<FnDefAdt>::empty() {
                assert(m1[key_pos(m1, a)].1 == old);
            }
        }
        assert(!evidence_mentions(v, f)) by {
            assert forall|x: int| 0 <= x < v.len() implies (#[trigger] v[x]).fn_def != f by {
                if x < old.len() {
                    assert(v[x] == old[x]);
                }
            }
        }
        let r = put(m1, a, v);
        assert forall|k: int| 0 <= k < r.len() implies !evidence_mentions((#[trigger] r[k]).1, f) by {
            lemma_put_entry(m1, a, v, k);
        }
    }
}

proof fn lemma_touches_clear(m: Seq<(Adt, AdtInfoView)>, g: u64, info: FnInfo, ts: Seq<(Adt, LocalsView)>, a: Adt, f: u64)
    requires
        clear_of(m, a, f),
        g == f ==> forall|k: int| 0 <= k < ts.len() ==> (#[trigger] ts[k]).0 != a,
    ensures
        clear_of(add_touches(m, g, info, ts), a, f),
    decreases ts.len(),
{
    if ts.len() > 0 {
        assert forall|k: int| 0 <= k < ts.len() - 1 && g == f implies (#[trigger] ts.drop_last()[k]).0 != a by {
            assert(ts.drop_last()[k] == ts[k]);
        }
        lemma_touches_clear(m, g, info, ts.drop_last(), a, f);
        let m1 = add_touches(m, g, info, ts.drop_last());
        let t = ts.last();
        let ai = get_or(m1, t.0, empty_info());
        let v = AdtInfoView { map: push_kinds(ai.map, t.1.access, evidence(g, info, t.1)), ..ai };
        if t.0 == a {
            assert(ts[ts.len() - 1].0 == a);
            lemma_get_clear(m1, a, f);
            lemma_push_kinds_clear(ai.map, t.1.access, evidence(g, info, t.1), f);
        }
        lemma_put_clear(m1, t.0, v, a, f);
    }
}

proof fn lemma_ctors_clear(m: Seq<(Adt, AdtInfoView)>, g: u64, adts: Seq<Adt>, a: Adt, f: u64)
    requires
        clear_of(m, a, f),
        g == f ==> !adts.contains(a),
    ensures
        clear_of(add_ctors(m, g, adts), a, f),
    decreases adts.len(),
{
    if adts.len() > 0 {
        if g == f && adts.drop_last().contains(a) {
            let k = choose|k: int| 0 <= k < adts.len() - 1 && adts.drop_last()[k] == a;
            assert(adts[k] == a);
        }
        lemma_ctors_clear(m, g, adts.drop_last(), a, f);
        let m1 = add_ctors(m, g, adts.drop_last());
        let b = adts.last();
        let ai = get_or(m1, b, empty_info());
        let v = AdtInfoView { constructors: ai.constructors.push(g), ..ai };
        if b == a {
            assert(adts[adts.len() - 1] == a);
            lemma_get_clear(m1, a, f);
            assert(!v.constructors.contains(f)) by {
                if v.constructors.contains(f) {
                    let x = choose|x: int| 0 <= x < v.constructors.len() && v.constructors[x] == f;
                    if x < ai.constructors.len() {
                        assert(ai.constructors[x] == f);
                    }
                }
            }
        }
        lemma_put_clear(m1, b, v, a, f);
    }
}

proof fn lemma_collect_clear(fns: Seq<(u64, FnInfo)>, a: Adt, f: u64)
    requires
        forall|i: int| 0 <= i < fns.len() && (#[trigger] fns[i]).0 == f ==> !has_key(touches_view(fns[i].1.adts@), a)
            && !fns[i].1.ret_adts@.contains(a),
    ensures
        clear_of(collect(fns), a, f),
    decreases fns.len(),
{
    if fns.len() > 0 {
        let e = fns.last();
        assert(e == fns[fns.len() - 1]);
        assert forall|i: int| 0 <= i < fns.len() - 1 && (#[trigger] fns.drop_last()[i]).0 == f implies !has_key(touches_view(fns.drop_last()[i].1.adts@), a)
            && !fns.drop_last()[i].1.ret_adts@.contains(a) by {
            assert(fns.drop_last()[i] == fns[i]);
        }
        lemma_collect_clear(fns.drop_last(), a, f);
        let ts = touches_view(e.1.adts@);
        if e.0 == f {
            assert forall|k: int| 0 <= k < ts.len() implies (#[trigger] ts[k]).0 != a by {
                if ts[k].0 == a {
                    assert(has_key(ts, a));
                }
            }
        }
        lemma_touches_clear(collect(fns.drop_last()), e.0, e.1, ts, a, f);
        lemma_ctors_clear(add_touches(collect(fns.drop_last()), e.0, e.1, ts), e.0, e.1.ret_adts@, a, f);
    } else {
        assert(collect(fns) == Seq::<(Adt, AdtInfoView)>::empty());
    }
}

proof fn lemma_split_no_mention(v: Seq<FnDefAdt>, b: bool, f: u64)
    requires
        !evidence_mentions(v, f),
    ensures
        !split_fns(v, b).contains(f),
        !fn_defs(v).contains(f),
    decreases v.len(),
{
    if v.len() > 0 {
        assert forall|x: int| 0 <= x < v.len() - 1 implies (#[trigger] v.drop_last()[x]).fn_def != f by {
            assert(v.drop_last()[x] == v[x]);
            assert(v[x].fn_def != f);
        }
        lemma_split_no_mention(v.drop_last(), b, f);
        assert(v.last().fn_def != f) by {
            assert(v[v.len() - 1].fn_def != f);
        }
        let r = split_fns(v.drop_last(), b);
        if split_fns(v, b).contains(f) {
            let x = choose|x: int| 0 <= x < split_fns(v, b).len() && split_fns(v, b)[x] == f;
            if x < r.len() {
                assert(split_fns(v, b)[x] == r[x]);
            }
        }
    }
    if fn_defs(v).contains(f) {
        let x = choose|x: int| 0 <= x < fn_defs(v).len() && fn_defs(v)[x] == f;
        assert(v[x].fn_def == f);
    }
}

proof fn lemma_extend_no_mention(l: AccessLists, b: int, x: Seq<u64>, f: u64)
    requires
        !lists_mention(l, f),
        !x.contains(f),
    ensures
        !lists_mention(extend_bucket(l, b, x), f),
{
    assert forall|s: Seq<u64>| !s.contains(f) implies !(s + x).contains(f) by {
        if (s + x).contains(f) {
            let i = choose|i: int| 0 <= i < (s + x).len() && (s + x)[i] == f;
            if i < s.len() {
                assert(s[i] == f);
            } else {
                assert(x[i - s.len()] == f);
            }
        }
    }
}

proof fn lemma_backfill_clear(adt: Adt, s: AdtInfoView, es: Seq<(AccessView, Seq<FnDefAdt>)>, f: u64)
    requires
        !lists_mention(s.as_argument, f),
        !lists_mention(s.otherwise, f),
        !fields_mention(s.fields, f),
        !map_mentions(es, f),
    ensures
        !lists_mention(backfill(adt, s, es).as_argument, f),
        !lists_mention(backfill(adt, s, es).otherwise, f),
        !fields_mention(backfill(adt, s, es).fields, f),
    decreases es.len(),
{
    if es.len() > 0 {
        assert forall|k: int| 0 <= k < es.len() - 1 implies !evidence_mentions((#[trigger] es.drop_last()[k]).1, f) by {
            assert(es.drop_last()[k] == es[k]);
        }
        lemma_backfill_clear(adt, s, es.drop_last(), f);
        let p = backfill(adt, s, es.drop_last());
        let e = es.last();
        assert(!evidence_mentions(e.1, f)) by {
            assert(es[es.len() - 1] == e);
        }
        lemma_split_no_mention(e.1, true, f);
        lemma_split_no_mention(e.1, false, f);
        let b = bucket(e.0);
        lemma_extend_no_mention(p.as_argument, b, split_fns(e.1, true), f);
        lemma_extend_no_mention(p.otherwise, b, split_fns(e.1, false), f);
        if field_of(e.0) is Some && lands(adt, p.fields.len(), e.0) {
            let i = field_of(e.0)->0 as int;
            lemma_extend_no_mention(p.fields[i], b, fn_defs(e.1), f);
            let nf = p.fields.update(i, extend_bucket(p.fields[i], b, fn_defs(e.1)));
            assert forall|k: int| 0 <= k < nf.len() implies !lists_mention(#[trigger] nf[k], f) by {
                if k != i {
                    assert(nf[k] == p.fields[k]);
                }
            }
        }
    }
}

/// A function that touches no place of a type and whose return value does
/// not own the type appears nowhere in that type's profile: not as a
/// constructor, not in any access kind's evidence, and in no bucket.
pub proof fn lemma_untouched_type_clear(fns: Seq<(u64, FnInfo)>, a: Adt, f: u64)
    requires
        forall|i: int| 0 <= i < fns.len() && (#[trigger] fns[i]).0 == f ==> !has_key(touches_view(fns[i].1.adts@), a)
            && !fns[i].1.ret_adts@.contains(a),
    ensures
        forall|j: int| 0 <= j < finalize(collect(fns)).len() && (#[trigger] finalize(collect(fns))[j]).0 == a
            ==> !profile_mentions(finalize(collect(fns))[j].1, f),
{
    lemma_collect_clear(fns, a, f);
    let m = collect(fns);
    assert forall|j: int| 0 <= j < finalize(m).len() && (#[trigger] finalize(m)[j]).0 == a implies !profile_mentions(finalize(m)[j].1, f) by {
        let raw = m[j].1;
        assert(m[j].0 == a);
        assert(!profile_mentions(raw, f));
        let start = AdtInfoView { fields: Seq::new(field_count(a), |k: int| empty_lists()), ..raw };
        assert(!fields_mention(start.fields, f));
        lemma_backfill_clear(a, start, raw.map, f);
        lemma_backfill_keeps_ctors(a, start, raw.map);
    }
}

} // verus!
