//! The records emitted per function and per type, and the decisions that
//! shape them.
use vstd::prelude::*;
use vstd::string::StringExecFns;
use crate::info_adt::{AdtFnCollector, AdtFnKind, ccm_view, callee_adts_view};
use crate::info_fn::{callees_view, touches_view, FnInfo, LocalsView};
use crate::ty::{AccessView, Adt as TyAdt, AdtAccess};
use crate::info_adt::AdtInfo;
use crate::info_mod::{ids_view, lex_le, lookup, Navigation};
use crate::maps::{find_key, find_name, lemma_same_keys, string_keys, get_or, has_key, insert_unique, key_pos, lemma_key_pos, lemma_key_pos_bounds, put};

verus! {

/// Where records are written: under a base directory, or to standard output.
pub enum Writer {
    BaseDir(String),
    Stdout,
}

impl Writer {
    /// A writer for the base directory when one is configured.
    pub fn new(base_dir: Option<String>) -> (r: Writer)
        ensures
            base_dir is Some ==> r is BaseDir && r->BaseDir_0 == base_dir->0,
            base_dir is None ==> r is Stdout,
    {
        match base_dir {
            Some(dir) => Writer::BaseDir(dir),
            None => Writer::Stdout,
        }
    }
}

/// Whether a function's path resolves in this unit's navigation tree.
pub enum OutputPath {
    Local(String),
    External(String),
}

/// The name of a local item: the unit root, `::`, then its path.
pub open spec fn qualified(root: Seq<char>, path: Seq<char>) -> Seq<char> {
    root + "::"@ + path
}

/// Classifies a function by its path: `Local` with the root-qualified name
/// when that name is in the index, else `External` with the path as given.
pub fn output_path(navi: &Navigation, def_path_str: &str) -> (r: OutputPath)
    ensures
        lookup(ids_view(navi.name_to_id@), qualified(navi.tree.node.inner.name@, def_path_str@)) is Some ==>
            r is Local && r->Local_0@ == qualified(navi.tree.node.inner.name@, def_path_str@),
        lookup(ids_view(navi.name_to_id@), qualified(navi.tree.node.inner.name@, def_path_str@)) is None ==>
            r is External && r->External_0@ == def_path_str@,
{
    let root = navi.crate_root().to_owned();
    let name = root.concat("::").concat(def_path_str);
    assert(name@ == qualified(navi.tree.node.inner.name@, def_path_str@));
    match navi.name_to_id(name.as_str()) {
        Some(_) => OutputPath::Local(name),
        None => OutputPath::External(def_path_str.to_owned()),
    }
}

/// Why a function is listed as unsafe.
#[derive(Clone, Copy, Debug, PartialEq, Eq, Structural)]
pub enum Unsafe {
    /// The function is unsafe, and calls no unsafe function.
    Caller,
    /// The function is safe, and calls an unsafe function.
    Callee,
    /// The function is unsafe, and calls an unsafe function.
    Both,
}

/// The unsafe kind of a function, or `None` when it is safe and calls only
/// safe functions.
pub fn unsafe_kind(unsafe_caller: bool, unsafe_callee: bool) -> (r: Option<Unsafe>)
    ensures
        r == if unsafe_caller && unsafe_callee {
            Some(Unsafe::Both)
        } else if unsafe_caller {
            Some(Unsafe::Caller)
        } else if unsafe_callee {
            Some(Unsafe::Callee)
        } else {
            None
        },
{
    match (unsafe_caller, unsafe_callee) {
        (true, true) => Some(Unsafe::Both),
        (true, false) => Some(Unsafe::Caller),
        (false, true) => Some(Unsafe::Callee),
        (false, false) => None,
    }
}

pub open spec fn names_sorted<V>(s: Seq<(String, V)>) -> bool {
    forall|i: int, j: int| 0 <= i < j < s.len() ==> lex_le((#[trigger] s[i]).0@, (#[trigger] s[j]).0@)
}

/// Sorts entries by name; equal names keep no particular order.
pub fn sort_by_name<V>(v: Vec<(String, V)>) -> (r: Vec<(String, V)>)
    ensures
        names_sorted(r@),
        r@.to_multiset() == v@.to_multiset(),
{
    let mut rest = v;
    let ghost all = rest@;
    let mut out: Vec<(String, V)> = Vec::new();
    proof {
        all.to_multiset_ensures();
        out@.to_multiset_ensures();
        assert(out@ =~= Seq::<(String, V)>::empty());
    }
    while rest.len() > 0
        invariant
            names_sorted(out@),
            out@.to_multiset().add(rest@.to_multiset()) == all.to_multiset(),
        decreases rest.len(),
    {
        let ghost r0 = rest@;
        let ghost o0 = out@;
        let x = rest.pop().unwrap();
        proof {
            assert(r0 =~= rest@.push(x));
            rest@.to_multiset_ensures();
            r0.to_multiset_ensures();
        }
        let mut p: usize = 0;
        while p < out.len() && crate::info_mod::name_le(&out[p].0, &x.0)
            invariant
                p <= out.len(),
                out@ == o0,
                forall|j: int| 0 <= j < p ==> lex_le((#[trigger] out@[j]).0@, x.0@),
            decreases out.len() - p,
        {
            p += 1;
        }
        proof {
            if p < out.len() {
                crate::info_mod::lemma_lex_total(out@[p as int].0@, x.0@);
                assert forall|j: int| p <= j < out.len() implies lex_le(x.0@, (#[trigger] out@[j]).0@) by {
                    if j > p {
                        crate::info_mod::lemma_lex_trans(x.0@, out@[p as int].0@, out@[j].0@);
                    }
                }
            }
        }
        out.insert(p, x);
        proof {
            assert forall|i: int, j: int| 0 <= i < j < out@.len() implies lex_le((#[trigger] out@[i]).0@, (#[trigger] out@[j]).0@) by {
                if i < p && j < p {
                    assert(out@[i] == o0[i] && out@[j] == o0[j]);
                } else if i < p && j == p {
                } else if i < p {
                    assert(out@[i] == o0[i] && out@[j] == o0[j - 1]);
                } else if i == p {
                    assert(out@[j] == o0[j - 1]);
                } else {
                    assert(out@[i] == o0[i - 1] && out@[j] == o0[j - 1]);
                }
            }
            vstd::seq_lib::to_multiset_insert(o0, p as int, x);
        }
    }
    proof {
        rest@.to_multiset_ensures();
        assert(rest@ =~= Seq::<(String, V)>::empty());
    }
    out
}

/// A record's name and source span.
pub struct Meta {
    pub name: String,
    pub span: String,
}

impl Meta {
    pub fn new(name: String, span: String) -> (r: Meta)
        ensures
            r.name == name,
            r.span == span,
    {
        Meta { name, span }
    }
}

/// A function's source text.
pub struct Source {
    pub meta: Meta,
    pub src: String,
}

impl Source {
    /// The source text taken from the function's body.
    pub fn new_with_body(meta: Meta, body_src: String) -> (r: Source)
        ensures
            r.meta == meta,
            r.src == body_src,
    {
        Source { meta, src: body_src }
    }

    /// The source text taken from the item's own span.
    pub fn new(meta: Meta, item_src: String) -> (r: Source)
        ensures
            r.meta == meta,
            r.src == item_src,
    {
        Source { meta, src: item_src }
    }
}

/// A function's intermediate representation, as text.
pub struct Mir {
    pub meta: Meta,
    pub mir: String,
}

impl Mir {
    pub fn new(meta: Meta, mir: String) -> (r: Mir)
        ensures
            r.meta == meta,
            r.mir == mir,
    {
        Mir { meta, mir }
    }
}

/// A function's documentation.
pub struct Documentation {
    pub meta: Meta,
    pub doc: String,
}

impl Documentation {
    pub fn new(meta: Meta, doc: String) -> (r: Documentation)
        ensures
            r.meta == meta,
            r.doc == doc,
    {
        Documentation { meta, doc }
    }
}

/// A variant or field of a type, with its documentation.
pub struct VariantField {
    pub name: String,
    pub doc: String,
}

/// What a call site records about its callee.
pub struct CalleeInfo {
    pub safe: bool,
    /// Per type definition that the caller touches, the callee's rank.
    pub adt: Vec<(u64, AdtFnKind)>,
}

/// The record of one function.
pub struct Caller {
    pub fn_def: u64,
    pub safe: bool,
    /// Direct callees by generic name, in name order.
    pub callees: Vec<(String, CalleeInfo)>,
    /// Per type the function touches, the access kinds seen.
    pub adts: Vec<(TyAdt, Vec<AdtAccess>)>,
    /// Whether the function is an item of this unit.
    pub path: OutputPath,
}

pub open spec fn caller_adts_view(s: Seq<(TyAdt, Vec<AdtAccess>)>) -> Seq<(TyAdt, Seq<AccessView>)> {
    s.map_values(|e: (TyAdt, Vec<AdtAccess>)| (e.0, e.1@.map_values(|a: AdtAccess| a@)))
}

/// The types a summary touches, each with its access kinds.
pub open spec fn touched_kinds(info: FnInfo) -> Seq<(TyAdt, Seq<AccessView>)> {
    touches_view(info.adts@).map_values(|e: (TyAdt, LocalsView)| (e.0, e.1.access))
}

/// Whether the root-qualified name of `path` is in the index.
pub open spec fn is_local_name(navi: Navigation, path: Seq<char>) -> bool {
    lookup(ids_view(navi.name_to_id@), qualified(navi.tree.node.inner.name@, path)) is Some
}

/// `p` classifies `path`: local with the qualified name, or external with
/// the path as given.
pub open spec fn path_of(p: OutputPath, navi: Navigation, path: Seq<char>) -> bool {
    if is_local_name(navi, path) {
        p is Local && p->Local_0@ == qualified(navi.tree.node.inner.name@, path)
    } else {
        p is External && p->External_0@ == path
    }
}

fn copy_kinds(v: &Vec<AdtAccess>) -> (r: Vec<AdtAccess>)
    ensures
        r@.map_values(|a: AdtAccess| a@) == v@.map_values(|a: AdtAccess| a@),
{
    let mut r: Vec<AdtAccess> = Vec::new();
    let mut i: usize = 0;
    while i < v.len()
        invariant
            i <= v.len(),
            r@.map_values(|a: AdtAccess| a@) == v@.take(i as int).map_values(|a: AdtAccess| a@),
        decreases v.len() - i,
    {
        let ghost rb = r@;
        let d = v[i].duplicate();
        r.push(d);
        proof {
            assert(r@.map_values(|a: AdtAccess| a@) =~= rb.map_values(|a: AdtAccess| a@).push(d@));
            assert(v@.take(i + 1).map_values(|a: AdtAccess| a@) =~= v@.take(i as int).map_values(|a: AdtAccess| a@).push(v@[i as int]@));
        }
        i += 1;
    }
    assert(v@.take(v.len() as int) =~= v@);
    r
}

/// The types a summary touches, each with its access kinds.
pub fn caller_adts(info: &FnInfo) -> (r: Vec<(TyAdt, Vec<AdtAccess>)>)
    ensures
        caller_adts_view(r@) == touched_kinds(*info),
{
    let mut r: Vec<(TyAdt, Vec<AdtAccess>)> = Vec::new();
    let mut i: usize = 0;
    while i < info.adts.len()
        invariant
            i <= info.adts.len(),
            caller_adts_view(r@) == touched_kinds(*info).take(i as int),
        decreases info.adts.len() - i,
    {
        let kinds = copy_kinds(&info.adts[i].1.access);
        let ghost rb = r@;
        r.push((info.adts[i].0, kinds));
        proof {
            let e = (info.adts@[i as int].0, info.adts@[i as int].1@.access);
            assert(touched_kinds(*info)[i as int] == e);
            assert(caller_adts_view(r@) =~= caller_adts_view(rb).push(e));
            assert(touched_kinds(*info).take(i + 1) =~= touched_kinds(*info).take(i as int).push(e));
        }
        i += 1;
    }
    assert(touched_kinds(*info).take(info.adts.len() as int) =~= touched_kinds(*info));
    r
}

pub open spec fn callee_outs_view(s: Seq<(String, CalleeInfo)>) -> Seq<(Seq<char>, (bool, Seq<(u64, AdtFnKind)>))> {
    s.map_values(|e: (String, CalleeInfo)| (e.0@, (e.1.safe, e.1.adt@)))
}

/// The callee map of a function: each callee by its generic name, with its
/// safety (`true` when `safety` does not list it) and no ranks yet.
pub open spec fn callee_outs(cs: Seq<(u64, Seq<char>)>, safety: Seq<(u64, bool)>) -> Seq<(Seq<char>, (bool, Seq<(u64, AdtFnKind)>))>
    decreases cs.len(),
{
    if cs.len() == 0 {
        seq![]
    } else {
        put(callee_outs(cs.drop_last(), safety), cs.last().1, (get_or(safety, cs.last().0, true), seq![]))
    }
}

/// Builds the callee map of a function from its summary.
pub fn output_callee(finfo: &FnInfo, safety: &Vec<(u64, bool)>) -> (r: Vec<(String, CalleeInfo)>)
    ensures
        names_sorted(r@),
        callee_outs_view(r@).to_multiset() == callee_outs(callees_view(finfo.callees@), safety@).to_multiset(),
{
    let ghost cs = callees_view(finfo.callees@);
    let mut m: Vec<(String, CalleeInfo)> = Vec::new();
    assert(callee_outs_view(m@) =~= Seq::empty());
    let mut i: usize = 0;
    while i < finfo.callees.len()
        invariant
            i <= finfo.callees.len(),
            cs == callees_view(finfo.callees@),
            callee_outs_view(m@) == callee_outs(cs.take(i as int), safety@),
        decreases finfo.callees.len() - i,
    {
        let f = finfo.callees[i].0;
        let name = &finfo.callees[i].1.non_instance_name;
        proof {
            assert(cs.take(i + 1).drop_last() =~= cs.take(i as int));
            assert(cs[i as int] == (f, name@));
        }
        let s = find_key(safety, f);
        proof {
            lemma_key_pos(safety@, f, s as int);
        }
        let safe = if s < safety.len() {
            safety[s].1
        } else {
            true
        };
        let out = CalleeInfo { safe, adt: Vec::new() };
        assert(out.adt@ =~= Seq::<(u64, AdtFnKind)>::empty());
        let ghost before = callee_outs_view(m@);
        let k = find_name(&m, name);
        proof {
            lemma_same_keys(string_keys(m@), before, name@);
        }
        if k < m.len() {
            m.set(k, (name.clone(), out));
        } else {
            m.push((name.clone(), out));
        }
        assert(callee_outs_view(m@) =~= put(before, name@, (safe, seq![])));
        i += 1;
    }
    assert(cs.take(finfo.callees.len() as int) =~= cs);
    let ghost m0 = m@;
    let r = sort_by_name(m);
    proof {
        crate::maps::lemma_multiset_map(r@, m0, |e: (String, CalleeInfo)| (e.0@, (e.1.safe, e.1.adt@)));
        assert(callee_outs_view(r@) =~= r@.map_values(|e: (String, CalleeInfo)| (e.0@, (e.1.safe, e.1.adt@))));
        assert(callee_outs_view(m0) =~= m0.map_values(|e: (String, CalleeInfo)| (e.0@, (e.1.safe, e.1.adt@))));
    }
    r
}

/// The ranks recorded for this caller's call of `name`, if any.
pub open spec fn call_ranks(c: AdtFnCollector, caller: u64, name: Seq<char>) -> Option<Seq<(u64, AdtFnKind)>> {
    let ccm = ccm_view(c.caller_callee_map@);
    let inner = get_or(ccm, caller, seq![]);
    if has_key(ccm, caller) && has_key(inner, name) {
        Some(get_or(inner, name, seq![]))
    } else {
        None
    }
}

impl Caller {
    /// The record of function `fn_def` from its summary: its callees with
    /// their safety, the types it touches with their access kinds, and
    /// whether `def_path_str` names an item of this unit.
    pub fn new(
        fn_def: u64,
        safe: bool,
        info: &FnInfo,
        safety: &Vec<(u64, bool)>,
        navi: &Navigation,
        def_path_str: &str,
    ) -> (r: Caller)
        ensures
            r.fn_def == fn_def,
            r.safe == safe,
            names_sorted(r.callees@),
            callee_outs_view(r.callees@).to_multiset() == callee_outs(callees_view(info.callees@), safety@).to_multiset(),
            caller_adts_view(r.adts@) == touched_kinds(*info),
            path_of(r.path, *navi, def_path_str@),
    {
        Caller {
            fn_def,
            safe,
            callees: output_callee(info, safety),
            adts: caller_adts(info),
            path: output_path(navi, def_path_str),
        }
    }

    /// Fills each callee's ranks from the caller/callee cross-reference; a
    /// callee with no entry there keeps its ranks.
    pub fn update_adt_fn(&mut self, collector: &AdtFnCollector)
        ensures
            final(self).fn_def == old(self).fn_def,
            final(self).safe == old(self).safe,
            final(self).callees@.len() == old(self).callees@.len(),
            forall|i: int| 0 <= i < old(self).callees@.len() ==> {
                let name = (#[trigger] old(self).callees@[i]).0@;
                &&& final(self).callees@[i].0 == old(self).callees@[i].0
                &&& final(self).callees@[i].1.safe == old(self).callees@[i].1.safe
                &&& final(self).callees@[i].1.adt@ == match call_ranks(*collector, old(self).fn_def, name) {
                    Some(r) => r,
                    None => old(self).callees@[i].1.adt@,
                }
            },
    {
        let ccm = &collector.caller_callee_map;
        let ghost cv = ccm_view(ccm@);
        let k = find_key(ccm, self.fn_def);
        proof {
            assert forall|j: int| 0 <= j < k implies #[trigger] cv[j].0 != self.fn_def by {
                assert(cv[j].0 == ccm@[j].0);
            }
            if k < ccm.len() {
                assert(cv[k as int].0 == ccm@[k as int].0);
            }
            lemma_key_pos(cv, self.fn_def, k as int);
            lemma_key_pos_bounds(cv, self.fn_def);
        }
        if k == ccm.len() {
            return;
        }
        let inner = &ccm[k].1;
        let ghost iv = callee_adts_view(inner@);
        assert(iv == get_or(cv, self.fn_def, seq![]));
        let mut i: usize = 0;
        while i < self.callees.len()
            invariant
                i <= self.callees.len(),
                k < ccm.len(),
                iv == callee_adts_view(inner@),
                iv == get_or(cv, old(self).fn_def, seq![]),
                has_key(cv, old(self).fn_def),
                cv == ccm_view(collector.caller_callee_map@),
                self.fn_def == old(self).fn_def,
                self.safe == old(self).safe,
                self.callees@.len() == old(self).callees@.len(),
                forall|j: int| i <= j < self.callees@.len() ==> #[trigger] self.callees@[j] == old(self).callees@[j],
                forall|j: int| 0 <= j < i ==> {
                    let name = (#[trigger] old(self).callees@[j]).0@;
                    &&& self.callees@[j].0 == old(self).callees@[j].0
                    &&& self.callees@[j].1.safe == old(self).callees@[j].1.safe
                    &&& self.callees@[j].1.adt@ == match call_ranks(*collector, old(self).fn_def, name) {
                        Some(r) => r,
                        None => old(self).callees@[j].1.adt@,
                    }
                },
            decreases self.callees.len() - i,
        {
            let n = find_name(inner, &self.callees[i].0);
            proof {
                lemma_same_keys(string_keys(inner@), iv, self.callees@[i as int].0@);
            }
            proof {
                lemma_key_pos_bounds(iv, self.callees@[i as int].0@);
            }
            if n < inner.len() {
                let ranks = copy_ranks_vec(&inner[n].1);
                let ghost before = self.callees@;
                self.callees[i].1.adt = ranks;
                proof {
                    assert forall|j: int| 0 <= j < self.callees@.len() && j != i implies #[trigger] self.callees@[j] == before[j] by {}
                    assert(iv[n as int].1 == inner@[n as int].1@);
                }
            }
            i += 1;
        }
    }
}

fn copy_ranks_vec(v: &Vec<(u64, AdtFnKind)>) -> (r: Vec<(u64, AdtFnKind)>)
    ensures
        r@ == v@,
{
    let mut r: Vec<(u64, AdtFnKind)> = Vec::new();
    let mut i: usize = 0;
    while i < v.len()
        invariant
            i <= v.len(),
            r@ == v@.take(i as int),
        decreases v.len() - i,
    {
        r.push(v[i]);
        i += 1;
        assert(r@ =~= v@.take(i as int));
    }
    assert(v@.take(v.len() as int) =~= v@);
    r
}

/// Whether a function is safe: as `safety` lists it, `true` when unlisted.
pub open spec fn is_safe(safety: Seq<(u64, bool)>, f: u64) -> bool {
    get_or(safety, f, true)
}

fn safe_of(safety: &Vec<(u64, bool)>, f: u64) -> (r: bool)
    ensures
        r == is_safe(safety@, f),
{
    let k = find_key(safety, f);
    proof {
        lemma_key_pos(safety@, f, k as int);
    }
    if k < safety.len() {
        safety[k].1
    } else {
        true
    }
}

/// A function's display name from `names`, empty when unlisted.
pub open spec fn name_of(names: Seq<(u64, String)>, f: u64) -> Seq<char> {
    let k = key_pos(names, f);
    if 0 <= k < names.len() {
        names[k].1@
    } else {
        seq![]
    }
}

fn name_for(names: &Vec<(u64, String)>, f: u64) -> (r: String)
    ensures
        r@ == name_of(names@, f),
{
    let k = find_key(names, f);
    proof {
        lemma_key_pos(names@, f, k as int);
    }
    if k < names.len() {
        names[k].1.clone()
    } else {
        String::new()
    }
}

/// Whether some callee of the summary is unsafe.
pub open spec fn calls_unsafe(info: FnInfo, safety: Seq<(u64, bool)>) -> bool {
    exists|i: int| 0 <= i < info.callees@.len() && !is_safe(safety, (#[trigger] info.callees@[i]).0)
}

pub open spec fn unsafe_kind_spec(unsafe_caller: bool, unsafe_callee: bool) -> Option<Unsafe> {
    if unsafe_caller && unsafe_callee {
        Some(Unsafe::Both)
    } else if unsafe_caller {
        Some(Unsafe::Caller)
    } else if unsafe_callee {
        Some(Unsafe::Callee)
    } else {
        None
    }
}

/// The unsafe functions among the callers, by name: a later caller with
/// the same name replaces the kind.
pub open spec fn unsafe_map(fns: Seq<(u64, FnInfo)>, safety: Seq<(u64, bool)>, names: Seq<(u64, String)>) -> Seq<(Seq<char>, Unsafe)>
    decreases fns.len(),
{
    if fns.len() == 0 {
        seq![]
    } else {
        let m = unsafe_map(fns.drop_last(), safety, names);
        let e = fns.last();
        match unsafe_kind_spec(!is_safe(safety, e.0), calls_unsafe(e.1, safety)) {
            Some(k) => put(m, name_of(names, e.0), k),
            None => m,
        }
    }
}

pub open spec fn unsafe_view(s: Seq<(String, Unsafe)>) -> Seq<(Seq<char>, Unsafe)> {
    s.map_values(|e: (String, Unsafe)| (e.0@, e.1))
}

/// The unsafe functions, each once by name, in name order.
pub fn unsafe_fns(map_fn: &Vec<(u64, FnInfo)>, safety: &Vec<(u64, bool)>, names: &Vec<(u64, String)>) -> (r: Vec<(String, Unsafe)>)
    ensures
        names_sorted(r@),
        unsafe_view(r@).to_multiset() == unsafe_map(map_fn@, safety@, names@).to_multiset(),
{
    let mut m: Vec<(String, Unsafe)> = Vec::new();
    assert(unsafe_view(m@) =~= Seq::empty());
    let mut i: usize = 0;
    while i < map_fn.len()
        invariant
            i <= map_fn.len(),
            unsafe_view(m@) == unsafe_map(map_fn@.take(i as int), safety@, names@),
        decreases map_fn.len() - i,
    {
        let f = map_fn[i].0;
        let info = &map_fn[i].1;
        proof {
            assert(map_fn@.take(i + 1).drop_last() =~= map_fn@.take(i as int));
        }
        let mut callee_unsafe = false;
        let mut c: usize = 0;
        while c < info.callees.len()
            invariant
                c <= info.callees.len(),
                callee_unsafe == exists|j: int| 0 <= j < c && !is_safe(safety@, (#[trigger] info.callees@[j]).0),
            decreases info.callees.len() - c,
        {
            if !safe_of(safety, info.callees[c].0) {
                callee_unsafe = true;
            }
            c += 1;
        }
        let kind = unsafe_kind(!safe_of(safety, f), callee_unsafe);
        if let Some(k) = kind {
            let name = name_for(names, f);
            let ghost before = unsafe_view(m@);
            let p = find_name(&m, &name);
            proof {
                lemma_same_keys(string_keys(m@), before, name@);
            }
            if p < m.len() {
                m.set(p, (name, k));
            } else {
                m.push((name, k));
            }
            assert(unsafe_view(m@) =~= put(before, name_of(names@, f), k));
        }
        i += 1;
    }
    assert(map_fn@.take(map_fn.len() as int) =~= map_fn@);
    let ghost m0 = m@;
    let r = sort_by_name(m);
    proof {
        crate::maps::lemma_multiset_map(r@, m0, |e: (String, Unsafe)| (e.0@, e.1));
        assert(unsafe_view(r@) =~= r@.map_values(|e: (String, Unsafe)| (e.0@, e.1)));
        assert(unsafe_view(m0) =~= m0.map_values(|e: (String, Unsafe)| (e.0@, e.1)));
    }
    r
}

/// Every caller, then each of its callees, each function once in order of
/// first appearance.
pub open spec fn all_fns_spec(fns: Seq<(u64, FnInfo)>) -> Seq<u64>
    decreases fns.len(),
{
    if fns.len() == 0 {
        seq![]
    } else {
        let e = fns.last();
        add_unique(insert_unique(all_fns_spec(fns.drop_last()), e.0), e.1.callees@)
    }
}

pub open spec fn add_unique(s: Seq<u64>, cs: Seq<(u64, crate::info_fn::CalleeInfo)>) -> Seq<u64>
    decreases cs.len(),
{
    if cs.len() == 0 {
        s
    } else {
        insert_unique(add_unique(s, cs.drop_last()), cs.last().0)
    }
}

fn push_unique(v: &mut Vec<u64>, x: u64)
    ensures
        final(v)@ == insert_unique(old(v)@, x),
{
    let mut i: usize = 0;
    while i < v.len() && v[i] != x
        invariant
            i <= v.len(),
            forall|j: int| 0 <= j < i ==> v@[j] != x,
        decreases v.len() - i,
    {
        i += 1;
    }
    if i == v.len() {
        v.push(x);
    } else {
        assert(v@.contains(x)) by {
            assert(v@[i as int] == x);
        }
    }
}

/// Every function that the records mention: callers and their callees.
pub fn all_fns(map_fn: &Vec<(u64, FnInfo)>) -> (r: Vec<u64>)
    ensures
        r@ == all_fns_spec(map_fn@),
{
    let mut v: Vec<u64> = Vec::new();
    let mut i: usize = 0;
    while i < map_fn.len()
        invariant
            i <= map_fn.len(),
            v@ == all_fns_spec(map_fn@.take(i as int)),
        decreases map_fn.len() - i,
    {
        proof {
            assert(map_fn@.take(i + 1).drop_last() =~= map_fn@.take(i as int));
        }
        let info = &map_fn[i].1;
        push_unique(&mut v, map_fn[i].0);
        let ghost start = v@;
        let mut c: usize = 0;
        while c < info.callees.len()
            invariant
                c <= info.callees.len(),
                v@ == add_unique(start, info.callees@.take(c as int)),
            decreases info.callees.len() - c,
        {
            proof {
                assert(info.callees@.take(c + 1).drop_last() =~= info.callees@.take(c as int));
            }
            push_unique(&mut v, info.callees[c].0);
            c += 1;
        }
        assert(info.callees@.take(info.callees.len() as int) =~= info.callees@);
        i += 1;
    }
    assert(map_fn@.take(map_fn.len() as int) =~= map_fn@);
    v
}

/// The views of the strings.
pub open spec fn strings_view(r: Seq<String>) -> Seq<Seq<char>> {
    r.map_values(|x: String| x@)
}

/// The display names of the functions, in their order.
pub open spec fn fn_names(v: Seq<u64>, names: Seq<(u64, String)>) -> Seq<Seq<char>> {
    v.map_values(|f: u64| name_of(names, f))
}

pub open spec fn first_views(s: Seq<(String, u64)>) -> Seq<Seq<char>> {
    s.map_values(|e: (String, u64)| e.0@)
}

/// `r` holds the display names of the functions `v`, one per function
/// (repeated functions give repeated names), in name order.
pub open spec fn names_of(r: Seq<String>, v: Seq<u64>, names: Seq<(u64, String)>) -> bool {
    &&& forall|i: int, j: int| 0 <= i < j < r.len() ==> lex_le((#[trigger] r[i])@, (#[trigger] r[j])@)
    &&& strings_view(r).to_multiset() == fn_names(v, names).to_multiset()
}

/// The display names of the functions, in name order.
pub fn v_fn_name(v: &Vec<u64>, names: &Vec<(u64, String)>) -> (r: Vec<String>)
    ensures
        names_of(r@, v@, names@),
{
    let mut pairs: Vec<(String, u64)> = Vec::new();
    let mut i: usize = 0;
    while i < v.len()
        invariant
            i <= v.len(),
            pairs@.len() == i,
            forall|k: int| 0 <= k < i ==> (#[trigger] pairs@[k]).0@ == name_of(names@, v@[k]),
        decreases v.len() - i,
    {
        pairs.push((name_for(names, v[i]), v[i]));
        i += 1;
    }
    assert(first_views(pairs@) =~= fn_names(v@, names@));
    let ghost unsorted = pairs@;
    let sorted = sort_by_name(pairs);
    proof {
        crate::maps::lemma_multiset_map(sorted@, unsorted, |e: (String, u64)| e.0@);
    }
    let mut r: Vec<String> = Vec::new();
    let mut k: usize = 0;
    while k < sorted.len()
        invariant
            k <= sorted.len(),
            r@.len() == k,
            forall|a: int| 0 <= a < k ==> (#[trigger] r@[a])@ == sorted@[a].0@,
        decreases sorted.len() - k,
    {
        r.push(sorted[k].0.clone());
        k += 1;
    }
    proof {
        assert forall|a: int, b: int| 0 <= a < b < r@.len() implies lex_le((#[trigger] r@[a])@, (#[trigger] r@[b])@) by {
            assert(r@[a]@ == sorted@[a].0@);
            assert(r@[b]@ == sorted@[b].0@);
        }
        assert(strings_view(r@) =~= first_views(sorted@));
    }
    r
}

/// The functions touching a place, by display name.
pub struct Access {
    pub read: Vec<String>,
    pub write: Vec<String>,
    pub other: Vec<String>,
}

impl Access {
    /// Names the functions of each bucket, in name order.
    pub fn new(raw: &crate::info_adt::Access, names: &Vec<(u64, String)>) -> (r: Access)
        ensures
            names_of(r.read@, raw.read@, names@),
            names_of(r.write@, raw.write@, names@),
            names_of(r.other@, raw.other@, names@),
    {
        Access {
            read: v_fn_name(&raw.read, names),
            write: v_fn_name(&raw.write, names),
            other: v_fn_name(&raw.other, names),
        }
    }
}

/// The record of one type.
pub struct Adt {
    pub name: String,
    pub constructors: Vec<String>,
    pub access_self_as_arg: Access,
    pub access_self_as_locals: Access,
    pub access_field: Vec<Access>,
    pub span: String,
    pub src: String,
    pub kind: String,
    pub doc_adt: String,
    pub variant_fields: Vec<(String, VariantField)>,
}

/// No two entries share a name.
pub open spec fn distinct_keys<V>(s: Seq<(String, V)>) -> bool {
    forall|i: int, j: int| 0 <= i < s.len() && 0 <= j < s.len() && i != j ==> (#[trigger] s[i]).0@ != (#[trigger] s[j]).0@
}

/// What describes a type besides its profile: name, span, source text,
/// kind, documentation, and its variants and fields.
pub struct AdtDesc {
    pub name: String,
    pub span: String,
    pub src: String,
    pub kind: String,
    pub doc_adt: String,
    pub variant_fields: Vec<(String, VariantField)>,
}

impl Adt {
    /// The record of a type: its description, and its profile with every
    /// function named, each list in name order.
    pub fn new(desc: AdtDesc, info: &AdtInfo, names: &Vec<(u64, String)>) -> (r: Adt)
        requires
            distinct_keys(desc.variant_fields@),
        ensures
            distinct_keys(r.variant_fields@),
            r.name == desc.name,
            r.span == desc.span,
            r.src == desc.src,
            r.kind == desc.kind,
            r.doc_adt == desc.doc_adt,
            r.variant_fields == desc.variant_fields,
            names_of(r.constructors@, info.constructors@, names@),
            names_of(r.access_self_as_arg.read@, info.as_argument.read@, names@),
            names_of(r.access_self_as_arg.write@, info.as_argument.write@, names@),
            names_of(r.access_self_as_arg.other@, info.as_argument.other@, names@),
            names_of(r.access_self_as_locals.read@, info.otherwise.read@, names@),
            names_of(r.access_self_as_locals.write@, info.otherwise.write@, names@),
            names_of(r.access_self_as_locals.other@, info.otherwise.other@, names@),
            r.access_field@.len() == info.fields@.len(),
            forall|i: int| 0 <= i < info.fields@.len() ==> {
                &&& names_of((#[trigger] r.access_field@[i]).read@, info.fields@[i].read@, names@)
                &&& names_of(r.access_field@[i].write@, info.fields@[i].write@, names@)
                &&& names_of(r.access_field@[i].other@, info.fields@[i].other@, names@)
            },
    {
        let mut access_field: Vec<Access> = Vec::new();
        let mut i: usize = 0;
        while i < info.fields.len()
            invariant
                i <= info.fields.len(),
                access_field@.len() == i,
                forall|k: int| 0 <= k < i ==> {
                    &&& names_of((#[trigger] access_field@[k]).read@, info.fields@[k].read@, names@)
                    &&& names_of(access_field@[k].write@, info.fields@[k].write@, names@)
                    &&& names_of(access_field@[k].other@, info.fields@[k].other@, names@)
                },
            decreases info.fields.len() - i,
        {
            access_field.push(Access::new(&info.fields[i], names));
            i += 1;
        }
        Adt {
            name: desc.name,
            constructors: v_fn_name(&info.constructors, names),
            access_self_as_arg: Access::new(&info.as_argument, names),
            access_self_as_locals: Access::new(&info.otherwise, names),
            access_field,
            span: desc.span,
            src: desc.src,
            kind: desc.kind,
            doc_adt: desc.doc_adt,
            variant_fields: desc.variant_fields,
        }
    }
}

} // verus!
