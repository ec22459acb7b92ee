//! The per-function summary: callees, touched types and constructed types.
use vstd::prelude::*;
use crate::info_adt::{FnKind, Receiver};
use crate::maps::{dedup, find_adt, find_key, get_or, insert_unique, key_pos, lemma_key_pos_bounds, lemma_same_keys, put};
use crate::ty::{flatten, flatten_adts, observe, obs_view, observe_place, AccessView, Adt, AdtAccess, Proj, Ty};

verus! {

/// The locals through which a function touches one type, and how.
pub struct LocalsAccess {
    /// Local slots, in the order they were seen.
    pub locals: Vec<usize>,
    /// Distinct access kinds, in the order they were first seen.
    pub access: Vec<AdtAccess>,
}

/// The value of a [`LocalsAccess`].
pub struct LocalsView {
    pub locals: Seq<usize>,
    pub access: Seq<AccessView>,
}

impl View for LocalsAccess {
    type V = LocalsView;

    open spec fn view(&self) -> LocalsView {
        LocalsView { locals: self.locals@, access: self.access@.map_values(|a: AdtAccess| a@) }
    }
}

pub open spec fn empty_locals() -> LocalsView {
    LocalsView { locals: seq![], access: seq![] }
}

/// Whether one of the locals is an argument slot.
pub open spec fn is_argument_spec(l: LocalsView, arg_count: usize) -> bool {
    exists|i: int| 0 <= i < l.locals.len() && #[trigger] l.locals[i] < arg_count
}

impl LocalsAccess {
    /// Whether one of the locals is an argument slot (below `arg_count`).
    pub fn is_argument(&self, arg_count: usize) -> (r: bool)
        ensures
            r == is_argument_spec(self@, arg_count),
    {
        let mut i: usize = 0;
        while i < self.locals.len()
            invariant
                i <= self.locals.len(),
                forall|j: int| 0 <= j < i ==> self.locals@[j] >= arg_count,
            decreases self.locals.len() - i,
        {
            if self.locals[i] < arg_count {
                assert(self@.locals[i as int] < arg_count);
                return true;
            }
            i += 1;
        }
        false
    }

    /// Removes repeated locals, keeping the first of each.
    pub fn deduplicate_indices(&mut self)
        ensures
            final(self)@ == (LocalsView { locals: dedup(old(self)@.locals), access: old(self)@.access }),
    {
        let mut r: Vec<usize> = Vec::new();
        let mut i: usize = 0;
        while i < self.locals.len()
            invariant
                i <= self.locals.len(),
                r@ == dedup(self.locals@.take(i as int)),
            decreases self.locals.len() - i,
        {
            let x = self.locals[i];
            let mut j: usize = 0;
            let mut found = false;
            while j < r.len()
                invariant
                    j <= r.len(),
                    found == exists|k: int| 0 <= k < j && r@[k] == x,
                decreases r.len() - j,
            {
                if r[j] == x {
                    found = true;
                }
                j += 1;
            }
            proof {
                assert(self.locals@.take(i + 1).drop_last() =~= self.locals@.take(i as int));
                assert(found == r@.contains(x));
            }
            if !found {
                r.push(x);
            }
            i += 1;
        }
        assert(self.locals@.take(self.locals.len() as int) =~= self.locals@);
        self.locals = r;
    }
}

/// Adds one local, and the access when there is one.
pub open spec fn touch(l: LocalsView, idx: usize, acc: Option<AccessView>) -> LocalsView {
    LocalsView {
        locals: l.locals.push(idx),
        access: match acc {
            Some(a) => insert_unique(l.access, a),
            None => l.access,
        },
    }
}

/// Records one observation made through local `idx`.
pub open spec fn record_one(m: Seq<(Adt, LocalsView)>, idx: usize, o: (Adt, Option<AccessView>)) -> Seq<(Adt, LocalsView)> {
    put(m, o.0, touch(get_or(m, o.0, empty_locals()), idx, o.1))
}

/// Records the observations made through local `idx`, in order.
pub open spec fn record_all(m: Seq<(Adt, LocalsView)>, idx: usize, obs: Seq<(Adt, Option<AccessView>)>) -> Seq<(Adt, LocalsView)>
    decreases obs.len(),
{
    if obs.len() == 0 {
        m
    } else {
        record_one(record_all(m, idx, obs.drop_last()), idx, obs.last())
    }
}

pub open spec fn touches_view(s: Seq<(Adt, LocalsAccess)>) -> Seq<(Adt, LocalsView)> {
    s.map_values(|e: (Adt, LocalsAccess)| (e.0, e.1@))
}

fn touch_locals(l: &mut LocalsAccess, idx: usize, acc: Option<AdtAccess>)
    ensures
        final(l)@ == touch(old(l)@, idx, match acc {
            Some(a) => Some(a@),
            None => None,
        }),
{
    l.locals.push(idx);
    if let Some(a) = acc {
        let mut j: usize = 0;
        let mut found = false;
        while j < l.access.len()
            invariant
                j <= l.access.len(),
                found == exists|k: int| 0 <= k < j && l.access@[k]@ == a@,
            decreases l.access.len() - j,
        {
            if l.access[j].same(&a) {
                found = true;
            }
            j += 1;
        }
        let ghost before = l.access@;
        proof {
            if found {
                let k = choose|k: int| 0 <= k < j && l.access@[k]@ == a@;
                assert(l@.access[k] == a@);
            }
            if l@.access.contains(a@) {
                let k = choose|k: int| 0 <= k < l@.access.len() && l@.access[k] == a@;
                assert(l.access@[k]@ == a@);
            }
        }
        if !found {
            l.access.push(a);
            assert(l@.access =~= before.map_values(|a: AdtAccess| a@).push(a@));
        }
    }
}

/// Records the observations in `obs`, all made through local `idx`.
pub fn record(adts: &mut Vec<(Adt, LocalsAccess)>, idx: usize, obs: &Vec<(Adt, Option<AdtAccess>)>)
    ensures
        touches_view(final(adts)@) == record_all(touches_view(old(adts)@), idx, obs_view(obs@)),
{
    let ghost all = obs_view(obs@);
    let mut i: usize = 0;
    while i < obs.len()
        invariant
            i <= obs.len(),
            all == obs_view(obs@),
            touches_view(adts@) == record_all(touches_view(old(adts)@), idx, all.take(i as int)),
        decreases obs.len() - i,
    {
        let a = obs[i].0;
        let acc = match &obs[i].1 {
            Some(x) => Some(x.duplicate()),
            None => None,
        };
        let ghost ov = all[i as int];
        proof {
            assert(all.take(i + 1).drop_last() =~= all.take(i as int));
            assert(ov.0 == a);
        }
        let k = find_adt(adts, a);
        proof {
            lemma_same_keys(adts@, touches_view(adts@), a);
        }
        let ghost before = touches_view(adts@);
        proof {
            lemma_key_pos_bounds(before, a);
        }
        if k < adts.len() {
            touch_locals(&mut adts[k].1, idx, acc);
            assert(touches_view(adts@) =~= record_one(before, idx, ov));
        } else {
            let mut l = LocalsAccess { locals: Vec::new(), access: Vec::new() };
            assert(l@.locals =~= empty_locals().locals);
            assert(l@.access =~= empty_locals().access);
            touch_locals(&mut l, idx, acc);
            adts.push((a, l));
            assert(touches_view(adts@) =~= record_one(before, idx, ov));
        }
        i += 1;
    }
    assert(all.take(obs.len() as int) =~= all);
}

/// A place expression: a local slot and the projection chain applied to it.
pub struct Place {
    pub local: usize,
    pub projection: Vec<Proj>,
}

/// A function-valued reference in a body: its target and the target's
/// generic (non-instantiated) display name.
pub struct FnRef {
    pub fn_def: u64,
    pub name: String,
}

/// What the analysis reads of one function with a body.
pub struct Body {
    /// The declared type of each local slot; the first `arg_count` slots are
    /// the arguments.
    pub locals: Vec<Ty>,
    pub arg_count: usize,
    /// The return type.
    pub ret_ty: Ty,
    /// The place expressions evaluated in the body, in order.
    pub places: Vec<Place>,
    /// The function-valued references in the body, in order.
    pub fn_refs: Vec<FnRef>,
    /// The function's call shape.
    pub fn_kind: FnKind,
    /// The receiver, for a method whose `self` is a structured type.
    pub receiver: Option<Receiver>,
}

/// A callee's generic display name.
#[derive(Clone, Debug)]
pub struct CalleeInfo {
    pub non_instance_name: String,
}

/// The summary of one function.
pub struct FnInfo {
    /// The types a returned value owns: the constructor candidates.
    pub ret_adts: Vec<Adt>,
    /// The number of arguments.
    pub arg_count: usize,
    /// Direct callees by identity, each once, in order of first reference.
    pub callees: Vec<(u64, CalleeInfo)>,
    /// The types touched through locals, each once, in order of first touch.
    pub adts: Vec<(Adt, LocalsAccess)>,
    pub fn_kind: FnKind,
    pub receiver: Option<Receiver>,
}

pub open spec fn callees_view(s: Seq<(u64, CalleeInfo)>) -> Seq<(u64, Seq<char>)> {
    s.map_values(|e: (u64, CalleeInfo)| (e.0, e.1.non_instance_name@))
}

/// The callee map built from the function-valued references: a later
/// reference to a callee replaces its name and keeps its position.
pub open spec fn callee_map(refs: Seq<FnRef>) -> Seq<(u64, Seq<char>)>
    decreases refs.len(),
{
    if refs.len() == 0 {
        seq![]
    } else {
        put(callee_map(refs.drop_last()), refs.last().fn_def, refs.last().name@)
    }
}

/// The types touched by the places, before locals are deduplicated. A place
/// whose local has no declared type is skipped.
pub open spec fn place_touches(tys: Seq<Ty>, places: Seq<Place>) -> Seq<(Adt, LocalsView)>
    decreases places.len(),
{
    if places.len() == 0 {
        seq![]
    } else {
        let m = place_touches(tys, places.drop_last());
        let p = places.last();
        if p.local < tys.len() {
            record_all(m, p.local, observe(tys[p.local as int], p.projection@))
        } else {
            m
        }
    }
}

pub open spec fn dedup_locals(m: Seq<(Adt, LocalsView)>) -> Seq<(Adt, LocalsView)> {
    m.map_values(|e: (Adt, LocalsView)| (e.0, LocalsView { locals: dedup(e.1.locals), access: e.1.access }))
}

/// The types a function touches through its places, with deduplicated locals.
pub open spec fn body_touches(body: Body) -> Seq<(Adt, LocalsView)> {
    dedup_locals(place_touches(body.locals@, body.places@))
}

/// `info` is the summary of `body`: its callees, the types it touches
/// through places, the types its return value owns, and its shape.
pub open spec fn summarises(info: FnInfo, body: Body) -> bool {
    &&& callees_view(info.callees@) == callee_map(body.fn_refs@)
    &&& touches_view(info.adts@) == body_touches(body)
    &&& info.ret_adts@ == flatten(body.ret_ty)
    &&& info.arg_count == body.arg_count
    &&& info.fn_kind == body.fn_kind
    &&& info.receiver == body.receiver
}

impl FnInfo {
    /// Summarises one function body.
    pub fn new(body: &Body) -> (r: FnInfo)
        ensures
            summarises(r, *body),
    {
        let mut callees: Vec<(u64, CalleeInfo)> = Vec::new();
        let mut i: usize = 0;
        while i < body.fn_refs.len()
            invariant
                i <= body.fn_refs.len(),
                callees_view(callees@) == callee_map(body.fn_refs@.take(i as int)),
            decreases body.fn_refs.len() - i,
        {
            let f = &body.fn_refs[i];
            proof {
                assert(body.fn_refs@.take(i + 1).drop_last() =~= body.fn_refs@.take(i as int));
            }
            let info = CalleeInfo { non_instance_name: f.name.clone() };
            let k = find_key(&callees, f.fn_def);
            proof {
                lemma_same_keys(callees@, callees_view(callees@), f.fn_def);
            }
            let ghost before = callees_view(callees@);
            if k < callees.len() {
                callees.set(k, (f.fn_def, info));
            } else {
                callees.push((f.fn_def, info));
            }
            assert(callees_view(callees@) =~= put(before, f.fn_def, f.name@));
            i += 1;
        }
        assert(body.fn_refs@.take(body.fn_refs.len() as int) =~= body.fn_refs@);

        let mut adts: Vec<(Adt, LocalsAccess)> = Vec::new();
        let mut i: usize = 0;
        while i < body.places.len()
            invariant
                i <= body.places.len(),
                touches_view(adts@) == place_touches(body.locals@, body.places@.take(i as int)),
            decreases body.places.len() - i,
        {
            let p = &body.places[i];
            proof {
                assert(body.places@.take(i + 1).drop_last() =~= body.places@.take(i as int));
                assert(touches_view(Seq::empty()) =~= Seq::empty());
            }
            if p.local < body.locals.len() {
                let mut obs: Vec<(Adt, Option<AdtAccess>)> = Vec::new();
                observe_place(&body.locals[p.local], &p.projection, &mut obs);
                assert(obs_view(obs@) =~= observe(body.locals@[p.local as int], p.projection@));
                record(&mut adts, p.local, &obs);
            }
            i += 1;
        }
        assert(body.places@.take(body.places.len() as int) =~= body.places@);

        let ghost raw = touches_view(adts@);
        let mut k: usize = 0;
        while k < adts.len()
            invariant
                k <= adts.len(),
                raw.len() == adts.len(),
                forall|j: int| 0 <= j < k ==> touches_view(adts@)[j] == dedup_locals(raw)[j],
                forall|j: int| k <= j < adts.len() ==> touches_view(adts@)[j] == raw[j],
            decreases adts.len() - k,
        {
            adts[k].1.deduplicate_indices();
            k += 1;
        }
        assert(touches_view(adts@) =~= dedup_locals(raw));

        let mut ret_adts: Vec<Adt> = Vec::new();
        flatten_adts(&body.ret_ty, &mut ret_adts);
        assert(ret_adts@ =~= flatten(body.ret_ty));
        FnInfo {
            ret_adts,
            arg_count: body.arg_count,
            callees,
            adts,
            fn_kind: body.fn_kind,
            receiver: body.receiver,
        }
    }
}

} // verus!
