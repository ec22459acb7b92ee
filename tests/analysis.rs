use unsafety_propagation_graph::info_adt::{adt_info, fn_kind, AdtFnCollector, AdtFnKind, AdtInfo, FnKind, Receiver, ReceiverKind};
use unsafety_propagation_graph::unit::analyze;
use unsafety_propagation_graph::info_fn::{Body, FnInfo, FnRef, Place};
use unsafety_propagation_graph::ty::{flatten_adts, observe_place, Adt, AdtAccess, AdtKind, Mutability, Proj, Ty};

const S: u64 = 1;
const E: u64 = 2;

fn s_adt() -> Adt {
    Adt { def: S, inst: 0, kind: AdtKind::Struct, num_fields: 2 }
}

fn e_adt() -> Adt {
    Adt { def: E, inst: 0, kind: AdtKind::Enum, num_fields: 0 }
}

fn adt_of(def: u64) -> Adt {
    Adt { def, inst: 0, kind: AdtKind::Struct, num_fields: 1 }
}

fn ty_s() -> Ty {
    Ty::Adt(s_adt(), Vec::new())
}

fn ref_to(m: Mutability, t: Ty) -> Ty {
    Ty::Ref(m, Box::new(t))
}

fn body(locals: Vec<Ty>, arg_count: usize, ret_ty: Ty, places: Vec<Place>, fn_kind: FnKind, receiver: Option<Receiver>) -> Body {
    Body { locals, arg_count, ret_ty, places, fn_refs: Vec::new(), fn_kind, receiver }
}

fn place(local: usize, projection: Vec<Proj>) -> Place {
    Place { local, projection }
}

fn classify(ty: &Ty, proj: Vec<Proj>) -> Vec<(Adt, Option<AdtAccess>)> {
    let mut out = Vec::new();
    observe_place(ty, &proj, &mut out);
    out
}

fn info_of<'a>(m: &'a [(Adt, AdtInfo)], def: u64) -> &'a AdtInfo {
    &m.iter().find(|e| e.0.def == def).expect("type present").1
}

fn rank(c: &AdtFnCollector, f: u64, def: u64) -> Option<AdtFnKind> {
    let inner = &c.fn_adt_map.iter().find(|e| e.0 == f)?.1;
    inner.iter().find(|e| e.0 == def).map(|e| e.1)
}

fn all_fns(info: &AdtInfo) -> usize {
    let a = &info.as_argument;
    let o = &info.otherwise;
    let f: usize = info.fields.iter().map(|x| x.read.len() + x.write.len() + x.other.len()).sum();
    a.read.len() + a.write.len() + a.other.len() + o.read.len() + o.write.len() + o.other.len() + f
}

#[test]
fn owned_place_is_plain() {
    let r = classify(&ty_s(), vec![]);
    assert_eq!(r.len(), 1);
    assert!(matches!(r[0].1, Some(AdtAccess::Plain)));
}

#[test]
fn reference_accesses() {
    let r = classify(&ref_to(Mutability::Not, ty_s()), vec![]);
    assert!(matches!(r[0].1, Some(AdtAccess::Ref)));
    let r = classify(&ref_to(Mutability::Mut, ty_s()), vec![]);
    assert!(matches!(r[0].1, Some(AdtAccess::MutRef)));
    let r = classify(&ref_to(Mutability::Mut, ty_s()), vec![Proj::Field(1)]);
    assert!(matches!(r[0].1, Some(AdtAccess::MutRefVariantField(1))));
    let r = classify(&ref_to(Mutability::Not, ty_s()), vec![Proj::Field(0)]);
    assert!(matches!(r[0].1, Some(AdtAccess::RefVariantField(0))));
}

#[test]
fn deref_accesses() {
    let r = classify(&ref_to(Mutability::Mut, ty_s()), vec![Proj::Deref]);
    assert_eq!(r.len(), 2);
    assert!(r[0].1.is_none());
    assert!(matches!(r[1].1, Some(AdtAccess::Deref)));
    let r = classify(&ref_to(Mutability::Mut, ty_s()), vec![Proj::Deref, Proj::Field(0)]);
    assert!(matches!(r[1].1, Some(AdtAccess::DerefVariantField(0))));
    let r = classify(&ty_s(), vec![Proj::Index]);
    match &r[0].1 {
        Some(AdtAccess::Unknown(p)) => assert_eq!(p, &vec![Proj::Index]),
        _ => panic!("expected an unknown access"),
    }
}

#[test]
fn containers_register_each_member() {
    let t = Ty::Tuple(vec![ty_s(), Ty::Other, Ty::Slice(Box::new(Ty::Adt(e_adt(), Vec::new())))]);
    let r = classify(&t, vec![]);
    assert_eq!(r.len(), 2);
    assert_eq!(r[0].0.def, S);
    assert_eq!(r[1].0.def, E);
    assert!(classify(&Ty::Other, vec![]).is_empty());
    let rr = classify(&ref_to(Mutability::Not, ref_to(Mutability::Mut, ty_s())), vec![]);
    assert!(matches!(rr[0].1, Some(AdtAccess::MutRef)));
}

#[test]
fn flattened_return_types() {
    let result = Adt { def: 10, inst: 0, kind: AdtKind::Enum, num_fields: 0 };
    let t = Ty::Adt(result, vec![Ty::Adt(adt_of(11), Vec::new()), Ty::Array(Box::new(Ty::Adt(adt_of(12), Vec::new())))]);
    let mut v = Vec::new();
    flatten_adts(&t, &mut v);
    assert_eq!(v.iter().map(|a| a.def).collect::<Vec<_>>(), vec![10, 11, 12]);
    let mut w = Vec::new();
    flatten_adts(&ref_to(Mutability::Not, ty_s()), &mut w);
    assert!(w.is_empty());
}

#[test]
fn fn_info_summarises_body() {
    let mut b = body(vec![ref_to(Mutability::Not, ty_s()), ty_s()], 1, Ty::Other,
        vec![place(0, vec![]), place(1, vec![]), place(0, vec![]), place(7, vec![])], FnKind::FreeFn, None);
    b.fn_refs = vec![FnRef { fn_def: 9, name: "a::f".to_string() }, FnRef { fn_def: 9, name: "a::f".to_string() }];
    let info = FnInfo::new(&b);
    assert_eq!(info.callees.len(), 1);
    assert_eq!(info.callees[0].1.non_instance_name, "a::f");
    assert_eq!(info.adts.len(), 1);
    let l = &info.adts[0].1;
    assert_eq!(l.locals, vec![0, 1]);
    assert_eq!(l.access.len(), 2);
    assert!(l.is_argument(1));
    assert!(!l.is_argument(0));
}

fn scenario_fns() -> Vec<(u64, FnInfo)> {
    // mutate_a(&mut self) { self.a = .. }
    let mutate_a = body(vec![ref_to(Mutability::Mut, ty_s())], 1, Ty::Other,
        vec![place(0, vec![Proj::Deref, Proj::Field(0)])], FnKind::Method,
        Some(Receiver { adt: S, kind: ReceiverKind::MutableRef }));
    // E::set(&mut self) { match self { A(x) => *x = .., B(y) => *y = .. } }
    let set_e = body(vec![ref_to(Mutability::Mut, Ty::Adt(e_adt(), Vec::new()))], 1, Ty::Other,
        vec![place(0, vec![Proj::Deref, Proj::Downcast(0), Proj::Field(0)]), place(0, vec![Proj::Deref, Proj::Downcast(1), Proj::Field(0)])],
        FnKind::Method, Some(Receiver { adt: E, kind: ReceiverKind::MutableRef }));
    // make() -> S, which elsewhere also reads a `&S` argument.
    let make = body(vec![ref_to(Mutability::Not, ty_s())], 1, ty_s(), vec![place(0, vec![])], FnKind::FreeFn, None);
    // len(&self) -> usize
    let len = body(vec![ref_to(Mutability::Not, ty_s())], 1, Ty::Other, vec![place(0, vec![])], FnKind::Method,
        Some(Receiver { adt: S, kind: ReceiverKind::ImmutableRef }));
    vec![(100, FnInfo::new(&mutate_a)), (200, FnInfo::new(&set_e)), (300, FnInfo::new(&make)), (400, FnInfo::new(&len))]
}

#[test]
fn scenario_struct_field_write() {
    let fns = scenario_fns();
    let m = adt_info(&fns);
    let s = info_of(&m, S);
    assert_eq!(s.fields.len(), 2);
    assert_eq!(s.fields[0].write, vec![100]);
    assert!(s.fields[1].write.is_empty());
}

#[test]
fn scenario_enum_variant_write() {
    let fns = scenario_fns();
    let m = adt_info(&fns);
    let e = info_of(&m, E);
    assert!(e.fields.is_empty());
    assert_eq!(e.as_argument.other, vec![200, 200]);
    let s = info_of(&m, S);
    assert!(s.map.iter().all(|(_, v)| v.iter().all(|f| f.fn_def != 200)));
    assert!(!s.constructors.contains(&200));
}

#[test]
fn scenario_constructor_rank() {
    let fns = scenario_fns();
    let m = adt_info(&fns);
    assert_eq!(info_of(&m, S).constructors, vec![300]);
    assert_eq!(info_of(&m, S).as_argument.read, vec![300, 400]);
    let c = AdtFnCollector::new(&m, &fns);
    assert_eq!(rank(&c, 300, S), Some(AdtFnKind::Constructor));
    assert_eq!(rank(&c, 400, S), Some(AdtFnKind::MethodImmutableRefReceiver));
    assert_eq!(rank(&c, 200, S), None);
}

#[test]
fn constructors_reach_from_return_type() {
    let result = Adt { def: 10, inst: 0, kind: AdtKind::Enum, num_fields: 0 };
    let ret = Ty::Adt(result, vec![Ty::Adt(adt_of(11), Vec::new()), Ty::Adt(adt_of(12), Vec::new())]);
    let f = body(Vec::new(), 0, ret, Vec::new(), FnKind::FreeFn, None);
    let g = body(Vec::new(), 0, Ty::Tuple(vec![ref_to(Mutability::Not, Ty::Adt(adt_of(13), Vec::new()))]), Vec::new(), FnKind::FreeFn, None);
    let fns = vec![(1, FnInfo::new(&f)), (2, FnInfo::new(&g))];
    let m = adt_info(&fns);
    assert_eq!(m.len(), 3);
    for def in [10, 11, 12] {
        assert_eq!(info_of(&m, def).constructors, vec![1]);
    }
    assert!(m.iter().all(|e| e.0.def != 13));
}

#[test]
fn ranks_keep_the_most_privileged() {
    let fns = scenario_fns();
    let m = adt_info(&fns);
    let c = AdtFnCollector::new(&m, &fns);
    // mutate_a writes through `*self`, recorded as a field write; only the
    // whole-type argument buckets give ranks.
    assert_eq!(rank(&c, 100, S), None);
    let w = body(vec![ref_to(Mutability::Mut, ty_s())], 1, Ty::Other, vec![place(0, vec![])], FnKind::Method,
        Some(Receiver { adt: S, kind: ReceiverKind::MutableRef }));
    let fns2 = vec![(500, FnInfo::new(&w))];
    let m2 = adt_info(&fns2);
    let c2 = AdtFnCollector::new(&m2, &fns2);
    assert_eq!(rank(&c2, 500, S), Some(AdtFnKind::MethodMutableRefReceiver));
    let again = AdtFnCollector::new(&m, &fns);
    assert_eq!(c.fn_adt_map, again.fn_adt_map);
}

#[test]
fn bucket_counts_match_recorded_pairs() {
    let fns = scenario_fns();
    let m = adt_info(&fns);
    for (adt, info) in &m {
        let recorded: usize = info.map.iter().map(|(_, v)| v.len()).sum();
        let skipped: usize = info.map.iter().filter(|(a, _)| {
            let idx = match a {
                AdtAccess::RefVariantField(i) | AdtAccess::MutRefVariantField(i) | AdtAccess::DerefVariantField(i) => Some(*i),
                _ => None,
            };
            matches!(idx, Some(i) if adt.kind != AdtKind::Struct || i >= info.fields.len())
        }).map(|(_, v)| v.len()).sum();
        assert_eq!(all_fns(info) + skipped, recorded);
    }
}

#[test]
fn out_of_range_field_is_skipped() {
    let b = body(vec![ref_to(Mutability::Not, ty_s())], 1, Ty::Other, vec![place(0, vec![Proj::Field(5)])], FnKind::FreeFn, None);
    let fns = vec![(7, FnInfo::new(&b))];
    let m = adt_info(&fns);
    let s = info_of(&m, S);
    assert_eq!(all_fns(s), 0);
    assert_eq!(s.map.len(), 1);
    assert_eq!(s.out_of_range_fields(&s_adt()), vec![5]);
    let fine = adt_info(&scenario_fns());
    assert!(info_of(&fine, S).out_of_range_fields(&s_adt()).is_empty());
}

#[test]
fn caller_callee_ranks() {
    let mut caller = body(vec![ty_s()], 0, Ty::Other, vec![place(0, vec![])], FnKind::FreeFn, None);
    caller.fn_refs = vec![FnRef { fn_def: 400, name: "k::S::len".to_string() }, FnRef { fn_def: 999, name: "ext".to_string() }];
    let mut fns = scenario_fns();
    fns.push((600, FnInfo::new(&caller)));
    let m = adt_info(&fns);
    let c = AdtFnCollector::new(&m, &fns);
    let entry = &c.caller_callee_map.iter().find(|e| e.0 == 600).unwrap().1;
    assert_eq!(entry.len(), 1);
    assert_eq!(entry[0].0, "k::S::len");
    assert_eq!(entry[0].1, vec![(S, AdtFnKind::MethodImmutableRefReceiver)]);
}

#[test]
fn call_shapes() {
    assert_eq!(fn_kind(false, None), (FnKind::FreeFn, None));
    assert_eq!(fn_kind(true, None), (FnKind::AssocFn, None));
    assert_eq!(fn_kind(true, Some(&ty_s())), (FnKind::Method, Some(Receiver { adt: S, kind: ReceiverKind::Owned })));
    assert_eq!(
        fn_kind(true, Some(&ref_to(Mutability::Mut, ty_s()))),
        (FnKind::Method, Some(Receiver { adt: S, kind: ReceiverKind::MutableRef }))
    );
    assert_eq!(
        fn_kind(true, Some(&ref_to(Mutability::Not, ty_s()))),
        (FnKind::Method, Some(Receiver { adt: S, kind: ReceiverKind::ImmutableRef }))
    );
    assert_eq!(fn_kind(true, Some(&Ty::Other)), (FnKind::Method, None));
}

#[test]
fn whole_unit_analysis() {
    let make = body(vec![ref_to(Mutability::Not, ty_s())], 1, ty_s(), vec![place(0, vec![])], FnKind::FreeFn, None);
    let len = body(vec![ref_to(Mutability::Not, ty_s())], 1, Ty::Other, vec![place(0, vec![])], FnKind::Method,
        Some(Receiver { adt: S, kind: ReceiverKind::ImmutableRef }));
    let u = analyze(&vec![(300, make), (400, len)]);
    assert_eq!(u.map_fn.len(), 2);
    assert_eq!(u.map_fn[1].0, 400);
    assert_eq!(u.map_adt.len(), 1);
    assert_eq!(u.map_adt[0].1.constructors, vec![300]);
    assert_eq!(rank(&u.collector, 300, S), Some(AdtFnKind::Constructor));
    assert_eq!(rank(&u.collector, 400, S), Some(AdtFnKind::MethodImmutableRefReceiver));
}
