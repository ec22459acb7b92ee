use unsafety_propagation_graph::info_adt::FnKind;
use unsafety_propagation_graph::info_fn::{Body, FnInfo, FnRef};
use unsafety_propagation_graph::output::{all_fns, unsafe_fns, v_fn_name, Adt, AdtDesc, Documentation, Meta, Mir, Source, Unsafe};
use unsafety_propagation_graph::info_adt::adt_info;
use unsafety_propagation_graph::info_fn::Place;
use unsafety_propagation_graph::ty::{Adt as TyAdt, AdtKind, Mutability};
use unsafety_propagation_graph::ty::Ty;

fn caller(refs: &[(u64, &str)]) -> FnInfo {
    let b = Body {
        locals: Vec::new(),
        arg_count: 0,
        ret_ty: Ty::Other,
        places: Vec::new(),
        fn_refs: refs.iter().map(|(f, n)| FnRef { fn_def: *f, name: n.to_string() }).collect(),
        fn_kind: FnKind::FreeFn,
        receiver: None,
    };
    FnInfo::new(&b)
}

fn names() -> Vec<(u64, String)> {
    vec![(1, "k::b".to_string()), (2, "k::a".to_string()), (3, "k::c".to_string()), (9, "std::ptr::read".to_string())]
}

#[test]
fn unsafe_functions_listed_by_name() {
    let fns = vec![(1, caller(&[(9, "std::ptr::read")])), (2, caller(&[])), (3, caller(&[(1, "k::b")]))];
    let safety = vec![(9, false), (2, false)];
    let r = unsafe_fns(&fns, &safety, &names());
    assert_eq!(r, vec![("k::a".to_string(), Unsafe::Caller), ("k::b".to_string(), Unsafe::Callee)]);
    let both = unsafe_fns(&vec![(2, caller(&[(9, "std::ptr::read")]))], &safety, &names());
    assert_eq!(both, vec![("k::a".to_string(), Unsafe::Both)]);
}

#[test]
fn all_functions_once_in_order() {
    let fns = vec![(1, caller(&[(9, "x"), (2, "y")])), (2, caller(&[(1, "z"), (3, "w")]))];
    assert_eq!(all_fns(&fns), vec![1, 9, 2, 3]);
}

#[test]
fn function_names_sorted() {
    let r = v_fn_name(&vec![3, 1, 2, 4], &names());
    assert_eq!(r, vec!["".to_string(), "k::a".to_string(), "k::b".to_string(), "k::c".to_string()]);
}

#[test]
fn record_builders() {
    let m = Meta::new("k::f".to_string(), "src/lib.rs:1:1".to_string());
    let s = Source::new(m, "fn f() {}".to_string());
    assert_eq!(s.meta.name, "k::f");
    assert_eq!(s.src, "fn f() {}");
    let d = Documentation::new(Meta::new("k::f".to_string(), String::new()), "doc".to_string());
    assert_eq!(d.doc, "doc");
    let x = Mir::new(Meta::new("k::f".to_string(), String::new()), "bb0".to_string());
    assert_eq!(x.mir, "bb0");
    let b = Source::new_with_body(Meta::new("k::g".to_string(), String::new()), "{ 1 }".to_string());
    assert_eq!(b.src, "{ 1 }");
}

#[test]
fn type_record_names_functions() {
    let s = TyAdt { def: 5, inst: 0, kind: AdtKind::Struct, num_fields: 1 };
    let reader = |f: u64| {
        let b = Body {
            locals: vec![Ty::Ref(Mutability::Not, Box::new(Ty::Adt(s, Vec::new())))],
            arg_count: 1,
            ret_ty: Ty::Other,
            places: vec![Place { local: 0, projection: Vec::new() }],
            fn_refs: Vec::new(),
            fn_kind: FnKind::FreeFn,
            receiver: None,
        };
        (f, FnInfo::new(&b))
    };
    let fns = vec![reader(3), reader(2)];
    let m = adt_info(&fns);
    let desc = AdtDesc {
        name: "k::S".to_string(),
        span: String::new(),
        src: "struct S(u8);".to_string(),
        kind: "Struct".to_string(),
        doc_adt: String::new(),
        variant_fields: Vec::new(),
    };
    let rec = Adt::new(desc, &m[0].1, &names());
    assert_eq!(rec.name, "k::S");
    assert_eq!(rec.access_self_as_arg.read, vec!["k::a".to_string(), "k::c".to_string()]);
    assert!(rec.access_self_as_locals.read.is_empty());
    assert_eq!(rec.access_field.len(), 1);
    assert!(rec.constructors.is_empty());
}
