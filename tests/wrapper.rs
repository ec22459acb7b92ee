use unsafety_propagation_graph::info_fn::{Body, FnInfo, FnRef, Place};
use unsafety_propagation_graph::info_adt::{adt_info, AdtFnCollector, AdtFnKind, FnKind, Receiver, ReceiverKind};
use unsafety_propagation_graph::info_mod::{make_tree, DefPath, DefPathKind, FreeItems, Navigation};
use unsafety_propagation_graph::output::{output_callee, output_path, sort_by_name, unsafe_kind, Caller, OutputPath, Unsafe, Writer};
use unsafety_propagation_graph::ty::{Adt, AdtKind, Mutability, Ty};
use unsafety_propagation_graph::upg::{cargo_build_args, decide, is_normal_built, rustc_flags, should_continue, str_eq, Action};

#[test]
fn normal_built_crates() {
    assert!(is_normal_built("syn"));
    assert!(is_normal_built("proc-macro"));
    assert!(is_normal_built("compiler_builtins"));
    assert!(!is_normal_built("core"));
    assert!(!is_normal_built("sy"));
}

#[test]
fn wrapper_actions() {
    assert_eq!(decide(&vec!["-vv".to_string()], false), Action::RustcVersion);
    assert_eq!(decide(&vec!["--crate-name".to_string(), "syn".to_string()], true), Action::Rustc);
    assert_eq!(decide(&vec!["--crate-name".to_string(), "core".to_string()], true), Action::Driver);
    assert_eq!(decide(&vec!["build".to_string()], false), Action::Cargo);
}

#[test]
fn cargo_arguments() {
    assert_eq!(cargo_build_args(false), vec!["build".to_string()]);
    assert_eq!(cargo_build_args(true), vec!["build".to_string(), "-Zbuild-std=core,alloc".to_string()]);
    assert_eq!(rustc_flags().len(), 9);
    assert_eq!(rustc_flags()[6], "-Zcrate-attr=feature(register_tool)");
}

#[test]
fn continue_setting() {
    assert!(should_continue(Some("1")));
    assert!(!should_continue(Some("0")));
    assert!(!should_continue(None));
    assert!(str_eq("abc", "abc"));
    assert!(!str_eq("abc", "abd"));
}

#[test]
fn unsafe_kinds() {
    assert_eq!(unsafe_kind(true, true), Some(Unsafe::Both));
    assert_eq!(unsafe_kind(true, false), Some(Unsafe::Caller));
    assert_eq!(unsafe_kind(false, true), Some(Unsafe::Callee));
    assert_eq!(unsafe_kind(false, false), None);
}

#[test]
fn callee_map_sorted_by_name() {
    let b = Body {
        locals: Vec::new(),
        arg_count: 0,
        ret_ty: Ty::Other,
        places: Vec::new(),
        fn_refs: vec![FnRef { fn_def: 2, name: "z::g".to_string() }, FnRef { fn_def: 1, name: "a::f".to_string() }],
        fn_kind: FnKind::FreeFn,
        receiver: None,
    };
    let outs = output_callee(&FnInfo::new(&b), &vec![(2, false)]);
    assert_eq!(outs[0].0, "a::f");
    assert!(outs[0].1.safe);
    assert_eq!(outs[1].0, "z::g");
    assert!(!outs[1].1.safe);
}

#[test]
fn names_sort() {
    let v = vec![("b".to_string(), 1), ("a::z".to_string(), 2), ("a".to_string(), 3), ("B".to_string(), 4)];
    let r = sort_by_name(v);
    let keys: Vec<&str> = r.iter().map(|e| e.0.as_str()).collect();
    assert_eq!(keys, vec!["B", "a", "a::z", "b"]);
    assert_eq!(r[1].1, 3);
}

#[test]
fn local_and_external_paths() {
    let root = DefPath::crate_root("demo");
    let mut free = FreeItems::new();
    free.push_item("demo::f".to_string(), vec![root.clone(), DefPath::new(DefPathKind::Fn, "f")]);
    let tree = make_tree(&free.v_path, &root);
    let navi = Navigation::new(tree, &free);
    match output_path(&navi, "f") {
        OutputPath::Local(p) => assert_eq!(p, "demo::f"),
        OutputPath::External(_) => panic!("expected a local path"),
    }
    match output_path(&navi, "std::mem::swap") {
        OutputPath::External(p) => assert_eq!(p, "std::mem::swap"),
        OutputPath::Local(_) => panic!("expected an external path"),
    }
}

#[test]
fn writer_choice() {
    assert!(matches!(Writer::new(Some("/tmp/x".to_string())), Writer::BaseDir(d) if d == "/tmp/x"));
    assert!(matches!(Writer::new(None), Writer::Stdout));
}

#[test]
fn callee_records_get_ranks() {
    let s = Adt { def: 1, inst: 0, kind: AdtKind::Struct, num_fields: 0 };
    let getter = Body {
        locals: vec![Ty::Ref(Mutability::Not, Box::new(Ty::Adt(s, Vec::new())))],
        arg_count: 1,
        ret_ty: Ty::Other,
        places: vec![Place { local: 0, projection: Vec::new() }],
        fn_refs: Vec::new(),
        fn_kind: FnKind::Method,
        receiver: Some(Receiver { adt: 1, kind: ReceiverKind::ImmutableRef }),
    };
    let caller = Body {
        locals: vec![Ty::Adt(s, Vec::new())],
        arg_count: 0,
        ret_ty: Ty::Other,
        places: vec![Place { local: 0, projection: Vec::new() }],
        fn_refs: vec![FnRef { fn_def: 10, name: "demo::S::get".to_string() }, FnRef { fn_def: 11, name: "ext::g".to_string() }],
        fn_kind: FnKind::FreeFn,
        receiver: None,
    };
    let fns = vec![(10, FnInfo::new(&getter)), (20, FnInfo::new(&caller))];
    let m = adt_info(&fns);
    let c = AdtFnCollector::new(&m, &fns);
    let outs = output_callee(&fns[1].1, &vec![(11, false)]);
    assert_eq!(outs.len(), 2);
    assert!(outs[0].1.safe);
    assert!(!outs[1].1.safe);
    let root = DefPath::crate_root("demo");
    let mut free = FreeItems::new();
    free.push_item("demo::caller".to_string(), vec![root.clone(), DefPath::new(DefPathKind::Fn, "caller")]);
    let navi = Navigation::new(make_tree(&free.v_path, &root), &free);
    let mut rec = Caller::new(20, true, &fns[1].1, &vec![(11, false)], &navi, "caller");
    assert!(matches!(&rec.path, OutputPath::Local(p) if p == "demo::caller"));
    assert_eq!(rec.adts.len(), 1);
    assert_eq!(rec.adts[0].0.def, 1);
    assert_eq!(rec.adts[0].1.len(), 1);
    let ext = Caller::new(20, true, &fns[1].1, &vec![], &navi, "other");
    assert!(matches!(&ext.path, OutputPath::External(p) if p == "other"));
    assert!(ext.callees.iter().all(|e| e.1.safe));
    rec.update_adt_fn(&c);
    assert_eq!(rec.callees[0].1.adt, vec![(1, AdtFnKind::MethodImmutableRefReceiver)]);
    assert!(rec.callees[1].1.adt.is_empty());
}
