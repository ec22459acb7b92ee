use unsafety_propagation_graph::info_mod::{
    def_path, impl_fn_path, is_local_path, make_tree, normalize_root, plain_item_path, put_under_phony, DefKind, DefPath,
    DefPathKind, FreeItems, Navigation, Tree,
};

fn seg(kind: DefPathKind, name: &str) -> DefPath {
    DefPath::new(kind, name)
}

fn root() -> DefPath {
    DefPath::crate_root("demo")
}

fn names(v: &[DefPath]) -> Vec<String> {
    v.iter().map(|d| d.name.clone()).collect()
}

fn items() -> Vec<(String, Vec<DefPath>)> {
    vec![
        ("demo::zeta".to_string(), vec![root(), seg(DefPathKind::Fn, "zeta")]),
        ("demo::m::S".to_string(), vec![root(), seg(DefPathKind::Mod, "m"), seg(DefPathKind::Struct, "S")]),
        ("demo::m::S::new".to_string(), vec![root(), seg(DefPathKind::Mod, "m"), seg(DefPathKind::Struct, "S"), seg(DefPathKind::AssocFn, "new")]),
        ("demo::alpha".to_string(), vec![root(), seg(DefPathKind::Fn, "alpha")]),
        ("demo::m::helper".to_string(), vec![root(), seg(DefPathKind::Mod, "m"), seg(DefPathKind::Fn, "helper")]),
    ]
}

fn build(order: &[usize]) -> Navigation {
    let all = items();
    let mut free = FreeItems::new();
    for &i in order {
        free.push_item(all[i].0.clone(), all[i].1.clone());
    }
    let tree = make_tree(&free.v_path, &root());
    Navigation::new(tree, &free)
}

fn preorder(t: &Tree, out: &mut Vec<(usize, String)>) {
    out.push((t.node.id, t.node.inner.name.clone()));
    for s in &t.sub {
        preorder(s, out);
    }
}

#[test]
fn ids_are_preorder_permutation() {
    let navi = build(&[0, 1, 2, 3, 4]);
    let mut v = Vec::new();
    preorder(&navi.tree, &mut v);
    let ids: Vec<usize> = v.iter().map(|e| e.0).collect();
    assert_eq!(ids, (0..v.len()).collect::<Vec<_>>());
    let order: Vec<String> = v.iter().map(|e| e.1.clone()).collect();
    assert_eq!(order, vec!["demo", "m", "helper", "S", "new", "alpha", "zeta"]);
}

#[test]
fn rebuild_gives_same_ids() {
    let a = build(&[0, 1, 2, 3, 4]);
    let b = build(&[4, 3, 2, 1, 0]);
    let c = build(&[2, 0, 4, 1, 3, 2]);
    for (name, _) in items() {
        assert_eq!(a.name_to_id(&name), b.name_to_id(&name));
        assert_eq!(a.name_to_id(&name), c.name_to_id(&name));
    }
}

#[test]
fn name_lookup_matches_path_walk() {
    let navi = build(&[0, 1, 2, 3, 4]);
    for (name, path) in items() {
        let id = navi.name_to_id(&name);
        assert!(id.is_some());
        assert_eq!(id, navi.tree.find_idx(&path));
    }
    assert_eq!(navi.name_to_id("demo::m::S::new"), Some(4));
    assert_eq!(navi.name_to_id("demo::missing"), None);
    assert_eq!(navi.crate_root(), "demo");
}

#[test]
fn unmatched_segment_resolves_to_none() {
    let navi = build(&[0]);
    assert_eq!(navi.tree.find_idx(&vec![root(), seg(DefPathKind::Fn, "nope")]), None);
}

#[test]
fn push_moves_matched_child_last() {
    let mut t = Tree::new(root());
    t.push(&vec![root(), seg(DefPathKind::Fn, "a")]);
    t.push(&vec![root(), seg(DefPathKind::Fn, "b")]);
    t.push(&vec![root(), seg(DefPathKind::Fn, "a")]);
    assert_eq!(t.sub.len(), 2);
    assert_eq!(t.sub[1].node.inner.name, "a");
    t.sort();
    assert_eq!(t.sub[0].node.inner.name, "a");
}

#[test]
fn sort_orders_kind_then_name() {
    let mut t = Tree::new(root());
    t.push(&vec![root(), seg(DefPathKind::Struct, "A")]);
    t.push(&vec![root(), seg(DefPathKind::Fn, "z")]);
    t.push(&vec![root(), seg(DefPathKind::Mod, "y")]);
    t.push(&vec![root(), seg(DefPathKind::Fn, "b")]);
    t.sort();
    let got: Vec<String> = t.sub.iter().map(|s| s.node.inner.name.clone()).collect();
    assert_eq!(got, vec!["y", "b", "z", "A"]);
    let mut id = 10;
    t.fill_id(&mut id);
    assert_eq!(id, 15);
    assert_eq!(t.node.id, 10);
    assert_eq!(t.sub[3].node.id, 14);
}

#[test]
fn phony_and_local_paths() {
    let p = put_under_phony(vec![seg(DefPathKind::Ty, "u8")], &root());
    assert_eq!(names(&p), vec!["demo", "__phony", "u8"]);
    assert!(is_local_path(&p, &root()));
    assert!(!is_local_path(&vec![seg(DefPathKind::Mod, "std")], &root()));
    let mut q = vec![seg(DefPathKind::Mod, "core"), seg(DefPathKind::Struct, "X")];
    normalize_root(&mut q, &root());
    assert_eq!(names(&q), vec!["demo", "__phony", "core", "X"]);
    let mut r = vec![root(), seg(DefPathKind::Fn, "f")];
    normalize_root(&mut r, &root());
    assert_eq!(names(&r), vec!["demo", "f"]);
}

#[test]
fn method_paths() {
    let local_ty = vec![root(), seg(DefPathKind::Struct, "S")];
    let foreign_ty = vec![seg(DefPathKind::Mod, "alloc"), seg(DefPathKind::Struct, "Vec")];
    let local_tr = vec![root(), seg(DefPathKind::ImplTrait, "T")];
    let foreign_tr = vec![seg(DefPathKind::Mod, "core"), seg(DefPathKind::ImplTrait, "Clone")];
    assert_eq!(names(&impl_fn_path(local_ty.clone(), None, "new", &root())), vec!["demo", "S", "new"]);
    assert_eq!(names(&impl_fn_path(local_ty.clone(), Some(foreign_tr.clone()), "clone", &root())), vec!["demo", "S", "core", "Clone", "clone"]);
    assert_eq!(names(&impl_fn_path(foreign_ty.clone(), Some(local_tr.clone()), "t", &root())), vec!["demo", "T", "alloc", "Vec", "t"]);
    let p = impl_fn_path(foreign_ty, Some(foreign_tr), "clone", &root());
    assert_eq!(names(&p), vec!["demo", "__phony", "alloc", "Vec", "core", "Clone", "clone"]);
    assert_eq!(p.last().unwrap().kind, DefPathKind::AssocFn);
    let prim = DefPath::from_ty(None, "&str", &root());
    assert_eq!(names(&prim), vec!["demo", "__primitive", "&str"]);
    assert_eq!(prim[2].kind, DefPathKind::Ty);
}

#[test]
fn item_and_definition_paths() {
    let p = plain_item_path(DefPathKind::Enum, "E", &vec!["a".to_string(), "b".to_string()], &root());
    assert_eq!(names(&p), vec!["demo", "a", "b", "E"]);
    assert_eq!(p[1].kind, DefPathKind::Mod);
    assert_eq!(p[3].kind, DefPathKind::Enum);
    let d = def_path(DefKind::Trait, "core", &vec!["clone".to_string(), "Clone".to_string()], "core::clone::Clone");
    assert_eq!(names(&d), vec!["core", "clone", "Clone"]);
    assert_eq!(d[2].kind, DefPathKind::ImplTrait);
    assert_eq!(d[1].kind, DefPathKind::Mod);
    let o = def_path(DefKind::Other, "core", &vec![], "fn() -> u8");
    assert_eq!(names(&o), vec!["fn() -> u8"]);
    assert_eq!(o[0].kind, DefPathKind::Ty);
}

#[test]
fn free_items_normalized() {
    let mut free = FreeItems::new();
    free.push_item("demo::f".to_string(), vec![root(), seg(DefPathKind::Fn, "f")]);
    free.push_item("std::g".to_string(), vec![seg(DefPathKind::Mod, "std"), seg(DefPathKind::Fn, "g")]);
    free.normalize(&root());
    assert_eq!(names(&free.v_path[0]), vec!["demo", "f"]);
    assert_eq!(names(&free.v_path[1]), vec!["demo", "__phony", "std", "g"]);
    assert_eq!(names(&free.name_to_path[1].1), vec!["demo", "__phony", "std", "g"]);
    assert_eq!(free.name_to_path[1].0, "std::g");
}

#[test]
fn free_items_from_descriptions() {
    let mut free = FreeItems::new();
    free.push_plain_item(DefPathKind::Struct, "S", &vec!["m".to_string()], "m::S", &root());
    free.push_impl_fn(vec![root(), seg(DefPathKind::Mod, "m"), seg(DefPathKind::Struct, "S")], None, "new", "m::S::new", &root());
    assert_eq!(free.name_to_path[0].0, "demo::m::S");
    assert_eq!(names(&free.v_path[0]), vec!["demo", "m", "S"]);
    assert_eq!(free.name_to_path[1].0, "demo::m::S::new");
    assert_eq!(names(&free.name_to_path[1].1), vec!["demo", "m", "S", "new"]);
    let navi = Navigation::new(make_tree(&free.v_path, &root()), &free);
    assert_eq!(navi.name_to_id("demo::m::S::new"), Some(3));
}
