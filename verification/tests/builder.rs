use modula::builder::{BuildError, CrateGraphBuilder};
use modula::ir::{CrateGraph, CrateId, ItemId, ItemKind, ModuleId, ModuleKind, RefKind, Visibility};

/// A crate root, a `mod a`, a type `S` with a method, a free function, and
/// edges including one to an unknown external symbol and a self-edge.
fn sample() -> CrateGraph {
    let mut b = CrateGraphBuilder::new("test 1.0");
    let (_c, root) = b.add_crate("k", true, "k");
    let a = b.add_module(root, "k::a", "a", Visibility::Public);
    let (s_mod, _s_item) = b.add_type(a, "k::a::S", "S", ItemKind::Struct, Visibility::Public);
    let _run = b.add_item(s_mod, "k::a::S::run", "run", ItemKind::AssocFn, Visibility::Public);
    let _f = b.add_item(a, "k::a::f", "f", ItemKind::Function, Visibility::Private);
    b.add_edge("k::a::f", "k::a::S::run", RefKind::Body);
    b.add_edge("k::a::f", "k::a::S::run", RefKind::Body);
    b.add_edge("k::a::f", "std::vec::Vec", RefKind::Signature);
    b.add_edge("k::a::S::run", "k::a::S::run", RefKind::Body);
    b.finish().expect("finish")
}

#[test]
fn ids_are_dense() {
    let g = sample();
    for (i, m) in g.modules.iter().enumerate() {
        assert_eq!(m.id, ModuleId(i as u32));
    }
    for (i, it) in g.items.iter().enumerate() {
        assert_eq!(it.id, ItemId(i as u32));
    }
    for (i, c) in g.crates.iter().enumerate() {
        assert_eq!(c.id, CrateId(i as u32));
    }
}

#[test]
fn every_real_mod_has_a_module_stub() {
    let g = sample();
    for m in &g.modules {
        if m.kind == ModuleKind::Mod {
            let has_stub = g.items.iter().any(|it| it.kind == ItemKind::Module && it.owning_module == m.id);
            assert!(has_stub, "module {} lacks a stub item", m.canonical_path);
        }
    }
}

#[test]
fn type_item_path_equals_container_path() {
    let g = sample();
    let container = g.modules.iter().find(|m| m.kind == ModuleKind::Type).expect("type container");
    let type_item = g
        .items
        .iter()
        .find(|it| it.owning_module == container.id && it.kind == ItemKind::Struct)
        .expect("type item");
    assert_eq!(type_item.canonical_path, container.canonical_path);
}

#[test]
fn edges_resolve_dedup_and_drop_unknown() {
    let g = sample();
    assert_eq!(g.edges.len(), 1);
    let e = &g.edges[0];
    assert_eq!(e.kind, RefKind::Body);
    assert_eq!(e.weight, 2);
    assert_eq!(g.item(e.from).canonical_path, "k::a::f");
    assert_eq!(g.item(e.to).canonical_path, "k::a::S::run");
}

#[test]
fn public_api_is_computed() {
    let g = sample();
    let run = g.items.iter().find(|it| it.canonical_path == "k::a::S::run").unwrap();
    assert!(run.reachable_pub_api, "pub item in pub chain is public API");
    let f = g.items.iter().find(|it| it.canonical_path == "k::a::f").unwrap();
    assert!(!f.reachable_pub_api, "private item is not public API");
}

#[test]
fn duplicate_keys_fail_the_build() {
    let mut b = CrateGraphBuilder::new("test");
    let (_c, root) = b.add_crate("k", true, "k");
    b.add_item(root, "dup", "a", ItemKind::Function, Visibility::Public);
    b.add_item(root, "dup", "b", ItemKind::Function, Visibility::Public);
    assert!(b.finish().is_err(), "a reused key must fail the build");
}

#[test]
fn finishing_without_a_crate_errors() {
    assert!(CrateGraphBuilder::new("test").finish().is_err());
}

#[test]
fn duplicate_keys_are_listed_once_per_repeat() {
    let mut b = CrateGraphBuilder::new("test");
    let (_c, root) = b.add_crate("k", true, "k");
    b.add_item(root, "dup", "a", ItemKind::Function, Visibility::Public);
    b.add_item(root, "dup", "b", ItemKind::Function, Visibility::Public);
    b.add_item(root, "dup", "c", ItemKind::Function, Visibility::Public);
    match b.finish() {
        Err(BuildError::DuplicateKeys(keys)) => assert_eq!(keys, vec!["dup".to_owned(), "dup".to_owned()]),
        other => panic!("expected duplicate keys, got {other:?}"),
    }
}

#[test]
fn finishing_without_a_crate_reports_no_crate() {
    match CrateGraphBuilder::new("test").finish() {
        Err(BuildError::NoCrate) => {}
        other => panic!("expected no crate, got {other:?}"),
    }
}

#[test]
fn paths_and_depths_follow_the_tree() {
    let g = sample();
    let a = g.modules.iter().find(|m| m.canonical_path == "k::a").expect("k::a");
    assert_eq!(a.depth, 1);
    assert_eq!(a.parent, Some(ModuleId(0)));
    let s = g.modules.iter().find(|m| m.canonical_path == "k::a::S").expect("k::a::S");
    assert_eq!(s.depth, 2);
    assert_eq!(s.parent, Some(a.id));
    assert_eq!(g.schema_version, modula::ir::SCHEMA_VERSION);
    assert_eq!(g.ra_version, "test 1.0");
    assert_eq!(g.krate(g.root_crate).name, "k");
}

#[test]
fn edges_are_sorted_by_endpoints_then_kind() {
    let mut b = CrateGraphBuilder::new("t");
    let (_c, root) = b.add_crate("k", true, "k");
    b.add_item(root, "k::x", "x", ItemKind::Function, Visibility::Public);
    b.add_item(root, "k::y", "y", ItemKind::Function, Visibility::Public);
    b.add_edge("k::y", "k::x", RefKind::Body);
    b.add_edge("k::x", "k::y", RefKind::Body);
    b.add_edge("k::x", "k::y", RefKind::Import);
    let g = b.finish().expect("finish");
    assert_eq!(g.edges.len(), 3);
    assert_eq!(g.item(g.edges[0].from).canonical_path, "k::x");
    assert_eq!(g.edges[0].kind, RefKind::Import);
    assert_eq!(g.edges[1].kind, RefKind::Body);
    assert_eq!(g.item(g.edges[2].from).canonical_path, "k::y");
    assert!(g.edges.iter().all(|e| e.weight == 1));
}

#[test]
fn a_root_without_a_crate_cannot_be_finished() {
    let mut b = CrateGraphBuilder::new("test");
    b.set_root_crate(CrateId(0));
    assert!(matches!(b.finish(), Err(BuildError::NoCrate)));
}

#[test]
fn stubs_and_types_carry_their_module_path() {
    let g = sample();
    for m in &g.modules {
        let owned_with_path = |stub_only: bool| {
            g.items.iter().any(|it| {
                it.owning_module == m.id && it.canonical_path == m.canonical_path && (!stub_only || it.kind == ItemKind::Module)
            })
        };
        match m.kind {
            ModuleKind::Mod => assert!(owned_with_path(true), "module {} lacks a stub with its path", m.canonical_path),
            ModuleKind::Type => assert!(owned_with_path(false), "type {} lacks its item", m.canonical_path),
        }
    }
    let s = g.modules.iter().find(|m| m.kind == ModuleKind::Type).unwrap();
    assert_eq!(s.canonical_path, "k::a::S");
}
