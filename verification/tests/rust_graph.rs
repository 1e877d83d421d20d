use modula::ir::{CrateGraph, ItemId, ItemKind, ModuleId, ModuleKind, RefKind, Visibility};
use modula::ra::{DeclaredVisibility, DefKind};
use modula::ra_builder::{RaBuilder, ScopeEntry, UseItem, UseTree, UseTreeKind};

fn private_in(path: &str) -> DeclaredVisibility {
    DeclaredVisibility::InModule { is_crate_root: false, is_owning: true, is_parent: false, path: path.to_string() }
}

fn crate_wide() -> DeclaredVisibility {
    DeclaredVisibility::InModule { is_crate_root: true, is_owning: false, is_parent: false, path: String::new() }
}

fn rel(p: &str) -> Option<String> {
    Some(p.to_string())
}

fn item<'a>(g: &'a CrateGraph, path: &str) -> &'a modula::ir::Item {
    g.items.iter().find(|i| i.canonical_path == path).unwrap_or_else(|| panic!("{path} extracted"))
}

fn weight(g: &CrateGraph, from: ItemId, to: ItemId, kind: RefKind) -> u32 {
    g.edges.iter().find(|e| e.from == from && e.to == to && e.kind == kind).map(|e| e.weight).unwrap_or(0)
}

#[test]
fn modules_and_items_get_dense_ids_and_paths() {
    let mut b = RaBuilder::new();
    let (c, root) = b.add_crate(&Some("my-crate".to_string()), 1, &DeclaredVisibility::Public);
    assert_eq!((c.0, root.0), (0, 0));
    let parser = b.add_module(2, root, "parser", &DeclaredVisibility::Public);
    let parse = b.declare_item(3, DefKind::Function, parser, &rel("parser::parse"), &Some("parse".to_string()), &DeclaredVisibility::Public);
    let anon = b.add_item(4, DefKind::Const, parser, &None, &None, &private_in("my_crate::parser"));
    assert_eq!(parse, Some(ItemId(2)));
    assert_eq!(anon, Some(ItemId(3)));
    // A definition has one item, and a module definition is not an item kind.
    assert_eq!(b.add_item(3, DefKind::Function, parser, &rel("parser::parse"), &None, &DeclaredVisibility::Public), None);
    assert_eq!(b.add_item(9, DefKind::Module, parser, &None, &None, &DeclaredVisibility::Public), None);
    assert_eq!(b.item_of(3), Some(ItemId(2)));
    assert_eq!(b.item_of(2), Some(ItemId(1)));
    assert_eq!(b.item_of(77), None);
    let g = b.finish();
    assert_eq!(g.crates[0].name, "my_crate");
    assert_eq!(g.modules[parser.0 as usize].canonical_path, "my_crate::parser");
    assert_eq!(g.modules[parser.0 as usize].depth, 1);
    assert_eq!(g.modules[parser.0 as usize].parent, Some(root));
    assert_eq!(g.modules[0].name, "");
    assert_eq!(g.modules[0].canonical_path, "my_crate");
    assert_eq!(g.items.len(), 4);
    let module_item = item(&g, "my_crate::parser");
    assert_eq!(module_item.kind, ItemKind::Module);
    assert_eq!(module_item.owning_module, parser);
    assert!(module_item.has_canonical_path);
    let f = item(&g, "my_crate::parser::parse");
    assert_eq!(f.kind, ItemKind::Function);
    assert!(f.reachable_pub_api);
    let a = &g.items[3];
    assert_eq!(a.canonical_path, "{anon#1#3#_}");
    assert!(!a.has_canonical_path);
    assert_eq!(a.visibility, Visibility::Private);
    assert!(!a.reachable_pub_api);
    for (i, it) in g.items.iter().enumerate() {
        assert_eq!(it.id, ItemId(i as u32));
    }
}

#[test]
fn references_are_summed_per_kind_and_self_references_dropped() {
    let mut b = RaBuilder::new();
    let (_c, root) = b.add_crate(&Some("k".to_string()), 1, &DeclaredVisibility::Public);
    let s = b.declare_item(10, DefKind::Struct, root, &rel("S"), &None, &DeclaredVisibility::Public).unwrap();
    let t = b.declare_item(11, DefKind::Trait, root, &rel("T"), &None, &DeclaredVisibility::Public).unwrap();
    let f = b.declare_item(12, DefKind::Function, root, &rel("f"), &None, &DeclaredVisibility::Public).unwrap();
    b.add_ref(f, 10, RefKind::Body);
    b.add_ref(f, 10, RefKind::Body);
    b.add_ref(f, 10, RefKind::Signature);
    b.add_ref(f, 999, RefKind::Body);
    b.add_ref(f, 12, RefKind::Body);
    b.add_edge(s, s, RefKind::Signature);
    b.add_impl(Some(10), Some(11));
    b.add_impl(Some(10), None);
    b.add_impl(Some(10), Some(999));
    assert_eq!(b.edge_weight(f, s, RefKind::Body), 2);
    assert_eq!(b.edge_weight(f, f, RefKind::Body), 0);
    let g = b.finish();
    assert_eq!(weight(&g, f, s, RefKind::Body), 2);
    assert_eq!(weight(&g, f, s, RefKind::Signature), 1);
    assert_eq!(weight(&g, s, t, RefKind::Impl), 1);
    assert_eq!(g.edges.len(), 3);
    assert!(g.edges.iter().all(|e| e.from != e.to));
    // Edges come by source, then target, then kind.
    let order: Vec<_> = g.edges.iter().map(|e| (e.from.0, e.to.0, e.kind)).collect();
    assert_eq!(order, vec![(s.0, t.0, RefKind::Impl), (f.0, s.0, RefKind::Signature), (f.0, s.0, RefKind::Body)]);
}

#[test]
fn imports_come_from_the_module_item_unless_declared_there() {
    let mut b = RaBuilder::new();
    let (_c, root) = b.add_crate(&Some("k".to_string()), 1, &DeclaredVisibility::Public);
    let a = b.add_module(2, root, "a", &DeclaredVisibility::Public);
    let m = b.add_module(3, root, "b", &DeclaredVisibility::Public);
    let thing = b.declare_item(4, DefKind::Struct, a, &rel("a::Thing"), &None, &DeclaredVisibility::Public).unwrap();
    b.add_import(m, 4, Some(a));
    b.add_import(a, 4, Some(a));
    let g = b.finish();
    let b_item = item(&g, "k::b").id;
    let a_item = item(&g, "k::a").id;
    assert_eq!(weight(&g, b_item, thing, RefKind::Import), 1);
    assert_eq!(weight(&g, a_item, thing, RefKind::Import), 0);
}

fn single(path: &[&str], alias: Option<&str>) -> UseTree {
    UseTree {
        path: path.iter().map(|s| s.to_string()).collect(),
        kind: UseTreeKind::Single { alias: alias.map(|a| a.to_string()) },
    }
}

fn entry(name: &str, item: ItemId, module: Option<ModuleId>) -> ScopeEntry {
    ScopeEntry { name: name.to_string(), item: Some(item), module }
}

/// A crate `reexport` with private modules `private` and `globbed`, whose
/// public items are re-exported from the root in every form.
#[test]
fn pub_use_in_every_form_marks_its_target_public_api() {
    let mut b = RaBuilder::new();
    let (_c, root) = b.add_crate(&Some("reexport".to_string()), 1, &DeclaredVisibility::Public);
    let private = b.add_module(2, root, "private", &private_in("reexport"));
    let globbed = b.add_module(3, root, "globbed", &private_in("reexport"));
    let p = DeclaredVisibility::Public;
    let hidden = b.declare_item(10, DefKind::Struct, private, &rel("private::Hidden"), &None, &p).unwrap();
    let nested1 = b.declare_item(11, DefKind::Struct, private, &rel("private::Nested1"), &None, &p).unwrap();
    let nested2 = b.declare_item(12, DefKind::Struct, private, &rel("private::Nested2"), &None, &p).unwrap();
    let renamed = b.declare_item(13, DefKind::Struct, private, &rel("private::Renamed"), &None, &p).unwrap();
    let only_crate = b.declare_item(14, DefKind::Struct, private, &rel("private::OnlyCrate"), &None, &p).unwrap();
    let only_private = b.declare_item(15, DefKind::Struct, private, &rel("private::OnlyPrivate"), &None, &p).unwrap();
    let globbed_ty = b.declare_item(16, DefKind::Struct, globbed, &rel("globbed::Globbed"), &None, &p).unwrap();
    let globbed_fn = b.declare_item(17, DefKind::Function, globbed, &rel("globbed::globbed_fn"), &None, &p).unwrap();
    let internal = b.declare_item(18, DefKind::Function, globbed, &rel("globbed::internal"), &None, &crate_wide()).unwrap();
    let private_item = b.item_of(2).unwrap();
    let globbed_item = b.item_of(3).unwrap();
    let scope = vec![
        entry("private", private_item, Some(private)),
        entry("globbed", globbed_item, Some(globbed)),
        entry("Hidden", hidden, None),
        entry("Nested1", nested1, None),
        entry("Nested2", nested2, None),
        entry("Alias", renamed, None),
        entry("OnlyCrate", only_crate, None),
        entry("OnlyPrivate", only_private, None),
        entry("Globbed", globbed_ty, None),
        entry("globbed_fn", globbed_fn, None),
    ];
    assert!(b.scope_fits(&scope));
    let uses = vec![
        UseItem { plain_pub: true, tree: Some(single(&["private", "Hidden"], None)) },
        UseItem {
            plain_pub: true,
            tree: Some(UseTree {
                path: vec!["private".to_string()],
                kind: UseTreeKind::List(vec![single(&["Nested1"], None), single(&["Nested2"], None)]),
            }),
        },
        UseItem { plain_pub: true, tree: Some(UseTree { path: vec!["globbed".to_string()], kind: UseTreeKind::Glob }) },
        UseItem { plain_pub: true, tree: Some(single(&["private", "Renamed"], Some("Alias"))) },
        UseItem { plain_pub: false, tree: Some(single(&["private", "OnlyCrate"], None)) },
        UseItem { plain_pub: false, tree: Some(single(&["private", "OnlyPrivate"], None)) },
    ];
    b.collect_reexports(root, &scope, &uses);
    let g = b.finish();
    let public = |id: ItemId| g.items[id.0 as usize].reachable_pub_api;
    assert!(public(hidden), "simple pub use");
    assert!(public(nested1) && public(nested2), "nested pub use");
    assert!(public(globbed_ty) && public(globbed_fn), "glob pub use");
    assert!(public(renamed), "renamed pub use");
    assert!(!public(only_crate), "pub(crate) use must not be public API");
    assert!(!public(only_private), "private use must not be public API");
    assert!(!public(internal), "a glob re-exports public declarations only");
}

#[test]
fn a_reexport_from_a_private_module_exposes_nothing() {
    let mut b = RaBuilder::new();
    let (_c, root) = b.add_crate(&Some("k".to_string()), 1, &DeclaredVisibility::Public);
    let hidden_mod = b.add_module(2, root, "hidden", &private_in("k"));
    let inner = b.add_module(3, hidden_mod, "inner", &private_in("k::hidden"));
    let t = b.declare_item(10, DefKind::Struct, inner, &rel("hidden::inner::T"), &None, &DeclaredVisibility::Public).unwrap();
    let scope = vec![entry("T", t, None)];
    let uses = vec![UseItem { plain_pub: true, tree: Some(single(&["inner", "T"], None)) }];
    b.collect_reexports(hidden_mod, &scope, &uses);
    let g = b.finish();
    assert!(!g.items[t.0 as usize].reachable_pub_api);
}

#[test]
fn module_paths_resolve_from_crate_self_super_and_scope() {
    let mut b = RaBuilder::new();
    let (_c, root) = b.add_crate(&Some("k".to_string()), 1, &DeclaredVisibility::Public);
    let a = b.add_module(2, root, "a", &DeclaredVisibility::Public);
    let ab = b.add_module(3, a, "b", &DeclaredVisibility::Public);
    let c = b.add_module(4, root, "c", &DeclaredVisibility::Public);
    let a_item = b.item_of(2).unwrap();
    let scope = vec![entry("a", a_item, Some(a)), entry("x", a_item, None)];
    let path = |p: &[&str]| p.iter().map(|s| s.to_string()).collect::<Vec<String>>();
    assert_eq!(b.resolve_module_path(c, &scope, &path(&["crate", "a", "b"])), Some(ab));
    assert_eq!(b.resolve_module_path(ab, &scope, &path(&["self"])), Some(ab));
    assert_eq!(b.resolve_module_path(ab, &scope, &path(&["super", "super", "c"])), Some(c));
    assert_eq!(b.resolve_module_path(c, &scope, &path(&["a", "b", "super"])), Some(a));
    assert_eq!(b.resolve_module_path(c, &scope, &path(&["x"])), None);
    assert_eq!(b.resolve_module_path(c, &scope, &path(&["crate", "zzz"])), None);
    assert_eq!(b.resolve_module_path(root, &scope, &path(&["super"])), None);
    assert_eq!(b.resolve_module_path(root, &scope, &path(&[])), None);
}

/// `pub use relay::*` at the root, where the private `relay` itself has
/// `pub use crate::inner::*` and the private `inner` declares `Chained`.
fn glob_chain(root_use_is_pub: bool) -> bool {
    let mut b = RaBuilder::new();
    let (_c, root) = b.add_crate(&Some("globchain".to_string()), 1, &DeclaredVisibility::Public);
    let inner = b.add_module(2, root, "inner", &private_in("globchain"));
    let relay = b.add_module(3, root, "relay", &private_in("globchain"));
    let chained = b.declare_item(10, DefKind::Struct, inner, &rel("inner::Chained"), &None, &DeclaredVisibility::Public).unwrap();
    let inner_item = b.item_of(2).unwrap();
    let relay_item = b.item_of(3).unwrap();
    let relay_scope = vec![entry("Chained", chained, None)];
    let relay_uses = vec![UseItem {
        plain_pub: true,
        tree: Some(UseTree { path: vec!["crate".to_string(), "inner".to_string()], kind: UseTreeKind::Glob }),
    }];
    let root_scope = vec![entry("inner", inner_item, Some(inner)), entry("relay", relay_item, Some(relay)), entry("Chained", chained, None)];
    let root_uses = vec![UseItem {
        plain_pub: root_use_is_pub,
        tree: Some(UseTree { path: vec!["relay".to_string()], kind: UseTreeKind::Glob }),
    }];
    // The root's uses are collected first: the chain does not depend on order.
    b.collect_reexports(root, &root_scope, &root_uses);
    b.collect_reexports(relay, &relay_scope, &relay_uses);
    let g = b.finish();
    assert_eq!(g.items[chained.0 as usize].canonical_path, "globchain::inner::Chained");
    g.items[chained.0 as usize].reachable_pub_api
}

#[test]
fn glob_chains_expose_the_items_at_their_end() {
    assert!(glob_chain(true), "glob-through-glob chain should expose Chained as public API");
}

#[test]
fn a_chain_through_a_restricted_glob_exposes_nothing() {
    assert!(!glob_chain(false));
}

/// The `flat` shape: a crate with no `mod` declarations, types `Engine` (with
/// `new` and `boost`) and `Car` (with `drive`, which calls `boost`).
#[test]
fn type_containers_hold_their_types_and_members() {
    let p = DeclaredVisibility::Public;
    let mut b = RaBuilder::new();
    let (_c, root) = b.add_crate(&Some("flat".to_string()), 1, &p);
    let (engine, engine_item) = b.add_type(10, DefKind::Struct, root, "Engine", &p).unwrap();
    let (car, car_item) = b.add_type(11, DefKind::Struct, root, "Car", &p).unwrap();
    assert_eq!(b.add_type(10, DefKind::Struct, root, "Engine", &p), None);
    assert_eq!(b.add_type(12, DefKind::Module, root, "m", &p), None);
    let new = b.add_item(20, DefKind::Function, engine, &rel("Engine::new"), &None, &p).unwrap();
    let boost = b.add_item(21, DefKind::Function, engine, &rel("Engine::boost"), &None, &p).unwrap();
    let drive = b.add_item(22, DefKind::Function, car, &rel("Car::drive"), &None, &p).unwrap();
    b.add_ref(drive, 21, RefKind::Body);
    let g = b.finish();
    for (m, path) in [(engine, "flat::Engine"), (car, "flat::Car")] {
        let module = &g.modules[m.0 as usize];
        assert_eq!(module.kind, ModuleKind::Type);
        assert_eq!(module.canonical_path, path);
        assert_eq!(module.parent, Some(root));
        assert_eq!(module.depth, 1);
    }
    assert_eq!(g.items[engine_item.0 as usize].canonical_path, "flat::Engine");
    assert_eq!(g.items[engine_item.0 as usize].kind, ItemKind::Struct);
    for (it, owner) in [(engine_item, engine), (new, engine), (boost, engine), (car_item, car), (drive, car)] {
        assert_eq!(g.items[it.0 as usize].owning_module, owner);
    }
    assert_eq!(g.items[boost.0 as usize].canonical_path, "flat::Engine::boost");
    assert_eq!(weight(&g, drive, boost, RefKind::Body), 1);
    assert!(g.items[boost.0 as usize].reachable_pub_api);
}

#[test]
fn members_of_a_private_type_are_not_public_api() {
    let mut b = RaBuilder::new();
    let (_c, root) = b.add_crate(&Some("k".to_string()), 1, &DeclaredVisibility::Public);
    let (hidden, _) = b.add_type(10, DefKind::Trait, root, "Hidden", &private_in("k")).unwrap();
    let m = b.add_item(20, DefKind::Function, hidden, &rel("Hidden::m"), &None, &DeclaredVisibility::Public).unwrap();
    let g = b.finish();
    assert!(!g.items[m.0 as usize].reachable_pub_api);
}
