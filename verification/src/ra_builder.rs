//! The graph Rust extraction accumulates while the semantic analysis walks
//! each crate's modules, items, impl blocks and references: dense ids, one
//! item per definition, module items that own themselves, and edges summed
//! per (source, target, kind) without self-references.

use vstd::prelude::*;
use crate::builder::{
    add_weighted, edge_is, edges_sorted, lemma_weight_absent, lemma_weight_at, module_ok, shape, stub_item,
    weight_of, crate_ok, item_ok,
};
use crate::ir::{
    crate_views, item_views, module_chain_public, module_views, public_modules, Crate, CrateGraph, CrateId, CrateView,
    Edge, Item, ItemId, ItemKind, ItemView, Module, ModuleId, ModuleKind, ModuleView, RefKind, VisibilityView,
    SCHEMA_VERSION, item_public_api,
};
use crate::ra::{crate_name, ident_of, map_visibility, spec_item_kind, spec_map_visibility, spec_synthetic_path,
    synthetic_path, DeclaredVisibility, DefKind, RA_VERSION, item_kind};
use crate::ra_targets::opt_view;
use crate::scip_lower::str_views;
use crate::text::join3;
use std::collections::HashMap;

verus! {

/// The IR name of a crate from its display name: an identifier, or empty
/// when it has none.
pub open spec fn crate_ident(display: Option<Seq<char>>) -> Seq<char> {
    match display {
        Some(n) => ident_of(n),
        None => Seq::empty(),
    }
}

/// The item registered last for definition `d`.
pub open spec fn def_item(defs: Seq<(u64, ItemId)>, d: u64) -> Option<ItemId>
    decreases defs.len(),
{
    if defs.len() == 0 {
        None
    } else if defs.last().0 == d {
        Some(defs.last().1)
    } else {
        def_item(defs.drop_last(), d)
    }
}

/// The definitions as a map: each to the item registered last for it.
pub open spec fn def_map(defs: Seq<(u64, ItemId)>) -> Map<u64, ItemId>
    decreases defs.len(),
{
    if defs.len() == 0 {
        Map::empty()
    } else {
        def_map(defs.drop_last()).insert(defs.last().0, defs.last().1)
    }
}

/// The map of the definitions agrees with [`def_item`].
proof fn lemma_def_map(defs: Seq<(u64, ItemId)>, d: u64)
    ensures
        def_map(defs).contains_key(d) == (def_item(defs, d) is Some),
        def_item(defs, d) matches Some(i) ==> def_map(defs)[d] == i,
    decreases defs.len(),
{
    if defs.len() > 0 {
        lemma_def_map(defs.drop_last(), d);
    }
}

/// One more definition adds one entry to the map.
proof fn lemma_def_map_push(defs: Seq<(u64, ItemId)>, e: (u64, ItemId))
    ensures
        def_map(defs.push(e)) == def_map(defs).insert(e.0, e.1),
{
    assert(defs.push(e).drop_last() =~= defs);
}

/// Edges in increasing order, each with a positive weight and two distinct
/// endpoints among the first `n` items.
pub open spec fn edges_ok(edges: Seq<Edge>, n: int) -> bool {
    &&& edges_sorted(edges)
    &&& forall|q: int| 0 <= q < edges.len() ==> {
        let e = #[trigger] edges[q];
        &&& e.weight > 0
        &&& e.from.0 < n
        &&& e.to.0 < n
        &&& e.from != e.to
    }
}

/// The abstract content of a [`RaBuilder`].
pub struct RaState {
    pub crates: Seq<CrateView>,
    pub modules: Seq<ModuleView>,
    pub items: Seq<ItemView>,
    /// The item of each module.
    pub module_items: Seq<ItemId>,
    /// Every definition registered, with its item, in order.
    pub defs: Seq<(u64, ItemId)>,
    /// Each module's declarations: its child modules and declared items.
    pub declared: Seq<Seq<ItemId>>,
    /// `pub use` re-exports: (re-exporting module, target item).
    pub reexports: Seq<(ModuleId, ItemId)>,
    /// `pub use` globs: (re-exporting module, module whose public names it
    /// re-exports).
    pub globs: Seq<(ModuleId, ModuleId)>,
    pub edges: Seq<Edge>,
}

/// Module `m`'s item `id`: for a real module, its module item, which it owns;
/// for a type container, the type itself, with the container's path.
pub open spec fn module_item_ok(modules: Seq<ModuleView>, items: Seq<ItemView>, m: int, id: ItemId) -> bool {
    &&& id.0 < items.len()
    &&& if modules[m].kind is Mod {
        items[id.0 as int] == stub_item(modules[m], id)
    } else {
        let it = items[id.0 as int];
        &&& it.owning_module.0 == m
        &&& it.canonical_path == modules[m].canonical_path
        &&& it.has_canonical_path
        &&& it.visibility == modules[m].visibility
        &&& it.crate_id == modules[m].crate_id
    }
}

/// The builder invariant: the shape of the graph (dense ids, parents before
/// children, paths and depths following the tree), each module's item, and
/// every reference pointing at an existing node.
pub open spec fn ra_wf(s: RaState) -> bool {
    &&& shape(s.crates, s.modules, s.items, Seq::empty())
    &&& s.module_items.len() == s.modules.len()
    &&& forall|m: int| 0 <= m < s.modules.len() ==> {
        module_item_ok(s.modules, s.items, m, #[trigger] s.module_items[m])
    }
    &&& forall|r: int| 0 <= r < s.defs.len() ==> (#[trigger] s.defs[r]).1.0 < s.items.len()
    &&& s.declared.len() == s.modules.len()
    &&& forall|m: int, k: int| 0 <= m < s.declared.len() && 0 <= k < s.declared[m].len() ==> (#[trigger] s.declared[m][k]).0 < s.items.len()
    &&& forall|r: int| 0 <= r < s.reexports.len() ==> (#[trigger] s.reexports[r]).0.0 < s.modules.len() && s.reexports[r].1.0 < s.items.len()
    &&& forall|r: int| 0 <= r < s.globs.len() ==> (#[trigger] s.globs[r]).0.0 < s.modules.len() && s.globs[r].1.0 < s.modules.len()
    &&& edges_ok(s.edges, s.items.len() as int)
}

/// Whether another crate, module and item fit under `u32` ids.
pub open spec fn ra_room(s: RaState) -> bool {
    s.crates.len() < u32::MAX && s.modules.len() < u32::MAX && s.items.len() < u32::MAX
}

/// The path of a new item `id` under `owning`: the crate's name, `::` and the
/// path relative to the crate when the analysis has one, else a synthesized
/// path.
pub open spec fn item_path(s: RaState, owning: ModuleId, id: ItemId, relative: Option<Seq<char>>, name: Option<Seq<char>>) -> Seq<char> {
    match relative {
        Some(p) => s.crates[s.modules[owning.0 as int].crate_id.0 as int].name + "::"@ + p,
        None => spec_synthetic_path(owning, id, name),
    }
}

/// Adding the item of definition `def`: nothing when the definition already
/// has an item or its kind is not an item kind, else a new item with the next
/// id, registered for `def`.
pub open spec fn s_add_item(
    s: RaState,
    def: u64,
    kind: DefKind,
    owning: ModuleId,
    relative: Option<Seq<char>>,
    name: Option<Seq<char>>,
    visibility: DeclaredVisibility,
) -> RaState {
    match (def_item(s.defs, def), spec_item_kind(kind)) {
        (None, Some(k)) => {
            let id = ItemId(s.items.len() as u32);
            RaState {
                items: s.items.push(ItemView {
                    id,
                    canonical_path: item_path(s, owning, id, relative, name),
                    kind: k,
                    visibility: spec_map_visibility(visibility),
                    owning_module: owning,
                    crate_id: s.modules[owning.0 as int].crate_id,
                    has_canonical_path: relative is Some,
                    reachable_pub_api: false,
                }),
                defs: s.defs.push((def, id)),
                ..s
            }
        },
        _ => s,
    }
}

/// Adding the type (or trait) `def` declared in `parent`: nothing when the
/// definition already has an item or its kind is not an item kind, else a type
/// container named `name` under `parent`, with the next module id, and the
/// type's item, with the next item id, owned by the container, with its path,
/// and declared in `parent`.
pub open spec fn s_add_type(s: RaState, def: u64, kind: DefKind, parent: ModuleId, name: Seq<char>, visibility: DeclaredVisibility) -> RaState {
    match (def_item(s.defs, def), spec_item_kind(kind)) {
        (None, Some(k)) => {
            let p = s.modules[parent.0 as int];
            let mid = ModuleId(s.modules.len() as u32);
            let id = ItemId(s.items.len() as u32);
            let path = p.canonical_path + "::"@ + name;
            RaState {
                modules: s.modules.push(ModuleView {
                    id: mid,
                    crate_id: p.crate_id,
                    parent: Some(parent),
                    name,
                    canonical_path: path,
                    depth: (p.depth + 1) as u32,
                    visibility: spec_map_visibility(visibility),
                    kind: ModuleKind::Type,
                }),
                items: s.items.push(ItemView {
                    id,
                    canonical_path: path,
                    kind: k,
                    visibility: spec_map_visibility(visibility),
                    owning_module: mid,
                    crate_id: p.crate_id,
                    has_canonical_path: true,
                    reachable_pub_api: false,
                }),
                module_items: s.module_items.push(id),
                defs: s.defs.push((def, id)),
                declared: s.declared.update(parent.0 as int, s.declared[parent.0 as int].push(id)).push(Seq::empty()),
                ..s
            }
        },
        _ => s,
    }
}

/// Recording that `def`, when it has an item, is declared in `owning`.
pub open spec fn s_declare(s: RaState, def: u64, owning: ModuleId) -> RaState {
    match def_item(s.defs, def) {
        Some(id) => RaState { declared: s.declared.update(owning.0 as int, s.declared[owning.0 as int].push(id)), ..s },
        None => s,
    }
}

/// The weight of every edge after one occurrence of `from -> to` of `kind`:
/// one more for that edge unless it is a self-reference.
pub open spec fn edges_after(before: Seq<Edge>, after: Seq<Edge>, from: ItemId, to: ItemId, kind: RefKind) -> bool {
    forall|f: ItemId, t: ItemId, k: RefKind| #[trigger] weight_of(after, f, t, k)
        == weight_of(before, f, t, k) + if f == from && t == to && k == kind && from != to { 1nat } else { 0nat }
}

/// The items an impl block couples: its self type's and its trait's, when
/// both are definitions with items.
pub open spec fn impl_pair(s: RaState, self_ty: Option<u64>, trait_: Option<u64>) -> Option<(ItemId, ItemId)> {
    match (self_ty, trait_) {
        (Some(a), Some(b)) => match (def_item(s.defs, a), def_item(s.defs, b)) {
            (Some(f), Some(t)) => Some((f, t)),
            _ => None,
        },
        _ => None,
    }
}

/// The item an import of `def` into `module` refers to: none when `def` is
/// declared in `module` itself (`home`) or has no item.
pub open spec fn import_target(s: RaState, module: ModuleId, def: u64, home: Option<ModuleId>) -> Option<ItemId> {
    if home == Some(module) { None } else { def_item(s.defs, def) }
}

/// A name in a module's scope, as the analysis resolves it: the item it names
/// and, when it names a module, the module (both when they belong to the
/// analyzed crates).
#[derive(Clone, Debug)]
pub struct ScopeEntry {
    pub name: String,
    pub item: Option<ItemId>,
    pub module: Option<ModuleId>,
}

/// The mathematical value of a [`ScopeEntry`].
pub struct ScopeView {
    pub name: Seq<char>,
    pub item: Option<ItemId>,
    pub module: Option<ModuleId>,
}

impl View for ScopeEntry {
    type V = ScopeView;

    open spec fn view(&self) -> ScopeView {
        ScopeView { name: self.name@, item: self.item, module: self.module }
    }
}

/// The entries of a scope, by value.
pub open spec fn scope_views(scope: Seq<ScopeEntry>) -> Seq<ScopeView> {
    scope.map_values(|e: ScopeEntry| e@)
}

/// The entry a name resolves to in a scope: its last entry, as in a map
/// filled entry by entry.
pub open spec fn scope_lookup(scope: Seq<ScopeView>, name: Seq<char>) -> Option<ScopeView>
    decreases scope.len(),
{
    if scope.len() == 0 {
        None
    } else if scope.last().name == name {
        Some(scope.last())
    } else {
        scope_lookup(scope.drop_last(), name)
    }
}

/// What a `use` tree is: a nested list, a glob, or a single import with an
/// optional alias (`as _` counts as no alias).
pub enum UseTreeKind {
    List(Vec<UseTree>),
    Glob,
    Single { alias: Option<String> },
}

/// A `use` tree: its path (segments, with `crate`, `self` and `super` kept as
/// those words) and what follows the path.
pub struct UseTree {
    pub path: Vec<String>,
    pub kind: UseTreeKind,
}

/// A `use` item of a module: whether it is plainly `pub` (not `pub(crate)`,
/// `pub(super)` or private), and its tree.
pub struct UseItem {
    pub plain_pub: bool,
    pub tree: Option<UseTree>,
}

/// What resolving a path reads of the builder.
pub struct ResolveCtx {
    pub crates: Seq<CrateView>,
    pub modules: Seq<ModuleView>,
    pub items: Seq<ItemView>,
    pub declared: Seq<Seq<ItemId>>,
}

/// The resolution context of a builder state.
pub open spec fn ctx_of(s: RaState) -> ResolveCtx {
    ResolveCtx { crates: s.crates, modules: s.modules, items: s.items, declared: s.declared }
}

/// Whether module `j` is a child of `c` named `name`.
pub open spec fn is_child_named(modules: Seq<ModuleView>, c: ModuleId, name: Seq<char>, j: int) -> bool {
    modules[j].parent == Some(c) && modules[j].name == name
}

/// The first of the first `n` modules that is a child of `c` named `name`.
pub open spec fn child_named(modules: Seq<ModuleView>, c: ModuleId, name: Seq<char>, n: int) -> Option<ModuleId>
    decreases n,
{
    if n <= 0 {
        None
    } else {
        match child_named(modules, c, name, n - 1) {
            Some(m) => Some(m),
            None => if is_child_named(modules, c, name, n - 1) { Some(ModuleId((n - 1) as u32)) } else { None },
        }
    }
}

/// Follows `rest` from module `cur`: `super` goes to the parent, any other
/// segment to the child of that name.
pub open spec fn descend(modules: Seq<ModuleView>, cur: ModuleId, rest: Seq<Seq<char>>) -> Option<ModuleId>
    decreases rest.len(),
{
    if rest.len() == 0 {
        Some(cur)
    } else {
        let next = if rest[0] == "super"@ {
            modules[cur.0 as int].parent
        } else {
            child_named(modules, cur, rest[0], modules.len() as int)
        };
        match next {
            Some(n) => descend(modules, n, rest.drop_first()),
            None => None,
        }
    }
}

/// The module a path names from `module`: its first segment is `crate` (the
/// crate's root), `self`, `super`, or a module in scope; the rest descends.
pub open spec fn resolve_path(c: ResolveCtx, module: ModuleId, scope: Seq<ScopeView>, segs: Seq<Seq<char>>) -> Option<ModuleId> {
    if segs.len() == 0 {
        None
    } else {
        let first = segs[0];
        let start = if first == "crate"@ {
            Some(c.crates[c.modules[module.0 as int].crate_id.0 as int].root_module)
        } else if first == "self"@ {
            Some(module)
        } else if first == "super"@ {
            c.modules[module.0 as int].parent
        } else {
            match scope_lookup(scope, first) {
                Some(e) => e.module,
                None => None,
            }
        };
        match start {
            Some(m) => descend(c.modules, m, segs.drop_first()),
            None => None,
        }
    }
}

/// The public declarations of module `m`.
pub open spec fn public_declarations(c: ResolveCtx, m: ModuleId) -> Set<ItemId> {
    Set::new(|id: ItemId| c.declared[m.0 as int].contains(id) && c.items[id.0 as int].visibility is Public)
}

/// The name a single import brings into scope: its alias, else the last
/// segment of its path.
pub open spec fn imported_name(alias: Option<String>, full: Seq<Seq<char>>) -> Option<Seq<char>> {
    match alias {
        Some(a) => Some(a@),
        None => if full.len() > 0 { Some(full.last()) } else { None },
    }
}

/// The items a `use` tree re-exports from `module`, under the path `prefix` of
/// its enclosing trees: for a list, those of its subtrees; for a glob, the
/// public declarations of the module its path names; for a single import,
/// the item its name resolves to in scope.
pub open spec fn tree_targets(c: ResolveCtx, module: ModuleId, scope: Seq<ScopeView>, prefix: Seq<Seq<char>>, tree: UseTree) -> Set<ItemId>
    decreases tree, 0int,
{
    let full = prefix + str_views(tree.path@);
    match tree.kind {
        UseTreeKind::List(subs) => list_targets(c, module, scope, full, subs@, subs@.len() as int),
        UseTreeKind::Glob => match resolve_path(c, module, scope, full) {
            Some(t) => public_declarations(c, t),
            None => Set::empty(),
        },
        UseTreeKind::Single { alias } => match imported_name(alias, full) {
            Some(n) => match scope_lookup(scope, n) {
                Some(e) => match e.item {
                    Some(id) => set![id],
                    None => Set::empty(),
                },
                None => Set::empty(),
            },
            None => Set::empty(),
        },
    }
}

/// The items the first `n` trees of `subs` re-export.
pub open spec fn list_targets(c: ResolveCtx, module: ModuleId, scope: Seq<ScopeView>, prefix: Seq<Seq<char>>, subs: Seq<UseTree>, n: int) -> Set<ItemId>
    decreases subs, n,
{
    if n <= 0 || n > subs.len() {
        Set::empty()
    } else {
        list_targets(c, module, scope, prefix, subs, n - 1).union(tree_targets(c, module, scope, prefix, subs[n - 1]))
    }
}

/// The modules whose public names a `use` tree glob-re-exports from
/// `module`: for a list, those of its subtrees; for a glob, the module its
/// path names.
pub open spec fn tree_globs(c: ResolveCtx, module: ModuleId, scope: Seq<ScopeView>, prefix: Seq<Seq<char>>, tree: UseTree) -> Set<ModuleId>
    decreases tree, 0int,
{
    let full = prefix + str_views(tree.path@);
    match tree.kind {
        UseTreeKind::List(subs) => list_globs(c, module, scope, full, subs@, subs@.len() as int),
        UseTreeKind::Glob => match resolve_path(c, module, scope, full) {
            Some(t) => set![t],
            None => Set::empty(),
        },
        UseTreeKind::Single { .. } => Set::empty(),
    }
}

/// The modules the first `n` trees of `subs` glob-re-export.
pub open spec fn list_globs(c: ResolveCtx, module: ModuleId, scope: Seq<ScopeView>, prefix: Seq<Seq<char>>, subs: Seq<UseTree>, n: int) -> Set<ModuleId>
    decreases subs, n,
{
    if n <= 0 || n > subs.len() {
        Set::empty()
    } else {
        list_globs(c, module, scope, prefix, subs, n - 1).union(tree_globs(c, module, scope, prefix, subs[n - 1]))
    }
}

/// Whether every entry of a scope names existing items and modules.
pub open spec fn scope_fits(s: RaState, scope: Seq<ScopeView>) -> bool {
    forall|k: int| 0 <= k < scope.len() ==> {
        &&& (#[trigger] scope[k]).item matches Some(i) ==> i.0 < s.items.len()
        &&& scope[k].module matches Some(m) ==> m.0 < s.modules.len()
    }
}

/// The re-exports after recording those of a tree or of `use` items:
/// `added` are the items re-exported from `module`.
pub open spec fn reexports_after(before: Seq<(ModuleId, ItemId)>, after: Seq<(ModuleId, ItemId)>, module: ModuleId, added: Set<ItemId>) -> bool {
    forall|p: (ModuleId, ItemId)| #[trigger] after.contains(p) <==> (before.contains(p) || (p.0 == module && added.contains(p.1)))
}

/// The glob re-exports after recording those of a tree or of `use` items:
/// `added` are the modules glob-re-exported from `module`.
pub open spec fn globs_after(before: Seq<(ModuleId, ModuleId)>, after: Seq<(ModuleId, ModuleId)>, module: ModuleId, added: Set<ModuleId>) -> bool {
    forall|p: (ModuleId, ModuleId)| #[trigger] after.contains(p) <==> (before.contains(p) || (p.0 == module && added.contains(p.1)))
}

/// The modules a `use` item glob-re-exports from `module`: those of its tree
/// when it is plainly `pub`, else none.
pub open spec fn use_item_globs(c: ResolveCtx, module: ModuleId, scope: Seq<ScopeView>, u: UseItem) -> Set<ModuleId> {
    if u.plain_pub {
        match u.tree {
            Some(t) => tree_globs(c, module, scope, Seq::empty(), t),
            None => Set::empty(),
        }
    } else {
        Set::empty()
    }
}

/// The modules the `use` items `uses` glob-re-export from `module`.
pub open spec fn use_globs(c: ResolveCtx, module: ModuleId, scope: Seq<ScopeView>, uses: Seq<UseItem>) -> Set<ModuleId> {
    Set::new(|m: ModuleId| exists|k: int| 0 <= k < uses.len() && #[trigger] use_item_globs(c, module, scope, uses[k]).contains(m))
}

/// The items a `use` item re-exports from `module`: those of its tree when it
/// is plainly `pub`, else none.
pub open spec fn use_item_targets(c: ResolveCtx, module: ModuleId, scope: Seq<ScopeView>, u: UseItem) -> Set<ItemId> {
    if u.plain_pub {
        match u.tree {
            Some(t) => tree_targets(c, module, scope, Seq::empty(), t),
            None => Set::empty(),
        }
    } else {
        Set::empty()
    }
}

/// The items the `use` items `uses` re-export from `module`.
pub open spec fn use_targets(c: ResolveCtx, module: ModuleId, scope: Seq<ScopeView>, uses: Seq<UseItem>) -> Set<ItemId> {
    Set::new(|id: ItemId| exists|k: int| 0 <= k < uses.len() && #[trigger] use_item_targets(c, module, scope, uses[k]).contains(id))
}

/// The segments of `a` followed by those of `b`.
fn concat_path(a: &Vec<String>, b: &Vec<String>) -> (r: Vec<String>)
    ensures
        str_views(r@) == str_views(a@) + str_views(b@),
{
    let mut r: Vec<String> = Vec::new();
    let mut i: usize = 0;
    while i < a.len()
        invariant
            i <= a@.len(),
            str_views(r@) == str_views(a@).take(i as int),
        decreases a@.len() - i,
    {
        let ghost before = r@;
        r.push(a[i].clone());
        assert(str_views(r@) =~= str_views(before).push(a@[i as int]@));
        assert(str_views(a@).take(i + 1) =~= str_views(a@).take(i as int).push(a@[i as int]@));
        i = i + 1;
    }
    let mut j: usize = 0;
    while j < b.len()
        invariant
            j <= b@.len(),
            str_views(r@) == str_views(a@) + str_views(b@).take(j as int),
        decreases b@.len() - j,
    {
        let ghost before = r@;
        r.push(b[j].clone());
        assert(str_views(r@) =~= str_views(before).push(b@[j as int]@));
        assert(str_views(b@).take(j + 1) =~= str_views(b@).take(j as int).push(b@[j as int]@));
        j = j + 1;
    }
    assert(str_views(a@).take(a@.len() as int) =~= str_views(a@));
    assert(str_views(b@).take(b@.len() as int) =~= str_views(b@));
    r
}

/// The (item, module) of the entry `name` resolves to in `scope`.
fn lookup_scope(scope: &Vec<ScopeEntry>, name: &str) -> (r: Option<(Option<ItemId>, Option<ModuleId>)>)
    ensures
        r == match scope_lookup(scope_views(scope@), name@) {
            Some(e) => Some((e.item, e.module)),
            None => None,
        },
{
    let ghost sv = scope_views(scope@);
    let mut i = scope.len();
    assert(sv.take(i as int) =~= sv);
    while i > 0
        invariant
            i <= scope@.len(),
            sv == scope_views(scope@),
            scope_lookup(sv, name@) == scope_lookup(sv.take(i as int), name@),
        decreases i,
    {
        let e = &scope[i - 1];
        assert(sv.take(i as int).drop_last() =~= sv.take(i - 1));
        assert(sv.take(i as int).last() == e@);
        if crate::text::str_eq(e.name.as_str(), name) {
            return Some((e.item, e.module));
        }
        i = i - 1;
    }
    None
}

/// Accumulates the IR while the analysis walks the selected crates.
pub struct RaBuilder {
    crates: Vec<Crate>,
    modules: Vec<Module>,
    items: Vec<Item>,
    module_items: Vec<ItemId>,
    defs: Vec<(u64, ItemId)>,
    def_index: HashMap<u64, ItemId>,
    declared: Vec<Vec<ItemId>>,
    reexports: Vec<(ModuleId, ItemId)>,
    globs: Vec<(ModuleId, ModuleId)>,
    edges: Vec<Edge>,
}

impl RaBuilder {
    /// The builder's content.
    pub closed spec fn state(self) -> RaState {
        RaState {
            crates: crate_views(self.crates@),
            modules: module_views(self.modules@),
            items: item_views(self.items@),
            module_items: self.module_items@,
            defs: self.defs@,
            declared: self.declared@.map_values(|d: Vec<ItemId>| d@),
            reexports: self.reexports@,
            globs: self.globs@,
            edges: self.edges@,
        }
    }

    /// The index of the definitions holds, for each one, the item
    /// registered last for it.
    pub closed spec fn index_ok(self) -> bool {
        self.def_index@ == def_map(self.defs@)
    }

    /// The builder invariant.
    pub open spec fn wf(self) -> bool {
        ra_wf(self.state()) && self.index_ok()
    }

    /// An empty builder.
    pub fn new() -> (b: Self)
        ensures
            b.wf(),
            b.state() == (RaState {
                crates: Seq::empty(),
                modules: Seq::empty(),
                items: Seq::empty(),
                module_items: Seq::empty(),
                defs: Seq::empty(),
                declared: Seq::empty(),
                reexports: Seq::empty(),
                globs: Seq::empty(),
                edges: Seq::empty(),
            }),
    {
        let b = RaBuilder {
            crates: Vec::new(),
            modules: Vec::new(),
            items: Vec::new(),
            module_items: Vec::new(),
            defs: Vec::new(),
            def_index: HashMap::new(),
            declared: Vec::new(),
            reexports: Vec::new(),
            globs: Vec::new(),
            edges: Vec::new(),
        };
        assert(b.state().crates =~= Seq::empty());
        assert(b.state().modules =~= Seq::empty());
        assert(b.state().items =~= Seq::empty());
        assert(b.state().declared =~= Seq::empty());
        assert(b.def_index@ =~= def_map(b.defs@));
        b
    }

    /// Whether another crate, module and item can be added.
    pub fn has_room(&self) -> (r: bool)
        ensures
            r == ra_room(self.state()),
    {
        self.crates.len() < 4294967295usize && self.modules.len() < 4294967295usize && self.items.len() < 4294967295usize
    }

    /// The item of definition `def`, if it has one.
    pub fn item_of(&self, def: u64) -> (r: Option<ItemId>)
        requires
            self.index_ok(),
        ensures
            r == def_item(self.state().defs, def),
    {
        proof {
            broadcast use vstd::std_specs::hash::group_hash_axioms;
            lemma_def_map(self.defs@, def);
        }
        match self.def_index.get(&def) {
            Some(id) => Some(*id),
            None => None,
        }
    }

    /// Registers `id` for `def` in the index of definitions.
    fn index_def(&mut self, def: u64, id: ItemId)
        requires
            old(self).index_ok(),
        ensures
            final(self).def_index@ == def_map(old(self).defs@.push((def, id))),
            final(self).crates == old(self).crates,
            final(self).modules == old(self).modules,
            final(self).items == old(self).items,
            final(self).module_items == old(self).module_items,
            final(self).defs == old(self).defs,
            final(self).declared == old(self).declared,
            final(self).reexports == old(self).reexports,
            final(self).globs == old(self).globs,
            final(self).edges == old(self).edges,
    {
        proof {
            broadcast use vstd::std_specs::hash::group_hash_axioms;
            lemma_def_map_push(old(self).defs@, (def, id));
        }
        self.def_index.insert(def, id);
    }

    /// Pushes the item of module `m`, registered for `def`, and an empty
    /// declaration list for `m`.
    fn push_module_item(&mut self, m: ModuleId, def: u64)
        requires
            old(self).index_ok(),
            shape(old(self).state().crates, old(self).state().modules, old(self).state().items, Seq::empty()),
            m.0 + 1 == old(self).modules@.len(),
            old(self).module_items@.len() == m.0,
            old(self).declared@.len() == m.0,
            old(self).items@.len() < u32::MAX,
            forall|k: int| 0 <= k < m.0 ==> {
                module_item_ok(old(self).state().modules, old(self).state().items, k, #[trigger] old(self).module_items@[k])
            },
            forall|r: int| 0 <= r < old(self).defs@.len() ==> (#[trigger] old(self).defs@[r]).1.0 < old(self).items@.len(),
            forall|a: int, k: int| 0 <= a < old(self).state().declared.len() && 0 <= k < old(self).state().declared[a].len()
                ==> (#[trigger] old(self).state().declared[a][k]).0 < old(self).items@.len(),
            forall|r: int| 0 <= r < old(self).reexports@.len() ==> (#[trigger] old(self).reexports@[r]).0.0 < m.0 && old(self).reexports@[r].1.0 < old(self).items@.len(),
            forall|r: int| 0 <= r < old(self).globs@.len() ==> (#[trigger] old(self).globs@[r]).0.0 < m.0 && old(self).globs@[r].1.0 < m.0,
            edges_ok(old(self).edges@, old(self).items@.len() as int),
        ensures
            final(self).wf(),
            final(self).state() == (RaState {
                items: old(self).state().items.push(stub_item(old(self).state().modules[m.0 as int], ItemId(old(self).items@.len() as u32))),
                module_items: old(self).state().module_items.push(ItemId(old(self).items@.len() as u32)),
                defs: old(self).state().defs.push((def, ItemId(old(self).items@.len() as u32))),
                declared: old(self).state().declared.push(Seq::empty()),
                ..old(self).state()
            }),
    {
        let ghost before = self.state();
        let id = ItemId(self.items.len() as u32);
        let module = &self.modules[m.index()];
        let item = Item {
            id,
            canonical_path: module.canonical_path.clone(),
            kind: ItemKind::Module,
            visibility: module.visibility.duplicate(),
            owning_module: m,
            crate_id: module.crate_id,
            has_canonical_path: true,
            reachable_pub_api: false,
        };
        assert(before.modules[m.0 as int] == self.modules@[m.0 as int]@);
        assert(module_ok(before.crates, before.modules, m.0 as int));
        assert(item@ == stub_item(before.modules[m.0 as int], id));
        self.items.push(item);
        self.module_items.push(id);
        self.index_def(def, id);
        self.defs.push((def, id));
        self.declared.push(Vec::new());
        let ghost after = self.state();
        assert(after.items =~= before.items.push(item@));
        assert(after.declared =~= before.declared.push(Seq::empty()));
        assert(after.crates == before.crates);
        assert(after.modules == before.modules);
        proof {
            crate::builder::lemma_shape_push_item(before.crates, before.modules, before.items, Seq::empty(), item@, Seq::empty(), -1);
            assert forall|k: int| 0 <= k < after.modules.len() implies {
                module_item_ok(after.modules, after.items, k, #[trigger] after.module_items[k])
            } by {
                if k < m.0 {
                    assert(after.module_items[k] == before.module_items[k]);
                }
            }
            assert forall|a: int, k: int| 0 <= a < after.declared.len() && 0 <= k < after.declared[a].len()
                implies (#[trigger] after.declared[a][k]).0 < after.items.len() by {
                assert(after.declared[a] == before.declared[a]);
            }
            assert forall|q: int| 0 <= q < after.edges.len() implies {
                let e = #[trigger] after.edges[q];
                &&& e.weight > 0
                &&& e.from.0 < after.items.len()
                &&& e.to.0 < after.items.len()
                &&& e.from != e.to
            } by {
                assert(after.edges[q] == before.edges[q]);
            }
        }
    }

    /// Adds a crate and its root module, whose name is empty, whose path is the
    /// crate's name, and whose item is registered for `root_def`. The crate is
    /// named after its display name, `-` replaced by `_`.
    pub fn add_crate(&mut self, display_name: &Option<String>, root_def: u64, root_visibility: &DeclaredVisibility) -> (r: (CrateId, ModuleId))
        requires
            old(self).wf(),
            ra_room(old(self).state()),
        ensures
            final(self).wf(),
            r.0.0 == old(self).state().crates.len(),
            r.1.0 == old(self).state().modules.len(),
            ({
                let s = old(self).state();
                let name = crate_ident(opt_view(*display_name));
                let m = ModuleView {
                    id: r.1,
                    crate_id: r.0,
                    parent: None,
                    name: Seq::empty(),
                    canonical_path: name,
                    depth: 0,
                    visibility: spec_map_visibility(*root_visibility),
                    kind: ModuleKind::Mod,
                };
                let id = ItemId(s.items.len() as u32);
                final(self).state() == RaState {
                    crates: s.crates.push(CrateView { id: r.0, name, is_local: true, root_module: r.1 }),
                    modules: s.modules.push(m),
                    items: s.items.push(stub_item(m, id)),
                    module_items: s.module_items.push(id),
                    defs: s.defs.push((root_def, id)),
                    declared: s.declared.push(Seq::empty()),
                    ..s
                }
            }),
    {
        let ghost s = self.state();
        let crate_id = CrateId(self.crates.len() as u32);
        let root_id = ModuleId(self.modules.len() as u32);
        let name = crate_name(display_name);
        let path = name.clone();
        assert(path@ == name@);
        self.crates.push(Crate { id: crate_id, name, is_local: true, root_module: root_id });
        self.modules.push(Module {
            id: root_id,
            crate_id,
            parent: None,
            name: String::new(),
            canonical_path: path,
            depth: 0,
            visibility: map_visibility(root_visibility),
            kind: ModuleKind::Mod,
        });
        let ghost mid = self.state();
        proof {
            let c = self.crates@.last()@;
            let m = self.modules@.last()@;
            assert(mid.crates =~= s.crates.push(c));
            assert(mid.modules =~= s.modules.push(m));
            crate::builder::lemma_shape_push_crate(s.crates, s.modules, s.items, Seq::empty(), c, m);
            assert forall|k: int| 0 <= k < s.modules.len() implies {
                module_item_ok(mid.modules, mid.items, k, #[trigger] self.module_items@[k])
            } by {
                assert(mid.modules[k] == s.modules[k]);
                assert(s.module_items[k] == self.module_items@[k]);
            }
            assert forall|r: int| 0 <= r < self.reexports@.len() implies (#[trigger] self.reexports@[r]).0.0 < root_id.0 && self.reexports@[r].1.0 < self.items@.len() by {
                assert(s.reexports[r] == self.reexports@[r]);
            }
            assert forall|r: int| 0 <= r < self.globs@.len() implies (#[trigger] self.globs@[r]).0.0 < root_id.0 && self.globs@[r].1.0 < root_id.0 by {
                assert(s.globs[r] == self.globs@[r]);
            }
        }
        self.push_module_item(root_id, root_def);
        proof {
            assert(self.state().crates == mid.crates);
            assert(self.state().modules == mid.modules);
        }
        (crate_id, root_id)
    }

    /// Adds a child module of `parent` named `name`, whose item is registered
    /// for `def` and declared in `parent`. Its path is the parent's, `::` and
    /// its name; its depth one more than the parent's.
    pub fn add_module(&mut self, def: u64, parent: ModuleId, name: &str, visibility: &DeclaredVisibility) -> (id: ModuleId)
        requires
            old(self).wf(),
            ra_room(old(self).state()),
            parent.0 < old(self).state().modules.len(),
        ensures
            final(self).wf(),
            id.0 == old(self).state().modules.len(),
            ({
                let s = old(self).state();
                let p = s.modules[parent.0 as int];
                let m = ModuleView {
                    id,
                    crate_id: p.crate_id,
                    parent: Some(parent),
                    name: name@,
                    canonical_path: p.canonical_path + "::"@ + name@,
                    depth: (p.depth + 1) as u32,
                    visibility: spec_map_visibility(*visibility),
                    kind: ModuleKind::Mod,
                };
                let item = ItemId(s.items.len() as u32);
                final(self).state() == RaState {
                    modules: s.modules.push(m),
                    items: s.items.push(stub_item(m, item)),
                    module_items: s.module_items.push(item),
                    defs: s.defs.push((def, item)),
                    declared: s.declared.update(parent.0 as int, s.declared[parent.0 as int].push(item)).push(Seq::empty()),
                    ..s
                }
            }),
    {
        let ghost s = self.state();
        let id = ModuleId(self.modules.len() as u32);
        let p = &self.modules[parent.index()];
        assert(s.modules[parent.0 as int] == p@);
        proof {
            assert(module_ok(s.crates, s.modules, parent.0 as int));
        }
        let path = join3(p.canonical_path.as_str(), "::", name);
        let crate_id = p.crate_id;
        let depth = p.depth + 1;
        self.modules.push(Module {
            id,
            crate_id,
            parent: Some(parent),
            name: name.to_owned(),
            canonical_path: path,
            depth,
            visibility: map_visibility(visibility),
            kind: ModuleKind::Mod,
        });
        let ghost mid = self.state();
        proof {
            let m = self.modules@.last()@;
            assert(mid.modules =~= s.modules.push(m));
            assert(s.modules.push(m)[parent.0 as int] == s.modules[parent.0 as int]);
            crate::builder::lemma_shape_push_module(s.crates, s.modules, s.items, Seq::empty(), m);
            assert forall|k: int| 0 <= k < s.modules.len() implies {
                module_item_ok(mid.modules, mid.items, k, #[trigger] self.module_items@[k])
            } by {
                assert(mid.modules[k] == s.modules[k]);
                assert(s.module_items[k] == self.module_items@[k]);
            }
        }
        self.push_module_item(id, def);
        let item = ItemId((self.items.len() - 1) as u32);
        let ghost before_decl = self.state();
        self.declared[parent.index()].push(item);
        proof {
            let after = self.state();
            assert(after.declared =~= before_decl.declared.update(parent.0 as int, before_decl.declared[parent.0 as int].push(item)));
            assert(before_decl.declared =~= s.declared.push(Seq::empty()));
            assert(after.declared =~= s.declared.update(parent.0 as int, s.declared[parent.0 as int].push(item)).push(Seq::empty()));
            assert forall|a: int, k: int| 0 <= a < after.declared.len() && 0 <= k < after.declared[a].len()
                implies (#[trigger] after.declared[a][k]).0 < after.items.len() by {
                if a != parent.0 || k < before_decl.declared[a].len() {
                    assert(after.declared[a][k] == before_decl.declared[a][k]);
                }
            }
        }
        id
    }

    /// Adds the item of definition `def` under module `owning`, unless the
    /// definition already has one or is a module. Its path is the crate's name,
    /// `::` and `relative` when the analysis knows one, else a path synthesized
    /// from its module, id and name.
    pub fn add_item(
        &mut self,
        def: u64,
        kind: DefKind,
        owning: ModuleId,
        relative: &Option<String>,
        name: &Option<String>,
        visibility: &DeclaredVisibility,
    ) -> (r: Option<ItemId>)
        requires
            old(self).wf(),
            ra_room(old(self).state()),
            owning.0 < old(self).state().modules.len(),
        ensures
            final(self).wf(),
            final(self).state() == s_add_item(old(self).state(), def, kind, owning, opt_view(*relative), opt_view(*name), *visibility),
            r == (if def_item(old(self).state().defs, def) is None && spec_item_kind(kind) is Some {
                Some(ItemId(old(self).state().items.len() as u32))
            } else {
                None
            }),
    {
        let ghost s = self.state();
        if self.item_of(def).is_some() {
            return None;
        }
        let k = match item_kind(kind) {
            None => {
                return None;
            },
            Some(k) => k,
        };
        let id = ItemId(self.items.len() as u32);
        let owner = &self.modules[owning.index()];
        let crate_id = owner.crate_id;
        assert(s.modules[owning.0 as int] == owner@);
        proof {
            assert(module_ok(s.crates, s.modules, owning.0 as int));
        }
        let canonical_path = match relative {
            Some(p) => join3(self.crates[crate_id.index()].name.as_str(), "::", p.as_str()),
            None => synthetic_path(owning, id, name),
        };
        assert(s.crates[crate_id.0 as int] == self.crates@[crate_id.0 as int]@);
        let item = Item {
            id,
            canonical_path,
            kind: k,
            visibility: map_visibility(visibility),
            owning_module: owning,
            crate_id,
            has_canonical_path: relative.is_some(),
            reachable_pub_api: false,
        };
        self.items.push(item);
        self.index_def(def, id);
        self.defs.push((def, id));
        proof {
            let after = self.state();
            assert(after.items =~= s.items.push(item@));
            crate::builder::lemma_shape_push_item(s.crates, s.modules, s.items, Seq::empty(), item@, Seq::empty(), -1);
            assert(after == s_add_item(s, def, kind, owning, opt_view(*relative), opt_view(*name), *visibility));
            assert forall|m: int| 0 <= m < after.modules.len() implies {
                module_item_ok(after.modules, after.items, m, #[trigger] after.module_items[m])
            } by {
                assert(after.items[after.module_items[m].0 as int] == s.items[s.module_items[m].0 as int]);
            }
            assert forall|q: int| 0 <= q < after.edges.len() implies {
                let e = #[trigger] after.edges[q];
                &&& e.weight > 0
                &&& e.from.0 < after.items.len()
                &&& e.to.0 < after.items.len()
                &&& e.from != e.to
            } by {
                assert(after.edges[q] == s.edges[q]);
            }
        }
        Some(id)
    }

    /// Adds the type or trait `def` declared in `parent` as a type container
    /// named `name`, under which its members go, with the type's own item
    /// owned by the container and sharing its path; the item is declared in
    /// `parent`. Nothing happens when `def` already has an item or is a module.
    pub fn add_type(
        &mut self,
        def: u64,
        kind: DefKind,
        parent: ModuleId,
        name: &str,
        visibility: &DeclaredVisibility,
    ) -> (r: Option<(ModuleId, ItemId)>)
        requires
            old(self).wf(),
            ra_room(old(self).state()),
            parent.0 < old(self).state().modules.len(),
        ensures
            final(self).wf(),
            final(self).state() == s_add_type(old(self).state(), def, kind, parent, name@, *visibility),
            r == (if def_item(old(self).state().defs, def) is None && spec_item_kind(kind) is Some {
                Some((ModuleId(old(self).state().modules.len() as u32), ItemId(old(self).state().items.len() as u32)))
            } else {
                None
            }),
    {
        let ghost s = self.state();
        if self.item_of(def).is_some() {
            return None;
        }
        let k = match item_kind(kind) {
            None => {
                return None;
            },
            Some(k) => k,
        };
        let mid = ModuleId(self.modules.len() as u32);
        let p = &self.modules[parent.index()];
        assert(s.modules[parent.0 as int] == p@);
        proof {
            assert(module_ok(s.crates, s.modules, parent.0 as int));
        }
        let path = join3(p.canonical_path.as_str(), "::", name);
        let item_path = path.clone();
        assert(item_path@ == path@);
        let crate_id = p.crate_id;
        let depth = p.depth + 1;
        let vis = map_visibility(visibility);
        let item_vis = vis.duplicate();
        self.modules.push(Module {
            id: mid,
            crate_id,
            parent: Some(parent),
            name: name.to_owned(),
            canonical_path: path,
            depth,
            visibility: vis,
            kind: ModuleKind::Type,
        });
        let ghost s1 = self.state();
        proof {
            let m = self.modules@.last()@;
            assert(s1.modules =~= s.modules.push(m));
            assert(s.modules.push(m)[parent.0 as int] == s.modules[parent.0 as int]);
            crate::builder::lemma_shape_push_module(s.crates, s.modules, s.items, Seq::empty(), m);
        }
        let id = ItemId(self.items.len() as u32);
        let item = Item {
            id,
            canonical_path: item_path,
            kind: k,
            visibility: item_vis,
            owning_module: mid,
            crate_id,
            has_canonical_path: true,
            reachable_pub_api: false,
        };
        self.items.push(item);
        proof {
            let s2 = self.state();
            assert(s2.items =~= s1.items.push(item@));
            assert(s1.modules[mid.0 as int] == self.modules@[mid.0 as int]@);
            crate::builder::lemma_shape_push_item(s1.crates, s1.modules, s1.items, Seq::empty(), item@, Seq::empty(), -1);
        }
        self.module_items.push(id);
        self.index_def(def, id);
        self.defs.push((def, id));
        self.declared.push(Vec::new());
        self.declared[parent.index()].push(id);
        proof {
            let after = self.state();
            assert(after.items =~= s.items.push(item@));
            assert(after.modules == s1.modules);
            assert(after.declared =~= s.declared.update(parent.0 as int, s.declared[parent.0 as int].push(id)).push(Seq::empty()));
            assert(after == s_add_type(s, def, kind, parent, name@, *visibility));
            assert forall|m: int| 0 <= m < after.modules.len() implies
                module_item_ok(after.modules, after.items, m, #[trigger] after.module_items[m]) by {
                if m < s.modules.len() {
                    assert(module_item_ok(s.modules, s.items, m, s.module_items[m]));
                    assert(after.module_items[m] == s.module_items[m]);
                    assert(after.modules[m] == s.modules[m]);
                    assert(after.items[s.module_items[m].0 as int] == s.items[s.module_items[m].0 as int]);
                } else {
                    assert(after.module_items[m] == id);
                    assert(after.items[id.0 as int] == item@);
                }
            }
            assert forall|r: int| 0 <= r < after.defs.len() implies (#[trigger] after.defs[r]).1.0 < after.items.len() by {
                if r < s.defs.len() {
                    assert(after.defs[r] == s.defs[r]);
                }
            }
            assert forall|a: int, q: int| 0 <= a < after.declared.len() && 0 <= q < after.declared[a].len()
                implies (#[trigger] after.declared[a][q]).0 < after.items.len() by {
                if a < s.declared.len() && (a != parent.0 || q < s.declared[a].len()) {
                    assert(after.declared[a][q] == s.declared[a][q]);
                }
            }
            assert forall|r: int| 0 <= r < after.reexports.len() implies (#[trigger] after.reexports[r]).0.0 < after.modules.len() && after.reexports[r].1.0 < after.items.len() by {
                assert(after.reexports[r] == s.reexports[r]);
            }
            assert forall|r: int| 0 <= r < after.globs.len() implies (#[trigger] after.globs[r]).0.0 < after.modules.len() && after.globs[r].1.0 < after.modules.len() by {
                assert(after.globs[r] == s.globs[r]);
            }
            assert forall|q: int| 0 <= q < after.edges.len() implies {
                let e = #[trigger] after.edges[q];
                &&& e.weight > 0
                &&& e.from.0 < after.items.len()
                &&& e.to.0 < after.items.len()
                &&& e.from != e.to
            } by {
                assert(after.edges[q] == s.edges[q]);
            }
        }
        Some((mid, id))
    }

    /// Adds the item of definition `def` as [`Self::add_item`] does, and records
    /// it among the declarations of `owning`.
    pub fn declare_item(
        &mut self,
        def: u64,
        kind: DefKind,
        owning: ModuleId,
        relative: &Option<String>,
        name: &Option<String>,
        visibility: &DeclaredVisibility,
    ) -> (r: Option<ItemId>)
        requires
            old(self).wf(),
            ra_room(old(self).state()),
            owning.0 < old(self).state().modules.len(),
        ensures
            final(self).wf(),
            final(self).state() == s_declare(
                s_add_item(old(self).state(), def, kind, owning, opt_view(*relative), opt_view(*name), *visibility),
                def,
                owning,
            ),
            r == def_item(final(self).state().defs, def),
    {
        self.add_item(def, kind, owning, relative, name, visibility);
        let ghost s = self.state();
        let found = self.item_of(def);
        match found {
            Some(id) => {
                proof {
                    lemma_def_item_bound(s.defs, def, s.items.len() as int);
                }
                self.declared[owning.index()].push(id);
                proof {
                    let after = self.state();
                    assert(after.declared =~= s.declared.update(owning.0 as int, s.declared[owning.0 as int].push(id)));
                    assert(after == s_declare(s, def, owning));
                    assert forall|a: int, k: int| 0 <= a < after.declared.len() && 0 <= k < after.declared[a].len()
                        implies (#[trigger] after.declared[a][k]).0 < after.items.len() by {
                        if a != owning.0 || k < s.declared[a].len() {
                            assert(after.declared[a][k] == s.declared[a][k]);
                        }
                    }
                }
            },
            None => {},
        }
        found
    }

    /// The weight recorded so far for `from -> to` of `kind`.
    pub fn edge_weight(&self, from: ItemId, to: ItemId, kind: RefKind) -> (r: u32)
        requires
            self.wf(),
        ensures
            r == weight_of(self.state().edges, from, to, kind),
    {
        let ghost edges = self.edges@;
        assert(edges == self.state().edges);
        let mut q: usize = 0;
        while q < self.edges.len()
            invariant
                q <= edges.len(),
                edges == self.edges@,
                edges_sorted(edges),
                forall|j: int| 0 <= j < q ==> !edge_is(#[trigger] edges[j], from, to, kind),
            decreases edges.len() - q,
        {
            let e = self.edges[q];
            if e.from == from && e.to == to && e.kind == kind {
                proof {
                    lemma_weight_at(edges, q as int);
                }
                return e.weight;
            }
            q = q + 1;
        }
        proof {
            lemma_weight_absent(edges, from, to, kind);
        }
        0
    }

    /// Records one reference `from -> to` of `kind`; a self-reference is not
    /// recorded.
    pub fn add_edge(&mut self, from: ItemId, to: ItemId, kind: RefKind)
        requires
            old(self).wf(),
            from.0 < old(self).state().items.len(),
            to.0 < old(self).state().items.len(),
            weight_of(old(self).state().edges, from, to, kind) < u32::MAX,
        ensures
            final(self).wf(),
            final(self).state() == (RaState { edges: final(self).state().edges, ..old(self).state() }),
            edges_after(old(self).state().edges, final(self).state().edges, from, to, kind),
    {
        let ghost s = self.state();
        if from != to {
            proof {
                assert forall|q: int| 0 <= q < s.edges.len() implies (#[trigger] s.edges[q]).weight > 0 by {}
            }
            add_weighted(&mut self.edges, from, to, kind);
            proof {
                let after = self.state();
                assert forall|q: int| 0 <= q < after.edges.len() implies {
                    let e = #[trigger] after.edges[q];
                    &&& e.weight > 0
                    &&& e.from.0 < after.items.len()
                    &&& e.to.0 < after.items.len()
                    &&& e.from != e.to
                } by {
                    let e = after.edges[q];
                    lemma_weight_at(after.edges, q);
                    if e.from == from && e.to == to && e.kind == kind {
                    } else {
                        assert(weight_of(s.edges, e.from, e.to, e.kind) > 0);
                        lemma_weight_positive_present(s.edges, e.from, e.to, e.kind);
                    }
                }
            }
        }
    }

    /// Records a reference from item `from` to definition `to`, when `to` has
    /// an item.
    pub fn add_ref(&mut self, from: ItemId, to: u64, kind: RefKind)
        requires
            old(self).wf(),
            from.0 < old(self).state().items.len(),
            def_item(old(self).state().defs, to) matches Some(t) ==> weight_of(old(self).state().edges, from, t, kind) < u32::MAX,
        ensures
            final(self).wf(),
            match def_item(old(self).state().defs, to) {
                Some(t) => {
                    &&& final(self).state() == (RaState { edges: final(self).state().edges, ..old(self).state() })
                    &&& edges_after(old(self).state().edges, final(self).state().edges, from, t, kind)
                },
                None => final(self).state() == old(self).state(),
            },
    {
        if let Some(t) = self.item_of(to) {
            proof {
                lemma_def_item_bound(self.state().defs, to, self.state().items.len() as int);
            }
            self.add_edge(from, t, kind);
        }
    }

    /// Couples an impl block's self type to its trait with an `Impl` edge, when
    /// both are definitions with items.
    pub fn add_impl(&mut self, self_ty: Option<u64>, trait_: Option<u64>)
        requires
            old(self).wf(),
            impl_pair(old(self).state(), self_ty, trait_) matches Some(p)
                ==> weight_of(old(self).state().edges, p.0, p.1, RefKind::Impl) < u32::MAX,
        ensures
            final(self).wf(),
            match impl_pair(old(self).state(), self_ty, trait_) {
                Some(p) => {
                    &&& final(self).state() == (RaState { edges: final(self).state().edges, ..old(self).state() })
                    &&& edges_after(old(self).state().edges, final(self).state().edges, p.0, p.1, RefKind::Impl)
                },
                None => final(self).state() == old(self).state(),
            },
    {
        if let (Some(a), Some(b)) = (self_ty, trait_) {
            if let (Some(f), Some(t)) = (self.item_of(a), self.item_of(b)) {
                proof {
                    lemma_def_item_bound(self.state().defs, a, self.state().items.len() as int);
                    lemma_def_item_bound(self.state().defs, b, self.state().items.len() as int);
                }
                self.add_edge(f, t, RefKind::Impl);
            }
        }
    }

    /// Records that `module` brings definition `def` into scope: an `Import`
    /// edge from the module's item, unless `def` is declared in `module` itself
    /// (`home`) or has no item.
    pub fn add_import(&mut self, module: ModuleId, def: u64, home: Option<ModuleId>)
        requires
            old(self).wf(),
            module.0 < old(self).state().modules.len(),
            import_target(old(self).state(), module, def, home) matches Some(t)
                ==> weight_of(old(self).state().edges, old(self).state().module_items[module.0 as int], t, RefKind::Import) < u32::MAX,
        ensures
            final(self).wf(),
            match import_target(old(self).state(), module, def, home) {
                Some(t) => {
                    &&& final(self).state() == (RaState { edges: final(self).state().edges, ..old(self).state() })
                    &&& edges_after(old(self).state().edges, final(self).state().edges,
                        old(self).state().module_items[module.0 as int], t, RefKind::Import)
                },
                None => final(self).state() == old(self).state(),
            },
    {
        if home == Some(module) {
            return;
        }
        let from = self.module_items[module.index()];
        proof {
            let s = self.state();
            assert(s.module_items[module.0 as int] == from);
        }
        self.add_ref(from, def, RefKind::Import);
    }

    /// Whether every entry of `scope` names existing items and modules.
    pub fn scope_fits(&self, scope: &Vec<ScopeEntry>) -> (r: bool)
        ensures
            r == scope_fits(self.state(), scope_views(scope@)),
    {
        let ghost sv = scope_views(scope@);
        let ghost st = self.state();
        let mut k: usize = 0;
        while k < scope.len()
            invariant
                k <= scope@.len(),
                sv == scope_views(scope@),
                st == self.state(),
                forall|j: int| 0 <= j < k ==> {
                    &&& (#[trigger] sv[j]).item matches Some(i) ==> i.0 < st.items.len()
                    &&& sv[j].module matches Some(m) ==> m.0 < st.modules.len()
                },
            decreases scope@.len() - k,
        {
            let e = &scope[k];
            assert(sv[k as int] == e@);
            let item_ok = match e.item {
                Some(i) => i.index() < self.items.len(),
                None => true,
            };
            let module_ok = match e.module {
                Some(m) => m.index() < self.modules.len(),
                None => true,
            };
            if !(item_ok && module_ok) {
                return false;
            }
            k = k + 1;
        }
        true
    }

    /// The first child of module `c` named `name`.
    fn child_named(&self, c: ModuleId, name: &str) -> (r: Option<ModuleId>)
        requires
            self.wf(),
        ensures
            r == child_named(self.state().modules, c, name@, self.state().modules.len() as int),
            r matches Some(m) ==> m.0 < self.state().modules.len(),
    {
        let ghost ms = self.state().modules;
        let mut j: usize = 0;
        while j < self.modules.len()
            invariant
                j <= self.modules@.len(),
                ms == self.state().modules,
                ms.len() == self.modules@.len(),
                ms.len() <= u32::MAX,
                child_named(ms, c, name@, j as int) is None,
            decreases self.modules@.len() - j,
        {
            let m = &self.modules[j];
            assert(ms[j as int] == m@);
            if m.parent == Some(c) && crate::text::str_eq(m.name.as_str(), name) {
                assert(child_named(ms, c, name@, j + 1) == Some(ModuleId(j as u32)));
                proof {
                    lemma_child_named_stable(ms, c, name@, j + 1, ms.len() as int);
                }
                return Some(ModuleId(j as u32));
            }
            j = j + 1;
        }
        None
    }

    /// Resolves a path (the segments of a glob's prefix) to a module, following
    /// `crate`, `self` and `super` and descending through child modules.
    pub fn resolve_module_path(&self, module: ModuleId, scope: &Vec<ScopeEntry>, segments: &Vec<String>) -> (r: Option<ModuleId>)
        requires
            self.wf(),
            module.0 < self.state().modules.len(),
            scope_fits(self.state(), scope_views(scope@)),
        ensures
            r == resolve_path(ctx_of(self.state()), module, scope_views(scope@), str_views(segments@)),
            r matches Some(m) ==> m.0 < self.state().modules.len(),
    {
        proof {
            reveal_strlit("crate");
            reveal_strlit("self");
            reveal_strlit("super");
        }
        let ghost st = self.state();
        let ghost segs = str_views(segments@);
        if segments.len() == 0 {
            return None;
        }
        let first = segments[0].as_str();
        assert(segs[0] == first@);
        let m = &self.modules[module.index()];
        assert(st.modules[module.0 as int] == m@);
        proof {
            assert(module_ok(st.crates, st.modules, module.0 as int));
        }
        let start = if crate::text::str_eq(first, "crate") {
            let root = self.crates[m.crate_id.index()].root_module;
            proof {
                assert(st.crates[m.crate_id.0 as int] == self.crates@[m.crate_id.0 as int]@);
                assert(crate_ok(st.crates, st.modules, m.crate_id.0 as int));
            }
            Some(root)
        } else if crate::text::str_eq(first, "self") {
            Some(module)
        } else if crate::text::str_eq(first, "super") {
            m.parent
        } else {
            match lookup_scope(scope, first) {
                Some(e) => {
                    proof {
                        lemma_scope_lookup_fits(st, scope_views(scope@), first@);
                    }
                    e.1
                },
                None => None,
            }
        };
        let mut cur = match start {
            Some(c) => c,
            None => {
                return None;
            },
        };
        let mut k: usize = 1;
        assert(segs.drop_first() =~= segs.subrange(1, segs.len() as int));
        while k < segments.len()
            invariant
                1 <= k <= segments@.len(),
                segs == str_views(segments@),
                st == self.state(),
                ra_wf(st),
                self.index_ok(),
                cur.0 < st.modules.len(),
                resolve_path(ctx_of(st), module, scope_views(scope@), segs) == descend(st.modules, cur, segs.subrange(k as int, segs.len() as int)),
            decreases segments@.len() - k,
        {
            let seg = segments[k].as_str();
            let ghost rest = segs.subrange(k as int, segs.len() as int);
            assert(rest[0] == seg@);
            assert(rest.drop_first() =~= segs.subrange(k + 1, segs.len() as int));
            let next = if crate::text::str_eq(seg, "super") {
                let c = &self.modules[cur.index()];
                assert(st.modules[cur.0 as int] == c@);
                proof {
                    assert(module_ok(st.crates, st.modules, cur.0 as int));
                }
                c.parent
            } else {
                self.child_named(cur, seg)
            };
            match next {
                Some(n) => {
                    cur = n;
                },
                None => {
                    return None;
                },
            }
            k = k + 1;
        }
        assert(segs.subrange(k as int, segs.len() as int).len() == 0);
        Some(cur)
    }

    /// The graph: the crates, modules, items and summed edges accumulated, with
    /// each item's public-API flag computed (re-exports count only from
    /// publicly reachable modules).
    pub fn finish(self) -> (g: CrateGraph)
        requires
            self.wf(),
        ensures
            ra_finished(self.state(), g),
    {
        let ghost s = self.state();
        let flags = self.exposed_modules();
        let mut public: Vec<ItemId> = Vec::new();
        let mut r: usize = 0;
        while r < self.reexports.len()
            invariant
                r <= self.reexports@.len(),
                s == self.state(),
                ra_wf(s),
                flags@.len() == self.modules@.len(),
                forall|j: int| 0 <= j < flags@.len() ==> flags@[j] == exposes_reexports(s, ModuleId(j as u32)),
                forall|id: ItemId| public@.contains(id) <==> exists|q: int| 0 <= q < r && (#[trigger] s.reexports[q]).1 == id
                    && exposes_reexports(s, s.reexports[q].0),
            decreases self.reexports@.len() - r,
        {
            let (m, id) = self.reexports[r];
            assert(s.reexports[r as int] == (m, id));
            let ghost before = public@;
            if flags[m.index()] {
                public.push(id);
            }
            assert forall|x: ItemId| public@.contains(x) <==> exists|q: int| 0 <= q < r + 1 && (#[trigger] s.reexports[q]).1 == x
                && exposes_reexports(s, s.reexports[q].0) by {
                if public@.contains(x) {
                    let k = choose|k: int| 0 <= k < public@.len() && public@[k] == x;
                    if k < before.len() {
                        assert(before[k] == x);
                        assert(before.contains(x));
                    } else {
                        assert(s.reexports[r as int].1 == x);
                    }
                }
                if exists|q: int| 0 <= q < r + 1 && (#[trigger] s.reexports[q]).1 == x && exposes_reexports(s, s.reexports[q].0) {
                    let q = choose|q: int| 0 <= q < r + 1 && (#[trigger] s.reexports[q]).1 == x && exposes_reexports(s, s.reexports[q].0);
                    if q < r {
                        assert(before.contains(x));
                        let k = choose|k: int| 0 <= k < before.len() && before[k] == x;
                        assert(public@[k] == x);
                    } else {
                        assert(public@[before.len() as int] == x);
                    }
                }
            }
            r = r + 1;
        }
        let mut graph = CrateGraph {
            schema_version: SCHEMA_VERSION,
            ra_version: RA_VERSION.to_owned(),
            root_crate: CrateId(0),
            crates: self.crates,
            modules: self.modules,
            items: self.items,
            edges: self.edges,
        };
        graph.compute_public_api_with_reexports(&public);
        proof {
            assert forall|i: int| 0 <= i < graph.items@.len() implies (#[trigger] graph.items@[i])@ == ItemView {
                reachable_pub_api: item_public_api(s.modules, s.items[i]) || publicly_reexported(s, ItemId(i as u32)),
                ..s.items[i]
            } by {
                assert(s.items[i] == self.items@[i]@);
            }
        }
        graph
    }

    /// Marks, for every module, whether what it re-exports is public API: the
    /// publicly reachable modules, and those that globs lead to from them.
    fn exposed_modules(&self) -> (e: Vec<bool>)
        requires
            self.wf(),
        ensures
            e@.len() == self.state().modules.len(),
            forall|j: int| 0 <= j < e@.len() ==> e@[j] == exposes_reexports(self.state(), ModuleId(j as u32)),
    {
        let ghost s = self.state();
        let n = self.modules.len();
        let mut e = public_modules(&self.modules);
        assert(s.modules.len() == n);
        assert(n <= u32::MAX);
        assert forall|j: int| 0 <= j < n && #[trigger] e@[j] implies exposes_reexports(s, ModuleId(j as u32)) by {
            lemma_public_module_exposes(s, ModuleId(j as u32));
        }
        assert(forall|r: int| 0 <= r < s.globs.len() ==> (#[trigger] s.globs[r]).0.0 < n && s.globs[r].1.0 < n);
        loop
            invariant
                s == self.state(),
                n == s.modules.len(),
                n <= u32::MAX,
                e@.len() == n,
                forall|r: int| 0 <= r < s.globs.len() ==> (#[trigger] s.globs[r]).0.0 < n && s.globs[r].1.0 < n,
                forall|j: int| 0 <= j < n ==> module_chain_public(s.modules, j as nat) ==> #[trigger] e@[j],
                forall|j: int| 0 <= j < n && #[trigger] e@[j] ==> exposes_reexports(s, ModuleId(j as u32)),
            ensures
                e@.len() == n,
                forall|j: int| 0 <= j < n ==> module_chain_public(s.modules, j as nat) ==> #[trigger] e@[j],
                forall|j: int| 0 <= j < n && #[trigger] e@[j] ==> exposes_reexports(s, ModuleId(j as u32)),
                forall|q: int| 0 <= q < s.globs.len() && e@[(#[trigger] s.globs[q]).0.0 as int] ==> e@[s.globs[q].1.0 as int],
            decreases n - trues(e@),
        {
            proof {
                lemma_trues_bound(e@);
            }
            let ghost start = e@;
            let mut changed = false;
            let mut q: usize = 0;
            while q < self.globs.len()
                invariant
                    s == self.state(),
                    n == s.modules.len(),
                    n <= u32::MAX,
                    e@.len() == n,
                    q <= s.globs.len(),
                    forall|r: int| 0 <= r < s.globs.len() ==> (#[trigger] s.globs[r]).0.0 < n && s.globs[r].1.0 < n,
                    forall|j: int| 0 <= j < n ==> module_chain_public(s.modules, j as nat) ==> #[trigger] e@[j],
                    forall|j: int| 0 <= j < n && #[trigger] e@[j] ==> exposes_reexports(s, ModuleId(j as u32)),
                    !changed ==> e@ == start,
                    changed ==> trues(e@) > trues(start),
                    !changed ==> forall|r: int| 0 <= r < q && e@[(#[trigger] s.globs[r]).0.0 as int] ==> e@[s.globs[r].1.0 as int],
                decreases s.globs.len() - q,
            {
                let (m, t) = self.globs[q];
                assert(s.globs[q as int] == (m, t));
                if e[m.index()] && !e[t.index()] {
                    let ghost before = e@;
                    proof {
                        lemma_trues_set(before, t.0 as int);
                        assert(exposes_reexports(s, ModuleId(m.0 as int as u32)));
                        assert(ModuleId(m.0 as int as u32) == m);
                        assert(s.globs.contains((m, t)));
                        lemma_glob_exposes(s, m, t);
                        assert(ModuleId(t.0 as int as u32) == t);
                    }
                    e.set(t.index(), true);
                    assert(e@ == before.update(t.0 as int, true));
                    changed = true;
                }
                q = q + 1;
            }
            if !changed {
                break;
            }
            proof {
                lemma_trues_bound(e@);
            }
        }
        proof {
            assert forall|j: int| 0 <= j < e@.len() implies e@[j] == exposes_reexports(s, ModuleId(j as u32)) by {
                if exposes_reexports(s, ModuleId(j as u32)) {
                    lemma_exposed_marked(s, e@, ModuleId(j as u32));
                }
            }
        }
        e
    }

    /// Records that `module` glob-re-exports the public names of `target`.
    fn push_glob(&mut self, module: ModuleId, target: ModuleId)
        requires
            old(self).wf(),
            module.0 < old(self).state().modules.len(),
            target.0 < old(self).state().modules.len(),
        ensures
            final(self).wf(),
            final(self).state() == (RaState { globs: final(self).state().globs, ..old(self).state() }),
            globs_after(old(self).state().globs, final(self).state().globs, module, set![target]),
    {
        let ghost s = self.state();
        self.globs.push((module, target));
        proof {
            let after = self.state();
            let before = s.globs;
            assert(after.globs == before.push((module, target)));
            assert forall|p: (ModuleId, ModuleId)| #[trigger] after.globs.contains(p) <==> (before.contains(p) || (p.0 == module && set![target].contains(p.1))) by {
                if after.globs.contains(p) {
                    let q = choose|q: int| 0 <= q < after.globs.len() && after.globs[q] == p;
                    if q < before.len() {
                        assert(before[q] == p);
                    }
                }
                if before.contains(p) {
                    let q = choose|q: int| 0 <= q < before.len() && before[q] == p;
                    assert(after.globs[q] == p);
                }
                if p.0 == module && set![target].contains(p.1) {
                    assert(p == (module, target));
                    assert(after.globs[before.len() as int] == p);
                }
            }
            assert forall|r: int| 0 <= r < after.globs.len() implies (#[trigger] after.globs[r]).0.0 < after.modules.len() && after.globs[r].1.0 < after.modules.len() by {
                if r < before.len() {
                    assert(after.globs[r] == before[r]);
                }
            }
            assert(after == RaState { globs: after.globs, ..s });
        }
    }

    /// Records item `id` as re-exported from `module`.
    fn push_reexport(&mut self, module: ModuleId, id: ItemId)
        requires
            old(self).wf(),
            module.0 < old(self).state().modules.len(),
            id.0 < old(self).state().items.len(),
        ensures
            final(self).wf(),
            final(self).state() == (RaState { reexports: final(self).state().reexports, ..old(self).state() }),
            reexports_after(old(self).state().reexports, final(self).state().reexports, module, set![id]),
    {
        let ghost s = self.state();
        self.reexports.push((module, id));
        proof {
            let after = self.state();
            let before = s.reexports;
            assert(after.reexports == before.push((module, id)));
            assert forall|p: (ModuleId, ItemId)| #[trigger] after.reexports.contains(p) <==> (before.contains(p) || (p.0 == module && set![id].contains(p.1))) by {
                if after.reexports.contains(p) {
                    let q = choose|q: int| 0 <= q < after.reexports.len() && after.reexports[q] == p;
                    if q < before.len() {
                        assert(before[q] == p);
                    }
                }
                if before.contains(p) {
                    let q = choose|q: int| 0 <= q < before.len() && before[q] == p;
                    assert(after.reexports[q] == p);
                }
                if p.0 == module && set![id].contains(p.1) {
                    assert(p == (module, id));
                    assert(after.reexports[before.len() as int] == p);
                }
            }
            assert forall|r: int| 0 <= r < after.reexports.len() implies (#[trigger] after.reexports[r]).0.0 < after.modules.len() && after.reexports[r].1.0 < after.items.len() by {
                if r < before.len() {
                    assert(after.reexports[r] == before[r]);
                }
            }
            assert(after == RaState { reexports: after.reexports, ..s });
        }
    }

    /// Records the items and glob targets a `use` tree re-exports from
    /// `module`; `prefix` is the path of its enclosing trees.
    fn collect_use_tree(&mut self, module: ModuleId, scope: &Vec<ScopeEntry>, tree: &UseTree, prefix: &Vec<String>)
        requires
            old(self).wf(),
            module.0 < old(self).state().modules.len(),
            scope_fits(old(self).state(), scope_views(scope@)),
        ensures
            final(self).wf(),
            final(self).state() == (RaState {
                reexports: final(self).state().reexports,
                globs: final(self).state().globs,
                ..old(self).state()
            }),
            reexports_after(old(self).state().reexports, final(self).state().reexports, module,
                tree_targets(ctx_of(old(self).state()), module, scope_views(scope@), str_views(prefix@), *tree)),
            globs_after(old(self).state().globs, final(self).state().globs, module,
                tree_globs(ctx_of(old(self).state()), module, scope_views(scope@), str_views(prefix@), *tree)),
        decreases tree,
    {
        let ghost s = self.state();
        let ghost c = ctx_of(s);
        let ghost sv = scope_views(scope@);
        let full = concat_path(prefix, &tree.path);
        let ghost fv = str_views(full@);
        proof {
            assert(reexports_after(s.reexports, s.reexports, module, Set::empty()));
            assert(globs_after(s.globs, s.globs, module, Set::empty()));
        }
        match &tree.kind {
            UseTreeKind::List(subs) => {
                let mut i: usize = 0;
                proof {
                    assert(list_targets(c, module, sv, fv, subs@, 0) == Set::<ItemId>::empty());
                    assert(list_globs(c, module, sv, fv, subs@, 0) == Set::<ModuleId>::empty());
                }
                while i < subs.len()
                    invariant
                        i <= subs@.len(),
                        tree.kind == UseTreeKind::List(*subs),
                        self.wf(),
                        self.state() == (RaState { reexports: self.state().reexports, globs: self.state().globs, ..s }),
                        c == ctx_of(s),
                        sv == scope_views(scope@),
                        fv == str_views(full@),
                        module.0 < s.modules.len(),
                        scope_fits(s, sv),
                        reexports_after(s.reexports, self.state().reexports, module, list_targets(c, module, sv, fv, subs@, i as int)),
                        globs_after(s.globs, self.state().globs, module, list_globs(c, module, sv, fv, subs@, i as int)),
                    decreases subs@.len() - i,
                {
                    let ghost mid = self.state();
                    proof {
                        assert(tree.kind->List_0 == *subs);
                        assert(decreases_to!(tree.kind => tree.kind->List_0));
                    }
                    self.collect_use_tree(module, scope, &subs[i], &full);
                    proof {
                        let after = self.state();
                        assert(ctx_of(mid) == c);
                        lemma_reexports_after_trans(s.reexports, mid.reexports, after.reexports, module,
                            list_targets(c, module, sv, fv, subs@, i as int), tree_targets(c, module, sv, fv, subs@[i as int]));
                        lemma_globs_after_trans(s.globs, mid.globs, after.globs, module,
                            list_globs(c, module, sv, fv, subs@, i as int), tree_globs(c, module, sv, fv, subs@[i as int]));
                        assert(list_targets(c, module, sv, fv, subs@, i + 1)
                            == list_targets(c, module, sv, fv, subs@, i as int).union(tree_targets(c, module, sv, fv, subs@[i as int])));
                        assert(list_globs(c, module, sv, fv, subs@, i + 1)
                            == list_globs(c, module, sv, fv, subs@, i as int).union(tree_globs(c, module, sv, fv, subs@[i as int])));
                    }
                    i = i + 1;
                }
            },
            UseTreeKind::Glob => {
                match self.resolve_module_path(module, scope, &full) {
                    Some(t) => {
                        self.reexport_public_declarations(module, t);
                        let ghost mid = self.state();
                        self.push_glob(module, t);
                        proof {
                            let after = self.state();
                            assert(after.reexports == mid.reexports);
                            assert(mid.globs == s.globs);
                        }
                    },
                    None => {},
                }
            },
            UseTreeKind::Single { alias } => {
                let name: Option<&str> = match alias {
                    Some(a) => Some(a.as_str()),
                    None => if full.len() > 0 {
                        Some(full[full.len() - 1].as_str())
                    } else {
                        None
                    },
                };
                assert(name matches Some(n) ==> imported_name(*alias, fv) == Some(n@));
                assert(name is None ==> imported_name(*alias, fv) is None);
                let found = match name {
                    Some(n) => match lookup_scope(scope, n) {
                        Some((item, _)) => {
                            proof {
                                lemma_scope_lookup_fits(s, sv, n@);
                            }
                            item
                        },
                        None => None,
                    },
                    None => None,
                };
                match found {
                    Some(id) => {
                        self.push_reexport(module, id);
                    },
                    None => {},
                }
            },
        }
    }

    /// Records the re-exports of `module`'s `use` items: each plainly `pub` one
    /// re-exports what its tree names.
    pub fn collect_reexports(&mut self, module: ModuleId, scope: &Vec<ScopeEntry>, uses: &Vec<UseItem>)
        requires
            old(self).wf(),
            module.0 < old(self).state().modules.len(),
            scope_fits(old(self).state(), scope_views(scope@)),
        ensures
            final(self).wf(),
            final(self).state() == (RaState {
                reexports: final(self).state().reexports,
                globs: final(self).state().globs,
                ..old(self).state()
            }),
            reexports_after(old(self).state().reexports, final(self).state().reexports, module,
                use_targets(ctx_of(old(self).state()), module, scope_views(scope@), uses@)),
            globs_after(old(self).state().globs, final(self).state().globs, module,
                use_globs(ctx_of(old(self).state()), module, scope_views(scope@), uses@)),
    {
        let ghost s = self.state();
        let ghost c = ctx_of(s);
        let ghost sv = scope_views(scope@);
        let empty: Vec<String> = Vec::new();
        assert(str_views(empty@) =~= Seq::empty());
        let mut k: usize = 0;
        proof {
            assert(reexports_after(s.reexports, s.reexports, module, Set::empty()));
            assert(globs_after(s.globs, s.globs, module, Set::empty()));
            assert(use_targets(c, module, sv, uses@.take(0)) =~= Set::empty());
            assert(use_globs(c, module, sv, uses@.take(0)) =~= Set::empty());
        }
        while k < uses.len()
            invariant
                k <= uses@.len(),
                self.wf(),
                self.state() == (RaState { reexports: self.state().reexports, globs: self.state().globs, ..s }),
                c == ctx_of(s),
                sv == scope_views(scope@),
                str_views(empty@) == Seq::<Seq<char>>::empty(),
                module.0 < s.modules.len(),
                scope_fits(s, sv),
                reexports_after(s.reexports, self.state().reexports, module, use_targets(c, module, sv, uses@.take(k as int))),
                globs_after(s.globs, self.state().globs, module, use_globs(c, module, sv, uses@.take(k as int))),
            decreases uses@.len() - k,
        {
            let ghost mid = self.state();
            let u = &uses[k];
            proof {
                assert(reexports_after(mid.reexports, mid.reexports, module, Set::empty()));
                assert(globs_after(mid.globs, mid.globs, module, Set::empty()));
            }
            match &u.tree {
                Some(t) => {
                    if u.plain_pub {
                        self.collect_use_tree(module, scope, t, &empty);
                    }
                },
                None => {},
            }
            proof {
                let after = self.state();
                let here = use_item_targets(c, module, sv, uses@[k as int]);
                let here_globs = use_item_globs(c, module, sv, uses@[k as int]);
                assert(reexports_after(mid.reexports, after.reexports, module, here));
                assert(globs_after(mid.globs, after.globs, module, here_globs));
                lemma_reexports_after_trans(s.reexports, mid.reexports, after.reexports, module,
                    use_targets(c, module, sv, uses@.take(k as int)), here);
                lemma_globs_after_trans(s.globs, mid.globs, after.globs, module,
                    use_globs(c, module, sv, uses@.take(k as int)), here_globs);
                let lhs = use_targets(c, module, sv, uses@.take(k + 1));
                let rhs = use_targets(c, module, sv, uses@.take(k as int)).union(here);
                assert forall|id: ItemId| lhs.contains(id) <==> rhs.contains(id) by {
                    if lhs.contains(id) {
                        let q = choose|q: int| 0 <= q < k + 1 && #[trigger] use_item_targets(c, module, sv, uses@.take(k + 1)[q]).contains(id);
                        if q < k {
                            assert(uses@.take(k + 1)[q] == uses@.take(k as int)[q]);
                        }
                    }
                    if use_targets(c, module, sv, uses@.take(k as int)).contains(id) {
                        let q = choose|q: int| 0 <= q < k && #[trigger] use_item_targets(c, module, sv, uses@.take(k as int)[q]).contains(id);
                        assert(uses@.take(k + 1)[q] == uses@.take(k as int)[q]);
                    }
                    if here.contains(id) {
                        assert(uses@.take(k + 1)[k as int] == uses@[k as int]);
                    }
                }
                assert(lhs =~= rhs);
                let glhs = use_globs(c, module, sv, uses@.take(k + 1));
                let grhs = use_globs(c, module, sv, uses@.take(k as int)).union(here_globs);
                assert forall|m: ModuleId| glhs.contains(m) <==> grhs.contains(m) by {
                    if glhs.contains(m) {
                        let q = choose|q: int| 0 <= q < k + 1 && #[trigger] use_item_globs(c, module, sv, uses@.take(k + 1)[q]).contains(m);
                        if q < k {
                            assert(uses@.take(k + 1)[q] == uses@.take(k as int)[q]);
                        }
                    }
                    if use_globs(c, module, sv, uses@.take(k as int)).contains(m) {
                        let q = choose|q: int| 0 <= q < k && #[trigger] use_item_globs(c, module, sv, uses@.take(k as int)[q]).contains(m);
                        assert(uses@.take(k + 1)[q] == uses@.take(k as int)[q]);
                    }
                    if here_globs.contains(m) {
                        assert(uses@.take(k + 1)[k as int] == uses@[k as int]);
                    }
                }
                assert(glhs =~= grhs);
            }
            k = k + 1;
        }
        assert(uses@.take(uses@.len() as int) =~= uses@);
    }

    /// Records the public declarations of module `target` as re-exported
    /// from `module`.
    fn reexport_public_declarations(&mut self, module: ModuleId, target: ModuleId)
        requires
            old(self).wf(),
            module.0 < old(self).state().modules.len(),
            target.0 < old(self).state().modules.len(),
        ensures
            final(self).wf(),
            final(self).state() == (RaState { reexports: final(self).state().reexports, ..old(self).state() }),
            reexports_after(old(self).state().reexports, final(self).state().reexports, module,
                public_declarations(ctx_of(old(self).state()), target)),
    {
        let ghost s = self.state();
        let ghost c = ctx_of(s);
        let n = self.declared[target.index()].len();
        let mut k: usize = 0;
        while k < n
            invariant
                k <= n,
                n == s.declared[target.0 as int].len(),
                self.wf(),
                self.state() == (RaState { reexports: self.state().reexports, ..s }),
                c == ctx_of(s),
                module.0 < s.modules.len(),
                target.0 < s.modules.len(),
                reexports_after(s.reexports, self.state().reexports, module,
                    Set::new(|id: ItemId| s.declared[target.0 as int].take(k as int).contains(id) && s.items[id.0 as int].visibility is Public)),
            decreases n - k,
        {
            let id = self.declared[target.index()][k];
            assert(self.state().declared[target.0 as int][k as int] == id);
            assert(id.0 < s.items.len());
            assert(s.items[id.0 as int] == self.items@[id.0 as int]@);
            let public = self.items[id.index()].visibility.is_public();
            let ghost before = self.state().reexports;
            let ghost before_state = self.state();
            let ghost dk = s.declared[target.0 as int];
            assert(dk.take(k + 1) =~= dk.take(k as int).push(id));
            if public {
                self.reexports.push((module, id));
                proof {
                    let after = self.state();
                    assert(after.reexports == before.push((module, id)));
                    assert forall|p: (ModuleId, ItemId)| #[trigger] after.reexports.contains(p) <==> (before.contains(p) || p == (module, id)) by {
                        if after.reexports.contains(p) {
                            let q = choose|q: int| 0 <= q < after.reexports.len() && after.reexports[q] == p;
                            if q < before.len() {
                                assert(before[q] == p);
                            }
                        }
                        if before.contains(p) {
                            let q = choose|q: int| 0 <= q < before.len() && before[q] == p;
                            assert(after.reexports[q] == p);
                        }
                        if p == (module, id) {
                            assert(after.reexports[before.len() as int] == p);
                        }
                    }
                    assert forall|r: int| 0 <= r < after.reexports.len() implies (#[trigger] after.reexports[r]).0.0 < after.modules.len() && after.reexports[r].1.0 < after.items.len() by {
                        if r < before.len() {
                            assert(after.reexports[r] == before[r]);
                        }
                    }
                    assert(after == RaState { reexports: after.reexports, ..before_state });
                    assert(ra_wf(before_state));
                    assert(ra_wf(after));
                }
            }
            proof {
                let after = self.state();
                let sk = Set::new(|x: ItemId| dk.take(k as int).contains(x) && s.items[x.0 as int].visibility is Public);
                let sk1 = Set::new(|x: ItemId| dk.take(k + 1).contains(x) && s.items[x.0 as int].visibility is Public);
                assert forall|x: ItemId| sk1.contains(x) <==> (sk.contains(x) || (x == id && public)) by {
                    if dk.take(k + 1).contains(x) {
                        let q = choose|q: int| 0 <= q < k + 1 && #[trigger] dk.take(k + 1)[q] == x;
                        if q < k {
                            assert(dk.take(k as int)[q] == x);
                        }
                    }
                    if dk.take(k as int).contains(x) {
                        let q = choose|q: int| 0 <= q < k && #[trigger] dk.take(k as int)[q] == x;
                        assert(dk.take(k + 1)[q] == x);
                    }
                    if x == id {
                        assert(dk.take(k + 1)[k as int] == x);
                    }
                }
            }
            k = k + 1;
        }
        proof {
            let dk = s.declared[target.0 as int];
            assert(dk.take(n as int) =~= dk);
            let a = Set::new(|id: ItemId| dk.take(n as int).contains(id) && s.items[id.0 as int].visibility is Public);
            assert(a =~= public_declarations(c, target));
        }
    }
}

/// Whether item `id` is re-exported by a module that is publicly reachable.
pub open spec fn publicly_reexported(s: RaState, id: ItemId) -> bool {
    exists|r: int| 0 <= r < s.reexports.len() && (#[trigger] s.reexports[r]).1 == id
        && exposes_reexports(s, s.reexports[r].0)
}

/// Whether `p` is a chain of glob re-exports: each module of it
/// glob-re-exports the public names of the next.
pub open spec fn glob_chain(globs: Seq<(ModuleId, ModuleId)>, p: Seq<ModuleId>) -> bool {
    &&& p.len() > 0
    &&& forall|k: int| 0 <= k < p.len() - 1 ==> globs.contains((#[trigger] p[k], p[k + 1]))
}

/// Whether what module `m` re-exports is public API: a chain of glob
/// re-exports leads to `m` from a publicly reachable module (the chain may be
/// `m` alone).
#[verifier::opaque]
pub open spec fn exposes_reexports(s: RaState, m: ModuleId) -> bool {
    exists|p: Seq<ModuleId>| #[trigger] glob_chain(s.globs, p) && p.last() == m && module_chain_public(s.modules, p[0].0 as nat)
}

/// A publicly reachable module exposes what it re-exports.
pub proof fn lemma_public_module_exposes(s: RaState, m: ModuleId)
    requires
        module_chain_public(s.modules, m.0 as nat),
    ensures
        exposes_reexports(s, m),
{
    reveal(exposes_reexports);
    let p = seq![m];
    assert(glob_chain(s.globs, p));
}

/// A glob from a module that exposes what it re-exports exposes its target's.
#[verifier::spinoff_prover]
pub proof fn lemma_glob_exposes(s: RaState, m: ModuleId, t: ModuleId)
    requires
        exposes_reexports(s, m),
        s.globs.contains((m, t)),
    ensures
        exposes_reexports(s, t),
{
    reveal(exposes_reexports);
    let p = choose|p: Seq<ModuleId>| #[trigger] glob_chain(s.globs, p) && p.last() == m && module_chain_public(s.modules, p[0].0 as nat);
    let p2 = p.push(t);
    assert forall|k: int| 0 <= k < p2.len() - 1 implies s.globs.contains((#[trigger] p2[k], p2[k + 1])) by {
        if k < p.len() - 1 {
            assert(p2[k] == p[k] && p2[k + 1] == p[k + 1]);
        } else {
            assert(p2[k] == m && p2[k + 1] == t);
        }
    }
    assert(glob_chain(s.globs, p2));
    assert(p2[0] == p[0]);
}

/// With every publicly reachable module marked, and every glob from a marked
/// module leading to a marked one, every module that exposes what it
/// re-exports is marked.
proof fn lemma_exposed_marked(s: RaState, e: Seq<bool>, m: ModuleId)
    requires
        e.len() == s.modules.len(),
        forall|r: int| 0 <= r < s.globs.len() ==> (#[trigger] s.globs[r]).0.0 < s.modules.len() && s.globs[r].1.0 < s.modules.len(),
        forall|j: int| 0 <= j < e.len() ==> module_chain_public(s.modules, j as nat) ==> #[trigger] e[j],
        forall|q: int| 0 <= q < s.globs.len() && e[(#[trigger] s.globs[q]).0.0 as int] ==> e[s.globs[q].1.0 as int],
        exposes_reexports(s, m),
        m.0 < s.modules.len(),
    ensures
        e[m.0 as int],
{
    reveal(exposes_reexports);
    let p = choose|p: Seq<ModuleId>| #[trigger] glob_chain(s.globs, p) && p.last() == m && module_chain_public(s.modules, p[0].0 as nat);
    if p.len() > 1 {
        assert(s.globs.contains((p[0], p[1])));
        let r = choose|r: int| 0 <= r < s.globs.len() && s.globs[r] == (p[0], p[1]);
        assert(s.globs[r].0.0 < s.modules.len());
    }
    assert(p[0].0 < s.modules.len()) by {
        if p.len() == 1 {
            assert(p[0] == p.last());
        }
    }
    assert(module_chain_public(s.modules, p[0].0 as nat));
    assert(e[p[0].0 as int]);
    lemma_chain_marked(s.globs, e, p, p.len() - 1);
}

/// The number of `true` entries.
pub open spec fn trues(v: Seq<bool>) -> nat
    decreases v.len(),
{
    if v.len() == 0 {
        0
    } else {
        trues(v.drop_last()) + if v.last() { 1nat } else { 0nat }
    }
}

proof fn lemma_trues_set(v: Seq<bool>, j: int)
    requires
        0 <= j < v.len(),
        !v[j],
    ensures
        trues(v.update(j, true)) == trues(v) + 1,
    decreases v.len(),
{
    let w = v.update(j, true);
    if j == v.len() - 1 {
        assert(w.drop_last() =~= v.drop_last());
    } else {
        lemma_trues_set(v.drop_last(), j);
        assert(w.drop_last() =~= v.drop_last().update(j, true));
    }
}

proof fn lemma_trues_bound(v: Seq<bool>)
    ensures
        trues(v) <= v.len(),
    decreases v.len(),
{
    if v.len() > 0 {
        lemma_trues_bound(v.drop_last());
    }
}

/// Along a glob chain whose first module is marked, with every glob from a
/// marked module leading to a marked one, every module is marked.
proof fn lemma_chain_marked(globs: Seq<(ModuleId, ModuleId)>, e: Seq<bool>, p: Seq<ModuleId>, k: int)
    requires
        glob_chain(globs, p),
        0 <= k < p.len(),
        e[p[0].0 as int],
        forall|q: int| 0 <= q < globs.len() && e[(#[trigger] globs[q]).0.0 as int] ==> e[globs[q].1.0 as int],
    ensures
        e[p[k].0 as int],
    decreases k,
{
    if k > 0 {
        lemma_chain_marked(globs, e, p, k - 1);
        assert(globs.contains((p[k - 1], p[k])));
        let q = choose|q: int| 0 <= q < globs.len() && globs[q] == (p[k - 1], p[k]);
        assert(e[globs[q].0.0 as int]);
    }
}

/// What `finish` builds from a builder: its crates, modules and edges as they
/// are, and its items with the public-API flag set for those that are public
/// with a public module chain, or re-exported by a publicly reachable module.
pub open spec fn ra_finished(s: RaState, g: CrateGraph) -> bool {
    &&& g.schema_version == SCHEMA_VERSION
    &&& g.ra_version@ == RA_VERSION@
    &&& g.root_crate == CrateId(0)
    &&& crate_views(g.crates@) == s.crates
    &&& module_views(g.modules@) == s.modules
    &&& g.edges@ == s.edges
    &&& g.items@.len() == s.items.len()
    &&& forall|i: int| 0 <= i < g.items@.len() ==> (#[trigger] g.items@[i])@ == ItemView {
        reachable_pub_api: item_public_api(s.modules, s.items[i]) || publicly_reexported(s, ItemId(i as u32)),
        ..s.items[i]
    }
}

/// Recording re-exports in two steps records the union.
proof fn lemma_reexports_after_trans(
    a: Seq<(ModuleId, ItemId)>,
    b: Seq<(ModuleId, ItemId)>,
    c: Seq<(ModuleId, ItemId)>,
    module: ModuleId,
    x: Set<ItemId>,
    y: Set<ItemId>,
)
    requires
        reexports_after(a, b, module, x),
        reexports_after(b, c, module, y),
    ensures
        reexports_after(a, c, module, x.union(y)),
{
    assert forall|p: (ModuleId, ItemId)| #[trigger] c.contains(p) <==> (a.contains(p) || (p.0 == module && x.union(y).contains(p.1))) by {
        assert(c.contains(p) <==> (b.contains(p) || (p.0 == module && y.contains(p.1))));
        assert(b.contains(p) <==> (a.contains(p) || (p.0 == module && x.contains(p.1))));
    }
}

/// Recording glob re-exports in two steps records the union.
proof fn lemma_globs_after_trans(
    a: Seq<(ModuleId, ModuleId)>,
    b: Seq<(ModuleId, ModuleId)>,
    c: Seq<(ModuleId, ModuleId)>,
    module: ModuleId,
    x: Set<ModuleId>,
    y: Set<ModuleId>,
)
    requires
        globs_after(a, b, module, x),
        globs_after(b, c, module, y),
    ensures
        globs_after(a, c, module, x.union(y)),
{
    assert forall|p: (ModuleId, ModuleId)| #[trigger] c.contains(p) <==> (a.contains(p) || (p.0 == module && x.union(y).contains(p.1))) by {
        assert(c.contains(p) <==> (b.contains(p) || (p.0 == module && y.contains(p.1))));
        assert(b.contains(p) <==> (a.contains(p) || (p.0 == module && x.contains(p.1))));
    }
}

/// The first child found among `n` modules is the first among more.
proof fn lemma_child_named_stable(ms: Seq<ModuleView>, c: ModuleId, name: Seq<char>, n: int, m: int)
    requires
        child_named(ms, c, name, n) is Some,
        n <= m,
    ensures
        child_named(ms, c, name, m) == child_named(ms, c, name, n),
    decreases m - n,
{
    if m > n {
        lemma_child_named_stable(ms, c, name, n, m - 1);
    }
}

/// The entry a name resolves to is one of the scope's entries.
proof fn lemma_scope_lookup_fits(s: RaState, scope: Seq<ScopeView>, name: Seq<char>)
    requires
        scope_fits(s, scope),
    ensures
        scope_lookup(scope, name) matches Some(e) ==> (e.module matches Some(m) ==> m.0 < s.modules.len())
            && (e.item matches Some(i) ==> i.0 < s.items.len()),
    decreases scope.len(),
{
    if scope.len() > 0 && scope.last().name != name {
        assert forall|k: int| 0 <= k < scope.drop_last().len() implies {
            &&& (#[trigger] scope.drop_last()[k]).item matches Some(i) ==> i.0 < s.items.len()
            &&& scope.drop_last()[k].module matches Some(m) ==> m.0 < s.modules.len()
        } by {
            assert(scope.drop_last()[k] == scope[k]);
        }
        lemma_scope_lookup_fits(s, scope.drop_last(), name);
    } else if scope.len() > 0 {
        assert(scope[scope.len() - 1] == scope.last());
    }
}

/// A definition's item is one of the items.
proof fn lemma_def_item_bound(defs: Seq<(u64, ItemId)>, d: u64, n: int)
    requires
        forall|r: int| 0 <= r < defs.len() ==> (#[trigger] defs[r]).1.0 < n,
    ensures
        def_item(defs, d) matches Some(id) ==> id.0 < n,
    decreases defs.len(),
{
    if defs.len() > 0 && defs.last().0 != d {
        assert forall|r: int| 0 <= r < defs.drop_last().len() implies (#[trigger] defs.drop_last()[r]).1.0 < n by {
            assert(defs.drop_last()[r] == defs[r]);
        }
        lemma_def_item_bound(defs.drop_last(), d, n);
    }
}

/// A triple of positive weight has an edge.
proof fn lemma_weight_positive_present(edges: Seq<Edge>, f: ItemId, t: ItemId, k: RefKind)
    requires
        weight_of(edges, f, t, k) > 0,
    ensures
        exists|q: int| 0 <= q < edges.len() && edge_is(edges[q], f, t, k),
{
}


/// A `pub use` in a publicly reachable module makes its target public API,
/// whatever the target's own visibility and module.
pub proof fn law_reexport_from_public_module_is_public_api(s: RaState, g: CrateGraph, r: int)
    requires
        ra_wf(s),
        ra_finished(s, g),
        0 <= r < s.reexports.len(),
        module_chain_public(s.modules, s.reexports[r].0.0 as nat),
    ensures
        g.items@[s.reexports[r].1.0 as int]@.reachable_pub_api,
{
    let id = s.reexports[r].1;
    lemma_public_module_exposes(s, s.reexports[r].0);
    assert(id.0 < s.items.len());
    assert(ItemId(id.0 as int as u32) == id);
    assert(publicly_reexported(s, id));
    assert(g.items@[id.0 as int]@.reachable_pub_api);
}

/// A chain of `pub use` globs from a publicly reachable module exposes what
/// the module at its end re-exports: its items become public API.
pub proof fn law_glob_chain_exposes(s: RaState, g: CrateGraph, p: Seq<ModuleId>, r: int)
    requires
        ra_wf(s),
        ra_finished(s, g),
        glob_chain(s.globs, p),
        module_chain_public(s.modules, p[0].0 as nat),
        0 <= r < s.reexports.len(),
        s.reexports[r].0 == p.last(),
    ensures
        g.items@[s.reexports[r].1.0 as int]@.reachable_pub_api,
{
    reveal(exposes_reexports);
    let id = s.reexports[r].1;
    assert(exposes_reexports(s, s.reexports[r].0));
    assert(id.0 < s.items.len());
    assert(ItemId(id.0 as int as u32) == id);
    assert(publicly_reexported(s, id));
    assert(g.items@[id.0 as int]@.reachable_pub_api);
}

/// Public API is only ever what is exposed: a public item whose module chain
/// is public, or the target of a re-export from a publicly reachable module.
pub proof fn law_public_api_is_exposed(s: RaState, g: CrateGraph, i: int)
    requires
        ra_wf(s),
        ra_finished(s, g),
        0 <= i < g.items@.len(),
        g.items@[i]@.reachable_pub_api,
    ensures
        item_public_api(s.modules, s.items[i]) || publicly_reexported(s, ItemId(i as u32)),
{
    assert(g.items@[i]@.reachable_pub_api == (item_public_api(s.modules, s.items[i]) || publicly_reexported(s, ItemId(i as u32))));
}

/// The graph stays internal to the analyzed crates: every edge joins two
/// distinct items of the graph, with a positive weight, and each (source,
/// target, kind) occurs once, in increasing order.
pub proof fn law_edges_are_internal(s: RaState, g: CrateGraph)
    requires
        ra_wf(s),
        ra_finished(s, g),
    ensures
        edges_sorted(g.edges@),
        forall|q: int| 0 <= q < g.edges@.len() ==> {
            let e = #[trigger] g.edges@[q];
            &&& e.from != e.to
            &&& e.from.0 < g.items@.len()
            &&& e.to.0 < g.items@.len()
            &&& e.weight > 0
        },
{
}

/// Each module is also an item that it owns itself, with the module's path,
/// crate and visibility, so that imports have a source node.
pub proof fn law_modules_are_items(s: RaState, m: int)
    requires
        ra_wf(s),
        0 <= m < s.modules.len(),
        s.modules[m].kind is Mod,
    ensures
        ({
            let it = s.items[s.module_items[m].0 as int];
            &&& it.kind is Module
            &&& it.owning_module.0 == m
            &&& it.canonical_path == s.modules[m].canonical_path
            &&& it.crate_id == s.modules[m].crate_id
            &&& it.visibility == s.modules[m].visibility
        }),
{
    assert(module_ok(s.crates, s.modules, m));
    assert(s.modules[m].id.0 == m);
}

/// A type container holds its type: the type's item is owned by the
/// container and has the container's path, visibility and crate.
pub proof fn law_types_own_their_container(s: RaState, m: int)
    requires
        ra_wf(s),
        0 <= m < s.modules.len(),
        s.modules[m].kind is Type,
    ensures
        ({
            let it = s.items[s.module_items[m].0 as int];
            &&& it.owning_module.0 == m
            &&& it.canonical_path == s.modules[m].canonical_path
            &&& it.visibility == s.modules[m].visibility
            &&& it.crate_id == s.modules[m].crate_id
        }),
{
    assert(module_item_ok(s.modules, s.items, m, s.module_items[m]));
}

/// A `use` that is not plainly `pub` (`pub(crate)`, `pub(super)`, private)
/// re-exports nothing.
pub proof fn law_restricted_use_exports_nothing(c: ResolveCtx, module: ModuleId, scope: Seq<ScopeView>, u: UseItem)
    requires
        !u.plain_pub,
    ensures
        use_item_targets(c, module, scope, u) == Set::<ItemId>::empty(),
{
}

/// A glob re-exports only public declarations of the module it names.
pub proof fn law_glob_exports_public_declarations(
    c: ResolveCtx,
    module: ModuleId,
    scope: Seq<ScopeView>,
    prefix: Seq<Seq<char>>,
    tree: UseTree,
    id: ItemId,
)
    requires
        tree.kind is Glob,
        tree_targets(c, module, scope, prefix, tree).contains(id),
    ensures
        ({
            let full = prefix + str_views(tree.path@);
            &&& resolve_path(c, module, scope, full) matches Some(t)
            &&& c.declared[t.0 as int].contains(id)
            &&& c.items[id.0 as int].visibility is Public
        }),
{
}

/// Law: recording a definition with no item yet. A module definition adds no
/// item; any other becomes one item, with the next id, registered for the
/// definition, owned by `owning`, of the kind named alike (a function a
/// `Function`, a struct a `Struct`, and so on), with the visibility its
/// declaration reads as: `pub` public, `pub(crate)` or `pub(in crate)` crate,
/// `pub(self)` private, `pub(super)` super, `pub(in path)` that module. A
/// definition that has an item already changes nothing.
pub proof fn law_ra_definitions_become_items(
    s: RaState,
    def: u64,
    kind: DefKind,
    owning: ModuleId,
    relative: Option<Seq<char>>,
    name: Option<Seq<char>>,
    visibility: DeclaredVisibility,
)
    ensures
        ({
            let s2 = s_add_item(s, def, kind, owning, relative, name, visibility);
            let it = s2.items.last();
            &&& def_item(s.defs, def) is Some ==> s2 == s
            &&& kind == DefKind::Module ==> s2 == s
            &&& def_item(s.defs, def) is None && kind != DefKind::Module ==> {
                &&& s2.items == s.items.push(it)
                &&& s2.modules == s.modules
                &&& s2.defs == s.defs.push((def, it.id))
                &&& it.id == ItemId(s.items.len() as u32)
                &&& it.owning_module == owning
                &&& (kind == DefKind::Function ==> it.kind == ItemKind::Function)
                &&& (kind == DefKind::Struct ==> it.kind == ItemKind::Struct)
                &&& (kind == DefKind::Enum ==> it.kind == ItemKind::Enum)
                &&& (kind == DefKind::Union ==> it.kind == ItemKind::Union)
                &&& (kind == DefKind::EnumVariant ==> it.kind == ItemKind::EnumVariant)
                &&& (kind == DefKind::Const ==> it.kind == ItemKind::Const)
                &&& (kind == DefKind::Static ==> it.kind == ItemKind::Static)
                &&& (kind == DefKind::Trait ==> it.kind == ItemKind::Trait)
                &&& (kind == DefKind::TypeAlias ==> it.kind == ItemKind::TypeAlias)
                &&& (kind == DefKind::Macro ==> it.kind == ItemKind::Macro)
                &&& (kind == DefKind::BuiltinType ==> it.kind == ItemKind::BuiltinType)
                &&& (visibility is Public ==> it.visibility == VisibilityView::Public)
                &&& (visibility is PubCrate ==> it.visibility == VisibilityView::Crate)
                &&& (visibility matches DeclaredVisibility::InModule { is_crate_root, is_owning, is_parent, path } ==>
                    it.visibility == (if is_crate_root { VisibilityView::Crate } else if is_owning { VisibilityView::Private }
                        else if is_parent { VisibilityView::Super } else { VisibilityView::Module(path@) }))
            }
        }),
{
    let s2 = s_add_item(s, def, kind, owning, relative, name, visibility);
    if def_item(s.defs, def) is None && kind != DefKind::Module {
        assert(s2.items.drop_last() =~= s.items);
        assert(s2.items =~= s.items.push(s2.items.last()));
    }
}


/// Law: how a path names a module from `module`. A leading `crate` starts at
/// the root of `module`'s crate, `self` at `module`, `super` at its parent,
/// and any other first segment at the module it names in scope; each later
/// segment then steps to the parent for `super`, else to the child of that
/// name; an empty path names nothing.
pub proof fn law_path_resolution(c: ResolveCtx, module: ModuleId, scope: Seq<ScopeView>, first: Seq<char>, rest: Seq<Seq<char>>)
    ensures
        resolve_path(c, module, scope, Seq::empty()) is None,
        resolve_path(c, module, scope, seq!["crate"@] + rest)
            == descend(c.modules, c.crates[c.modules[module.0 as int].crate_id.0 as int].root_module, rest),
        resolve_path(c, module, scope, seq!["self"@] + rest) == descend(c.modules, module, rest),
        resolve_path(c, module, scope, seq!["super"@] + rest) == match c.modules[module.0 as int].parent {
            Some(p) => descend(c.modules, p, rest),
            None => None,
        },
        first != "crate"@ && first != "self"@ && first != "super"@ ==> resolve_path(c, module, scope, seq![first] + rest)
            == match scope_lookup(scope, first) {
                Some(e) => match e.module {
                    Some(m) => descend(c.modules, m, rest),
                    None => None,
                },
                None => None,
            },
        forall|m: ModuleId| #![trigger descend(c.modules, m, seq!["super"@] + rest)]
            descend(c.modules, m, seq!["super"@] + rest) == match c.modules[m.0 as int].parent {
                Some(p) => descend(c.modules, p, rest),
                None => None,
            },
        forall|m: ModuleId, name: Seq<char>| #![trigger descend(c.modules, m, seq![name] + rest)]
            name != "super"@ ==> descend(c.modules, m, seq![name] + rest)
                == match child_named(c.modules, m, name, c.modules.len() as int) {
                    Some(k) => descend(c.modules, k, rest),
                    None => None,
                },
{
    reveal_strlit("crate");
    reveal_strlit("self");
    reveal_strlit("super");
    assert("self"@ != "crate"@) by {
        assert("self"@.len() != "crate"@.len());
    }
    assert("super"@ != "crate"@) by {
        assert("super"@[1] != "crate"@[1]);
    }
    assert("super"@ != "self"@) by {
        assert("super"@.len() != "self"@.len());
    }
    assert((seq!["crate"@] + rest).drop_first() =~= rest);
    assert((seq!["self"@] + rest).drop_first() =~= rest);
    assert((seq!["super"@] + rest).drop_first() =~= rest);
    assert((seq![first] + rest).drop_first() =~= rest);
    assert forall|m: ModuleId, name: Seq<char>| #![trigger descend(c.modules, m, seq![name] + rest)]
        name != "super"@ implies descend(c.modules, m, seq![name] + rest)
            == match child_named(c.modules, m, name, c.modules.len() as int) {
                Some(k) => descend(c.modules, k, rest),
                None => None,
            } by {
        assert((seq![name] + rest).drop_first() =~= rest);
        assert((seq![name] + rest)[0] == name);
    }
}

} // verus!
