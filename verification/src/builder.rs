//! [`CrateGraphBuilder`]: the one place that assembles a valid [`CrateGraph`].
//!
//! Structural nodes (crates, modules, types, items) are added top down and get
//! their dense id at once; every real module gets a module-stub item and every
//! type a type container; paths and depths are derived from the tree. Edges are
//! recorded by symbol key and resolved at [`CrateGraphBuilder::finish`], where
//! unknown endpoints and self-edges are dropped and repeats are summed.

use vstd::prelude::*;
use vstd::hash_map::StringHashMap;
use crate::ir::{
    crate_views, item_views, module_views, ref_rank, Crate, CrateGraph, CrateId, CrateView, Edge, Item,
    ItemId, ItemKind, ItemView, Module, ModuleId, ModuleKind, ModuleView, RefKind, Visibility,
    VisibilityView, SCHEMA_VERSION,
};
use crate::ir::{item_public_api, ref_rank_of};
use crate::text::join3;

verus! {

/// Why a graph could not be finished.
#[derive(Clone, Debug, PartialEq, Eq)]
pub enum BuildError {
    /// No crate was ever added (and no root crate set).
    NoCrate,
    /// These symbol keys were registered more than once.
    DuplicateKeys(Vec<String>),
}

/// A pending edge, by symbol key.
pub type PendingEdge = (Seq<char>, Seq<char>, RefKind);

/// Assembles a [`CrateGraph`] while keeping the IR invariants.
pub struct CrateGraphBuilder {
    provenance: String,
    crates: Vec<Crate>,
    modules: Vec<Module>,
    items: Vec<Item>,
    /// Every key registration, in order: the key and the item it names.
    registrations: Vec<(String, ItemId)>,
    /// Each registered key with the item of its last registration.
    key_index: StringHashMap<ItemId>,
    /// Keys that were registered while already registered.
    duplicate_keys: Vec<String>,
    /// Edges by key, resolved at `finish`.
    pending_edges: Vec<(String, String, RefKind)>,
    root_crate: Option<CrateId>,
}

/// The item a key names: the one of its last registration.
pub open spec fn lookup(regs: Seq<(Seq<char>, ItemId)>, key: Seq<char>) -> Option<ItemId>
    decreases regs.len(),
{
    if regs.len() == 0 {
        None
    } else if regs.last().0 == key {
        Some(regs.last().1)
    } else {
        lookup(regs.drop_last(), key)
    }
}

/// The registered keys as a map: each to the item of its last registration.
pub open spec fn key_map(regs: Seq<(Seq<char>, ItemId)>) -> Map<Seq<char>, ItemId>
    decreases regs.len(),
{
    if regs.len() == 0 {
        Map::empty()
    } else {
        key_map(regs.drop_last()).insert(regs.last().0, regs.last().1)
    }
}

/// The map of the registrations agrees with [`lookup`].
proof fn lemma_key_map(regs: Seq<(Seq<char>, ItemId)>, key: Seq<char>)
    ensures
        key_map(regs).contains_key(key) == (lookup(regs, key) is Some),
        lookup(regs, key) matches Some(i) ==> key_map(regs)[key] == i,
    decreases regs.len(),
{
    if regs.len() > 0 {
        lemma_key_map(regs.drop_last(), key);
    }
}

/// One more registration adds one entry to the map.
proof fn lemma_key_map_push(regs: Seq<(Seq<char>, ItemId)>, e: (Seq<char>, ItemId))
    ensures
        key_map(regs.push(e)) == key_map(regs).insert(e.0, e.1),
{
    assert(regs.push(e).drop_last() =~= regs);
}

/// The resolved endpoints of a pending edge: both keys known and distinct.
pub open spec fn resolve_edge(regs: Seq<(Seq<char>, ItemId)>, e: PendingEdge) -> Option<(ItemId, ItemId, RefKind)> {
    match (lookup(regs, e.0), lookup(regs, e.1)) {
        (Some(from), Some(to)) => if from != to { Some((from, to, e.2)) } else { None },
        _ => None,
    }
}

/// How many pending edges resolve to `from -> to` of kind `kind`.
pub open spec fn pending_count(
    pending: Seq<PendingEdge>,
    regs: Seq<(Seq<char>, ItemId)>,
    from: ItemId,
    to: ItemId,
    kind: RefKind,
) -> nat
    decreases pending.len(),
{
    if pending.len() == 0 {
        0
    } else {
        pending_count(pending.drop_last(), regs, from, to, kind)
            + if resolve_edge(regs, pending.last()) == Some((from, to, kind)) { 1nat } else { 0nat }
    }
}

/// The strict order of edges: by source, then target, then kind.
pub open spec fn edge_lt(a: Edge, b: Edge) -> bool {
    ||| a.from.0 < b.from.0
    ||| a.from.0 == b.from.0 && a.to.0 < b.to.0
    ||| a.from.0 == b.from.0 && a.to.0 == b.to.0 && ref_rank(a.kind) < ref_rank(b.kind)
}

/// Whether an edge connects `from -> to` with `kind`.
pub open spec fn edge_is(e: Edge, from: ItemId, to: ItemId, kind: RefKind) -> bool {
    e.from == from && e.to == to && e.kind == kind
}

/// Edges in strictly increasing order, so each (from, to, kind) occurs once.
pub open spec fn edges_sorted(edges: Seq<Edge>) -> bool {
    forall|i: int, j: int| 0 <= i < j < edges.len() ==> edge_lt(#[trigger] edges[i], #[trigger] edges[j])
}

/// The weight of `from -> to` of kind `kind` in `edges` (zero when absent).
pub open spec fn weight_of(edges: Seq<Edge>, from: ItemId, to: ItemId, kind: RefKind) -> nat {
    if exists|q: int| 0 <= q < edges.len() && edge_is(edges[q], from, to, kind) {
        edges[choose|q: int| 0 <= q < edges.len() && edge_is(edges[q], from, to, kind)].weight as nat
    } else {
        0
    }
}

/// The module-stub item of a module.
pub open spec fn stub_item(m: ModuleView, id: ItemId) -> ItemView {
    ItemView {
        id,
        canonical_path: m.canonical_path,
        kind: ItemKind::Module,
        visibility: m.visibility,
        owning_module: m.id,
        crate_id: m.crate_id,
        has_canonical_path: true,
        reachable_pub_api: false,
    }
}

/// The shape invariant over the builder's sequences.
pub open spec fn shape(
    cs: Seq<CrateView>,
    ms: Seq<ModuleView>,
    its: Seq<ItemView>,
    regs: Seq<(Seq<char>, ItemId)>,
) -> bool {
    &&& cs.len() <= u32::MAX
    &&& ms.len() <= u32::MAX
    &&& its.len() <= u32::MAX
    &&& forall|i: int| 0 <= i < cs.len() ==> #[trigger] crate_ok(cs, ms, i)
    &&& forall|i: int| 0 <= i < ms.len() ==> #[trigger] module_ok(cs, ms, i)
    &&& forall|i: int| 0 <= i < its.len() ==> #[trigger] item_ok(ms, its, i)
    &&& forall|r: int| 0 <= r < regs.len() ==> (#[trigger] regs[r]).1.0 < its.len()
}

/// Every module except possibly `skip` owns the item that stands for it, with
/// the module's path: a real module its module-stub item, a type container
/// its type.
pub open spec fn stubs(ms: Seq<ModuleView>, its: Seq<ItemView>, skip: int) -> bool {
    forall|i: int| 0 <= i < ms.len() && i != skip ==> #[trigger] module_has_item(ms, its, i)
}

/// Module `i` owns the item that stands for it, with the module's path.
pub open spec fn module_has_item(ms: Seq<ModuleView>, its: Seq<ItemView>, i: int) -> bool {
    &&& ms[i].kind is Mod ==> has_stub(its, i, ms[i].canonical_path)
    &&& ms[i].kind is Type ==> owns_item_at(its, i, ms[i].canonical_path)
}

/// Adding an item with the next id under an existing module keeps the shape,
/// and keeps every stub.
pub proof fn lemma_shape_push_item(
    cs: Seq<CrateView>,
    ms: Seq<ModuleView>,
    its: Seq<ItemView>,
    regs: Seq<(Seq<char>, ItemId)>,
    it: ItemView,
    key: Seq<char>,
    skip: int,
)
    requires
        shape(cs, ms, its, regs),
        it.id.0 == its.len(),
        its.len() < u32::MAX,
        it.owning_module.0 < ms.len(),
        it.crate_id == ms[it.owning_module.0 as int].crate_id,
    ensures
        shape(cs, ms, its.push(it), regs.push((key, it.id))),
        stubs(ms, its, skip) ==> stubs(ms, its.push(it), skip),
        stubs(ms, its, skip) && it.owning_module.0 == skip && it.canonical_path == ms[skip].canonical_path
            && (ms[skip].kind is Mod ==> it.kind is Module) ==> stubs(ms, its.push(it), -1),
{
    let its2 = its.push(it);
    let regs2 = regs.push((key, it.id));
    assert forall|i: int| 0 <= i < its2.len() implies #[trigger] item_ok(ms, its2, i) by {
        if i < its.len() {
            assert(item_ok(ms, its, i));
        }
    }
    assert forall|r: int| 0 <= r < regs2.len() implies (#[trigger] regs2[r]).1.0 < its2.len() by {
        if r < regs.len() {
            assert(regs[r].1.0 < its.len());
        }
    }
    if stubs(ms, its, skip) {
        assert forall|i: int| 0 <= i < ms.len() && i != skip implies #[trigger] module_has_item(ms, its2, i) by {
            assert(module_has_item(ms, its, i));
            if ms[i].kind is Mod {
                let j = choose|j: int| 0 <= j < its.len() && (#[trigger] its[j]).kind is Module && its[j].owning_module.0 == i
                    && its[j].canonical_path == ms[i].canonical_path;
                assert(its2[j] == its[j]);
            }
            if ms[i].kind is Type {
                let j = choose|j: int| 0 <= j < its.len() && (#[trigger] its[j]).owning_module.0 == i && its[j].canonical_path == ms[i].canonical_path;
                assert(its2[j] == its[j]);
            }
        }
        if it.owning_module.0 == skip && it.canonical_path == ms[skip].canonical_path && (ms[skip].kind is Mod ==> it.kind is Module) {
            assert forall|i: int| 0 <= i < ms.len() && i != -1 implies #[trigger] module_has_item(ms, its2, i) by {
                if i == skip {
                    assert(its2[its.len() as int] == it);
                } else {
                    assert(module_has_item(ms, its2, i));
                }
            }
        }
    }
}

/// Adding a child module with the next id keeps the shape; a real module is
/// then the only one that may lack a stub.
pub proof fn lemma_shape_push_module(
    cs: Seq<CrateView>,
    ms: Seq<ModuleView>,
    its: Seq<ItemView>,
    regs: Seq<(Seq<char>, ItemId)>,
    m: ModuleView,
)
    requires
        shape(cs, ms, its, regs),
        ms.len() < u32::MAX,
        m.parent is Some,
        module_ok(cs, ms.push(m), ms.len() as int),
    ensures
        shape(cs, ms.push(m), its, regs),
        stubs(ms, its, -1) ==> stubs(ms.push(m), its, ms.len() as int),
{
    let ms2 = ms.push(m);
    assert forall|i: int| 0 <= i < cs.len() implies #[trigger] crate_ok(cs, ms2, i) by {
        assert(crate_ok(cs, ms, i));
    }
    assert forall|i: int| 0 <= i < ms2.len() implies #[trigger] module_ok(cs, ms2, i) by {
        if i < ms.len() {
            assert(module_ok(cs, ms, i));
        }
    }
    assert forall|i: int| 0 <= i < its.len() implies #[trigger] item_ok(ms2, its, i) by {
        assert(item_ok(ms, its, i));
    }
    if stubs(ms, its, -1) {
        assert forall|i: int| 0 <= i < ms2.len() && i != ms.len() implies #[trigger] module_has_item(ms2, its, i) by {
            assert(ms[i] == ms2[i]);
            assert(module_has_item(ms, its, i));
        }
    }
}

/// Adding a crate together with its root module keeps the shape; the root
/// module is then the only one that may lack a stub.
pub proof fn lemma_shape_push_crate(
    cs: Seq<CrateView>,
    ms: Seq<ModuleView>,
    its: Seq<ItemView>,
    regs: Seq<(Seq<char>, ItemId)>,
    c: CrateView,
    m: ModuleView,
)
    requires
        shape(cs, ms, its, regs),
        cs.len() < u32::MAX,
        ms.len() < u32::MAX,
        c.id.0 == cs.len(),
        c.root_module.0 == ms.len(),
        m.id.0 == ms.len(),
        m.crate_id == c.id,
        m.parent is None,
        m.depth == 0,
        m.name.len() == 0,
        m.canonical_path == c.name,
        m.kind is Mod,
    ensures
        shape(cs.push(c), ms.push(m), its, regs),
        stubs(ms, its, -1) ==> stubs(ms.push(m), its, ms.len() as int),
{
    let cs2 = cs.push(c);
    let ms2 = ms.push(m);
    assert forall|i: int| 0 <= i < cs2.len() implies #[trigger] crate_ok(cs2, ms2, i) by {
        if i < cs.len() {
            assert(crate_ok(cs, ms, i));
        }
    }
    assert forall|i: int| 0 <= i < ms2.len() implies #[trigger] module_ok(cs2, ms2, i) by {
        if i < ms.len() {
            assert(module_ok(cs, ms, i));
            assert(ms2[i] == ms[i]);
            assert(cs2[ms[i].crate_id.0 as int] == cs[ms[i].crate_id.0 as int]);
        } else {
            assert(ms2[i] == m);
            assert(cs2[m.crate_id.0 as int] == c);
        }
    }
    assert forall|i: int| 0 <= i < its.len() implies #[trigger] item_ok(ms2, its, i) by {
        assert(item_ok(ms, its, i));
    }
    if stubs(ms, its, -1) {
        assert forall|i: int| 0 <= i < ms2.len() && i != ms.len() implies #[trigger] module_has_item(ms2, its, i) by {
            assert(ms[i] == ms2[i]);
            assert(module_has_item(ms, its, i));
        }
    }
}

/// Crate `i` has id `i` and an existing root module.
pub open spec fn crate_ok(cs: Seq<CrateView>, ms: Seq<ModuleView>, i: int) -> bool {
    cs[i].id.0 == i && cs[i].root_module.0 < ms.len()
}

/// Module `i` has id `i`, an existing crate, and, when it has a parent, an
/// earlier parent of the same crate whose path and depth its own extend; a
/// parentless module is its crate's root, named empty, with the crate's name
/// as path.
pub open spec fn module_ok(cs: Seq<CrateView>, ms: Seq<ModuleView>, i: int) -> bool {
    &&& ms[i].id.0 == i
    &&& ms[i].crate_id.0 < cs.len()
    &&& ms[i].depth <= i
    &&& match ms[i].parent {
        None => {
            &&& ms[i].depth == 0
            &&& ms[i].name.len() == 0
            &&& ms[i].canonical_path == cs[ms[i].crate_id.0 as int].name
            &&& cs[ms[i].crate_id.0 as int].root_module.0 == i
        },
        Some(p) => {
            &&& p.0 < i
            &&& ms[i].crate_id == ms[p.0 as int].crate_id
            &&& ms[i].depth == ms[p.0 as int].depth + 1
            &&& ms[i].canonical_path == ms[p.0 as int].canonical_path + "::"@ + ms[i].name
        },
    }
}

/// Item `i` has id `i`, an existing owning module, and that module's crate.
pub open spec fn item_ok(ms: Seq<ModuleView>, its: Seq<ItemView>, i: int) -> bool {
    &&& its[i].id.0 == i
    &&& its[i].owning_module.0 < ms.len()
    &&& its[i].crate_id == ms[its[i].owning_module.0 as int].crate_id
}

/// Whether some item is the module stub of module `m`, with path `path`.
pub open spec fn has_stub(items: Seq<ItemView>, m: int, path: Seq<char>) -> bool {
    exists|j: int| 0 <= j < items.len() && (#[trigger] items[j]).kind is Module && items[j].owning_module.0 == m
        && items[j].canonical_path == path
}

/// Whether module `m` owns an item with path `path`.
pub open spec fn owns_item_at(items: Seq<ItemView>, m: int, path: Seq<char>) -> bool {
    exists|j: int| 0 <= j < items.len() && (#[trigger] items[j]).owning_module.0 == m && items[j].canonical_path == path
}

/// The keys among `regs`.
pub open spec fn is_registered(regs: Seq<(Seq<char>, ItemId)>, key: Seq<char>) -> bool {
    lookup(regs, key) is Some
}

/// The duplicate list after registering `key`.
pub open spec fn dups_after(dups: Seq<Seq<char>>, regs: Seq<(Seq<char>, ItemId)>, key: Seq<char>) -> Seq<Seq<char>> {
    if is_registered(regs, key) { dups.push(key) } else { dups }
}

/// A registration of `key` for `id`, by value.
pub open spec fn registration(key: Seq<char>, id: ItemId) -> (Seq<char>, ItemId) {
    (key, id)
}

/// The abstract content of a builder.
pub struct BuilderState {
    pub provenance: Seq<char>,
    pub crates: Seq<CrateView>,
    pub modules: Seq<ModuleView>,
    pub items: Seq<ItemView>,
    /// Every key registration, in order.
    pub registrations: Seq<(Seq<char>, ItemId)>,
    /// The keys registered while already registered, one entry per repeat.
    pub duplicate_keys: Seq<Seq<char>>,
    /// The edges recorded so far, by key.
    pub pending_edges: Seq<PendingEdge>,
    pub root_crate: Option<CrateId>,
}

/// The builder invariant, over its content.
pub open spec fn state_wf(s: BuilderState) -> bool {
    shape(s.crates, s.modules, s.items, s.registrations) && stubs(s.modules, s.items, -1)
}

/// Whether builder content numbers its modules and items with `u32` ids.
pub open spec fn ids_fit(s: BuilderState) -> bool {
    s.modules.len() <= u32::MAX && s.items.len() <= u32::MAX
}

/// `b` has no fewer modules and items than `a`.
pub open spec fn grown(a: BuilderState, b: BuilderState) -> bool {
    a.modules.len() <= b.modules.len() && a.items.len() <= b.items.len()
}

/// Whether a crate was added and a root crate is known: what finishing needs.
pub open spec fn has_crate(s: BuilderState) -> bool {
    s.root_crate is Some && s.crates.len() > 0
}

/// Whether another crate, module and item can be added with `u32` ids.
pub open spec fn has_room(s: BuilderState) -> bool {
    s.crates.len() < u32::MAX && s.modules.len() < u32::MAX && s.items.len() < u32::MAX
}

/// An empty builder.
pub open spec fn s_new(provenance: Seq<char>) -> BuilderState {
    BuilderState {
        provenance,
        crates: Seq::empty(),
        modules: Seq::empty(),
        items: Seq::empty(),
        registrations: Seq::empty(),
        duplicate_keys: Seq::empty(),
        pending_edges: Seq::empty(),
        root_crate: None,
    }
}

/// Registers `key` for `id`.
pub open spec fn s_register(s: BuilderState, key: Seq<char>, id: ItemId) -> BuilderState {
    BuilderState {
        registrations: s.registrations.push((key, id)),
        duplicate_keys: dups_after(s.duplicate_keys, s.registrations, key),
        ..s
    }
}

/// Pushes the stub item of module `m`, keyed by `key`.
pub open spec fn s_push_stub(s: BuilderState, m: ModuleId, key: Seq<char>) -> BuilderState {
    let id = ItemId(s.items.len() as u32);
    s_register(BuilderState { items: s.items.push(stub_item(s.modules[m.0 as int], id)), ..s }, key, id)
}

/// Adds a crate, its root module and the root module's stub.
pub open spec fn s_add_crate(s: BuilderState, name: Seq<char>, is_local: bool, root_key: Seq<char>) -> BuilderState {
    let cid = CrateId(s.crates.len() as u32);
    let mid = ModuleId(s.modules.len() as u32);
    let m = ModuleView {
        id: mid,
        crate_id: cid,
        parent: None,
        name: Seq::empty(),
        canonical_path: name,
        depth: 0,
        visibility: VisibilityView::Public,
        kind: ModuleKind::Mod,
    };
    let s1 = BuilderState {
        crates: s.crates.push(CrateView { id: cid, name, is_local, root_module: mid }),
        modules: s.modules.push(m),
        root_crate: if s.root_crate is None { Some(cid) } else { s.root_crate },
        ..s
    };
    s_push_stub(s1, mid, root_key)
}

/// The module a child named `name` of `parent` would be.
pub open spec fn child_module(s: BuilderState, parent: ModuleId, name: Seq<char>, visibility: VisibilityView, kind: ModuleKind) -> ModuleView {
    let p = s.modules[parent.0 as int];
    ModuleView {
        id: ModuleId(s.modules.len() as u32),
        crate_id: p.crate_id,
        parent: Some(parent),
        name,
        canonical_path: p.canonical_path + "::"@ + name,
        depth: (p.depth + 1) as u32,
        visibility,
        kind,
    }
}

/// Adds a real module under `parent` and its stub.
pub open spec fn s_add_module(s: BuilderState, parent: ModuleId, key: Seq<char>, name: Seq<char>, visibility: VisibilityView) -> BuilderState {
    let m = child_module(s, parent, name, visibility, ModuleKind::Mod);
    s_push_stub(BuilderState { modules: s.modules.push(m), ..s }, m.id, key)
}

/// Adds a type container under `parent` and the type item.
pub open spec fn s_add_type(
    s: BuilderState,
    parent: ModuleId,
    key: Seq<char>,
    name: Seq<char>,
    kind: ItemKind,
    visibility: VisibilityView,
) -> BuilderState {
    let m = child_module(s, parent, name, visibility, ModuleKind::Type);
    let id = ItemId(s.items.len() as u32);
    let it = ItemView {
        id,
        canonical_path: m.canonical_path,
        kind,
        visibility,
        owning_module: m.id,
        crate_id: m.crate_id,
        has_canonical_path: true,
        reachable_pub_api: false,
    };
    s_register(BuilderState { modules: s.modules.push(m), items: s.items.push(it), ..s }, key, id)
}

/// Adds an item under `owning`.
pub open spec fn s_add_item(
    s: BuilderState,
    owning: ModuleId,
    key: Seq<char>,
    name: Seq<char>,
    kind: ItemKind,
    visibility: VisibilityView,
) -> BuilderState {
    let o = s.modules[owning.0 as int];
    let id = ItemId(s.items.len() as u32);
    let it = ItemView {
        id,
        canonical_path: o.canonical_path + "::"@ + name,
        kind,
        visibility,
        owning_module: owning,
        crate_id: o.crate_id,
        has_canonical_path: true,
        reachable_pub_api: false,
    };
    s_register(BuilderState { items: s.items.push(it), ..s }, key, id)
}

/// Records an edge by key.
pub open spec fn s_add_edge(s: BuilderState, from: Seq<char>, to: Seq<char>, kind: RefKind) -> BuilderState {
    BuilderState { pending_edges: s.pending_edges.push((from, to, kind)), ..s }
}

impl CrateGraphBuilder {
    /// The recorded provenance.
    pub closed spec fn provenance(self) -> Seq<char> {
        self.provenance@
    }

    /// The crates added so far.
    pub closed spec fn crates(self) -> Seq<CrateView> {
        crate_views(self.crates@)
    }

    /// The modules added so far.
    pub closed spec fn modules(self) -> Seq<ModuleView> {
        module_views(self.modules@)
    }

    /// The items added so far.
    pub closed spec fn items(self) -> Seq<ItemView> {
        item_views(self.items@)
    }

    /// Every key registration so far, in order.
    pub closed spec fn registrations(self) -> Seq<(Seq<char>, ItemId)> {
        self.registrations@.map_values(|r: (String, ItemId)| (r.0@, r.1))
    }

    /// The keys registered more than once, one entry per repeat.
    pub closed spec fn duplicate_keys(self) -> Seq<Seq<char>> {
        self.duplicate_keys@.map_values(|k: String| k@)
    }

    /// The edges recorded so far, by key.
    pub closed spec fn pending_edges(self) -> Seq<PendingEdge> {
        self.pending_edges@.map_values(|e: (String, String, RefKind)| (e.0@, e.1@, e.2))
    }

    /// The current root crate, if any.
    pub closed spec fn root_crate(self) -> Option<CrateId> {
        self.root_crate
    }

    /// The builder's content.
    pub open spec fn state(self) -> BuilderState {
        BuilderState {
            provenance: self.provenance(),
            crates: self.crates(),
            modules: self.modules(),
            items: self.items(),
            registrations: self.registrations(),
            duplicate_keys: self.duplicate_keys(),
            pending_edges: self.pending_edges(),
            root_crate: self.root_crate(),
        }
    }

    /// Whether another crate, module and item can be added.
    pub fn has_room(&self) -> (r: bool)
        ensures
            r == has_room(self.state()),
    {
        self.crates.len() < 4294967295usize && self.modules.len() < 4294967295usize && self.items.len() < 4294967295usize
    }

    /// How many modules have been added.
    pub fn module_count(&self) -> (r: usize)
        ensures
            r == self.modules().len(),
    {
        self.modules.len()
    }

    /// How many items have been added.
    pub fn item_count(&self) -> (r: usize)
        ensures
            r == self.items().len(),
    {
        self.items.len()
    }

    /// How many edges have been recorded.
    pub fn pending_len(&self) -> (r: usize)
        ensures
            r == self.pending_edges().len(),
    {
        self.pending_edges.len()
    }

    /// The ids are dense, parents precede children, every reference points at
    /// an existing node, module paths and depths follow the tree, and every key
    /// names an existing item.
    pub closed spec fn shape_ok(self) -> bool {
        shape(self.crates(), self.modules(), self.items(), self.registrations())
    }

    /// Every real module except possibly `skip` has a module-stub item.
    pub closed spec fn stubs_except(self, skip: int) -> bool {
        stubs(self.modules(), self.items(), skip)
    }

    /// The key index holds, for each registered key, the item of its last
    /// registration.
    pub closed spec fn index_ok(self) -> bool {
        self.key_index@ == key_map(self.registrations())
    }

    /// The builder invariant.
    pub open spec fn wf(self) -> bool {
        state_wf(self.state()) && self.index_ok()
    }

    /// Creates an empty builder recording `provenance` as the graph's tool
    /// version.
    pub fn new(provenance: &str) -> (b: Self)
        ensures
            b.wf(),
            b.state() == s_new(provenance@),
            b.provenance() == provenance@,
            b.crates().len() == 0,
            b.modules().len() == 0,
            b.items().len() == 0,
            b.registrations().len() == 0,
            b.duplicate_keys().len() == 0,
            b.pending_edges().len() == 0,
            b.root_crate() is None,
    {
        let b = CrateGraphBuilder {
            provenance: provenance.to_owned(),
            crates: Vec::new(),
            modules: Vec::new(),
            items: Vec::new(),
            registrations: Vec::new(),
            key_index: StringHashMap::new(),
            duplicate_keys: Vec::new(),
            pending_edges: Vec::new(),
            root_crate: None,
        };
        assert(b.crates() =~= Seq::empty());
        assert(b.modules() =~= Seq::empty());
        assert(b.items() =~= Seq::empty());
        assert(b.registrations() =~= Seq::empty());
        assert(b.duplicate_keys() =~= Seq::empty());
        assert(b.pending_edges() =~= Seq::empty());
        assert(b.key_index@ =~= key_map(b.registrations()));
        b
    }

    /// Finds the item of the last registration of `key`.
    fn find_key(&self, key: &str) -> (r: Option<ItemId>)
        requires
            self.index_ok(),
        ensures
            r == lookup(self.registrations(), key@),
    {
        proof {
            lemma_key_map(self.registrations(), key@);
        }
        match self.key_index.get(key) {
            Some(id) => Some(*id),
            None => None,
        }
    }

    /// Registers `key` for `id`, recording a duplicate when it was already known.
    fn register_item_key(&mut self, key: &str, id: ItemId)
        requires
            old(self).index_ok(),
        ensures
            final(self).index_ok(),
            final(self).registrations() == old(self).registrations().push((key@, id)),
            final(self).duplicate_keys() == dups_after(old(self).duplicate_keys(), old(self).registrations(), key@),
            final(self).crates@ == old(self).crates@,
            final(self).modules@ == old(self).modules@,
            final(self).items@ == old(self).items@,
            final(self).provenance == old(self).provenance,
            final(self).pending_edges@ == old(self).pending_edges@,
            final(self).root_crate == old(self).root_crate,
    {
        let owned = key.to_owned();
        let existing = self.find_key(key);
        if existing.is_some() {
            self.duplicate_keys.push(key.to_owned());
            assert(self.duplicate_keys() == old(self).duplicate_keys().push(key@));
        } else {
            assert(self.duplicate_keys() == old(self).duplicate_keys());
        }
        self.key_index.insert(key.to_owned(), id);
        self.registrations.push((owned, id));
        assert(self.registrations() == old(self).registrations().push((key@, id)));
        proof {
            lemma_key_map_push(old(self).registrations(), (key@, id));
        }
    }

    /// Pushes the module-stub item of module `module_id`, keyed by `key`.
    fn push_module_stub(&mut self, module_id: ModuleId, key: &str) -> (id: ItemId)
        requires
            old(self).shape_ok(),
            old(self).stubs_except(module_id.0 as int),
            old(self).index_ok(),
            module_id.0 < old(self).modules@.len(),
            old(self).items@.len() < u32::MAX,
        ensures
            final(self).wf(),
            id.0 == old(self).items@.len(),
            final(self).items() == old(self).items().push(stub_item(old(self).modules()[module_id.0 as int], id)),
            final(self).registrations() == old(self).registrations().push((key@, id)),
            final(self).duplicate_keys() == dups_after(old(self).duplicate_keys(), old(self).registrations(), key@),
            final(self).crates@ == old(self).crates@,
            final(self).modules@ == old(self).modules@,
            final(self).provenance == old(self).provenance,
            final(self).pending_edges@ == old(self).pending_edges@,
            final(self).root_crate == old(self).root_crate,
    {
        let ghost before = *self;
        let id = ItemId(self.items.len() as u32);
        let m = &self.modules[module_id.index()];
        let item = Item {
            id,
            canonical_path: m.canonical_path.clone(),
            kind: ItemKind::Module,
            visibility: m.visibility.duplicate(),
            owning_module: module_id,
            crate_id: m.crate_id,
            has_canonical_path: true,
            reachable_pub_api: false,
        };
        let ghost stub = item@;
        assert(before.modules()[module_id.0 as int] == before.modules@[module_id.0 as int]@);
        assert(module_ok(before.crates(), before.modules(), module_id.0 as int));
        assert(stub == stub_item(before.modules()[module_id.0 as int], id));
        self.items.push(item);
        assert(item_views(self.items@) =~= item_views(before.items@).push(stub));
        self.register_item_key(key, id);
        proof {
            lemma_shape_push_item(before.crates(), before.modules(), before.items(), before.registrations(), stub, key@, module_id.0 as int);
        }
        id
    }

    /// The (canonical path, depth, crate id) of an existing module.
    fn module_facts(&self, module: ModuleId) -> (r: (String, u32, CrateId))
        requires
            module.0 < self.modules@.len(),
        ensures
            r.0@ == self.modules()[module.0 as int].canonical_path,
            r.1 == self.modules()[module.0 as int].depth,
            r.2 == self.modules()[module.0 as int].crate_id,
    {
        let m = &self.modules[module.index()];
        (m.canonical_path.clone(), m.depth, m.crate_id)
    }

    /// Adds a crate and its root module, whose name is empty and whose
    /// canonical path is the crate name, plus the root module's stub item keyed
    /// by `root_key`. The first crate added becomes the root crate unless one
    /// was already chosen.
    pub fn add_crate(&mut self, name: &str, is_local: bool, root_key: &str) -> (r: (CrateId, ModuleId))
        requires
            old(self).wf(),
            old(self).crates().len() < u32::MAX,
            old(self).modules().len() < u32::MAX,
            old(self).items().len() < u32::MAX,
        ensures
            final(self).wf(),
            final(self).state() == s_add_crate(old(self).state(), name@, is_local, root_key@),
            r.0.0 == old(self).crates().len(),
            r.1.0 == old(self).modules().len(),
            final(self).crates() == old(self).crates().push(CrateView { id: r.0, name: name@, is_local, root_module: r.1 }),
            final(self).modules() == old(self).modules().push(ModuleView {
                id: r.1,
                crate_id: r.0,
                parent: None,
                name: Seq::empty(),
                canonical_path: name@,
                depth: 0,
                visibility: VisibilityView::Public,
                kind: ModuleKind::Mod,
            }),
            final(self).items() == old(self).items().push(stub_item(final(self).modules().last(), ItemId(old(self).items().len() as u32))),
            final(self).registrations() == old(self).registrations().push((root_key@, ItemId(old(self).items().len() as u32))),
            final(self).duplicate_keys() == dups_after(old(self).duplicate_keys(), old(self).registrations(), root_key@),
            final(self).root_crate() == (if old(self).root_crate() is None { Some(r.0) } else { old(self).root_crate() }),
            final(self).provenance() == old(self).provenance(),
            final(self).pending_edges() == old(self).pending_edges(),
    {
        let crate_id = CrateId(self.crates.len() as u32);
        let root_id = ModuleId(self.modules.len() as u32);
        self.crates.push(Crate { id: crate_id, name: name.to_owned(), is_local, root_module: root_id });
        if self.root_crate.is_none() {
            self.root_crate = Some(crate_id);
        }
        self.modules.push(Module {
            id: root_id,
            crate_id,
            parent: None,
            name: String::new(),
            canonical_path: name.to_owned(),
            depth: 0,
            visibility: Visibility::Public,
            kind: ModuleKind::Mod,
        });
        proof {
            let c = CrateView { id: crate_id, name: name@, is_local, root_module: root_id };
            let m = self.modules@.last()@;
            assert(crate_views(self.crates@) =~= old(self).crates().push(c));
            assert(module_views(self.modules@) =~= old(self).modules().push(m));
            lemma_shape_push_crate(old(self).crates(), old(self).modules(), old(self).items(), old(self).registrations(), c, m);
        }
        let ghost mid = *self;
        self.push_module_stub(root_id, root_key);
        assert(self.modules() == mid.modules());
        (crate_id, root_id)
    }

    /// Adds a real module under `parent`, plus its module-stub item keyed by
    /// `key`. Its path is the parent's path, `::`, and `name`; its depth is one
    /// more than the parent's.
    pub fn add_module(&mut self, parent: ModuleId, key: &str, name: &str, visibility: Visibility) -> (id: ModuleId)
        requires
            old(self).wf(),
            parent.0 < old(self).modules().len(),
            old(self).modules().len() < u32::MAX,
            old(self).items().len() < u32::MAX,
        ensures
            final(self).wf(),
            final(self).state() == s_add_module(old(self).state(), parent, key@, name@, visibility@),
            id.0 == old(self).modules().len(),
            final(self).modules() == old(self).modules().push(ModuleView {
                id,
                crate_id: old(self).modules()[parent.0 as int].crate_id,
                parent: Some(parent),
                name: name@,
                canonical_path: old(self).modules()[parent.0 as int].canonical_path + "::"@ + name@,
                depth: (old(self).modules()[parent.0 as int].depth + 1) as u32,
                visibility: visibility@,
                kind: ModuleKind::Mod,
            }),
            final(self).items() == old(self).items().push(stub_item(final(self).modules().last(), ItemId(old(self).items().len() as u32))),
            final(self).registrations() == old(self).registrations().push((key@, ItemId(old(self).items().len() as u32))),
            final(self).duplicate_keys() == dups_after(old(self).duplicate_keys(), old(self).registrations(), key@),
            final(self).crates() == old(self).crates(),
            final(self).root_crate() == old(self).root_crate(),
            final(self).provenance() == old(self).provenance(),
            final(self).pending_edges() == old(self).pending_edges(),
    {
        let id = ModuleId(self.modules.len() as u32);
        let (parent_path, parent_depth, crate_id) = self.module_facts(parent);
        proof {
            assert(module_ok(old(self).crates(), old(self).modules(), parent.0 as int));
        }
        let path = join3(parent_path.as_str(), "::", name);
        self.modules.push(Module {
            id,
            crate_id,
            parent: Some(parent),
            name: name.to_owned(),
            canonical_path: path,
            depth: parent_depth + 1,
            visibility,
            kind: ModuleKind::Mod,
        });
        proof {
            let m = self.modules@.last()@;
            assert(module_views(self.modules@) =~= old(self).modules().push(m));
            assert(old(self).modules()[parent.0 as int] == old(self).modules@[parent.0 as int]@);
            assert(module_ok(old(self).crates(), old(self).modules(), parent.0 as int));
            assert(old(self).modules().push(m)[parent.0 as int] == old(self).modules()[parent.0 as int]);
            lemma_shape_push_module(old(self).crates(), old(self).modules(), old(self).items(), old(self).registrations(), m);
        }
        let ghost mid = *self;
        self.push_module_stub(id, key);
        assert(self.modules() == mid.modules());
        id
    }

    /// Adds a nominal type as a type container under `parent`, together with the
    /// type item itself, whose path equals the container's path. Members go
    /// under the returned module.
    pub fn add_type(
        &mut self,
        parent: ModuleId,
        key: &str,
        name: &str,
        kind: ItemKind,
        visibility: Visibility,
    ) -> (r: (ModuleId, ItemId))
        requires
            old(self).wf(),
            parent.0 < old(self).modules().len(),
            old(self).modules().len() < u32::MAX,
            old(self).items().len() < u32::MAX,
        ensures
            final(self).wf(),
            final(self).state() == s_add_type(old(self).state(), parent, key@, name@, kind, visibility@),
            r.0.0 == old(self).modules().len(),
            r.1.0 == old(self).items().len(),
            final(self).modules() == old(self).modules().push(ModuleView {
                id: r.0,
                crate_id: old(self).modules()[parent.0 as int].crate_id,
                parent: Some(parent),
                name: name@,
                canonical_path: old(self).modules()[parent.0 as int].canonical_path + "::"@ + name@,
                depth: (old(self).modules()[parent.0 as int].depth + 1) as u32,
                visibility: visibility@,
                kind: ModuleKind::Type,
            }),
            final(self).items() == old(self).items().push(ItemView {
                id: r.1,
                canonical_path: old(self).modules()[parent.0 as int].canonical_path + "::"@ + name@,
                kind,
                visibility: visibility@,
                owning_module: r.0,
                crate_id: old(self).modules()[parent.0 as int].crate_id,
                has_canonical_path: true,
                reachable_pub_api: false,
            }),
            final(self).registrations() == old(self).registrations().push((key@, r.1)),
            final(self).duplicate_keys() == dups_after(old(self).duplicate_keys(), old(self).registrations(), key@),
            final(self).crates() == old(self).crates(),
            final(self).root_crate() == old(self).root_crate(),
            final(self).provenance() == old(self).provenance(),
            final(self).pending_edges() == old(self).pending_edges(),
    {
        let module_id = ModuleId(self.modules.len() as u32);
        let (parent_path, parent_depth, crate_id) = self.module_facts(parent);
        proof {
            assert(module_ok(old(self).crates(), old(self).modules(), parent.0 as int));
        }
        let canonical_path = join3(parent_path.as_str(), "::", name);
        let item_path = canonical_path.clone();
        self.modules.push(Module {
            id: module_id,
            crate_id,
            parent: Some(parent),
            name: name.to_owned(),
            canonical_path,
            depth: parent_depth + 1,
            visibility: visibility.duplicate(),
            kind: ModuleKind::Type,
        });
        proof {
            let m = self.modules@.last()@;
            assert(module_views(self.modules@) =~= old(self).modules().push(m));
            assert(old(self).modules()[parent.0 as int] == old(self).modules@[parent.0 as int]@);
            assert(module_ok(old(self).crates(), old(self).modules(), parent.0 as int));
            assert(old(self).modules().push(m)[parent.0 as int] == old(self).modules()[parent.0 as int]);
            lemma_shape_push_module(old(self).crates(), old(self).modules(), old(self).items(), old(self).registrations(), m);
        }
        let ghost after_module = *self;
        let item_id = ItemId(self.items.len() as u32);
        self.items.push(Item {
            id: item_id,
            canonical_path: item_path,
            kind,
            visibility,
            owning_module: module_id,
            crate_id,
            has_canonical_path: true,
            reachable_pub_api: false,
        });
        let ghost it = self.items@.last()@;
        assert(item_views(self.items@) =~= after_module.items().push(it));
        let ghost mid = *self;
        self.register_item_key(key, item_id);
        proof {
            lemma_shape_push_item(after_module.crates(), after_module.modules(), after_module.items(), after_module.registrations(), it, key@, module_id.0 as int);
            assert(after_module.modules()[module_id.0 as int].kind is Type);
            assert(it.canonical_path == after_module.modules()[module_id.0 as int].canonical_path);
        }
        assert(self.modules() == mid.modules());
        assert(self.items() == mid.items());
        (module_id, item_id)
    }

    /// Adds an item under `owning`, keyed by `key`. Its path is the owning
    /// module's path, `::`, and `name`.
    pub fn add_item(&mut self, owning: ModuleId, key: &str, name: &str, kind: ItemKind, visibility: Visibility) -> (id: ItemId)
        requires
            old(self).wf(),
            owning.0 < old(self).modules().len(),
            old(self).items().len() < u32::MAX,
        ensures
            final(self).wf(),
            final(self).state() == s_add_item(old(self).state(), owning, key@, name@, kind, visibility@),
            id.0 == old(self).items().len(),
            final(self).items() == old(self).items().push(ItemView {
                id,
                canonical_path: old(self).modules()[owning.0 as int].canonical_path + "::"@ + name@,
                kind,
                visibility: visibility@,
                owning_module: owning,
                crate_id: old(self).modules()[owning.0 as int].crate_id,
                has_canonical_path: true,
                reachable_pub_api: false,
            }),
            final(self).registrations() == old(self).registrations().push((key@, id)),
            final(self).duplicate_keys() == dups_after(old(self).duplicate_keys(), old(self).registrations(), key@),
            final(self).crates() == old(self).crates(),
            final(self).modules() == old(self).modules(),
            final(self).root_crate() == old(self).root_crate(),
            final(self).provenance() == old(self).provenance(),
            final(self).pending_edges() == old(self).pending_edges(),
    {
        let id = ItemId(self.items.len() as u32);
        let (owning_path, _depth, crate_id) = self.module_facts(owning);
        let path = join3(owning_path.as_str(), "::", name);
        self.items.push(Item {
            id,
            canonical_path: path,
            kind,
            visibility,
            owning_module: owning,
            crate_id,
            has_canonical_path: true,
            reachable_pub_api: false,
        });
        let ghost it = self.items@.last()@;
        assert(item_views(self.items@) =~= old(self).items().push(it));
        let ghost mid = *self;
        self.register_item_key(key, id);
        proof {
            lemma_shape_push_item(old(self).crates(), old(self).modules(), old(self).items(), old(self).registrations(), it, key@, -1);
        }
        assert(self.items() == mid.items());
        id
    }

    /// Records a dependency edge between two symbol keys, resolved at `finish`.
    pub fn add_edge(&mut self, from_key: &str, to_key: &str, kind: RefKind)
        ensures
            final(self).state() == s_add_edge(old(self).state(), from_key@, to_key@, kind),
            final(self).pending_edges() == old(self).pending_edges().push((from_key@, to_key@, kind)),
            final(self).wf() == old(self).wf(),
            final(self).index_ok() == old(self).index_ok(),
            final(self).crates() == old(self).crates(),
            final(self).modules() == old(self).modules(),
            final(self).items() == old(self).items(),
            final(self).registrations() == old(self).registrations(),
            final(self).duplicate_keys() == old(self).duplicate_keys(),
            final(self).root_crate() == old(self).root_crate(),
            final(self).provenance() == old(self).provenance(),
    {
        self.pending_edges.push((from_key.to_owned(), to_key.to_owned(), kind));
        assert(self.pending_edges() == old(self).pending_edges().push((from_key@, to_key@, kind)));
    }

    /// Chooses which crate is the analysis root.
    pub fn set_root_crate(&mut self, crate_id: CrateId)
        ensures
            final(self).root_crate() == Some(crate_id),
            final(self).state() == (BuilderState { root_crate: Some(crate_id), ..old(self).state() }),
            final(self).wf() == old(self).wf(),
            final(self).crates() == old(self).crates(),
            final(self).modules() == old(self).modules(),
            final(self).items() == old(self).items(),
            final(self).registrations() == old(self).registrations(),
            final(self).duplicate_keys() == old(self).duplicate_keys(),
            final(self).pending_edges() == old(self).pending_edges(),
            final(self).provenance() == old(self).provenance(),
    {
        self.root_crate = Some(crate_id);
    }

    /// Finalizes the graph: resolves and sums the edges, then computes the
    /// public-API flags. Fails when no crate was added, or when a key was
    /// registered twice.
    pub fn finish(self) -> (r: Result<CrateGraph, BuildError>)
        requires
            self.wf(),
            self.pending_edges().len() <= u32::MAX,
        ensures
            !has_crate(self.state()) ==> r matches Err(BuildError::NoCrate),
            has_crate(self.state()) && self.duplicate_keys().len() > 0 ==> (r matches Err(BuildError::DuplicateKeys(d))
                && d@.map_values(|k: String| k@) == self.duplicate_keys()),
            has_crate(self.state()) && self.duplicate_keys().len() == 0 ==> (r matches Ok(g) && finished_graph(self, g)),
    {
        if self.crates.len() == 0 {
            return Err(BuildError::NoCrate);
        }
        let root_crate = match self.root_crate {
            None => return Err(BuildError::NoCrate),
            Some(c) => c,
        };
        if self.duplicate_keys.len() > 0 {
            let dups = self.duplicate_keys;
            return Err(BuildError::DuplicateKeys(dups));
        }
        let ghost p = self.pending_edges();
        let ghost regs = self.registrations();
        let mut edges: Vec<Edge> = Vec::new();
        let n = self.pending_edges.len();
        let mut i: usize = 0;
        while i < n
            invariant
                n == self.pending_edges@.len(),
                p == self.pending_edges(),
                regs == self.registrations(),
                self.index_ok(),
                n <= u32::MAX,
                i <= n,
                edges_sorted(edges@),
                forall|q: int| 0 <= q < edges@.len() ==> (#[trigger] edges@[q]).weight > 0,
                forall|f: ItemId, t: ItemId, k: RefKind| #[trigger] weight_of(edges@, f, t, k) == pending_count(p.take(i as int), regs, f, t, k),
            decreases n - i,
        {
            let e = &self.pending_edges[i];
            assert(p.take(i + 1).drop_last() == p.take(i as int));
            assert(p.take(i + 1).last() == p[i as int]);
            assert(p[i as int] == (e.0@, e.1@, e.2));
            let from = self.find_key(e.0.as_str());
            let to = self.find_key(e.1.as_str());
            match (from, to) {
                (Some(f), Some(t)) => {
                    if f != t {
                        proof {
                            lemma_pending_count_bound(p.take(i as int), regs, f, t, e.2);
                        }
                        add_weighted(&mut edges, f, t, e.2);
                    }
                },
                _ => {},
            }
            i = i + 1;
        }
        assert(p.take(n as int) == p);
        let mut graph = CrateGraph {
            schema_version: SCHEMA_VERSION,
            ra_version: self.provenance,
            root_crate,
            crates: self.crates,
            modules: self.modules,
            items: self.items,
            edges,
        };
        graph.compute_public_api();
        Ok(graph)
    }
}


/// What `finish` builds from a builder: its crates and modules as they are, its
/// items with their public-API flags computed, and one edge per resolved
/// (from, to, kind) whose weight counts the pending edges that resolve to it,
/// in increasing order.
pub open spec fn finished_from(s: BuilderState, g: CrateGraph) -> bool {
    &&& g.schema_version == SCHEMA_VERSION
    &&& g.ra_version@ == s.provenance
    &&& s.root_crate == Some(g.root_crate)
    &&& crate_views(g.crates@) == s.crates
    &&& module_views(g.modules@) == s.modules
    &&& g.items@.len() == s.items.len()
    &&& forall|i: int| 0 <= i < g.items@.len() ==> (#[trigger] g.items@[i])@ == ItemView {
        reachable_pub_api: item_public_api(s.modules, s.items[i]),
        ..s.items[i]
    }
    &&& edges_sorted(g.edges@)
    &&& forall|q: int| 0 <= q < g.edges@.len() ==> (#[trigger] g.edges@[q]).weight > 0
    &&& forall|f: ItemId, t: ItemId, k: RefKind| #[trigger] weight_of(g.edges@, f, t, k)
        == pending_count(s.pending_edges, s.registrations, f, t, k)
}

/// Whether `g` is a graph some well-formed builder finished into: it then has
/// every property the builder laws state.
pub open spec fn graph_is_built(g: CrateGraph) -> bool {
    exists|s: BuilderState| state_wf(s) && #[trigger] finished_from(s, g)
}

/// What `finish` builds from builder `b` (see [`finished_from`]).
pub open spec fn finished_graph(b: CrateGraphBuilder, g: CrateGraph) -> bool {
    finished_from(b.state(), g)
}

/// No triple is counted more often than there are pending edges.
pub proof fn lemma_pending_count_bound(
    pending: Seq<PendingEdge>,
    regs: Seq<(Seq<char>, ItemId)>,
    from: ItemId,
    to: ItemId,
    kind: RefKind,
)
    ensures
        pending_count(pending, regs, from, to, kind) <= pending.len(),
    decreases pending.len(),
{
    if pending.len() > 0 {
        lemma_pending_count_bound(pending.drop_last(), regs, from, to, kind);
    }
}

/// In sorted edges, the weight of the triple at position `q` is that edge's.
pub(crate) proof fn lemma_weight_at(edges: Seq<Edge>, q: int)
    requires
        edges_sorted(edges),
        0 <= q < edges.len(),
    ensures
        weight_of(edges, edges[q].from, edges[q].to, edges[q].kind) == edges[q].weight,
{
    let e = edges[q];
    assert(edge_is(edges[q], e.from, e.to, e.kind));
    let c = choose|c: int| 0 <= c < edges.len() && edge_is(edges[c], e.from, e.to, e.kind);
    if c < q {
        assert(edge_lt(edges[c], edges[q]));
    } else if c > q {
        assert(edge_lt(edges[q], edges[c]));
    }
}

/// A triple that no edge has weighs nothing.
pub(crate) proof fn lemma_weight_absent(edges: Seq<Edge>, f: ItemId, t: ItemId, k: RefKind)
    requires
        forall|q: int| 0 <= q < edges.len() ==> !edge_is(#[trigger] edges[q], f, t, k),
    ensures
        weight_of(edges, f, t, k) == 0,
{
}

/// Whether edge `e` comes strictly before `from -> to` of kind `kind`.
fn edge_before(e: &Edge, from: ItemId, to: ItemId, kind: RefKind) -> (r: bool)
    ensures
        r == edge_lt(*e, Edge { from, to, kind, weight: 0 }),
{
    let a = ref_rank_of(e.kind);
    let b = ref_rank_of(kind);
    e.from.0 < from.0 || (e.from.0 == from.0 && e.to.0 < to.0) || (e.from.0 == from.0 && e.to.0 == to.0 && a < b)
}

/// Adds one occurrence of `from -> to` of kind `kind` to sorted, summed edges.
pub(crate) fn add_weighted(edges: &mut Vec<Edge>, from: ItemId, to: ItemId, kind: RefKind)
    requires
        edges_sorted(old(edges)@),
        forall|q: int| 0 <= q < old(edges)@.len() ==> (#[trigger] old(edges)@[q]).weight > 0,
        weight_of(old(edges)@, from, to, kind) < u32::MAX,
    ensures
        edges_sorted(final(edges)@),
        forall|q: int| 0 <= q < final(edges)@.len() ==> (#[trigger] final(edges)@[q]).weight > 0,
        forall|f: ItemId, t: ItemId, k: RefKind| #[trigger] weight_of(final(edges)@, f, t, k)
            == weight_of(old(edges)@, f, t, k) + if f == from && t == to && k == kind { 1nat } else { 0nat },
{
    let ghost target = Edge { from, to, kind, weight: 0 };
    let mut lo: usize = 0;
    let mut hi: usize = edges.len();
    while lo < hi
        invariant
            lo <= hi <= edges@.len(),
            edges@ == old(edges)@,
            edges_sorted(edges@),
            target == (Edge { from, to, kind, weight: 0 }),
            forall|q: int| 0 <= q < lo ==> edge_lt(#[trigger] edges@[q], target),
            forall|q: int| hi <= q < edges@.len() ==> !edge_lt(#[trigger] edges@[q], target),
        decreases hi - lo,
    {
        let mid = lo + (hi - lo) / 2;
        if edge_before(&edges[mid], from, to, kind) {
            assert forall|q: int| 0 <= q <= mid implies edge_lt(#[trigger] edges@[q], target) by {
                if q < mid {
                    assert(edge_lt(edges@[q], edges@[mid as int]));
                }
            }
            lo = mid + 1;
        } else {
            assert forall|q: int| mid <= q < edges@.len() implies !edge_lt(#[trigger] edges@[q], target) by {
                if q > mid {
                    assert(edge_lt(edges@[mid as int], edges@[q]));
                }
            }
            hi = mid;
        }
    }
    let j = lo;
    let ghost old_edges = old(edges)@;
    if j < edges.len() && edges[j].from == from && edges[j].to == to && edges[j].kind == kind {
        proof {
            lemma_weight_at(old_edges, j as int);
        }
        let w = edges[j].weight;
        edges[j].weight = w + 1;
        let ghost new_edges = edges@;
        assert(new_edges == old_edges.update(j as int, Edge { weight: (w + 1) as u32, ..old_edges[j as int] }));
        assert(edges_sorted(new_edges)) by {
            assert forall|a: int, b: int| 0 <= a < b < new_edges.len() implies edge_lt(#[trigger] new_edges[a], #[trigger] new_edges[b]) by {
                assert(edge_lt(old_edges[a], old_edges[b]));
            }
        }
        assert forall|f: ItemId, t: ItemId, k: RefKind| #[trigger] weight_of(new_edges, f, t, k)
            == weight_of(old_edges, f, t, k) + if f == from && t == to && k == kind { 1nat } else { 0nat } by {
            if f == from && t == to && k == kind {
                lemma_weight_at(new_edges, j as int);
            } else if exists|q: int| 0 <= q < old_edges.len() && edge_is(old_edges[q], f, t, k) {
                let q = choose|q: int| 0 <= q < old_edges.len() && edge_is(old_edges[q], f, t, k);
                lemma_weight_at(old_edges, q);
                lemma_weight_at(new_edges, q);
            } else {
                assert forall|q: int| 0 <= q < new_edges.len() implies !edge_is(#[trigger] new_edges[q], f, t, k) by {
                    assert(!edge_is(old_edges[q], f, t, k));
                }
                lemma_weight_absent(new_edges, f, t, k);
            }
        }
    } else {
        let e = Edge { from, to, kind, weight: 1 };
        proof {
            if j < old_edges.len() {
                assert(!edge_lt(old_edges[j as int], target));
                assert(edge_lt(e, old_edges[j as int]));
            }
            assert forall|q: int| 0 <= q < old_edges.len() implies !edge_is(#[trigger] old_edges[q], from, to, kind) by {
                if q < j {
                    assert(edge_lt(old_edges[q], target));
                } else if q > j {
                    assert(edge_lt(old_edges[j as int], old_edges[q]));
                }
            }
            lemma_weight_absent(old_edges, from, to, kind);
        }
        edges.insert(j, e);
        let ghost new_edges = edges@;
        assert(new_edges == old_edges.insert(j as int, e));
        assert(edges_sorted(new_edges)) by {
            assert forall|a: int, b: int| 0 <= a < b < new_edges.len() implies edge_lt(#[trigger] new_edges[a], #[trigger] new_edges[b]) by {
                if b < j {
                    assert(edge_lt(old_edges[a], old_edges[b]));
                } else if b == j {
                    assert(edge_lt(old_edges[a], target));
                } else if a < j {
                    assert(edge_lt(old_edges[a], target));
                    assert(edge_lt(e, old_edges[j as int]));
                    if b - 1 > j {
                        assert(edge_lt(old_edges[j as int], old_edges[b - 1]));
                    }
                } else if a == j {
                    assert(edge_lt(e, old_edges[j as int]));
                    if b - 1 > j {
                        assert(edge_lt(old_edges[j as int], old_edges[b - 1]));
                    }
                } else {
                    assert(edge_lt(old_edges[a - 1], old_edges[b - 1]));
                }
            }
        }
        assert forall|f: ItemId, t: ItemId, k: RefKind| #[trigger] weight_of(new_edges, f, t, k)
            == weight_of(old_edges, f, t, k) + if f == from && t == to && k == kind { 1nat } else { 0nat } by {
            if f == from && t == to && k == kind {
                lemma_weight_at(new_edges, j as int);
            } else if exists|q: int| 0 <= q < old_edges.len() && edge_is(old_edges[q], f, t, k) {
                let q = choose|q: int| 0 <= q < old_edges.len() && edge_is(old_edges[q], f, t, k);
                lemma_weight_at(old_edges, q);
                if q < j {
                    lemma_weight_at(new_edges, q);
                } else {
                    lemma_weight_at(new_edges, q + 1);
                }
            } else {
                assert forall|q: int| 0 <= q < new_edges.len() implies !edge_is(#[trigger] new_edges[q], f, t, k) by {
                    if q < j {
                        assert(!edge_is(old_edges[q], f, t, k));
                    } else if q > j {
                        assert(!edge_is(old_edges[q - 1], f, t, k));
                    }
                }
                lemma_weight_absent(new_edges, f, t, k);
            }
        }
    }
}


/// A key that resolves names the item of one of its registrations.
pub proof fn lemma_lookup_registered(regs: Seq<(Seq<char>, ItemId)>, key: Seq<char>)
    requires
        lookup(regs, key) is Some,
    ensures
        exists|r: int| 0 <= r < regs.len() && #[trigger] regs[r] == (key, lookup(regs, key)->0),
    decreases regs.len(),
{
    if regs.last().0 == key {
        assert(regs[regs.len() - 1] == (key, lookup(regs, key)->0));
    } else {
        lemma_lookup_registered(regs.drop_last(), key);
        let r = choose|r: int| 0 <= r < regs.drop_last().len() && #[trigger] regs.drop_last()[r] == (key, lookup(regs, key)->0);
        assert(regs[r] == regs.drop_last()[r]);
    }
}

/// A triple that some pending edge resolves to is counted.
pub proof fn lemma_pending_count_witness(
    pending: Seq<PendingEdge>,
    regs: Seq<(Seq<char>, ItemId)>,
    from: ItemId,
    to: ItemId,
    kind: RefKind,
)
    requires
        pending_count(pending, regs, from, to, kind) > 0,
    ensures
        exists|i: int| 0 <= i < pending.len() && resolve_edge(regs, #[trigger] pending[i]) == Some((from, to, kind)),
    decreases pending.len(),
{
    if resolve_edge(regs, pending.last()) == Some((from, to, kind)) {
        assert(resolve_edge(regs, pending[pending.len() - 1]) == Some((from, to, kind)));
    } else {
        lemma_pending_count_witness(pending.drop_last(), regs, from, to, kind);
        let i = choose|i: int| 0 <= i < pending.drop_last().len() && resolve_edge(regs, #[trigger] pending.drop_last()[i]) == Some((from, to, kind));
        assert(pending[i] == pending.drop_last()[i]);
    }
}

/// Law: a finished graph has dense ids. The crate, module and item at position
/// `i` each have id `i`, and every module and item refers to an existing crate
/// and module.
pub proof fn law_finished_ids_are_dense(s: BuilderState, g: CrateGraph)
    requires
        state_wf(s),
        finished_from(s, g),
    ensures
        forall|i: int| 0 <= i < g.crates@.len() ==> (#[trigger] g.crates@[i]).id.0 == i,
        forall|i: int| 0 <= i < g.modules@.len() ==> (#[trigger] g.modules@[i]).id.0 == i
            && g.modules@[i].crate_id.0 < g.crates@.len(),
        forall|i: int| 0 <= i < g.items@.len() ==> (#[trigger] g.items@[i]).id.0 == i
            && g.items@[i].owning_module.0 < g.modules@.len(),
{
    assert forall|i: int| 0 <= i < g.crates@.len() implies (#[trigger] g.crates@[i]).id.0 == i by {
        assert(crate_ok(s.crates, s.modules, i));
        assert(crate_views(g.crates@)[i] == g.crates@[i]@);
    }
    assert forall|i: int| 0 <= i < g.modules@.len() implies (#[trigger] g.modules@[i]).id.0 == i
        && g.modules@[i].crate_id.0 < g.crates@.len() by {
        assert(module_ok(s.crates, s.modules, i));
        assert(module_views(g.modules@)[i] == g.modules@[i]@);
    }
    assert forall|i: int| 0 <= i < g.items@.len() implies (#[trigger] g.items@[i]).id.0 == i
        && g.items@[i].owning_module.0 < g.modules@.len() by {
        assert(item_ok(s.modules, s.items, i));
        assert(g.items@[i]@.id == s.items[i].id);
    }
}

/// Two edge lists sorted in the same strict order, holding the same edges,
/// are equal.
proof fn lemma_sorted_edges_equal(a: Seq<Edge>, b: Seq<Edge>)
    requires
        edges_sorted(a),
        edges_sorted(b),
        forall|i: int| 0 <= i < a.len() ==> b.contains(#[trigger] a[i]),
        forall|j: int| 0 <= j < b.len() ==> a.contains(#[trigger] b[j]),
    ensures
        a == b,
    decreases a.len() + b.len(),
{
    if a.len() == 0 {
        if b.len() > 0 {
            assert(a.contains(b[0]));
        }
        assert(a =~= b);
    } else if b.len() == 0 {
        assert(b.contains(a[0]));
    } else {
        let x = a.last();
        let y = b.last();
        assert(b.contains(a[a.len() - 1]));
        assert(a.contains(b[b.len() - 1]));
        let j = choose|j: int| 0 <= j < b.len() && b[j] == x;
        let i = choose|i: int| 0 <= i < a.len() && a[i] == y;
        if j < b.len() - 1 {
            assert(edge_lt(b[j], b[b.len() - 1]));
            if i < a.len() - 1 {
                assert(edge_lt(a[i], a[a.len() - 1]));
            }
        }
        assert(x == y);
        let a1 = a.drop_last();
        let b1 = b.drop_last();
        assert forall|k: int| 0 <= k < a1.len() implies b1.contains(#[trigger] a1[k]) by {
            assert(b.contains(a[k]));
            let q = choose|q: int| 0 <= q < b.len() && b[q] == a[k];
            assert(edge_lt(a[k], a[a.len() - 1]));
            assert(q != b.len() - 1);
            assert(b1[q] == a[k]);
        }
        assert forall|k: int| 0 <= k < b1.len() implies a1.contains(#[trigger] b1[k]) by {
            assert(a.contains(b[k]));
            let q = choose|q: int| 0 <= q < a.len() && a[q] == b[k];
            assert(edge_lt(b[k], b[b.len() - 1]));
            assert(q != a.len() - 1);
            assert(a1[q] == b[k]);
        }
        lemma_sorted_edges_equal(a1, b1);
        assert(a =~= a1.push(x));
        assert(b =~= b1.push(y));
    }
}

/// Every edge of a sorted list with the same weights as another is in it.
proof fn lemma_edges_contained(a: Seq<Edge>, b: Seq<Edge>)
    requires
        edges_sorted(a),
        edges_sorted(b),
        forall|q: int| 0 <= q < a.len() ==> (#[trigger] a[q]).weight > 0,
        forall|f: ItemId, t: ItemId, k: RefKind| #[trigger] weight_of(a, f, t, k) == weight_of(b, f, t, k),
    ensures
        forall|i: int| 0 <= i < a.len() ==> b.contains(#[trigger] a[i]),
{
    assert forall|i: int| 0 <= i < a.len() implies b.contains(#[trigger] a[i]) by {
        let x = a[i];
        lemma_weight_at(a, i);
        assert(weight_of(b, x.from, x.to, x.kind) == x.weight);
        assert(exists|q: int| 0 <= q < b.len() && edge_is(b[q], x.from, x.to, x.kind));
        let q = choose|q: int| 0 <= q < b.len() && edge_is(b[q], x.from, x.to, x.kind);
        lemma_weight_at(b, q);
        assert(b[q] == x);
    }
}

/// Law: finishing is a function of the builder content: two graphs finished
/// from the same content are equal in value.
pub proof fn law_finish_is_determined(s: BuilderState, g1: CrateGraph, g2: CrateGraph)
    requires
        finished_from(s, g1),
        finished_from(s, g2),
    ensures
        g1@ == g2@,
{
    assert(item_views(g1.items@) =~= item_views(g2.items@)) by {
        assert forall|i: int| 0 <= i < g1.items@.len() implies #[trigger] item_views(g1.items@)[i] == item_views(g2.items@)[i] by {
            assert(g1.items@[i]@ == g2.items@[i]@);
        }
    }
    assert forall|f: ItemId, t: ItemId, k: RefKind| #[trigger] weight_of(g1.edges@, f, t, k) == weight_of(g2.edges@, f, t, k) by {
        assert(weight_of(g1.edges@, f, t, k) == pending_count(s.pending_edges, s.registrations, f, t, k));
        assert(weight_of(g2.edges@, f, t, k) == pending_count(s.pending_edges, s.registrations, f, t, k));
    }
    lemma_edges_contained(g1.edges@, g2.edges@);
    lemma_edges_contained(g2.edges@, g1.edges@);
    lemma_sorted_edges_equal(g1.edges@, g2.edges@);
}

/// Law: in a finished graph every real module has a module-stub item carrying
/// the module's path, so an import of a module has an item to point at; and
/// every type container owns an item with the container's path (the type).
pub proof fn law_every_real_module_has_stub(s: BuilderState, g: CrateGraph)
    requires
        state_wf(s),
        finished_from(s, g),
    ensures
        forall|m: int| 0 <= m < g.modules@.len() && (#[trigger] g.modules@[m]).kind is Mod ==>
            exists|j: int| 0 <= j < g.items@.len() && (#[trigger] g.items@[j]).kind is Module && g.items@[j].owning_module.0 == m
                && g.items@[j].canonical_path@ == g.modules@[m].canonical_path@,
        forall|m: int| 0 <= m < g.modules@.len() && (#[trigger] g.modules@[m]).kind is Type ==>
            exists|j: int| 0 <= j < g.items@.len() && (#[trigger] g.items@[j]).owning_module.0 == m
                && g.items@[j].canonical_path@ == g.modules@[m].canonical_path@,
{
    assert forall|m: int| 0 <= m < g.modules@.len() && (#[trigger] g.modules@[m]).kind is Mod implies
        exists|j: int| 0 <= j < g.items@.len() && (#[trigger] g.items@[j]).kind is Module && g.items@[j].owning_module.0 == m
            && g.items@[j].canonical_path@ == g.modules@[m].canonical_path@ by {
        assert(module_views(g.modules@)[m] == g.modules@[m]@);
        assert(s.modules[m].kind is Mod);
        assert(module_has_item(s.modules, s.items, m));
        let j = choose|j: int| 0 <= j < s.items.len() && (#[trigger] s.items[j]).kind is Module && s.items[j].owning_module.0 == m
            && s.items[j].canonical_path == s.modules[m].canonical_path;
        assert(g.items@[j]@.kind == s.items[j].kind);
        assert(g.items@[j]@.canonical_path == s.items[j].canonical_path);
    }
    assert forall|m: int| 0 <= m < g.modules@.len() && (#[trigger] g.modules@[m]).kind is Type implies
        exists|j: int| 0 <= j < g.items@.len() && (#[trigger] g.items@[j]).owning_module.0 == m
            && g.items@[j].canonical_path@ == g.modules@[m].canonical_path@ by {
        assert(module_views(g.modules@)[m] == g.modules@[m]@);
        assert(s.modules[m].kind is Type);
        assert(module_has_item(s.modules, s.items, m));
        let j = choose|j: int| 0 <= j < s.items.len() && (#[trigger] s.items[j]).owning_module.0 == m
            && s.items[j].canonical_path == s.modules[m].canonical_path;
        assert(g.items@[j]@.owning_module == s.items[j].owning_module);
        assert(g.items@[j]@.canonical_path == s.items[j].canonical_path);
    }
}

/// Law: in a finished graph module paths and depths follow the tree: a child's
/// path is its parent's path, `::`, and its name, and its depth is one more; a
/// root module has depth zero and its crate's name as path.
pub proof fn law_paths_follow_the_tree(s: BuilderState, g: CrateGraph)
    requires
        state_wf(s),
        finished_from(s, g),
    ensures
        forall|i: int| 0 <= i < g.modules@.len() ==> match (#[trigger] g.modules@[i]).parent {
            Some(p) => p.0 < i
                && g.modules@[i].canonical_path@ == g.modules@[p.0 as int].canonical_path@ + "::"@ + g.modules@[i].name@
                && g.modules@[i].depth == g.modules@[p.0 as int].depth + 1,
            None => g.modules@[i].depth == 0
                && g.modules@[i].crate_id.0 < g.crates@.len()
                && g.modules@[i].canonical_path@ == g.crates@[g.modules@[i].crate_id.0 as int].name@,
        },
{
    assert forall|i: int| 0 <= i < g.modules@.len() implies match (#[trigger] g.modules@[i]).parent {
        Some(p) => p.0 < i
            && g.modules@[i].canonical_path@ == g.modules@[p.0 as int].canonical_path@ + "::"@ + g.modules@[i].name@
            && g.modules@[i].depth == g.modules@[p.0 as int].depth + 1,
        None => g.modules@[i].depth == 0
            && g.modules@[i].crate_id.0 < g.crates@.len()
            && g.modules@[i].canonical_path@ == g.crates@[g.modules@[i].crate_id.0 as int].name@,
    } by {
        assert(module_ok(s.crates, s.modules, i));
        assert(module_views(g.modules@)[i] == g.modules@[i]@);
        match g.modules@[i].parent {
            Some(p) => {
                assert(module_views(g.modules@)[p.0 as int] == g.modules@[p.0 as int]@);
            },
            None => {
                let c = g.modules@[i].crate_id.0 as int;
                assert(crate_views(g.crates@)[c] == g.crates@[c]@);
            },
        }
    }
}

/// Law: every edge of a finished graph joins two distinct existing items, and
/// its weight is the number of recorded edges that resolve to it; edges to
/// unknown keys and self-edges leave no trace.
pub proof fn law_edges_are_resolved(s: BuilderState, g: CrateGraph)
    requires
        state_wf(s),
        finished_from(s, g),
    ensures
        forall|q: int| 0 <= q < g.edges@.len() ==> {
            let e = #[trigger] g.edges@[q];
            &&& e.from != e.to
            &&& e.from.0 < g.items@.len()
            &&& e.to.0 < g.items@.len()
            &&& e.weight == pending_count(s.pending_edges, s.registrations, e.from, e.to, e.kind)
        },
{
    assert forall|q: int| 0 <= q < g.edges@.len() implies {
        let e = #[trigger] g.edges@[q];
        &&& e.from != e.to
        &&& e.from.0 < g.items@.len()
        &&& e.to.0 < g.items@.len()
        &&& e.weight == pending_count(s.pending_edges, s.registrations, e.from, e.to, e.kind)
    } by {
        let e = g.edges@[q];
        lemma_weight_at(g.edges@, q);
        assert(weight_of(g.edges@, e.from, e.to, e.kind) == pending_count(s.pending_edges, s.registrations, e.from, e.to, e.kind));
        lemma_pending_count_witness(s.pending_edges, s.registrations, e.from, e.to, e.kind);
        let i = choose|i: int| 0 <= i < s.pending_edges.len() && resolve_edge(s.registrations, #[trigger] s.pending_edges[i]) == Some((e.from, e.to, e.kind));
        let pe = s.pending_edges[i];
        lemma_lookup_registered(s.registrations, pe.0);
        lemma_lookup_registered(s.registrations, pe.1);
        let r1 = choose|r: int| 0 <= r < s.registrations.len() && #[trigger] s.registrations[r] == (pe.0, lookup(s.registrations, pe.0)->0);
        let r2 = choose|r: int| 0 <= r < s.registrations.len() && #[trigger] s.registrations[r] == (pe.1, lookup(s.registrations, pe.1)->0);
        assert(s.registrations[r1].1.0 < s.items.len());
        assert(s.registrations[r2].1.0 < s.items.len());
    }
}

} // verus!
