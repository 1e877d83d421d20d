//! The language-neutral intermediate representation: crates, modules, items
//! and weighted dependency edges, with dense ids that index their vectors.

use vstd::prelude::*;

verus! {

/// The IR schema version recorded in every graph.
pub const SCHEMA_VERSION: u32 = 1;

/// Dense index of a crate in [`CrateGraph::crates`].
#[derive(Clone, Copy, Debug, PartialEq, Eq, Hash, PartialOrd, Ord, Structural)]
pub struct CrateId(pub u32);

/// Dense index of a module in [`CrateGraph::modules`].
#[derive(Clone, Copy, Debug, PartialEq, Eq, Hash, PartialOrd, Ord, Structural)]
pub struct ModuleId(pub u32);

/// Dense index of an item in [`CrateGraph::items`].
#[derive(Clone, Copy, Debug, PartialEq, Eq, Hash, PartialOrd, Ord, Structural)]
pub struct ItemId(pub u32);

impl CrateId {
    /// The position this id denotes.
    pub fn index(&self) -> (r: usize)
        ensures
            r == self.0,
    {
        self.0 as usize
    }
}

impl ModuleId {
    /// The position this id denotes.
    pub fn index(&self) -> (r: usize)
        ensures
            r == self.0,
    {
        self.0 as usize
    }
}

impl ItemId {
    /// The position this id denotes.
    pub fn index(&self) -> (r: usize)
        ensures
            r == self.0,
    {
        self.0 as usize
    }
}

/// What kind of declaration an item is.
#[derive(Clone, Copy, Debug, PartialEq, Eq, Hash, Structural)]
pub enum ItemKind {
    Module,
    Function,
    Struct,
    Enum,
    Union,
    EnumVariant,
    Const,
    Static,
    Trait,
    TypeAlias,
    Macro,
    BuiltinType,
    AssocFn,
    AssocConst,
    AssocType,
}

/// Whether a module is a real module or the synthetic container of a type.
#[derive(Clone, Copy, Debug, PartialEq, Eq, Hash, Structural)]
pub enum ModuleKind {
    Mod,
    Type,
}

/// How one item refers to another.
#[derive(Clone, Copy, Debug, PartialEq, Eq, Hash, Structural)]
pub enum RefKind {
    Import,
    Signature,
    TraitBound,
    Impl,
    Body,
}

/// The rank of a reference kind in the edge order.
pub open spec fn ref_rank(k: RefKind) -> int {
    match k {
        RefKind::Import => 0,
        RefKind::Signature => 1,
        RefKind::TraitBound => 2,
        RefKind::Impl => 3,
        RefKind::Body => 4,
    }
}

/// The rank of a reference kind in the edge order.
pub fn ref_rank_of(k: RefKind) -> (r: u8)
    ensures
        r == ref_rank(k),
{
    match k {
        RefKind::Import => 0,
        RefKind::Signature => 1,
        RefKind::TraitBound => 2,
        RefKind::Impl => 3,
        RefKind::Body => 4,
    }
}

/// The declared visibility of a module or item.
#[derive(Clone, Debug, PartialEq, Eq, Hash)]
pub enum Visibility {
    Public,
    Crate,
    Super,
    Private,
    /// Visible within the module at this canonical path.
    Module(String),
}

/// The mathematical value of a [`Visibility`].
pub enum VisibilityView {
    Public,
    Crate,
    Super,
    Private,
    Module(Seq<char>),
}

impl View for Visibility {
    type V = VisibilityView;

    open spec fn view(&self) -> VisibilityView {
        match self {
            Visibility::Public => VisibilityView::Public,
            Visibility::Crate => VisibilityView::Crate,
            Visibility::Super => VisibilityView::Super,
            Visibility::Private => VisibilityView::Private,
            Visibility::Module(p) => VisibilityView::Module(p@),
        }
    }
}

impl Visibility {
    /// An equal copy of this visibility.
    pub fn duplicate(&self) -> (r: Visibility)
        ensures
            r@ == self@,
    {
        match self {
            Visibility::Public => Visibility::Public,
            Visibility::Crate => Visibility::Crate,
            Visibility::Super => Visibility::Super,
            Visibility::Private => Visibility::Private,
            Visibility::Module(p) => Visibility::Module(p.clone()),
        }
    }

    /// Whether this is plain public visibility.
    pub fn is_public(&self) -> (r: bool)
        ensures
            r == (self@ is Public),
    {
        match self {
            Visibility::Public => true,
            _ => false,
        }
    }
}

/// A crate of the analyzed graph.
#[derive(Clone, Debug, PartialEq, Eq)]
pub struct Crate {
    pub id: CrateId,
    pub name: String,
    pub is_local: bool,
    pub root_module: ModuleId,
}

/// The mathematical value of a [`Crate`].
pub struct CrateView {
    pub id: CrateId,
    pub name: Seq<char>,
    pub is_local: bool,
    pub root_module: ModuleId,
}

impl View for Crate {
    type V = CrateView;

    open spec fn view(&self) -> CrateView {
        CrateView { id: self.id, name: self.name@, is_local: self.is_local, root_module: self.root_module }
    }
}

/// A module (or type container) of the graph.
#[derive(Clone, Debug, PartialEq, Eq)]
pub struct Module {
    pub id: ModuleId,
    pub crate_id: CrateId,
    pub parent: Option<ModuleId>,
    pub name: String,
    pub canonical_path: String,
    pub depth: u32,
    pub visibility: Visibility,
    pub kind: ModuleKind,
}

/// The mathematical value of a [`Module`].
pub struct ModuleView {
    pub id: ModuleId,
    pub crate_id: CrateId,
    pub parent: Option<ModuleId>,
    pub name: Seq<char>,
    pub canonical_path: Seq<char>,
    pub depth: u32,
    pub visibility: VisibilityView,
    pub kind: ModuleKind,
}

impl View for Module {
    type V = ModuleView;

    open spec fn view(&self) -> ModuleView {
        ModuleView {
            id: self.id,
            crate_id: self.crate_id,
            parent: self.parent,
            name: self.name@,
            canonical_path: self.canonical_path@,
            depth: self.depth,
            visibility: self.visibility@,
            kind: self.kind,
        }
    }
}

/// An item (declaration) of the graph.
#[derive(Clone, Debug, PartialEq, Eq)]
pub struct Item {
    pub id: ItemId,
    pub canonical_path: String,
    pub kind: ItemKind,
    pub visibility: Visibility,
    pub owning_module: ModuleId,
    pub crate_id: CrateId,
    pub has_canonical_path: bool,
    pub reachable_pub_api: bool,
}

/// The mathematical value of an [`Item`].
pub struct ItemView {
    pub id: ItemId,
    pub canonical_path: Seq<char>,
    pub kind: ItemKind,
    pub visibility: VisibilityView,
    pub owning_module: ModuleId,
    pub crate_id: CrateId,
    pub has_canonical_path: bool,
    pub reachable_pub_api: bool,
}

impl View for Item {
    type V = ItemView;

    open spec fn view(&self) -> ItemView {
        ItemView {
            id: self.id,
            canonical_path: self.canonical_path@,
            kind: self.kind,
            visibility: self.visibility@,
            owning_module: self.owning_module,
            crate_id: self.crate_id,
            has_canonical_path: self.has_canonical_path,
            reachable_pub_api: self.reachable_pub_api,
        }
    }
}

/// A weighted dependency edge between two items.
#[derive(Clone, Copy, Debug, PartialEq, Eq, Hash, Structural)]
pub struct Edge {
    pub from: ItemId,
    pub to: ItemId,
    pub kind: RefKind,
    pub weight: u32,
}

/// The whole analyzed graph.
#[derive(Clone, Debug, PartialEq, Eq)]
pub struct CrateGraph {
    pub schema_version: u32,
    /// Provenance: the tool and version that produced the graph.
    pub ra_version: String,
    pub root_crate: CrateId,
    pub crates: Vec<Crate>,
    pub modules: Vec<Module>,
    pub items: Vec<Item>,
    pub edges: Vec<Edge>,
}

/// The mathematical value of a [`CrateGraph`].
pub struct GraphView {
    pub schema_version: u32,
    pub ra_version: Seq<char>,
    pub root_crate: CrateId,
    pub crates: Seq<CrateView>,
    pub modules: Seq<ModuleView>,
    pub items: Seq<ItemView>,
    pub edges: Seq<Edge>,
}

impl View for CrateGraph {
    type V = GraphView;

    open spec fn view(&self) -> GraphView {
        GraphView {
            schema_version: self.schema_version,
            ra_version: self.ra_version@,
            root_crate: self.root_crate,
            crates: crate_views(self.crates@),
            modules: module_views(self.modules@),
            items: item_views(self.items@),
            edges: self.edges@,
        }
    }
}

/// The crates of a sequence, by value.
pub open spec fn crate_views(s: Seq<Crate>) -> Seq<CrateView> {
    s.map_values(|c: Crate| c@)
}

/// The modules of a sequence, by value.
pub open spec fn module_views(s: Seq<Module>) -> Seq<ModuleView> {
    s.map_values(|m: Module| m@)
}

/// The items of a sequence, by value.
pub open spec fn item_views(s: Seq<Item>) -> Seq<ItemView> {
    s.map_values(|i: Item| i@)
}

/// Whether module `m` and every ancestor up to its crate root are public. A
/// parent that does not precede its child is treated as unreachable.
pub open spec fn module_chain_public(modules: Seq<ModuleView>, m: nat) -> bool
    decreases m,
{
    if m < modules.len() {
        &&& modules[m as int].visibility is Public
        &&& match modules[m as int].parent {
            None => true,
            Some(p) => p.0 < m && module_chain_public(modules, p.0 as nat),
        }
    } else {
        false
    }
}

/// Whether an item belongs to the public API: it is public and so is every
/// module from its owning module up to the crate root.
pub open spec fn item_public_api(modules: Seq<ModuleView>, item: ItemView) -> bool {
    item.visibility is Public && module_chain_public(modules, item.owning_module.0 as nat)
}

/// Whether every module's parent precedes it.
pub open spec fn parents_precede(modules: Seq<ModuleView>) -> bool {
    forall|i: int| 0 <= i < modules.len() ==> match #[trigger] modules[i].parent {
        None => true,
        Some(p) => p.0 < i,
    }
}

/// Computes, for every module, whether its whole chain to the root is public.
pub fn public_modules(modules: &Vec<Module>) -> (r: Vec<bool>)
    ensures
        r@.len() == modules@.len(),
        forall|i: int| 0 <= i < r@.len() ==> r@[i] == module_chain_public(module_views(modules@), i as nat),
{
    let ghost mv = module_views(modules@);
    let mut r: Vec<bool> = Vec::new();
    let mut i: usize = 0;
    while i < modules.len()
        invariant
            i <= modules@.len(),
            mv == module_views(modules@),
            r@.len() == i,
            forall|j: int| 0 <= j < i ==> r@[j] == module_chain_public(mv, j as nat),
        decreases modules@.len() - i,
    {
        let m = &modules[i];
        let here = m.visibility.is_public();
        let b = match m.parent {
            None => here,
            Some(p) => here && p.index() < i && r[p.index()],
        };
        assert(mv[i as int] == m@);
        r.push(b);
        i = i + 1;
    }
    r
}

impl CrateGraph {
    /// The crate with the given id.
    pub fn krate(&self, id: CrateId) -> (r: &Crate)
        requires
            id.0 < self.crates@.len(),
        ensures
            *r == self.crates@[id.0 as int],
    {
        &self.crates[id.index()]
    }

    /// The module with the given id.
    pub fn module(&self, id: ModuleId) -> (r: &Module)
        requires
            id.0 < self.modules@.len(),
        ensures
            *r == self.modules@[id.0 as int],
    {
        &self.modules[id.index()]
    }

    /// The item with the given id.
    pub fn item(&self, id: ItemId) -> (r: &Item)
        requires
            id.0 < self.items@.len(),
        ensures
            *r == self.items@[id.0 as int],
    {
        &self.items[id.index()]
    }

    /// Whether module `m` is reachable from outside its crate: it and every
    /// ancestor are public.
    pub fn module_public_reachable(&self, m: ModuleId) -> (r: bool)
        ensures
            r == module_chain_public(module_views(self.modules@), m.0 as nat),
    {
        let flags = public_modules(&self.modules);
        if m.index() < flags.len() {
            flags[m.index()]
        } else {
            false
        }
    }

    /// Sets every item's `reachable_pub_api` flag: an item is public API when it
    /// is public and its whole module chain is public.
    pub fn compute_public_api(&mut self)
        ensures
            final(self).schema_version == old(self).schema_version,
            final(self).ra_version == old(self).ra_version,
            final(self).root_crate == old(self).root_crate,
            final(self).crates == old(self).crates,
            final(self).modules == old(self).modules,
            final(self).edges == old(self).edges,
            final(self).items@.len() == old(self).items@.len(),
            forall|i: int| 0 <= i < final(self).items@.len() ==> {
                let before = #[trigger] old(self).items@[i]@;
                final(self).items@[i]@ == ItemView {
                    reachable_pub_api: item_public_api(module_views(old(self).modules@), before),
                    ..before
                }
            },
    {
        let flags = public_modules(&self.modules);
        let n = self.items.len();
        let mut i: usize = 0;
        while i < n
            invariant
                n == self.items@.len(),
                n == old(self).items@.len(),
                i <= n,
                self.modules == old(self).modules,
                self.crates == old(self).crates,
                self.edges == old(self).edges,
                self.schema_version == old(self).schema_version,
                self.ra_version == old(self).ra_version,
                self.root_crate == old(self).root_crate,
                flags@.len() == self.modules@.len(),
                forall|j: int| 0 <= j < flags@.len() ==> flags@[j] == module_chain_public(module_views(old(self).modules@), j as nat),
                forall|j: int| 0 <= j < n ==> {
                    let before = #[trigger] old(self).items@[j]@;
                    let now = self.items@[j]@;
                    now == ItemView {
                        reachable_pub_api: if j < i { item_public_api(module_views(old(self).modules@), before) } else { now.reachable_pub_api },
                        ..before
                    }
                },
            decreases n - i,
        {
            let owner = self.items[i].owning_module.index();
            let public = self.items[i].visibility.is_public();
            let b = public && owner < flags.len() && flags[owner];
            self.items[i].reachable_pub_api = b;
            i = i + 1;
        }
    }

    /// The public-API computation, with additional items exposed by `pub use`
    /// re-exports from publicly reachable modules.
    pub fn compute_public_api_with_reexports(&mut self, reexported: &Vec<ItemId>)
        ensures
            final(self).schema_version == old(self).schema_version,
            final(self).ra_version == old(self).ra_version,
            final(self).modules == old(self).modules,
            final(self).crates == old(self).crates,
            final(self).edges == old(self).edges,
            final(self).root_crate == old(self).root_crate,
            final(self).items@.len() == old(self).items@.len(),
            forall|i: int| 0 <= i < final(self).items@.len() ==> {
                let before = #[trigger] old(self).items@[i]@;
                final(self).items@[i]@ == ItemView {
                    reachable_pub_api: item_public_api(module_views(old(self).modules@), before)
                        || reexported@.contains(ItemId(i as u32)),
                    ..before
                }
            },
    {
        self.compute_public_api();
        let ghost mid = self.items@;
        let n = self.items.len();
        let mut i: usize = 0;
        while i < n
            invariant
                n == self.items@.len(),
                n == mid.len(),
                n == old(self).items@.len(),
                i <= n,
                self.modules == old(self).modules,
                self.crates == old(self).crates,
                self.edges == old(self).edges,
                self.root_crate == old(self).root_crate,
                self.schema_version == old(self).schema_version,
                self.ra_version == old(self).ra_version,
                forall|j: int| 0 <= j < n ==> {
                    let before = #[trigger] old(self).items@[j]@;
                    mid[j]@ == ItemView {
                        reachable_pub_api: item_public_api(module_views(old(self).modules@), before),
                        ..before
                    }
                },
                forall|j: int| 0 <= j < n ==> {
                    let now = #[trigger] self.items@[j]@;
                    now == ItemView {
                        reachable_pub_api: if j < i { mid[j]@.reachable_pub_api || reexported@.contains(ItemId(j as u32)) } else { mid[j]@.reachable_pub_api },
                        ..mid[j]@
                    }
                },
            decreases n - i,
        {
            let id = ItemId(i as u32);
            let mut found = false;
            let mut k: usize = 0;
            while k < reexported.len()
                invariant
                    k <= reexported@.len(),
                    found == exists|q: int| 0 <= q < k && reexported@[q] == id,
                decreases reexported@.len() - k,
            {
                if reexported[k] == id {
                    found = true;
                }
                k = k + 1;
            }
            assert(found == reexported@.contains(id));
            if found {
                self.items[i].reachable_pub_api = true;
            }
            i = i + 1;
        }
    }
}

} // verus!
