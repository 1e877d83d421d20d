//! The lowering itself: what graph an index yields ([`lowered_state`]), and
//! [`lower`], which builds it.

use vstd::prelude::*;
use crate::builder::{
    finished_from, grown, has_crate, ids_fit, lookup, pending_count, s_add_crate, s_add_item, s_add_module, s_add_type, s_new,
    state_wf, BuildError, BuilderState, CrateGraphBuilder, PendingEdge,
};
use crate::ir::{CrateGraph, ItemId, ItemKind, ModuleId, ModuleKind, RefKind, Visibility, VisibilityView};
use crate::scip::{
    decode_scip, desc_views, descriptor_name, is_global_symbol, scip_decoded, parse_descriptors, pos_le, project_basename,
    range_contains, range_span, scip_symbol_descriptors, span_lt, spec_descriptor_name,
    spec_is_global_symbol, spec_project_basename, spec_range_from, spec_synthetic_key, synthetic_key,
    Desc, DocumentView, IndexView, Range, ScipDescriptor, ScipDocument, ScipIndex, ScipOccurrence, ROLE_DEFINITION, ROLE_IMPORT, SUFFIX_MACRO, SUFFIX_METHOD,
    SUFFIX_NAMESPACE, SUFFIX_TERM, SUFFIX_TYPE,
};
use crate::text::join3;
use vstd::hash_set::StringHashSet;

verus! {

/// An occurrence, by value.
pub struct OccView {
    pub symbol: Seq<char>,
    pub roles: i32,
    pub range: Seq<i32>,
    pub enclosing: Seq<i32>,
}

impl View for ScipOccurrence {
    type V = OccView;

    open spec fn view(&self) -> OccView {
        OccView { symbol: self.symbol@, roles: self.symbol_roles, range: self.range@, enclosing: self.enclosing_range@ }
    }
}

/// Occurrences, by value.
pub open spec fn occ_views(v: Seq<ScipOccurrence>) -> Seq<OccView> {
    v.map_values(|o: ScipOccurrence| o@)
}

/// Strings, by value.
pub open spec fn str_views(v: Seq<String>) -> Seq<Seq<char>> {
    v.map_values(|s: String| s@)
}

/// A definition: a symbol and its descriptors.
pub type Def = (Seq<char>, Seq<Desc>);

/// Every symbol of the documents' symbol information, in order.
pub open spec fn all_symbols(docs: Seq<DocumentView>) -> Seq<Seq<char>>
    decreases docs.len(),
{
    if docs.len() == 0 {
        Seq::empty()
    } else {
        all_symbols(docs.drop_last()) + docs.last().symbols
    }
}

/// The definitions among `syms`, where `parses[i]` is what symbol `i` parses
/// into: each global symbol at its first occurrence, when it parses into at
/// least one descriptor.
pub open spec fn defs_of(syms: Seq<Seq<char>>, parses: Seq<Option<Seq<Desc>>>) -> Seq<Def>
    decreases syms.len(),
{
    if syms.len() == 0 {
        Seq::empty()
    } else {
        let prev = defs_of(syms.drop_last(), parses);
        let s = syms.last();
        let p = parses[syms.len() - 1];
        if spec_is_global_symbol(s) && !syms.drop_last().contains(s) && p is Some && p->0.len() > 0 {
            prev.push((s, p->0))
        } else {
            prev
        }
    }
}

/// What SCIP's symbol parser yields for each of `syms`.
pub open spec fn scip_parses(syms: Seq<Seq<char>>) -> Seq<Option<Seq<Desc>>> {
    syms.map_values(|s: Seq<char>| scip_symbol_descriptors(s))
}

/// Parse results, by value.
pub open spec fn parse_views(v: Seq<Option<Vec<ScipDescriptor>>>) -> Seq<Option<Seq<Desc>>> {
    v.map_values(|p: Option<Vec<ScipDescriptor>>| match p {
        Some(d) => Some(desc_views(d@)),
        None => None,
    })
}

/// The symbol of the last definition with descriptors `sig`, if any.
pub open spec fn sig_key(defs: Seq<Def>, sig: Seq<Desc>) -> Option<Seq<char>>
    decreases defs.len(),
{
    if defs.len() == 0 {
        None
    } else if defs.last().1 == sig {
        Some(defs.last().0)
    } else {
        sig_key(defs.drop_last(), sig)
    }
}

/// The state of the module-tree phase.
pub struct TreeState {
    pub b: BuilderState,
    /// The module made for each descriptor prefix, in creation order.
    pub module_of_sig: Seq<(Seq<Desc>, ModuleId)>,
    /// The modules that are type containers.
    pub type_modules: Seq<ModuleId>,
    /// The symbols that became items.
    pub item_keys: Seq<Seq<char>>,
}

/// The module made for descriptor prefix `sig`, if any.
pub open spec fn sig_module(m: Seq<(Seq<Desc>, ModuleId)>, sig: Seq<Desc>) -> Option<ModuleId>
    decreases m.len(),
{
    if m.len() == 0 {
        None
    } else if m.last().0 == sig {
        Some(m.last().1)
    } else {
        sig_module(m.drop_last(), sig)
    }
}

/// Ensures a module (or type container) for `sig` and its ancestors, creating
/// the missing ones top down; returns the state and the module of `sig`.
pub open spec fn s_ensure(t: TreeState, sig: Seq<Desc>, root: ModuleId, defs: Seq<Def>) -> (TreeState, ModuleId)
    decreases sig.len(),
{
    if sig.len() == 0 {
        (t, root)
    } else if sig_module(t.module_of_sig, sig) is Some {
        (t, sig_module(t.module_of_sig, sig)->0)
    } else {
        let (t1, parent) = s_ensure(t, sig.drop_last(), root, defs);
        let name = spec_descriptor_name(sig.last().0);
        let key = match sig_key(defs, sig) {
            Some(k) => k,
            None => spec_synthetic_key(sig),
        };
        let m = ModuleId(t1.b.modules.len() as u32);
        if sig.last().1 == SUFFIX_TYPE {
            (
                TreeState {
                    b: s_add_type(t1.b, parent, key, name, ItemKind::Struct, VisibilityView::Public),
                    module_of_sig: t1.module_of_sig.push((sig, m)),
                    type_modules: t1.type_modules.push(m),
                    ..t1
                },
                m,
            )
        } else {
            (
                TreeState {
                    b: s_add_module(t1.b, parent, key, name, VisibilityView::Public),
                    module_of_sig: t1.module_of_sig.push((sig, m)),
                    ..t1
                },
                m,
            )
        }
    }
}

/// Every descriptor path recorded in `m` has each of its non-empty prefixes
/// recorded too (modules are made top down).
pub open spec fn prefix_closed(m: Seq<(Seq<Desc>, ModuleId)>) -> bool {
    forall|i: int, k: int| 0 <= i < m.len() && 1 <= k <= m[i].0.len() ==> (#[trigger] sig_module(m, m[i].0.take(k))) is Some
}

/// Looking a path up after one more record.
proof fn lemma_sig_module_push(m: Seq<(Seq<Desc>, ModuleId)>, e: (Seq<Desc>, ModuleId), q: Seq<Desc>)
    ensures
        sig_module(m.push(e), q) == if e.0 == q { Some(e.1) } else { sig_module(m, q) },
{
    assert(m.push(e).drop_last() =~= m);
}

/// A path that is found is recorded at some position.
proof fn lemma_sig_module_at(m: Seq<(Seq<Desc>, ModuleId)>, q: Seq<Desc>)
    requires
        sig_module(m, q) is Some,
    ensures
        exists|i: int| 0 <= i < m.len() && m[i].0 == q,
    decreases m.len(),
{
    if m.last().0 != q {
        lemma_sig_module_at(m.drop_last(), q);
        let i = choose|i: int| 0 <= i < m.drop_last().len() && m.drop_last()[i].0 == q;
        assert(m[i] == m.drop_last()[i]);
    } else {
        assert(m[m.len() - 1].0 == q);
    }
}

/// What ensuring the module of `sig` does to the recorded paths: `sig` and
/// each of its non-empty prefixes are then recorded, `sig` with the module
/// returned, earlier records are found as before, and the records stay
/// closed under prefixes.
proof fn lemma_s_ensure_records(t: TreeState, sig: Seq<Desc>, root: ModuleId, defs: Seq<Def>)
    requires
        prefix_closed(t.module_of_sig),
    ensures
        ({
            let (t1, m) = s_ensure(t, sig, root, defs);
            &&& sig.len() > 0 ==> sig_module(t1.module_of_sig, sig) == Some(m)
            &&& forall|q: Seq<Desc>| (#[trigger] sig_module(t.module_of_sig, q)) is Some
                ==> sig_module(t1.module_of_sig, q) == sig_module(t.module_of_sig, q)
            &&& forall|k: int| 1 <= k <= sig.len() ==> (#[trigger] sig_module(t1.module_of_sig, sig.take(k))) is Some
            &&& prefix_closed(t1.module_of_sig)
        }),
    decreases sig.len(),
{
    let mos = t.module_of_sig;
    if sig.len() == 0 {
    } else if sig_module(mos, sig) is Some {
        lemma_sig_module_at(mos, sig);
        let i = choose|i: int| 0 <= i < mos.len() && mos[i].0 == sig;
        assert forall|k: int| 1 <= k <= sig.len() implies (#[trigger] sig_module(mos, sig.take(k))) is Some by {
            assert(sig_module(mos, mos[i].0.take(k)) is Some);
        }
    } else {
        let pre = sig.drop_last();
        lemma_s_ensure_records(t, pre, root, defs);
        let (t1, parent) = s_ensure(t, pre, root, defs);
        let (t2, m) = s_ensure(t, sig, root, defs);
        let m1 = t1.module_of_sig;
        let e = (sig, m);
        assert(t2.module_of_sig == m1.push(e));
        lemma_sig_module_push(m1, e, sig);
        assert forall|q: Seq<Desc>| (#[trigger] sig_module(mos, q)) is Some implies sig_module(t2.module_of_sig, q) == sig_module(mos, q) by {
            lemma_sig_module_push(m1, e, q);
        }
        assert forall|k: int| 1 <= k <= sig.len() implies (#[trigger] sig_module(t2.module_of_sig, sig.take(k))) is Some by {
            lemma_sig_module_push(m1, e, sig.take(k));
            if k < sig.len() {
                assert(sig.take(k) =~= pre.take(k));
                assert(sig_module(m1, pre.take(k)) is Some);
            } else {
                assert(sig.take(k) =~= sig);
            }
        }
        assert forall|i: int, k: int| 0 <= i < t2.module_of_sig.len() && 1 <= k <= t2.module_of_sig[i].0.len()
            implies (#[trigger] sig_module(t2.module_of_sig, t2.module_of_sig[i].0.take(k))) is Some by {
            let q = t2.module_of_sig[i].0.take(k);
            lemma_sig_module_push(m1, e, q);
            if i < m1.len() {
                assert(t2.module_of_sig[i] == m1[i]);
                assert(sig_module(m1, m1[i].0.take(k)) is Some);
            } else {
                assert(t2.module_of_sig[i] == e);
                assert(sig_module(t2.module_of_sig, sig.take(k)) is Some);
            }
        }
    }
}

/// Ensuring the module of a descriptor path a second time finds the module
/// the first call returned and leaves the state as the first call left it.
pub proof fn law_ensure_module_repeat(t: TreeState, sig: Seq<Desc>, root: ModuleId, defs: Seq<Def>)
    requires
        sig.len() > 0,
    ensures
        s_ensure(s_ensure(t, sig, root, defs).0, sig, root, defs) == s_ensure(t, sig, root, defs),
{
    if sig_module(t.module_of_sig, sig) is None {
        let t1 = s_ensure(t, sig.drop_last(), root, defs).0;
        let (t2, m) = s_ensure(t, sig, root, defs);
        lemma_sig_module_push(t1.module_of_sig, (sig, m), sig);
    }
}

/// Once the module of a descriptor path is ensured, ensuring any non-empty
/// prefix of it finds that prefix's module and changes nothing; and the
/// recorded paths stay closed under prefixes, as they are from the empty
/// state on.
pub proof fn law_ensure_module_prefix(t: TreeState, sig: Seq<Desc>, root: ModuleId, defs: Seq<Def>, k: int)
    requires
        1 <= k <= sig.len(),
        prefix_closed(t.module_of_sig),
    ensures
        ({
            let t1 = s_ensure(t, sig, root, defs).0;
            &&& s_ensure(t1, sig.take(k), root, defs)
                == (t1, sig_module(t1.module_of_sig, sig.take(k))->0)
            &&& prefix_closed(t1.module_of_sig)
        }),
{
    lemma_s_ensure_records(t, sig, root, defs);
    let t1 = s_ensure(t, sig, root, defs).0;
    assert(sig_module(t1.module_of_sig, sig.take(k)) is Some);
}

/// Law: a descriptor path not yet made becomes one new module, after the
/// modules its parent path needed, under the module of that parent path: its
/// path is the parent's, `::`, and the name of its last descriptor; it is a
/// type container, and recorded as one, exactly when that descriptor is a
/// type; and the path is recorded with it.
pub proof fn law_ensure_module_creates(t: TreeState, sig: Seq<Desc>, root: ModuleId, defs: Seq<Def>)
    requires
        sig.len() > 0,
        sig_module(t.module_of_sig, sig) is None,
    ensures
        ({
            let (t1, parent) = s_ensure(t, sig.drop_last(), root, defs);
            let (t2, m) = s_ensure(t, sig, root, defs);
            let mm = t2.b.modules.last();
            &&& t2.b.modules == t1.b.modules.push(mm)
            &&& mm.id == m
            &&& mm.parent == Some(parent)
            &&& mm.name == spec_descriptor_name(sig.last().0)
            &&& mm.canonical_path == t1.b.modules[parent.0 as int].canonical_path + "::"@ + spec_descriptor_name(sig.last().0)
            &&& (mm.kind is Type) == (sig.last().1 == SUFFIX_TYPE)
            &&& t2.type_modules == if sig.last().1 == SUFFIX_TYPE { t1.type_modules.push(m) } else { t1.type_modules }
            &&& t2.module_of_sig == t1.module_of_sig.push((sig, m))
        }),
{
    let (t1, parent) = s_ensure(t, sig.drop_last(), root, defs);
    let (t2, m) = s_ensure(t, sig, root, defs);
    assert(t2.b.modules.drop_last() =~= t1.b.modules);
}

/// The item kind of a method, term or macro descriptor, by whether its parent
/// is a type.
pub open spec fn item_kind_for(suffix: i32, parent_is_type: bool) -> ItemKind {
    if suffix == SUFFIX_METHOD {
        if parent_is_type { ItemKind::AssocFn } else { ItemKind::Function }
    } else if suffix == SUFFIX_TERM {
        if parent_is_type { ItemKind::AssocConst } else { ItemKind::Const }
    } else {
        ItemKind::Macro
    }
}

/// Lowers one definition: a namespace or type becomes its module chain; a
/// method, term or macro becomes a public item under its parent chain; other
/// descriptors are skipped.
pub open spec fn s_add_def(t: TreeState, def: Def, root: ModuleId, defs: Seq<Def>) -> TreeState {
    let sig = def.1;
    let suffix = sig.last().1;
    if suffix == SUFFIX_NAMESPACE || suffix == SUFFIX_TYPE {
        s_ensure(t, sig, root, defs).0
    } else if suffix == SUFFIX_METHOD || suffix == SUFFIX_TERM || suffix == SUFFIX_MACRO {
        let (t1, parent) = s_ensure(t, sig.drop_last(), root, defs);
        let kind = item_kind_for(suffix, t1.type_modules.contains(parent));
        TreeState {
            b: s_add_item(t1.b, parent, def.0, spec_descriptor_name(sig.last().0), kind, VisibilityView::Public),
            item_keys: t1.item_keys.push(def.0),
            ..t1
        }
    } else {
        t
    }
}

/// The tree phase over the first `n` definitions.
pub open spec fn s_tree(t0: TreeState, defs: Seq<Def>, n: nat, root: ModuleId) -> TreeState
    decreases n,
{
    if n == 0 {
        t0
    } else {
        s_add_def(s_tree(t0, defs, (n - 1) as nat, root), defs[n - 1], root, defs)
    }
}

/// Whether an occurrence is a definition.
pub open spec fn is_def(o: OccView) -> bool {
    o.roles & 1i32 != 0
}

/// The kind of the edge an occurrence makes.
pub open spec fn occ_kind(o: OccView) -> RefKind {
    if o.roles & 2i32 != 0 { RefKind::Import } else { RefKind::Body }
}

/// The range a definition covers: its enclosing range when recorded, else its
/// own range.
pub open spec fn def_range(o: OccView) -> Option<Range> {
    spec_range_from(if o.enclosing.len() == 0 { o.range } else { o.enclosing })
}

/// The definitions of a document with their covered ranges, in order.
pub open spec fn def_ranges(occs: Seq<OccView>) -> Seq<(Seq<char>, Range)>
    decreases occs.len(),
{
    if occs.len() == 0 {
        Seq::empty()
    } else {
        let prev = def_ranges(occs.drop_last());
        let o = occs.last();
        if is_def(o) && def_range(o) is Some { prev.push((o.symbol, def_range(o)->0)) } else { prev }
    }
}

/// Whether a document records enclosing ranges for its definitions.
pub open spec fn has_enclosing(occs: Seq<OccView>) -> bool {
    exists|i: int| 0 <= i < occs.len() && is_def(#[trigger] occs[i]) && occs[i].enclosing.len() != 0
}

/// The item definitions of a document with their start positions, in order.
pub open spec fn item_starts(occs: Seq<OccView>, keys: Seq<Seq<char>>) -> Seq<(Seq<char>, (i32, i32))>
    decreases occs.len(),
{
    if occs.len() == 0 {
        Seq::empty()
    } else {
        let prev = item_starts(occs.drop_last(), keys);
        let o = occs.last();
        if is_def(o) && keys.contains(o.symbol) && spec_range_from(o.range) is Some {
            let r = spec_range_from(o.range)->0;
            prev.push((o.symbol, (r.start_line, r.start_char)))
        } else {
            prev
        }
    }
}

/// Position `i` holds the innermost definition containing `r`: the first of
/// the smallest span among those containing it.
pub open spec fn is_innermost(defs: Seq<(Seq<char>, Range)>, r: Range, i: int) -> bool {
    innermost_below(defs, r, i, defs.len() as int)
}

/// Position `i` holds the innermost definition containing `r` among the
/// first `n`.
pub open spec fn innermost_below(defs: Seq<(Seq<char>, Range)>, r: Range, i: int, n: int) -> bool {
    &&& 0 <= i < n
    &&& range_contains(defs[i].1, r)
    &&& forall|j: int| 0 <= j < n && range_contains(#[trigger] defs[j].1, r) ==> !span_lt(range_span(defs[j].1), range_span(defs[i].1))
    &&& forall|j: int| 0 <= j < i && range_contains(#[trigger] defs[j].1, r) ==> span_lt(range_span(defs[i].1), range_span(defs[j].1))
}

/// The innermost definition containing `r`, if any contains it.
pub open spec fn innermost(defs: Seq<(Seq<char>, Range)>, r: Range) -> Option<Seq<char>> {
    if exists|i: int| is_innermost(defs, r, i) {
        Some(defs[choose|i: int| is_innermost(defs, r, i)].0)
    } else {
        None
    }
}

/// Position `i` holds the nearest item defined at or before `p`: the latest
/// start not after `p`, the last one listed among equal starts.
pub open spec fn is_preceding(starts: Seq<(Seq<char>, (i32, i32))>, p: (i32, i32), i: int) -> bool {
    preceding_below(starts, p, i, starts.len() as int)
}

/// Position `i` holds the nearest item defined at or before `p` among the
/// first `n`.
pub open spec fn preceding_below(starts: Seq<(Seq<char>, (i32, i32))>, p: (i32, i32), i: int, n: int) -> bool {
    &&& 0 <= i < n
    &&& pos_le(starts[i].1, p)
    &&& forall|j: int| 0 <= j < n && pos_le(#[trigger] starts[j].1, p) ==> pos_le(starts[j].1, starts[i].1)
    &&& forall|j: int| i < j < n && pos_le(#[trigger] starts[j].1, p) ==> !pos_le(starts[i].1, starts[j].1)
}

/// The nearest item defined at or before `p`, if any.
pub open spec fn preceding(starts: Seq<(Seq<char>, (i32, i32))>, p: (i32, i32)) -> Option<Seq<char>> {
    if exists|i: int| is_preceding(starts, p, i) {
        Some(starts[choose|i: int| is_preceding(starts, p, i)].0)
    } else {
        None
    }
}

/// The definition a reference at `r` belongs to.
pub open spec fn owner(occs: Seq<OccView>, keys: Seq<Seq<char>>, r: Range) -> Option<Seq<char>> {
    match innermost(def_ranges(occs), r) {
        Some(s) => Some(s),
        None => if has_enclosing(occs) { None } else { preceding(item_starts(occs, keys), (r.start_line, r.start_char)) },
    }
}

/// The edges the first `n` occurrences of a document make.
pub open spec fn doc_edges(occs: Seq<OccView>, keys: Seq<Seq<char>>, n: nat) -> Seq<PendingEdge>
    decreases n,
{
    if n == 0 || n > occs.len() {
        Seq::empty()
    } else {
        let prev = doc_edges(occs, keys, (n - 1) as nat);
        let o = occs[n - 1];
        if !is_def(o) && spec_range_from(o.range) is Some && owner(occs, keys, spec_range_from(o.range)->0) is Some {
            prev.push((owner(occs, keys, spec_range_from(o.range)->0)->0, o.symbol, occ_kind(o)))
        } else {
            prev
        }
    }
}

/// The edges of all documents, in order.
pub open spec fn all_edges(docs: Seq<DocumentView>, keys: Seq<Seq<char>>) -> Seq<PendingEdge>
    decreases docs.len(),
{
    if docs.len() == 0 {
        Seq::empty()
    } else {
        let occs = docs.last().occurrences;
        all_edges(docs.drop_last(), keys) + doc_edges(occs, keys, occs.len())
    }
}

/// The crate name of an index: the project root's last segment, or `crate`.
pub open spec fn index_crate_name(index: IndexView) -> Seq<char> {
    match index.metadata {
        Some(m) => match spec_project_basename(m.project_root) {
            Some(b) => b,
            None => "crate"@,
        },
        None => "crate"@,
    }
}

/// The provenance of an index: the tool's name and version, or nothing.
pub open spec fn index_provenance(index: IndexView) -> Seq<char> {
    match index.metadata {
        Some(m) => match m.tool_info {
            Some(t) => t.0 + " "@ + t.1,
            None => Seq::empty(),
        },
        None => Seq::empty(),
    }
}

/// The key of the crate root's stub: `<root:NAME>`.
pub open spec fn root_key(name: Seq<char>) -> Seq<char> {
    "<root:"@ + name + ">"@
}

/// The builder content an index lowers to, before finishing, given what each
/// of its symbols parses into.
pub open spec fn lowered_with(index: IndexView, parses: Seq<Option<Seq<Desc>>>) -> BuilderState {
    let name = index_crate_name(index);
    let s0 = s_add_crate(s_new(index_provenance(index)), name, true, root_key(name));
    let defs = defs_of(all_symbols(index.documents), parses);
    let t0 = TreeState { b: s0, module_of_sig: Seq::empty(), type_modules: Seq::empty(), item_keys: Seq::empty() };
    let t = s_tree(t0, defs, defs.len(), ModuleId(0));
    BuilderState { pending_edges: t.b.pending_edges + all_edges(index.documents, t.item_keys), ..t.b }
}

/// The builder content an index lowers to, before finishing.
pub open spec fn lowered_state(index: IndexView) -> BuilderState {
    lowered_with(index, scip_parses(all_symbols(index.documents)))
}

/// Documents, by value.
pub open spec fn doc_views(docs: Seq<ScipDocument>) -> Seq<DocumentView> {
    docs.map_values(|d: ScipDocument| d@)
}

/// Definitions, by value.
pub open spec fn def_views(v: Seq<(String, Vec<ScipDescriptor>)>) -> Seq<Def> {
    v.map_values(|d: (String, Vec<ScipDescriptor>)| (d.0@, desc_views(d.1@)))
}

/// Every symbol of the documents, flattened in order.
fn flatten_symbols(docs: &Vec<ScipDocument>) -> (r: Vec<String>)
    ensures
        str_views(r@) == all_symbols(doc_views(docs@)),
{
    let mut r: Vec<String> = Vec::new();
    let mut d: usize = 0;
    while d < docs.len()
        invariant
            d <= docs@.len(),
            str_views(r@) == all_symbols(doc_views(docs@).take(d as int)),
        decreases docs@.len() - d,
    {
        let syms = &docs[d].symbols;
        let ghost base = str_views(r@);
        let mut k: usize = 0;
        while k < syms.len()
            invariant
                k <= syms@.len(),
                d < docs@.len(),
                syms == docs@[d as int].symbols,
                str_views(r@) == base + str_views(syms@.take(k as int)),
            decreases syms@.len() - k,
        {
            let ghost old_r = r@;
            let c = syms[k].clone();
            r.push(c);
            assert(str_views(r@) =~= str_views(old_r).push(syms@[k as int]@));
            assert(str_views(syms@.take(k + 1)) =~= str_views(syms@.take(k as int)).push(syms@[k as int]@));
            assert(str_views(r@) =~= base + str_views(syms@.take(k + 1)));
            k = k + 1;
        }
        assert(syms@.take(syms@.len() as int) =~= syms@);
        assert(doc_views(docs@).take(d + 1).drop_last() =~= doc_views(docs@).take(d as int));
        assert(doc_views(docs@).take(d + 1).last() == docs@[d as int]@);
        d = d + 1;
    }
    assert(doc_views(docs@).take(docs@.len() as int) =~= doc_views(docs@));
    r
}

/// One more string in a set of strings.
fn add_to_set(seen: &mut StringHashSet, v: &Vec<String>, i: usize)
    requires
        i < v@.len(),
        forall|x: Seq<char>| #[trigger] old(seen)@.contains(x) == str_views(v@).take(i as int).contains(x),
    ensures
        forall|x: Seq<char>| #[trigger] final(seen)@.contains(x) == str_views(v@).take(i + 1).contains(x),
{
    let ghost pre = str_views(v@).take(i as int);
    let ghost next = str_views(v@).take(i + 1);
    assert(next =~= pre.push(v@[i as int]@));
    seen.insert(v[i].clone());
    assert forall|x: Seq<char>| #[trigger] seen@.contains(x) == next.contains(x) by {
        if pre.contains(x) {
            let j = choose|j: int| 0 <= j < pre.len() && pre[j] == x;
            assert(next[j] == x);
        }
        if next.contains(x) && x != v@[i as int]@ {
            let j = choose|j: int| 0 <= j < next.len() && next[j] == x;
            assert(j < pre.len());
            assert(pre[j] == x);
        }
        if x == v@[i as int]@ {
            assert(next[i as int] == x);
        }
    }
}

/// The set of the strings of `v`.
fn string_set(v: &Vec<String>) -> (r: StringHashSet)
    ensures
        forall|x: Seq<char>| #[trigger] r@.contains(x) == str_views(v@).contains(x),
{
    let mut seen = StringHashSet::new();
    let mut i: usize = 0;
    assert forall|x: Seq<char>| #[trigger] seen@.contains(x) == str_views(v@).take(0).contains(x) by {}
    while i < v.len()
        invariant
            i <= v@.len(),
            forall|x: Seq<char>| #[trigger] seen@.contains(x) == str_views(v@).take(i as int).contains(x),
        decreases v@.len() - i,
    {
        add_to_set(&mut seen, v, i);
        i = i + 1;
    }
    assert(str_views(v@).take(v@.len() as int) =~= str_views(v@));
    seen
}

/// The definitions among `syms`, given what each parses into.
fn collect_defs(syms: &Vec<String>, parsed: &Vec<Option<Vec<ScipDescriptor>>>) -> (r: Vec<(String, Vec<ScipDescriptor>)>)
    requires
        parsed@.len() == syms@.len(),
    ensures
        def_views(r@) == defs_of(str_views(syms@), parse_views(parsed@)),
        forall|j: int| 0 <= j < r@.len() ==> (#[trigger] r@[j]).1@.len() > 0,
{
    let ghost pv = parse_views(parsed@);
    let mut r: Vec<(String, Vec<ScipDescriptor>)> = Vec::new();
    let mut seen = StringHashSet::new();
    let mut i: usize = 0;
    assert forall|x: Seq<char>| #[trigger] seen@.contains(x) == str_views(syms@).take(0).contains(x) by {}
    while i < syms.len()
        invariant
            i <= syms@.len(),
            forall|x: Seq<char>| #[trigger] seen@.contains(x) == str_views(syms@).take(i as int).contains(x),
            parsed@.len() == syms@.len(),
            pv == parse_views(parsed@),
            def_views(r@) == defs_of(str_views(syms@).take(i as int), pv),
            forall|j: int| 0 <= j < r@.len() ==> (#[trigger] r@[j]).1@.len() > 0,
        decreases syms@.len() - i,
    {
        let ghost pre = str_views(syms@).take(i + 1);
        assert(pre.drop_last() =~= str_views(syms@).take(i as int));
        assert(pre.last() == syms@[i as int]@);
        assert(pv.take(i + 1).drop_last() =~= pv.take(i as int));
        assert(pv.take(i + 1).last() == pv[i as int]);
        let s = &syms[i];
        if is_global_symbol(s.as_str()) && !seen.contains(s.as_str()) {
            match &parsed[i] {
                Some(d) => {
                    if d.len() > 0 {
                        let ghost dv = desc_views(d@);
                        let ghost old_r = def_views(r@);
                        let copy = sig_prefix(d, d.len());
                        assert(desc_views(d@).take(d@.len() as int) =~= desc_views(d@));
                        r.push((s.clone(), copy));
                        assert(def_views(r@) =~= old_r.push((s@, dv)));
                        assert(def_views(r@).drop_last() =~= old_r);
                    }
                },
                None => {},
            }
        }
        add_to_set(&mut seen, syms, i);
        i = i + 1;
    }
    assert(str_views(syms@).take(syms@.len() as int) =~= str_views(syms@));
    assert(pv.take(syms@.len() as int) =~= pv);
    r
}

/// What SCIP's symbol parser yields for each of `syms`.
fn parse_all(syms: &Vec<String>) -> (r: Vec<Option<Vec<ScipDescriptor>>>)
    ensures
        parse_views(r@) == scip_parses(str_views(syms@)),
{
    let ghost sv = str_views(syms@);
    let mut r: Vec<Option<Vec<ScipDescriptor>>> = Vec::new();
    let mut i: usize = 0;
    while i < syms.len()
        invariant
            i <= syms@.len(),
            sv == str_views(syms@),
            parse_views(r@) == scip_parses(sv.take(i as int)),
        decreases syms@.len() - i,
    {
        let p = parse_descriptors(syms[i].as_str());
        let ghost old_r = parse_views(r@);
        r.push(p);
        let ghost pp = parse_views(r@)[i as int];
        assert(sv.take(i + 1).drop_last() =~= sv.take(i as int));
        assert(sv.take(i + 1).last() == syms@[i as int]@);
        assert(parse_views(r@) =~= old_r.push(pp));
        assert(parse_views(r@).drop_last() =~= old_r);
        assert(scip_parses(sv.take(i + 1)) =~= scip_parses(sv.take(i as int)).push(scip_symbol_descriptors(syms@[i as int]@)));
        i = i + 1;
    }
    assert(sv.take(syms@.len() as int) =~= sv);
    r
}

/// A copy of a descriptor.
fn dup_desc(d: &ScipDescriptor) -> (r: ScipDescriptor)
    ensures
        r@ == d@,
{
    ScipDescriptor { name: d.name.clone(), suffix: d.suffix }
}

/// The first `n` descriptors of `sig`.
fn sig_prefix(sig: &Vec<ScipDescriptor>, n: usize) -> (r: Vec<ScipDescriptor>)
    requires
        n <= sig@.len(),
    ensures
        desc_views(r@) == desc_views(sig@).take(n as int),
{
    let mut r: Vec<ScipDescriptor> = Vec::new();
    let mut i: usize = 0;
    while i < n
        invariant
            i <= n <= sig@.len(),
            desc_views(r@) == desc_views(sig@).take(i as int),
        decreases n - i,
    {
        let ghost old_r = r@;
        let e = dup_desc(&sig[i]);
        r.push(e);
        assert(desc_views(r@) =~= desc_views(old_r).push(sig@[i as int]@));
        assert(desc_views(r@) =~= desc_views(sig@).take(i + 1));
        i = i + 1;
    }
    r
}

/// Whether two descriptor lists are equal.
fn sig_eq(a: &Vec<ScipDescriptor>, b: &Vec<ScipDescriptor>) -> (r: bool)
    ensures
        r == (desc_views(a@) == desc_views(b@)),
{
    if a.len() != b.len() {
        assert(desc_views(a@).len() != desc_views(b@).len());
        return false;
    }
    let mut i: usize = 0;
    while i < a.len()
        invariant
            i <= a@.len(),
            a@.len() == b@.len(),
            forall|j: int| 0 <= j < i ==> a@[j]@ == b@[j]@,
        decreases a@.len() - i,
    {
        if a[i].name != b[i].name || a[i].suffix != b[i].suffix {
            assert(desc_views(a@)[i as int] != desc_views(b@)[i as int]);
            return false;
        }
        i = i + 1;
    }
    assert(desc_views(a@) =~= desc_views(b@));
    true
}

/// The symbol of the last definition with descriptors `sig`.
fn find_sig_key(defs: &Vec<(String, Vec<ScipDescriptor>)>, sig: &Vec<ScipDescriptor>) -> (r: Option<String>)
    ensures
        r matches Some(k) ==> sig_key(def_views(defs@), desc_views(sig@)) == Some(k@),
        r is None ==> sig_key(def_views(defs@), desc_views(sig@)) is None,
{
    let ghost dv = def_views(defs@);
    let mut i = defs.len();
    assert(dv.take(i as int) =~= dv);
    while i > 0
        invariant
            i <= defs@.len(),
            dv == def_views(defs@),
            sig_key(dv, desc_views(sig@)) == sig_key(dv.take(i as int), desc_views(sig@)),
        decreases i,
    {
        assert(dv.take(i as int).drop_last() =~= dv.take(i - 1));
        if sig_eq(&defs[i - 1].1, sig) {
            return Some(defs[i - 1].0.clone());
        }
        i = i - 1;
    }
    None
}

/// Module-of-signature entries, by value.
pub open spec fn mos_views(v: Seq<(Vec<ScipDescriptor>, ModuleId)>) -> Seq<(Seq<Desc>, ModuleId)> {
    v.map_values(|e: (Vec<ScipDescriptor>, ModuleId)| (desc_views(e.0@), e.1))
}

/// The module made for `sig`, if any.
fn find_sig_module(m: &Vec<(Vec<ScipDescriptor>, ModuleId)>, sig: &Vec<ScipDescriptor>) -> (r: Option<ModuleId>)
    ensures
        r == sig_module(mos_views(m@), desc_views(sig@)),
{
    let ghost mv = mos_views(m@);
    let mut i = m.len();
    assert(mv.take(i as int) =~= mv);
    while i > 0
        invariant
            i <= m@.len(),
            mv == mos_views(m@),
            sig_module(mv, desc_views(sig@)) == sig_module(mv.take(i as int), desc_views(sig@)),
        decreases i,
    {
        assert(mv.take(i as int).drop_last() =~= mv.take(i - 1));
        if sig_eq(&m[i - 1].0, sig) {
            return Some(m[i - 1].1);
        }
        i = i - 1;
    }
    None
}

/// A module found for a signature is one of the recorded entries.
proof fn lemma_sig_module_found(m: Seq<(Seq<Desc>, ModuleId)>, sig: Seq<Desc>)
    ensures
        sig_module(m, sig) is Some ==> exists|i: int| 0 <= i < m.len() && #[trigger] m[i].1 == sig_module(m, sig)->0,
    decreases m.len(),
{
    if m.len() > 0 && m.last().0 != sig {
        lemma_sig_module_found(m.drop_last(), sig);
        if sig_module(m, sig) is Some {
            let i = choose|i: int| 0 <= i < m.drop_last().len() && #[trigger] m.drop_last()[i].1 == sig_module(m, sig)->0;
            assert(m[i].1 == sig_module(m, sig)->0);
        }
    } else if m.len() > 0 {
        assert(m[m.len() - 1].1 == sig_module(m, sig)->0);
    }
}

/// Whether `m` is among `ms`.
fn contains_module(ms: &Vec<ModuleId>, m: ModuleId) -> (r: bool)
    ensures
        r == ms@.contains(m),
{
    let mut i: usize = 0;
    while i < ms.len()
        invariant
            i <= ms@.len(),
            forall|j: int| 0 <= j < i ==> ms@[j] != m,
        decreases ms@.len() - i,
    {
        if ms[i] == m {
            return true;
        }
        i = i + 1;
    }
    false
}

/// The tree-phase state, from its parts.
pub open spec fn tree_view(
    b: CrateGraphBuilder,
    mos: Seq<(Vec<ScipDescriptor>, ModuleId)>,
    tm: Seq<ModuleId>,
    ik: Seq<Seq<char>>,
) -> TreeState {
    TreeState { b: b.state(), module_of_sig: mos_views(mos), type_modules: tm, item_keys: ik }
}

/// The tree-phase invariant: a well-formed builder whose root and recorded
/// modules exist.
pub open spec fn tree_ok(t: TreeState, root: ModuleId) -> bool {
    &&& state_wf(t.b)
    &&& t.b.root_crate is Some
    &&& t.b.pending_edges.len() == 0
    &&& root.0 < t.b.modules.len()
    &&& forall|i: int| 0 <= i < t.module_of_sig.len() ==> (#[trigger] t.module_of_sig[i]).1.0 < t.b.modules.len()
}

/// Ensuring a module chain adds modules and items, never removes them.
proof fn lemma_s_ensure_grows(t: TreeState, sig: Seq<Desc>, root: ModuleId, defs: Seq<Def>)
    ensures
        grown(t.b, s_ensure(t, sig, root, defs).0.b),
        sig.len() > 0 && sig_module(t.module_of_sig, sig) is None ==> ({
            let t1 = s_ensure(t, sig.drop_last(), root, defs).0.b;
            let t2 = s_ensure(t, sig, root, defs).0.b;
            t2.modules.len() == t1.modules.len() + 1 && t2.items.len() == t1.items.len() + 1
        }),
    decreases sig.len(),
{
    if sig.len() > 0 && sig_module(t.module_of_sig, sig) is None {
        lemma_s_ensure_grows(t, sig.drop_last(), root, defs);
    }
}

/// Lowering a definition adds modules and items, never removes them.
proof fn lemma_s_add_def_grows(t: TreeState, def: Def, root: ModuleId, defs: Seq<Def>)
    ensures
        grown(t.b, s_add_def(t, def, root, defs).b),
{
    lemma_s_ensure_grows(t, def.1, root, defs);
    lemma_s_ensure_grows(t, def.1.drop_last(), root, defs);
}

/// Later stages of the tree phase have no fewer modules and items.
proof fn lemma_s_tree_grows(t0: TreeState, defs: Seq<Def>, k: nat, n: nat, root: ModuleId)
    requires
        k <= n,
    ensures
        grown(s_tree(t0, defs, k, root).b, s_tree(t0, defs, n, root).b),
    decreases n,
{
    if k < n {
        lemma_s_tree_grows(t0, defs, k, (n - 1) as nat, root);
        lemma_s_add_def_grows(s_tree(t0, defs, (n - 1) as nat, root), defs[n - 1], root, defs);
    }
}


/// Ensures the module of the first `n` descriptors of `sig` and of its
/// ancestors, as [`s_ensure`] says, returning its id.
fn ensure_module(
    sig: &Vec<ScipDescriptor>,
    n: usize,
    root: ModuleId,
    defs: &Vec<(String, Vec<ScipDescriptor>)>,
    b: &mut CrateGraphBuilder,
    mos: &mut Vec<(Vec<ScipDescriptor>, ModuleId)>,
    tm: &mut Vec<ModuleId>,
    Ghost(ik): Ghost<Seq<Seq<char>>>,
) -> (r: Option<ModuleId>)
    requires
        n <= sig@.len(),
        tree_ok(tree_view(*old(b), old(mos)@, old(tm)@, ik), root),
        old(b).index_ok(),
    ensures
        ({
            let (t2, m2) = s_ensure(tree_view(*old(b), old(mos)@, old(tm)@, ik), desc_views(sig@).take(n as int), root, def_views(defs@));
            match r {
                Some(m) => {
                    &&& tree_view(*final(b), final(mos)@, final(tm)@, ik) == t2
                    &&& m == m2
                    &&& tree_ok(tree_view(*final(b), final(mos)@, final(tm)@, ik), root)
                    &&& final(b).index_ok()
                    &&& m.0 < final(b).modules().len()
                },
                None => !ids_fit(t2.b),
            }
        }),
    decreases n,
{
    let ghost t = tree_view(*b, mos@, tm@, ik);
    let ghost p = desc_views(sig@).take(n as int);
    if n == 0 {
        return Some(root);
    }
    let prefix = sig_prefix(sig, n);
    match find_sig_module(mos, &prefix) {
        Some(found) => {
            proof {
                lemma_sig_module_found(mos_views(mos@), p);
            }
            return Some(found);
        },
        None => {},
    }
    assert(p.drop_last() =~= desc_views(sig@).take(n - 1));
    proof {
        lemma_s_ensure_grows(t, p, root, def_views(defs@));
    }
    let parent = match ensure_module(sig, n - 1, root, defs, b, mos, tm, Ghost(ik)) {
        Some(parent) => parent,
        None => return None,
    };
    let ghost t1 = tree_view(*b, mos@, tm@, ik);
    if b.module_count() >= 4294967295usize || b.item_count() >= 4294967295usize {
        return None;
    }
    let d = &sig[n - 1];
    assert(p.last() == d@);
    let display = descriptor_name(d.name.as_str());
    let key = match find_sig_key(defs, &prefix) {
        Some(k) => k,
        None => synthetic_key(&prefix),
    };
    let m;
    if d.suffix == SUFFIX_TYPE {
        let (mm, _item) = b.add_type(parent, key.as_str(), display.as_str(), ItemKind::Struct, Visibility::Public);
        let ghost old_tm = tm@;
        tm.push(mm);
        m = mm;
    } else {
        m = b.add_module(parent, key.as_str(), display.as_str(), Visibility::Public);
    }
    let ghost old_mos = mos@;
    mos.push((prefix, m));
    assert(mos_views(mos@) =~= mos_views(old_mos).push((p, m)));
    Some(m)
}

/// The item kind of a method, term or macro under a parent that is or is not a
/// type.
fn item_kind_of(suffix: i32, parent_is_type: bool) -> (k: ItemKind)
    ensures
        k == item_kind_for(suffix, parent_is_type),
{
    if suffix == SUFFIX_METHOD {
        if parent_is_type { ItemKind::AssocFn } else { ItemKind::Function }
    } else if suffix == SUFFIX_TERM {
        if parent_is_type { ItemKind::AssocConst } else { ItemKind::Const }
    } else {
        ItemKind::Macro
    }
}

/// Lowers one definition, as [`s_add_def`] says.
fn add_def(
    def: &(String, Vec<ScipDescriptor>),
    root: ModuleId,
    defs: &Vec<(String, Vec<ScipDescriptor>)>,
    b: &mut CrateGraphBuilder,
    mos: &mut Vec<(Vec<ScipDescriptor>, ModuleId)>,
    tm: &mut Vec<ModuleId>,
    ik: &mut Vec<String>,
) -> (ok: bool)
    requires
        def.1@.len() > 0,
        tree_ok(tree_view(*old(b), old(mos)@, old(tm)@, str_views(old(ik)@)), root),
        old(b).index_ok(),
    ensures
        ({
            let t2 = s_add_def(tree_view(*old(b), old(mos)@, old(tm)@, str_views(old(ik)@)), (def.0@, desc_views(def.1@)), root, def_views(defs@));
            if ok {
                &&& tree_view(*final(b), final(mos)@, final(tm)@, str_views(final(ik)@)) == t2
                &&& tree_ok(tree_view(*final(b), final(mos)@, final(tm)@, str_views(final(ik)@)), root)
                &&& final(b).index_ok()
            } else {
                !ids_fit(t2.b)
            }
        }),
{
    let sig = &def.1;
    let n = sig.len();
    let ghost sv = desc_views(sig@);
    assert(sv.take(n as int) =~= sv);
    let suffix = sig[n - 1].suffix;
    assert(sv.last().1 == suffix);
    if suffix == SUFFIX_NAMESPACE || suffix == SUFFIX_TYPE {
        return ensure_module(sig, n, root, defs, b, mos, tm, Ghost(str_views(ik@))).is_some();
    } else if suffix == SUFFIX_METHOD || suffix == SUFFIX_TERM || suffix == SUFFIX_MACRO {
        assert(sv.drop_last() =~= sv.take(n - 1));
        let parent = match ensure_module(sig, n - 1, root, defs, b, mos, tm, Ghost(str_views(ik@))) {
            Some(parent) => parent,
            None => return false,
        };
        if b.item_count() >= 4294967295usize {
            return false;
        }
        let parent_is_type = contains_module(tm, parent);
        let name = descriptor_name(sig[n - 1].name.as_str());
        let kind = item_kind_of(suffix, parent_is_type);
        b.add_item(parent, def.0.as_str(), name.as_str(), kind, Visibility::Public);
        let ghost old_ik = ik@;
        ik.push(def.0.clone());
        assert(str_views(ik@) =~= str_views(old_ik).push(def.0@));
    }
    true
}

/// The tree phase over all definitions, as [`s_tree`] says.
fn add_defs(
    defs: &Vec<(String, Vec<ScipDescriptor>)>,
    root: ModuleId,
    b: &mut CrateGraphBuilder,
    mos: &mut Vec<(Vec<ScipDescriptor>, ModuleId)>,
    tm: &mut Vec<ModuleId>,
    ik: &mut Vec<String>,
) -> (ok: bool)
    requires
        forall|i: int| 0 <= i < defs@.len() ==> (#[trigger] defs@[i]).1@.len() > 0,
        tree_ok(tree_view(*old(b), old(mos)@, old(tm)@, str_views(old(ik)@)), root),
        old(b).index_ok(),
    ensures
        ({
            let t2 = s_tree(tree_view(*old(b), old(mos)@, old(tm)@, str_views(old(ik)@)), def_views(defs@), defs@.len(), root);
            if ok {
                &&& tree_view(*final(b), final(mos)@, final(tm)@, str_views(final(ik)@)) == t2
                &&& tree_ok(tree_view(*final(b), final(mos)@, final(tm)@, str_views(final(ik)@)), root)
                &&& final(b).index_ok()
            } else {
                !ids_fit(t2.b)
            }
        }),
{
    let ghost t0 = tree_view(*b, mos@, tm@, str_views(ik@));
    let ghost dv = def_views(defs@);
    let mut i: usize = 0;
    while i < defs.len()
        invariant
            i <= defs@.len(),
            dv == def_views(defs@),
            forall|j: int| 0 <= j < defs@.len() ==> (#[trigger] defs@[j]).1@.len() > 0,
            tree_view(*b, mos@, tm@, str_views(ik@)) == s_tree(t0, dv, i as nat, root),
            t0 == tree_view(*old(b), old(mos)@, old(tm)@, str_views(old(ik)@)),
            tree_ok(tree_view(*b, mos@, tm@, str_views(ik@)), root),
            b.index_ok(),
        decreases defs@.len() - i,
    {
        assert(dv[i as int] == (defs@[i as int].0@, desc_views(defs@[i as int].1@)));
        if !add_def(&defs[i], root, defs, b, mos, tm, ik) {
            proof {
                assert(s_tree(t0, dv, (i + 1) as nat, root) == s_add_def(s_tree(t0, dv, i as nat, root), dv[i as int], root, dv));
                assert(!ids_fit(s_tree(t0, dv, (i + 1) as nat, root).b));
                lemma_s_tree_grows(t0, dv, (i + 1) as nat, dv.len(), root);
                assert(dv.len() == defs@.len());
            }
            return false;
        }
        i = i + 1;
    }
    true
}

/// Definition ranges, by value.
pub open spec fn dr_views(v: Seq<(String, Range)>) -> Seq<(Seq<char>, Range)> {
    v.map_values(|e: (String, Range)| (e.0@, e.1))
}

/// Item starts, by value.
pub open spec fn st_views(v: Seq<(String, (i32, i32))>) -> Seq<(Seq<char>, (i32, i32))> {
    v.map_values(|e: (String, (i32, i32))| (e.0@, e.1))
}

/// Whether an occurrence is a definition.
fn occ_is_def(o: &ScipOccurrence) -> (r: bool)
    ensures
        r == is_def(o@),
{
    o.symbol_roles & ROLE_DEFINITION != 0
}

/// Whether a document records enclosing ranges.
fn doc_has_enclosing(occs: &Vec<ScipOccurrence>) -> (r: bool)
    ensures
        r == has_enclosing(occ_views(occs@)),
{
    let ghost ov = occ_views(occs@);
    let mut i: usize = 0;
    while i < occs.len()
        invariant
            i <= occs@.len(),
            ov == occ_views(occs@),
            forall|j: int| 0 <= j < i ==> !(is_def(#[trigger] ov[j]) && ov[j].enclosing.len() != 0),
        decreases occs@.len() - i,
    {
        assert(ov[i as int] == occs@[i as int]@);
        if occ_is_def(&occs[i]) && occs[i].enclosing_range.len() != 0 {
            return true;
        }
        i = i + 1;
    }
    false
}

/// The definition ranges of a document.
fn doc_def_ranges(occs: &Vec<ScipOccurrence>) -> (r: Vec<(String, Range)>)
    ensures
        dr_views(r@) == def_ranges(occ_views(occs@)),
{
    let ghost ov = occ_views(occs@);
    let mut r: Vec<(String, Range)> = Vec::new();
    let mut i: usize = 0;
    while i < occs.len()
        invariant
            i <= occs@.len(),
            ov == occ_views(occs@),
            dr_views(r@) == def_ranges(ov.take(i as int)),
        decreases occs@.len() - i,
    {
        assert(ov.take(i + 1).drop_last() =~= ov.take(i as int));
        assert(ov.take(i + 1).last() == occs@[i as int]@);
        let o = &occs[i];
        if occ_is_def(o) {
            let raw = if o.enclosing_range.len() == 0 { &o.range } else { &o.enclosing_range };
            match Range::from_vec(raw) {
                Some(range) => {
                    let ghost old_r = dr_views(r@);
                    r.push((o.symbol.clone(), range));
                    assert(dr_views(r@) =~= old_r.push((o.symbol@, range)));
                },
                None => {},
            }
        }
        i = i + 1;
    }
    assert(ov.take(occs@.len() as int) =~= ov);
    r
}

/// The item starts of a document.
fn doc_item_starts(occs: &Vec<ScipOccurrence>, keys: &Vec<String>) -> (r: Vec<(String, (i32, i32))>)
    ensures
        st_views(r@) == item_starts(occ_views(occs@), str_views(keys@)),
{
    let ghost ov = occ_views(occs@);
    let ghost kv = str_views(keys@);
    assert(kv.take(keys@.len() as int) =~= kv);
    let mut r: Vec<(String, (i32, i32))> = Vec::new();
    let key_set = string_set(keys);
    let mut i: usize = 0;
    while i < occs.len()
        invariant
            i <= occs@.len(),
            ov == occ_views(occs@),
            kv == str_views(keys@),
            forall|x: Seq<char>| #[trigger] key_set@.contains(x) == kv.contains(x),
            kv.take(keys@.len() as int) == kv,
            st_views(r@) == item_starts(ov.take(i as int), kv),
        decreases occs@.len() - i,
    {
        assert(ov.take(i + 1).drop_last() =~= ov.take(i as int));
        assert(ov.take(i + 1).last() == occs@[i as int]@);
        let o = &occs[i];
        if occ_is_def(o) && key_set.contains(o.symbol.as_str()) {
            match Range::from_vec(&o.range) {
                Some(range) => {
                    let ghost old_r = st_views(r@);
                    r.push((o.symbol.clone(), (range.start_line, range.start_char)));
                    assert(st_views(r@) =~= old_r.push((o.symbol@, (range.start_line, range.start_char))));
                },
                None => {},
            }
        }
        i = i + 1;
    }
    assert(ov.take(occs@.len() as int) =~= ov);
    r
}

/// The innermost definition is the one [`innermost`] names.
proof fn lemma_innermost_unique(defs: Seq<(Seq<char>, Range)>, r: Range, i: int)
    requires
        is_innermost(defs, r, i),
    ensures
        innermost(defs, r) == Some(defs[i].0),
{
    let c = choose|c: int| is_innermost(defs, r, c);
    if c < i {
        assert(range_contains(defs[c].1, r));
    } else if i < c {
        assert(range_contains(defs[i].1, r));
    }
}

/// The nearest preceding item is the one [`preceding`] names.
proof fn lemma_preceding_unique(starts: Seq<(Seq<char>, (i32, i32))>, p: (i32, i32), i: int)
    requires
        is_preceding(starts, p, i),
    ensures
        preceding(starts, p) == Some(starts[i].0),
{
    let c = choose|c: int| is_preceding(starts, p, c);
    if c < i {
        assert(pos_le(starts[c].1, p));
        assert(pos_le(starts[i].1, p));
    } else if i < c {
        assert(pos_le(starts[c].1, p));
        assert(pos_le(starts[i].1, p));
    }
}

/// The position of the innermost definition containing `r`, if any.
fn find_innermost(defs: &Vec<(String, Range)>, r: &Range) -> (res: Option<usize>)
    ensures
        res matches Some(i) ==> is_innermost(dr_views(defs@), *r, i as int),
        res is None ==> forall|j: int| 0 <= j < defs@.len() ==> !range_contains(#[trigger] dr_views(defs@)[j].1, *r),
{
    let ghost dv = dr_views(defs@);
    let mut best: Option<usize> = None;
    let mut j: usize = 0;
    while j < defs.len()
        invariant
            j <= defs@.len(),
            dv == dr_views(defs@),
            best matches Some(b) ==> innermost_below(dv, *r, b as int, j as int),
            best is None ==> forall|k: int| 0 <= k < j ==> !range_contains(#[trigger] dv[k].1, *r),
        decreases defs@.len() - j,
    {
        assert(dv[j as int] == (defs@[j as int].0@, defs@[j as int].1));
        let cand = &defs[j].1;
        if cand.contains(r) {
            let better = match best {
                None => true,
                Some(b) => {
                    assert(dv[b as int] == (defs@[b as int].0@, defs@[b as int].1));
                    let (cl, cc) = cand.span();
                    let (bl, bc) = defs[b].1.span();
                    cl < bl || (cl == bl && cc < bc)
                },
            };
            if better {
                best = Some(j);
            }
        }
        j = j + 1;
    }
    best
}

/// The position of the nearest item defined at or before `p`, if any.
fn find_preceding(starts: &Vec<(String, (i32, i32))>, p: (i32, i32)) -> (res: Option<usize>)
    ensures
        res matches Some(i) ==> is_preceding(st_views(starts@), p, i as int),
        res is None ==> forall|j: int| 0 <= j < starts@.len() ==> !pos_le(#[trigger] st_views(starts@)[j].1, p),
{
    let ghost sv = st_views(starts@);
    let mut best: Option<usize> = None;
    let mut j: usize = 0;
    while j < starts.len()
        invariant
            j <= starts@.len(),
            sv == st_views(starts@),
            best matches Some(b) ==> preceding_below(sv, p, b as int, j as int),
            best is None ==> forall|k: int| 0 <= k < j ==> !pos_le(#[trigger] sv[k].1, p),
        decreases starts@.len() - j,
    {
        assert(sv[j as int] == (starts@[j as int].0@, starts@[j as int].1));
        let (l, c) = starts[j].1;
        if l < p.0 || (l == p.0 && c <= p.1) {
            let later = match best {
                None => true,
                Some(b) => {
                    assert(sv[b as int] == (starts@[b as int].0@, starts@[b as int].1));
                    let (bl, bc) = starts[b].1;
                    bl < l || (bl == l && bc <= c)
                },
            };
            if later {
                best = Some(j);
            }
        }
        j = j + 1;
    }
    best
}

/// The owner of a reference at `r`, as [`owner`] says.
fn owner_of(
    ranges: &Vec<(String, Range)>,
    starts: &Vec<(String, (i32, i32))>,
    has_enc: bool,
    r: &Range,
    Ghost(occs): Ghost<Seq<OccView>>,
    Ghost(keys): Ghost<Seq<Seq<char>>>,
) -> (res: Option<String>)
    requires
        dr_views(ranges@) == def_ranges(occs),
        has_enc == has_enclosing(occs),
        !has_enc ==> st_views(starts@) == item_starts(occs, keys),
    ensures
        res matches Some(s) ==> owner(occs, keys, *r) == Some(s@),
        res is None ==> owner(occs, keys, *r) is None,
{
    let ghost dv = dr_views(ranges@);
    match find_innermost(ranges, r) {
        Some(i) => {
            proof {
                lemma_innermost_unique(dv, *r, i as int);
            }
            assert(dv[i as int].0 == ranges@[i as int].0@);
            Some(ranges[i].0.clone())
        },
        None => {
            assert(!exists|i: int| is_innermost(dv, *r, i));
            if has_enc {
                None
            } else {
                let ghost sv = st_views(starts@);
                match find_preceding(starts, (r.start_line, r.start_char)) {
                    Some(i) => {
                        proof {
                            lemma_preceding_unique(sv, (r.start_line, r.start_char), i as int);
                        }
                        assert(sv[i as int].0 == starts@[i as int].0@);
                        Some(starts[i].0.clone())
                    },
                    None => {
                        assert(!exists|i: int| is_preceding(sv, (r.start_line, r.start_char), i));
                        None
                    },
                }
            }
        },
    }
}

/// The builder state with `extra` edges appended.
pub open spec fn with_edges(s: BuilderState, extra: Seq<PendingEdge>) -> BuilderState {
    BuilderState { pending_edges: s.pending_edges + extra, ..s }
}

/// Records the edges of one document, as [`doc_edges`] says.
fn add_doc_edges(doc: &ScipDocument, ik: &Vec<String>, b: &mut CrateGraphBuilder)
    ensures
        old(b).index_ok() ==> final(b).index_ok(),
        final(b).state() == with_edges(old(b).state(),
            doc_edges(occ_views(doc.occurrences@), str_views(ik@), doc.occurrences@.len())),
{
    let occs = &doc.occurrences;
    let ghost ov = occ_views(occs@);
    let ghost keys = str_views(ik@);
    let ghost base = b.state();
    let has_enc = doc_has_enclosing(occs);
    let ranges = doc_def_ranges(occs);
    let starts = if has_enc { Vec::new() } else { doc_item_starts(occs, ik) };
    let mut k: usize = 0;
    assert(base.pending_edges + doc_edges(ov, keys, 0) =~= base.pending_edges);
    while k < occs.len()
        invariant
            k <= occs@.len(),
            ov == occ_views(occs@),
            keys == str_views(ik@),
            dr_views(ranges@) == def_ranges(ov),
            has_enc == has_enclosing(ov),
            !has_enc ==> st_views(starts@) == item_starts(ov, keys),
            b.state() == with_edges(base, doc_edges(ov, keys, k as nat)),
            old(b).index_ok() ==> b.index_ok(),
        decreases occs@.len() - k,
    {
        let o = &occs[k];
        assert(ov[k as int] == o@);
        let ghost before = b.state();
        if !occ_is_def(o) {
            match Range::from_vec(&o.range) {
                Some(reference) => {
                    match owner_of(&ranges, &starts, has_enc, &reference, Ghost(ov), Ghost(keys)) {
                        Some(from) => {
                            let kind = if o.symbol_roles & ROLE_IMPORT != 0 { RefKind::Import } else { RefKind::Body };
                            assert(kind == occ_kind(o@));
                            b.add_edge(from.as_str(), o.symbol.as_str(), kind);
                            assert(b.state().pending_edges =~= base.pending_edges + doc_edges(ov, keys, (k + 1) as nat));
                        },
                        None => {},
                    }
                },
                None => {},
            }
        }
        k = k + 1;
    }
}

/// Lowers an index, given what each of its symbols (in document order, see
/// [`all_symbols`]) parses into: the definitions of the documents' symbol
/// information become modules, type containers and items, and every reference
/// becomes an edge from the definition that owns it (see [`lowered_with`]);
/// the graph is then finished.
pub fn lower_parsed(index: &ScipIndex, parsed: &Vec<Option<Vec<ScipDescriptor>>>) -> (r: Result<CrateGraph, LowerError>)
    requires
        parsed@.len() == all_symbols(index@.documents).len(),
    ensures
        lowering_result(lowered_with(index@, parse_views(parsed@)), r),
{
    let provenance = match &index.metadata {
        Some(m) => match &m.tool_info {
            Some(t) => join3(t.name.as_str(), " ", t.version.as_str()),
            None => String::new(),
        },
        None => String::new(),
    };
    let mut b = CrateGraphBuilder::new(provenance.as_str());
    let crate_name = match &index.metadata {
        Some(m) => match project_basename(m.project_root.as_str()) {
            Some(n) => n,
            None => "crate".to_owned(),
        },
        None => "crate".to_owned(),
    };
    let root_key = join3("<root:", crate_name.as_str(), ">");
    let (_crate_id, root) = b.add_crate(crate_name.as_str(), true, root_key.as_str());
    let syms = flatten_symbols(&index.documents);
    let defs = collect_defs(&syms, parsed);
    let mut mos: Vec<(Vec<ScipDescriptor>, ModuleId)> = Vec::new();
    let mut tm: Vec<ModuleId> = Vec::new();
    let mut ik: Vec<String> = Vec::new();
    let ghost s0 = b.state();
    assert(tree_view(b, mos@, tm@, str_views(ik@)) == (TreeState {
        b: s0,
        module_of_sig: Seq::empty(),
        type_modules: Seq::empty(),
        item_keys: Seq::empty(),
    })) by {
        assert(mos_views(mos@) =~= Seq::empty());
        assert(str_views(ik@) =~= Seq::empty());
    }
    if !add_defs(&defs, root, &mut b, &mut mos, &mut tm, &mut ik) {
        return Err(LowerError::TooLarge);
    }
    let ghost t = tree_view(b, mos@, tm@, str_views(ik@));
    let ghost docs = index@.documents;
    let ghost keys = str_views(ik@);
    let mut d: usize = 0;
    assert(all_edges(docs.take(0), keys) =~= Seq::<PendingEdge>::empty());
    assert(with_edges(t.b, Seq::empty()) =~= t.b);
    while d < index.documents.len()
        invariant
            d <= docs.len(),
            docs == index@.documents,
            docs.len() == index.documents@.len(),
            keys == str_views(ik@),
            state_wf(t.b),
            t.b.root_crate is Some,
            t.b.pending_edges.len() == 0,
            b.state() == with_edges(t.b, all_edges(docs.take(d as int), keys)),
            b.index_ok(),
        decreases docs.len() - d,
    {
        let ghost before = all_edges(docs.take(d as int), keys);
        add_doc_edges(&index.documents[d], &ik, &mut b);
        proof {
            let occs = docs[d as int].occurrences;
            assert(docs.take(d + 1).drop_last() =~= docs.take(d as int));
            assert(docs.take(d + 1).last() == docs[d as int]);
            assert(before + doc_edges(occs, keys, occs.len()) == all_edges(docs.take(d + 1), keys));
            assert(t.b.pending_edges + before + doc_edges(occs, keys, occs.len())
                =~= t.b.pending_edges + all_edges(docs.take(d + 1), keys));
        }
        d = d + 1;
    }
    proof {
        assert(docs.take(docs.len() as int) =~= docs);
        lemma_lowered_has_crate(index@, parse_views(parsed@));
    }
    if b.pending_len() > 4294967295usize {
        return Err(LowerError::TooLarge);
    }
    match b.finish() {
        Ok(g) => Ok(g),
        Err(e) => Err(LowerError::Build(e)),
    }
}

/// Whether what an index lowers to numbers its modules and items with `u32`
/// ids and counts its recorded edges with a `u32`.
pub open spec fn lowered_fits(s: BuilderState) -> bool {
    ids_fit(s) && s.pending_edges.len() <= u32::MAX
}

/// What lowering gives for lowered content `s`: `TooLarge` when it does not
/// fit `u32` ids; else the keys registered more than once, when there are
/// any; else the graph `s` finishes into.
pub open spec fn lowering_result(s: BuilderState, r: Result<CrateGraph, LowerError>) -> bool {
    if !lowered_fits(s) {
        r matches Err(LowerError::TooLarge)
    } else if s.duplicate_keys.len() > 0 {
        r matches Err(LowerError::Build(BuildError::DuplicateKeys(d))) && str_views(d@) == s.duplicate_keys
    } else {
        r matches Ok(g) && finished_from(s, g)
    }
}

/// Ensuring a module chain keeps the crates and the root crate.
proof fn lemma_s_ensure_crates(t: TreeState, sig: Seq<Desc>, root: ModuleId, defs: Seq<Def>)
    ensures
        s_ensure(t, sig, root, defs).0.b.crates == t.b.crates,
        s_ensure(t, sig, root, defs).0.b.root_crate == t.b.root_crate,
    decreases sig.len(),
{
    if sig.len() > 0 && sig_module(t.module_of_sig, sig) is None {
        lemma_s_ensure_crates(t, sig.drop_last(), root, defs);
    }
}

/// The tree phase keeps the crates and the root crate.
proof fn lemma_s_tree_crates(t0: TreeState, defs: Seq<Def>, n: nat, root: ModuleId)
    ensures
        s_tree(t0, defs, n, root).b.crates == t0.b.crates,
        s_tree(t0, defs, n, root).b.root_crate == t0.b.root_crate,
    decreases n,
{
    if n > 0 {
        lemma_s_tree_crates(t0, defs, (n - 1) as nat, root);
        let t = s_tree(t0, defs, (n - 1) as nat, root);
        let sig = defs[n - 1].1;
        lemma_s_ensure_crates(t, sig, root, defs);
        lemma_s_ensure_crates(t, sig.drop_last(), root, defs);
    }
}

/// A lowered index always has its one crate, which is the root crate.
proof fn lemma_lowered_has_crate(index: IndexView, parses: Seq<Option<Seq<Desc>>>)
    ensures
        has_crate(lowered_with(index, parses)),
{
    let name = index_crate_name(index);
    let s0 = s_add_crate(s_new(index_provenance(index)), name, true, root_key(name));
    let defs = defs_of(all_symbols(index.documents), parses);
    let t0 = TreeState { b: s0, module_of_sig: Seq::empty(), type_modules: Seq::empty(), item_keys: Seq::empty() };
    lemma_s_tree_crates(t0, defs, defs.len(), ModuleId(0));
}

/// Lowers an in-memory SCIP index into a graph, parsing its symbols with
/// SCIP's symbol parser (see [`lowered_state`] and [`lower_parsed`]).
pub fn lower(index: &ScipIndex) -> (r: Result<CrateGraph, LowerError>)
    ensures
        lowering_result(lowered_state(index@), r),
{
    let syms = flatten_symbols(&index.documents);
    let parsed = parse_all(&syms);
    assert(parse_views(parsed@).len() == parsed@.len());
    assert(str_views(syms@).len() == syms@.len());
    lower_parsed(index, &parsed)
}

/// Why an index could not be lowered.
#[derive(Clone, Debug)]
pub enum LowerError {
    /// The bytes are not a SCIP index.
    Decode,
    /// The index has more nodes or edges than `u32` ids can number.
    TooLarge,
    /// The graph could not be finished.
    Build(BuildError),
}

/// Decodes a SCIP index from its protobuf bytes and lowers it (see
/// [`scip_decoded`] and [`lower`]).
pub fn lower_bytes(bytes: &[u8]) -> (r: Result<CrateGraph, LowerError>)
    ensures
        scip_decoded(bytes@) is None ==> r matches Err(LowerError::Decode),
        scip_decoded(bytes@) matches Some(i) ==> lowering_result(lowered_state(i), r),
{
    let index = match decode_scip(bytes) {
        Some(i) => i,
        None => return Err(LowerError::Decode),
    };
    lower(&index)
}

/// Whether every module and item of a builder content is public.
pub open spec fn all_public(b: BuilderState) -> bool {
    &&& forall|i: int| 0 <= i < b.modules.len() ==> (#[trigger] b.modules[i]).visibility == VisibilityView::Public
    &&& forall|i: int| 0 <= i < b.items.len() ==> (#[trigger] b.items[i]).visibility == VisibilityView::Public
}

/// Adding a public module keeps everything public.
proof fn lemma_add_module_public(b: BuilderState, parent: ModuleId, key: Seq<char>, name: Seq<char>)
    requires
        all_public(b),
    ensures
        all_public(s_add_module(b, parent, key, name, VisibilityView::Public)),
        s_add_module(b, parent, key, name, VisibilityView::Public).pending_edges == b.pending_edges,
{
    let r = s_add_module(b, parent, key, name, VisibilityView::Public);
    assert forall|i: int| 0 <= i < r.items.len() implies (#[trigger] r.items[i]).visibility == VisibilityView::Public by {
        if i == b.items.len() {
            assert(r.modules[b.modules.len() as int].visibility == VisibilityView::Public);
        }
    }
}

/// Ensuring a module chain keeps everything public and records no edge.
proof fn lemma_s_ensure_public(t: TreeState, sig: Seq<Desc>, root: ModuleId, defs: Seq<Def>)
    requires
        all_public(t.b),
    ensures
        all_public(s_ensure(t, sig, root, defs).0.b),
        s_ensure(t, sig, root, defs).0.b.pending_edges == t.b.pending_edges,
    decreases sig.len(),
{
    if sig.len() > 0 && sig_module(t.module_of_sig, sig) is None {
        lemma_s_ensure_public(t, sig.drop_last(), root, defs);
        let (t1, parent) = s_ensure(t, sig.drop_last(), root, defs);
        let name = spec_descriptor_name(sig.last().0);
        let key = match sig_key(defs, sig) {
            Some(k) => k,
            None => spec_synthetic_key(sig),
        };
        if sig.last().1 == SUFFIX_TYPE {
            let r = s_add_type(t1.b, parent, key, name, ItemKind::Struct, VisibilityView::Public);
            assert(all_public(r));
        } else {
            lemma_add_module_public(t1.b, parent, key, name);
        }
    }
}

/// The tree phase keeps everything public and records no edge.
proof fn lemma_s_tree_public(t0: TreeState, defs: Seq<Def>, n: nat, root: ModuleId)
    requires
        all_public(t0.b),
    ensures
        all_public(s_tree(t0, defs, n, root).b),
        s_tree(t0, defs, n, root).b.pending_edges == t0.b.pending_edges,
    decreases n,
{
    if n > 0 {
        lemma_s_tree_public(t0, defs, (n - 1) as nat, root);
        let t = s_tree(t0, defs, (n - 1) as nat, root);
        let def = defs[n - 1];
        let sig = def.1;
        let suffix = sig.last().1;
        if suffix == SUFFIX_NAMESPACE || suffix == SUFFIX_TYPE {
            lemma_s_ensure_public(t, sig, root, defs);
        } else if suffix == SUFFIX_METHOD || suffix == SUFFIX_TERM || suffix == SUFFIX_MACRO {
            lemma_s_ensure_public(t, sig.drop_last(), root, defs);
        }
    }
}

/// Every edge a document makes is an import or a body reference.
proof fn lemma_doc_edges_kinds(occs: Seq<OccView>, keys: Seq<Seq<char>>, n: nat)
    ensures
        forall|i: int| 0 <= i < doc_edges(occs, keys, n).len() ==>
            (#[trigger] doc_edges(occs, keys, n)[i]).2 == RefKind::Import || doc_edges(occs, keys, n)[i].2 == RefKind::Body,
    decreases n,
{
    if n > 0 && n <= occs.len() {
        lemma_doc_edges_kinds(occs, keys, (n - 1) as nat);
    }
}

/// Every edge of the documents is an import or a body reference.
proof fn lemma_all_edges_kinds(docs: Seq<DocumentView>, keys: Seq<Seq<char>>)
    ensures
        forall|i: int| 0 <= i < all_edges(docs, keys).len() ==>
            (#[trigger] all_edges(docs, keys)[i]).2 == RefKind::Import || all_edges(docs, keys)[i].2 == RefKind::Body,
    decreases docs.len(),
{
    if docs.len() > 0 {
        lemma_all_edges_kinds(docs.drop_last(), keys);
        let occs = docs.last().occurrences;
        lemma_doc_edges_kinds(occs, keys, occs.len());
        let a = all_edges(docs.drop_last(), keys);
        let d = doc_edges(occs, keys, occs.len());
        assert forall|i: int| 0 <= i < all_edges(docs, keys).len() implies
            (#[trigger] all_edges(docs, keys)[i]).2 == RefKind::Import || all_edges(docs, keys)[i].2 == RefKind::Body by {
            if i < a.len() {
                assert(all_edges(docs, keys)[i] == a[i]);
            } else {
                assert(all_edges(docs, keys)[i] == d[i - a.len()]);
            }
        }
    }
}

/// Law: SCIP has no visibility field, so lowering makes every module and
/// every item public, whatever the parses of the symbols are.
pub proof fn law_lowered_nodes_are_public(index: IndexView, parses: Seq<Option<Seq<Desc>>>)
    ensures
        all_public(lowered_with(index, parses)),
{
    let name = index_crate_name(index);
    let s0 = s_add_crate(s_new(index_provenance(index)), name, true, root_key(name));
    assert(all_public(s0)) by {
        assert(s0.modules.len() == 1);
        assert(s0.items.len() == 1);
    }
    let defs = defs_of(all_symbols(index.documents), parses);
    let t0 = TreeState { b: s0, module_of_sig: Seq::empty(), type_modules: Seq::empty(), item_keys: Seq::empty() };
    lemma_s_tree_public(t0, defs, defs.len(), ModuleId(0));
}

/// Law: SCIP has no reference-kind taxonomy, so every edge recorded while
/// lowering an index is an import (the occurrence has the import role) or a
/// body reference.
pub proof fn law_lowered_edges_are_import_or_body(index: IndexView, parses: Seq<Option<Seq<Desc>>>)
    ensures
        forall|i: int| 0 <= i < lowered_with(index, parses).pending_edges.len() ==>
            (#[trigger] lowered_with(index, parses).pending_edges[i]).2 == RefKind::Import
                || lowered_with(index, parses).pending_edges[i].2 == RefKind::Body,
{
    let name = index_crate_name(index);
    let s0 = s_add_crate(s_new(index_provenance(index)), name, true, root_key(name));
    let defs = defs_of(all_symbols(index.documents), parses);
    let t0 = TreeState { b: s0, module_of_sig: Seq::empty(), type_modules: Seq::empty(), item_keys: Seq::empty() };
    assert(all_public(s0)) by {
        assert(s0.modules.len() == 1);
        assert(s0.items.len() == 1);
    }
    lemma_s_tree_public(t0, defs, defs.len(), ModuleId(0));
    let t = s_tree(t0, defs, defs.len(), ModuleId(0));
    lemma_all_edges_kinds(index.documents, t.item_keys);
    assert(t.b.pending_edges.len() == 0);
    assert(lowered_with(index, parses).pending_edges =~= all_edges(index.documents, t.item_keys));
}

/// Law: every edge of a graph lowered from an index is an import or a body
/// reference.
pub proof fn law_lowered_graph_edge_kinds(index: IndexView, parses: Seq<Option<Seq<Desc>>>, g: CrateGraph)
    requires
        finished_from(lowered_with(index, parses), g),
    ensures
        forall|q: int| 0 <= q < g.edges@.len() ==> (#[trigger] g.edges@[q]).kind == RefKind::Import || g.edges@[q].kind == RefKind::Body,
{
    let s = lowered_with(index, parses);
    law_lowered_edges_are_import_or_body(index, parses);
    assert forall|q: int| 0 <= q < g.edges@.len() implies (#[trigger] g.edges@[q]).kind == RefKind::Import || g.edges@[q].kind == RefKind::Body by {
        let e = g.edges@[q];
        crate::builder::lemma_weight_at(g.edges@, q);
        crate::builder::lemma_pending_count_witness(s.pending_edges, s.registrations, e.from, e.to, e.kind);
        let i = choose|i: int| 0 <= i < s.pending_edges.len() && crate::builder::resolve_edge(s.registrations, #[trigger] s.pending_edges[i]) == Some((e.from, e.to, e.kind));
        assert(s.pending_edges[i].2 == RefKind::Import || s.pending_edges[i].2 == RefKind::Body);
    }
}

/// The index with occurrence `p` of document `d` taken out.
pub open spec fn without_occurrence(index: IndexView, d: int, p: int) -> IndexView {
    let doc = index.documents[d];
    IndexView {
        documents: index.documents.update(d, DocumentView { occurrences: doc.occurrences.remove(p), ..doc }),
        ..index
    }
}

/// Taking a non-definition occurrence out of a document changes none of the
/// definitions that decide which definition owns a reference.
proof fn lemma_remove_reference_keeps_defs(occs: Seq<OccView>, p: int)
    requires
        0 <= p < occs.len(),
        !is_def(occs[p]),
    ensures
        def_ranges(occs.remove(p)) == def_ranges(occs),
        forall|keys: Seq<Seq<char>>| #[trigger] item_starts(occs.remove(p), keys) == item_starts(occs, keys),
        has_enclosing(occs.remove(p)) == has_enclosing(occs),
    decreases occs.len(),
{
    let o2 = occs.remove(p);
    if p == occs.len() - 1 {
        assert(o2 =~= occs.drop_last());
    } else {
        lemma_remove_reference_keeps_defs(occs.drop_last(), p);
        assert(o2.drop_last() =~= occs.drop_last().remove(p));
        assert(o2.last() == occs.last());
        assert forall|keys: Seq<Seq<char>>| #[trigger] item_starts(o2, keys) == item_starts(occs, keys) by {
            assert(item_starts(o2.drop_last(), keys) == item_starts(occs.drop_last(), keys));
        }
    }
    if has_enclosing(occs) {
        let i = choose|i: int| 0 <= i < occs.len() && is_def(#[trigger] occs[i]) && occs[i].enclosing.len() != 0;
        let j = if i < p { i } else { i - 1 };
        assert(o2[j] == occs[i]);
    }
    if has_enclosing(o2) {
        let j = choose|j: int| 0 <= j < o2.len() && is_def(#[trigger] o2[j]) && o2[j].enclosing.len() != 0;
        let i = if j < p { j } else { j + 1 };
        assert(o2[j] == occs[i]);
    }
}

/// Whether occurrence `p` of `occs` is a reference that no definition owns.
pub open spec fn unattributed(occs: Seq<OccView>, p: int) -> bool {
    &&& !is_def(occs[p])
    &&& has_enclosing(occs)
    &&& match spec_range_from(occs[p].range) {
        Some(r) => innermost(def_ranges(occs), r) is None,
        None => true,
    }
}

/// The edges of a document without an unattributed reference: the first `k`
/// occurrences of the shorter document make the edges the first `k` (or,
/// from the reference on, `k + 1`) of the document make.
proof fn lemma_doc_edges_without(occs: Seq<OccView>, keys: Seq<Seq<char>>, p: int, k: int)
    requires
        0 <= p < occs.len(),
        unattributed(occs, p),
        0 <= k < occs.len(),
    ensures
        doc_edges(occs.remove(p), keys, k as nat) == if k < p {
            doc_edges(occs, keys, k as nat)
        } else {
            doc_edges(occs, keys, (k + 1) as nat)
        },
    decreases k,
{
    let o2 = occs.remove(p);
    lemma_remove_reference_keeps_defs(occs, p);
    assert(item_starts(o2, keys) == item_starts(occs, keys));
    assert forall|r: Range| #[trigger] owner(o2, keys, r) == owner(occs, keys, r) by {}
    if k == 0 {
        if p == 0 {
            assert(doc_edges(occs, keys, 1) == doc_edges(occs, keys, 0));
        }
    } else {
        lemma_doc_edges_without(occs, keys, p, k - 1);
        if k < p {
            assert(o2[k - 1] == occs[k - 1]);
        } else if k == p {
            assert(o2[k - 1] == occs[k - 1]);
            assert(doc_edges(occs, keys, (k + 1) as nat) == doc_edges(occs, keys, k as nat));
        } else {
            assert(o2[k - 1] == occs[k]);
        }
    }
}

/// Replacing a document by one with the same edges keeps the edges of all
/// documents, and, with the same symbols too, their symbols.
proof fn lemma_docs_replace(docs: Seq<DocumentView>, d: int, doc: DocumentView, keys: Seq<Seq<char>>)
    requires
        0 <= d < docs.len(),
        doc_edges(doc.occurrences, keys, doc.occurrences.len()) == doc_edges(docs[d].occurrences, keys, docs[d].occurrences.len()),
    ensures
        doc.symbols == docs[d].symbols ==> all_symbols(docs.update(d, doc)) == all_symbols(docs),
        all_edges(docs.update(d, doc), keys) == all_edges(docs, keys),
    decreases docs.len(),
{
    let docs2 = docs.update(d, doc);
    if d == docs.len() - 1 {
        assert(docs2.drop_last() =~= docs.drop_last());
    } else {
        lemma_docs_replace(docs.drop_last(), d, doc, keys);
        assert(docs2.drop_last() =~= docs.drop_last().update(d, doc));
    }
}

/// Law: a reference that no definition owns (its document records enclosing
/// ranges and none of its definitions' ranges contains the reference, or the
/// reference has no valid range) is dropped: taking it out of the index
/// changes nothing of what the index lowers to.
pub proof fn law_lower_drops_unattributed_reference(index: IndexView, d: int, p: int)
    requires
        0 <= d < index.documents.len(),
        0 <= p < index.documents[d].occurrences.len(),
        unattributed(index.documents[d].occurrences, p),
    ensures
        lowered_state(without_occurrence(index, d, p)) == lowered_state(index),
{
    let index2 = without_occurrence(index, d, p);
    let doc = index.documents[d];
    let occs = doc.occurrences;
    let doc2 = DocumentView { occurrences: occs.remove(p), ..doc };
    let syms = all_symbols(index.documents);
    let parses = scip_parses(syms);
    let name = index_crate_name(index);
    let s0 = s_add_crate(s_new(index_provenance(index)), name, true, root_key(name));
    let defs = defs_of(syms, parses);
    let t0 = TreeState { b: s0, module_of_sig: Seq::empty(), type_modules: Seq::empty(), item_keys: Seq::empty() };
    let t = s_tree(t0, defs, defs.len(), ModuleId(0));
    lemma_doc_edges_without(occs, t.item_keys, p, occs.len() - 1);
    lemma_docs_replace(index.documents, d, doc2, t.item_keys);
    assert(index2.documents == index.documents.update(d, doc2));
}

/// Counting resolved edges over two lists is counting over each.
proof fn lemma_count_concat(
    a: Seq<PendingEdge>,
    b: Seq<PendingEdge>,
    regs: Seq<(Seq<char>, ItemId)>,
    f: ItemId,
    t: ItemId,
    k: RefKind,
)
    ensures
        pending_count(a + b, regs, f, t, k) == pending_count(a, regs, f, t, k) + pending_count(b, regs, f, t, k),
    decreases b.len(),
{
    if b.len() > 0 {
        lemma_count_concat(a, b.drop_last(), regs, f, t, k);
        assert((a + b).drop_last() =~= a + b.drop_last());
    } else {
        assert(a + b =~= a);
    }
}

/// Taking out a reference to a symbol registered to no item changes no count
/// of resolved edges of the first `k` occurrences (or `k + 1`, from the
/// reference on).
proof fn lemma_doc_counts_without(
    occs: Seq<OccView>,
    keys: Seq<Seq<char>>,
    regs: Seq<(Seq<char>, ItemId)>,
    p: int,
    k: int,
    f: ItemId,
    t: ItemId,
    kind: RefKind,
)
    requires
        0 <= p < occs.len(),
        !is_def(occs[p]),
        lookup(regs, occs[p].symbol) is None,
        0 <= k < occs.len(),
    ensures
        pending_count(doc_edges(occs.remove(p), keys, k as nat), regs, f, t, kind)
            == pending_count(doc_edges(occs, keys, if k < p { k as nat } else { (k + 1) as nat }), regs, f, t, kind),
    decreases k,
{
    let o2 = occs.remove(p);
    lemma_remove_reference_keeps_defs(occs, p);
    assert(item_starts(o2, keys) == item_starts(occs, keys));
    assert forall|r: Range| #[trigger] owner(o2, keys, r) == owner(occs, keys, r) by {}
    let e1 = doc_edges(occs, keys, (p + 1) as nat);
    let e0 = doc_edges(occs, keys, p as nat);
    assert(pending_count(e1, regs, f, t, kind) == pending_count(e0, regs, f, t, kind)) by {
        let o = occs[p];
        if spec_range_from(o.range) is Some && owner(occs, keys, spec_range_from(o.range)->0) is Some {
            let x = (owner(occs, keys, spec_range_from(o.range)->0)->0, o.symbol, occ_kind(o));
            assert(e1 == e0.push(x));
            lemma_count_push(e0, x, regs, f, t, kind);
        }
    }
    if k > 0 {
        lemma_doc_counts_without(occs, keys, regs, p, k - 1, f, t, kind);
        let j: int = if k - 1 < p { k - 1 } else { k };
        assert(o2[k - 1] == occs[j]);
        let a2 = doc_edges(o2, keys, (k - 1) as nat);
        let a1 = doc_edges(occs, keys, j as nat);
        let o = occs[j];
        if !is_def(o) && spec_range_from(o.range) is Some && owner(occs, keys, spec_range_from(o.range)->0) is Some {
            let x = (owner(occs, keys, spec_range_from(o.range)->0)->0, o.symbol, occ_kind(o));
            assert(doc_edges(o2, keys, k as nat) == a2.push(x));
            assert(doc_edges(occs, keys, (j + 1) as nat) == a1.push(x));
            lemma_count_push(a2, x, regs, f, t, kind);
            lemma_count_push(a1, x, regs, f, t, kind);
        } else {
            assert(doc_edges(o2, keys, k as nat) == a2);
            assert(doc_edges(occs, keys, (j + 1) as nat) == a1);
        }
    }
}

/// Counting resolved edges after one more edge.
proof fn lemma_count_push(a: Seq<PendingEdge>, x: PendingEdge, regs: Seq<(Seq<char>, ItemId)>, f: ItemId, t: ItemId, k: RefKind)
    ensures
        pending_count(a.push(x), regs, f, t, k)
            == pending_count(a, regs, f, t, k) + if crate::builder::resolve_edge(regs, x) == Some((f, t, k)) { 1nat } else { 0nat },
{
    assert(a.push(x).drop_last() =~= a);
}

/// Replacing a document by one with the same symbols whose edges resolve the
/// same number of times keeps the symbols of all documents and the count over
/// all their edges.
proof fn lemma_docs_replace_counts(
    docs: Seq<DocumentView>,
    d: int,
    doc: DocumentView,
    keys: Seq<Seq<char>>,
    regs: Seq<(Seq<char>, ItemId)>,
    f: ItemId,
    t: ItemId,
    kind: RefKind,
)
    requires
        0 <= d < docs.len(),
        doc.symbols == docs[d].symbols,
        pending_count(doc_edges(doc.occurrences, keys, doc.occurrences.len()), regs, f, t, kind)
            == pending_count(doc_edges(docs[d].occurrences, keys, docs[d].occurrences.len()), regs, f, t, kind),
    ensures
        all_symbols(docs.update(d, doc)) == all_symbols(docs),
        pending_count(all_edges(docs.update(d, doc), keys), regs, f, t, kind) == pending_count(all_edges(docs, keys), regs, f, t, kind),
    decreases docs.len(),
{
    let docs2 = docs.update(d, doc);
    if d == docs.len() - 1 {
        assert(docs2.drop_last() =~= docs.drop_last());
    } else {
        lemma_docs_replace_counts(docs.drop_last(), d, doc, keys, regs, f, t, kind);
        assert(docs2.drop_last() =~= docs.drop_last().update(d, doc));
    }
    let a1 = all_edges(docs2.drop_last(), keys);
    let a0 = all_edges(docs.drop_last(), keys);
    let l2 = docs2.last().occurrences;
    let l0 = docs.last().occurrences;
    lemma_count_concat(a1, doc_edges(l2, keys, l2.len()), regs, f, t, kind);
    lemma_count_concat(a0, doc_edges(l0, keys, l0.len()), regs, f, t, kind);
}

/// Law: a reference to a symbol that no item of the lowered index is
/// registered under (an external symbol) is dropped: with it taken out of the
/// index, the lowered state differs only in edges that resolve to nothing, so
/// finishing it gives exactly the graphs finishing the full index gives.
pub proof fn law_lower_drops_external_reference(index: IndexView, d: int, p: int)
    requires
        0 <= d < index.documents.len(),
        0 <= p < index.documents[d].occurrences.len(),
        !is_def(index.documents[d].occurrences[p]),
        lookup(lowered_state(index).registrations, index.documents[d].occurrences[p].symbol) is None,
    ensures
        ({
            let s = lowered_state(index);
            let s2 = lowered_state(without_occurrence(index, d, p));
            &&& s2 == BuilderState { pending_edges: s2.pending_edges, ..s }
            &&& forall|f: ItemId, t: ItemId, k: RefKind| #[trigger] pending_count(s2.pending_edges, s2.registrations, f, t, k)
                == pending_count(s.pending_edges, s.registrations, f, t, k)
            &&& forall|g: CrateGraph| #[trigger] finished_from(s2, g) == finished_from(s, g)
        }),
{
    let index2 = without_occurrence(index, d, p);
    let doc = index.documents[d];
    let occs = doc.occurrences;
    let doc2 = DocumentView { occurrences: occs.remove(p), ..doc };
    let syms = all_symbols(index.documents);
    let parses = scip_parses(syms);
    let name = index_crate_name(index);
    let s0 = s_add_crate(s_new(index_provenance(index)), name, true, root_key(name));
    let defs = defs_of(syms, parses);
    let t0 = TreeState { b: s0, module_of_sig: Seq::empty(), type_modules: Seq::empty(), item_keys: Seq::empty() };
    let tr = s_tree(t0, defs, defs.len(), ModuleId(0));
    let s = lowered_state(index);
    let regs = s.registrations;
    assert(index2.documents == index.documents.update(d, doc2));
    assert(regs == tr.b.registrations);
    assert forall|f: ItemId, t: ItemId, k: RefKind|
        pending_count(all_edges(index2.documents, tr.item_keys), regs, f, t, k)
            == pending_count(all_edges(index.documents, tr.item_keys), regs, f, t, k) by {
        lemma_doc_counts_without(occs, tr.item_keys, regs, p, occs.len() - 1, f, t, k);
        lemma_docs_replace_counts(index.documents, d, doc2, tr.item_keys, regs, f, t, k);
    }
    lemma_doc_counts_without(occs, tr.item_keys, regs, p, occs.len() - 1, ItemId(0), ItemId(0), RefKind::Body);
    lemma_docs_replace_counts(index.documents, d, doc2, tr.item_keys, regs, ItemId(0), ItemId(0), RefKind::Body);
    assert(all_symbols(index2.documents) == syms);
    let s2 = lowered_state(index2);
    assert(s2.pending_edges == tr.b.pending_edges + all_edges(index2.documents, tr.item_keys));
    assert(s.pending_edges == tr.b.pending_edges + all_edges(index.documents, tr.item_keys));
    assert forall|f: ItemId, t: ItemId, k: RefKind| #[trigger] pending_count(s2.pending_edges, s2.registrations, f, t, k)
        == pending_count(s.pending_edges, s.registrations, f, t, k) by {
        lemma_count_concat(tr.b.pending_edges, all_edges(index2.documents, tr.item_keys), regs, f, t, k);
        lemma_count_concat(tr.b.pending_edges, all_edges(index.documents, tr.item_keys), regs, f, t, k);
    }
}

/// The index with `extra` symbol entries listed after its last document's.
pub open spec fn with_extra_symbols(index: IndexView, extra: Seq<Seq<char>>) -> IndexView {
    let n = index.documents.len() - 1;
    let doc = index.documents[n];
    IndexView {
        documents: index.documents.update(n, DocumentView { symbols: doc.symbols + extra, ..doc }),
        ..index
    }
}

/// Definitions read only the parses of the symbols they range over.
proof fn lemma_defs_of_parses_agree(syms: Seq<Seq<char>>, p1: Seq<Option<Seq<Desc>>>, p2: Seq<Option<Seq<Desc>>>)
    requires
        forall|i: int| 0 <= i < syms.len() ==> p1[i] == p2[i],
    ensures
        defs_of(syms, p1) == defs_of(syms, p2),
    decreases syms.len(),
{
    if syms.len() > 0 {
        lemma_defs_of_parses_agree(syms.drop_last(), p1, p2);
        assert(p1[syms.len() - 1] == p2[syms.len() - 1]);
    }
}

/// Symbols that are local or already listed add no definition.
proof fn lemma_defs_of_extra(syms: Seq<Seq<char>>, extra: Seq<Seq<char>>, ps: Seq<Option<Seq<Desc>>>, m: int)
    requires
        0 <= m <= extra.len(),
        forall|i: int| 0 <= i < extra.len() ==> !spec_is_global_symbol(#[trigger] extra[i]) || syms.contains(extra[i]),
    ensures
        defs_of(syms + extra.take(m), ps) == defs_of(syms, ps),
    decreases m,
{
    if m == 0 {
        assert(syms + extra.take(0) =~= syms);
    } else {
        lemma_defs_of_extra(syms, extra, ps, m - 1);
        let all = syms + extra.take(m);
        assert(all.drop_last() =~= syms + extra.take(m - 1));
        assert(all.last() == extra[m - 1]);
        if syms.contains(extra[m - 1]) {
            let j = choose|j: int| 0 <= j < syms.len() && syms[j] == extra[m - 1];
            assert(all.drop_last()[j] == syms[j]);
        }
    }
}

/// Law: symbol information that is local (`local ...`) or repeats a symbol
/// already listed makes no node: listing such entries after the last
/// document's symbols changes nothing of what the index lowers to.
pub proof fn law_lower_ignores_local_and_repeated_symbols(index: IndexView, extra: Seq<Seq<char>>)
    requires
        index.documents.len() > 0,
        forall|i: int| 0 <= i < extra.len() ==> !spec_is_global_symbol(#[trigger] extra[i])
            || all_symbols(index.documents).contains(extra[i]),
    ensures
        lowered_state(with_extra_symbols(index, extra)) == lowered_state(index),
{
    let docs = index.documents;
    let n = docs.len() - 1;
    let index2 = with_extra_symbols(index, extra);
    let docs2 = index2.documents;
    let syms = all_symbols(docs);
    assert(docs2.drop_last() =~= docs.drop_last());
    assert(all_symbols(docs2) =~= syms + extra);
    let p2 = scip_parses(syms + extra);
    let p1 = scip_parses(syms);
    lemma_defs_of_extra(syms, extra, p2, extra.len() as int);
    assert(extra.take(extra.len() as int) =~= extra);
    lemma_defs_of_parses_agree(syms, p2, p1);
    let name = index_crate_name(index);
    let s0 = s_add_crate(s_new(index_provenance(index)), name, true, root_key(name));
    let defs = defs_of(syms, p1);
    let t0 = TreeState { b: s0, module_of_sig: Seq::empty(), type_modules: Seq::empty(), item_keys: Seq::empty() };
    let tr = s_tree(t0, defs, defs.len(), ModuleId(0));
    lemma_docs_replace(docs, n, docs2[n], tr.item_keys);
    assert(docs2 == docs.update(n, docs2[n]));
}

/// Whether key `k` is one of `syms` or begins with `<` (a root or synthetic
/// key).
pub open spec fn key_from(k: Seq<char>, syms: Seq<Seq<char>>) -> bool {
    syms.contains(k) || (k.len() > 0 && k[0] == '<')
}

/// Every key of `regs` is one of `syms` or begins with `<`.
pub open spec fn keys_from(regs: Seq<(Seq<char>, ItemId)>, syms: Seq<Seq<char>>) -> bool {
    forall|r: int| 0 <= r < regs.len() ==> #[trigger] key_from(regs[r].0, syms)
}

/// A synthetic key begins with `<`.
proof fn lemma_synthetic_key_angle(sig: Seq<Desc>)
    ensures
        spec_synthetic_key(sig).len() > 0,
        spec_synthetic_key(sig)[0] == '<',
    decreases sig.len(),
{
    if sig.len() > 0 {
        lemma_synthetic_key_angle(sig.drop_last());
    }
}

/// The definitions' symbols are among the symbols they are read from.
proof fn lemma_defs_of_symbols(syms: Seq<Seq<char>>, ps: Seq<Option<Seq<Desc>>>)
    ensures
        forall|i: int| 0 <= i < defs_of(syms, ps).len() ==> syms.contains(#[trigger] defs_of(syms, ps)[i].0),
    decreases syms.len(),
{
    if syms.len() > 0 {
        let pre = syms.drop_last();
        lemma_defs_of_symbols(pre, ps);
        let d = defs_of(syms, ps);
        assert forall|i: int| 0 <= i < d.len() implies syms.contains(#[trigger] d[i].0) by {
            if i < defs_of(pre, ps).len() {
                assert(d[i] == defs_of(pre, ps)[i]);
                let j = choose|j: int| 0 <= j < pre.len() && pre[j] == d[i].0;
                assert(syms[j] == pre[j]);
            } else {
                assert(d[i].0 == syms[syms.len() - 1]);
            }
        }
    }
}

/// The key a definition path is registered under is a definition's symbol.
proof fn lemma_sig_key_symbol(defs: Seq<Def>, sig: Seq<Desc>, syms: Seq<Seq<char>>)
    requires
        forall|i: int| 0 <= i < defs.len() ==> syms.contains(#[trigger] defs[i].0),
    ensures
        sig_key(defs, sig) matches Some(k) ==> syms.contains(k),
    decreases defs.len(),
{
    if defs.len() > 0 {
        assert(syms.contains(defs[defs.len() - 1].0));
        assert forall|i: int| 0 <= i < defs.drop_last().len() implies syms.contains(#[trigger] defs.drop_last()[i].0) by {
            assert(defs.drop_last()[i] == defs[i]);
        }
        lemma_sig_key_symbol(defs.drop_last(), sig, syms);
    }
}

/// One more registration of a key from `syms` or beginning with `<`.
proof fn lemma_keys_from_push(regs: Seq<(Seq<char>, ItemId)>, e: (Seq<char>, ItemId), syms: Seq<Seq<char>>)
    requires
        keys_from(regs, syms),
        key_from(e.0, syms),
    ensures
        keys_from(regs.push(e), syms),
{
    assert forall|r: int| 0 <= r < regs.push(e).len() implies #[trigger] key_from(regs.push(e)[r].0, syms) by {
        if r < regs.len() {
            assert(regs.push(e)[r] == regs[r]);
        }
    }
}

/// Ensuring modules registers only keys from `syms` or beginning with `<`.
proof fn lemma_s_ensure_keys(t: TreeState, sig: Seq<Desc>, root: ModuleId, defs: Seq<Def>, syms: Seq<Seq<char>>)
    requires
        keys_from(t.b.registrations, syms),
        forall|i: int| 0 <= i < defs.len() ==> syms.contains(#[trigger] defs[i].0),
    ensures
        keys_from(s_ensure(t, sig, root, defs).0.b.registrations, syms),
    decreases sig.len(),
{
    if sig.len() > 0 && sig_module(t.module_of_sig, sig) is None {
        lemma_s_ensure_keys(t, sig.drop_last(), root, defs, syms);
        let t1 = s_ensure(t, sig.drop_last(), root, defs).0;
        let key = match sig_key(defs, sig) {
            Some(k) => k,
            None => spec_synthetic_key(sig),
        };
        lemma_sig_key_symbol(defs, sig, syms);
        lemma_synthetic_key_angle(sig);
        assert(key_from(key, syms));
        let t2 = s_ensure(t, sig, root, defs).0;
        assert(t2.b.registrations == t1.b.registrations.push((key, ItemId(t1.b.items.len() as u32))));
        lemma_keys_from_push(t1.b.registrations, (key, ItemId(t1.b.items.len() as u32)), syms);
    }
}

/// The tree phase registers only keys from `syms` or beginning with `<`.
proof fn lemma_s_tree_keys(t0: TreeState, defs: Seq<Def>, n: nat, root: ModuleId, syms: Seq<Seq<char>>)
    requires
        keys_from(t0.b.registrations, syms),
        n <= defs.len(),
        forall|i: int| 0 <= i < defs.len() ==> syms.contains(#[trigger] defs[i].0),
    ensures
        keys_from(s_tree(t0, defs, n, root).b.registrations, syms),
    decreases n,
{
    if n > 0 {
        lemma_s_tree_keys(t0, defs, (n - 1) as nat, root, syms);
        let t = s_tree(t0, defs, (n - 1) as nat, root);
        let def = defs[n - 1];
        let sig = def.1;
        let suffix = sig.last().1;
        if suffix == SUFFIX_NAMESPACE || suffix == SUFFIX_TYPE {
            lemma_s_ensure_keys(t, sig, root, defs, syms);
        } else if suffix == SUFFIX_METHOD || suffix == SUFFIX_TERM || suffix == SUFFIX_MACRO {
            lemma_s_ensure_keys(t, sig.drop_last(), root, defs, syms);
            let t1 = s_ensure(t, sig.drop_last(), root, defs).0;
            assert(syms.contains(defs[n - 1].0));
            lemma_keys_from_push(t1.b.registrations, (def.0, ItemId(t1.b.items.len() as u32)), syms);
        }
    }
}

/// Law: a reference to a symbol that no document lists and that does not
/// begin with `<` is external: no item is registered under it, so it is
/// dropped as [`law_lower_drops_external_reference`] states.
pub proof fn law_lower_drops_unlisted_reference(index: IndexView, d: int, p: int)
    requires
        0 <= d < index.documents.len(),
        0 <= p < index.documents[d].occurrences.len(),
        !is_def(index.documents[d].occurrences[p]),
        !all_symbols(index.documents).contains(index.documents[d].occurrences[p].symbol),
        !(index.documents[d].occurrences[p].symbol.len() > 0 && index.documents[d].occurrences[p].symbol[0] == '<'),
    ensures
        ({
            let s = lowered_state(index);
            let s2 = lowered_state(without_occurrence(index, d, p));
            &&& s2 == BuilderState { pending_edges: s2.pending_edges, ..s }
            &&& forall|f: ItemId, t: ItemId, k: RefKind| #[trigger] pending_count(s2.pending_edges, s2.registrations, f, t, k)
                == pending_count(s.pending_edges, s.registrations, f, t, k)
            &&& forall|g: CrateGraph| #[trigger] finished_from(s2, g) == finished_from(s, g)
        }),
{
    let sym = index.documents[d].occurrences[p].symbol;
    let syms = all_symbols(index.documents);
    let parses = scip_parses(syms);
    let name = index_crate_name(index);
    let s0 = s_add_crate(s_new(index_provenance(index)), name, true, root_key(name));
    let defs = defs_of(syms, parses);
    let t0 = TreeState { b: s0, module_of_sig: Seq::empty(), type_modules: Seq::empty(), item_keys: Seq::empty() };
    assert(s0.registrations.len() == 1);
    assert(s0.registrations[0].0 == root_key(name));
    reveal_strlit("<root:");
    assert(("<root:"@ + name + ">"@)[0] == "<root:"@[0]);
    assert(root_key(name)[0] == '<');
    assert(key_from(s0.registrations[0].0, syms));
    assert(keys_from(s0.registrations, syms));
    lemma_defs_of_symbols(syms, parses);
    lemma_s_tree_keys(t0, defs, defs.len(), ModuleId(0), syms);
    let regs = lowered_state(index).registrations;
    if lookup(regs, sym) is Some {
        crate::builder::lemma_lookup_registered(regs, sym);
        let r = choose|r: int| 0 <= r < regs.len() && #[trigger] regs[r] == (sym, lookup(regs, sym)->0);
        assert(key_from(regs[r].0, syms));
    }
    law_lower_drops_external_reference(index, d, p);
}

/// Two lowering results agree: the same error, or graphs equal in value.
pub open spec fn same_lowering(r1: Result<CrateGraph, LowerError>, r2: Result<CrateGraph, LowerError>) -> bool {
    match (r1, r2) {
        (Ok(g1), Ok(g2)) => g1@ == g2@,
        (Err(LowerError::TooLarge), Err(LowerError::TooLarge)) => true,
        (Err(LowerError::Build(BuildError::DuplicateKeys(d1))), Err(LowerError::Build(BuildError::DuplicateKeys(d2)))) =>
            str_views(d1@) == str_views(d2@),
        _ => false,
    }
}

/// Lowered contents that differ at most in edges resolving the same number
/// of times, and fit alike, lower to agreeing results.
proof fn lemma_same_lowering(s: BuilderState, s2: BuilderState, r1: Result<CrateGraph, LowerError>, r2: Result<CrateGraph, LowerError>)
    requires
        lowering_result(s, r1),
        lowering_result(s2, r2),
        s2 == (BuilderState { pending_edges: s2.pending_edges, ..s }),
        lowered_fits(s) == lowered_fits(s2),
        forall|f: ItemId, t: ItemId, k: RefKind| #[trigger] pending_count(s2.pending_edges, s2.registrations, f, t, k)
            == pending_count(s.pending_edges, s.registrations, f, t, k),
    ensures
        same_lowering(r1, r2),
{
    if lowered_fits(s) && s.duplicate_keys.len() == 0 {
        let g1 = r1->Ok_0;
        let g2 = r2->Ok_0;
        assert(finished_from(s, g2));
        crate::builder::law_finish_is_determined(s, g1, g2);
    }
}

/// Law: what `lower` gives is unchanged when an unattributed reference is
/// taken out of the index (see [`law_lower_drops_unattributed_reference`]):
/// `r` and `r2` are what `lower` returns for the index and for the index
/// without the reference.
pub proof fn law_lower_result_drops_unattributed_reference(
    index: IndexView,
    d: int,
    p: int,
    r: Result<CrateGraph, LowerError>,
    r2: Result<CrateGraph, LowerError>,
)
    requires
        0 <= d < index.documents.len(),
        0 <= p < index.documents[d].occurrences.len(),
        unattributed(index.documents[d].occurrences, p),
        lowering_result(lowered_state(index), r),
        lowering_result(lowered_state(without_occurrence(index, d, p)), r2),
    ensures
        same_lowering(r, r2),
{
    law_lower_drops_unattributed_reference(index, d, p);
    lemma_same_lowering(lowered_state(index), lowered_state(without_occurrence(index, d, p)), r, r2);
}

/// Law: what `lower` gives is unchanged when a reference to a symbol that no
/// document lists and that does not begin with `<` is taken out of the index
/// (see [`law_lower_drops_unlisted_reference`]), unless taking it out moves
/// the count of recorded edges across the `u32` limit.
pub proof fn law_lower_result_drops_unlisted_reference(
    index: IndexView,
    d: int,
    p: int,
    r: Result<CrateGraph, LowerError>,
    r2: Result<CrateGraph, LowerError>,
)
    requires
        0 <= d < index.documents.len(),
        0 <= p < index.documents[d].occurrences.len(),
        !is_def(index.documents[d].occurrences[p]),
        !all_symbols(index.documents).contains(index.documents[d].occurrences[p].symbol),
        !(index.documents[d].occurrences[p].symbol.len() > 0 && index.documents[d].occurrences[p].symbol[0] == '<'),
        lowered_fits(lowered_state(index)) == lowered_fits(lowered_state(without_occurrence(index, d, p))),
        lowering_result(lowered_state(index), r),
        lowering_result(lowered_state(without_occurrence(index, d, p)), r2),
    ensures
        same_lowering(r, r2),
{
    law_lower_drops_unlisted_reference(index, d, p);
    lemma_same_lowering(lowered_state(index), lowered_state(without_occurrence(index, d, p)), r, r2);
}

/// Law: what `lower` gives is unchanged by symbol entries that are local or
/// repeat a listed symbol (see [`law_lower_ignores_local_and_repeated_symbols`]).
pub proof fn law_lower_result_ignores_local_and_repeated_symbols(
    index: IndexView,
    extra: Seq<Seq<char>>,
    r: Result<CrateGraph, LowerError>,
    r2: Result<CrateGraph, LowerError>,
)
    requires
        index.documents.len() > 0,
        forall|i: int| 0 <= i < extra.len() ==> !spec_is_global_symbol(#[trigger] extra[i])
            || all_symbols(index.documents).contains(extra[i]),
        lowering_result(lowered_state(index), r),
        lowering_result(lowered_state(with_extra_symbols(index, extra)), r2),
    ensures
        same_lowering(r, r2),
{
    law_lower_ignores_local_and_repeated_symbols(index, extra);
    lemma_same_lowering(lowered_state(index), lowered_state(with_extra_symbols(index, extra)), r, r2);
}

/// Law: a definition whose last descriptor is a method, a term or a macro
/// becomes one new public item, after the modules of its parent path: keyed
/// by the definition's symbol, owned by the module of the parent path, named
/// by the last descriptor, and of kind `Function`, `Const` or `Macro`
/// (`AssocFn` and `AssocConst` under a type), and its symbol is recorded as
/// an item key.
pub proof fn law_member_definitions_become_items(t: TreeState, def: Def, root: ModuleId, defs: Seq<Def>)
    requires
        def.1.len() > 0,
        def.1.last().1 == SUFFIX_METHOD || def.1.last().1 == SUFFIX_TERM || def.1.last().1 == SUFFIX_MACRO,
    ensures
        ({
            let (t1, parent) = s_ensure(t, def.1.drop_last(), root, defs);
            let t2 = s_add_def(t, def, root, defs);
            let it = t2.b.items.last();
            let under_type = t1.type_modules.contains(parent);
            let suffix = def.1.last().1;
            &&& t2.b.items == t1.b.items.push(it)
            &&& t2.b.modules == t1.b.modules
            &&& t2.b.registrations == t1.b.registrations.push((def.0, it.id))
            &&& it.id == ItemId(t1.b.items.len() as u32)
            &&& it.owning_module == parent
            &&& it.canonical_path == t1.b.modules[parent.0 as int].canonical_path + "::"@ + spec_descriptor_name(def.1.last().0)
            &&& it.visibility == VisibilityView::Public
            &&& t2.item_keys == t1.item_keys.push(def.0)
            &&& (suffix == SUFFIX_TERM ==> it.kind == if under_type { ItemKind::AssocConst } else { ItemKind::Const })
            &&& (suffix == SUFFIX_METHOD ==> it.kind == if under_type { ItemKind::AssocFn } else { ItemKind::Function })
            &&& (suffix == SUFFIX_MACRO ==> it.kind == ItemKind::Macro)
        }),
{
    let (t1, parent) = s_ensure(t, def.1.drop_last(), root, defs);
    let t2 = s_add_def(t, def, root, defs);
    assert(t2.b.items.drop_last() =~= t1.b.items);
    assert(t2.b.items =~= t1.b.items.push(t2.b.items.last()));
}

/// Builder content `b` keeps every item and registration of `a`, in place.
pub open spec fn keeps(a: BuilderState, b: BuilderState) -> bool {
    &&& a.items.len() <= b.items.len()
    &&& forall|j: int| 0 <= j < a.items.len() ==> #[trigger] b.items[j] == a.items[j]
    &&& a.registrations.len() <= b.registrations.len()
    &&& forall|r: int| 0 <= r < a.registrations.len() ==> #[trigger] b.registrations[r] == a.registrations[r]
}

/// Ensuring a module chain keeps every item and registration.
proof fn lemma_s_ensure_keeps(t: TreeState, sig: Seq<Desc>, root: ModuleId, defs: Seq<Def>)
    ensures
        keeps(t.b, s_ensure(t, sig, root, defs).0.b),
    decreases sig.len(),
{
    if sig.len() > 0 && sig_module(t.module_of_sig, sig) is None {
        lemma_s_ensure_keeps(t, sig.drop_last(), root, defs);
    }
}

/// Lowering a definition keeps every item and registration.
proof fn lemma_s_add_def_keeps(t: TreeState, def: Def, root: ModuleId, defs: Seq<Def>)
    ensures
        keeps(t.b, s_add_def(t, def, root, defs).b),
{
    lemma_s_ensure_keeps(t, def.1, root, defs);
    lemma_s_ensure_keeps(t, def.1.drop_last(), root, defs);
}

/// Later stages of the tree phase keep every item and registration.
proof fn lemma_s_tree_keeps(t0: TreeState, defs: Seq<Def>, k: nat, n: nat, root: ModuleId)
    requires
        k <= n,
    ensures
        keeps(s_tree(t0, defs, k, root).b, s_tree(t0, defs, n, root).b),
    decreases n,
{
    if k < n {
        lemma_s_tree_keeps(t0, defs, k, (n - 1) as nat, root);
        lemma_s_add_def_keeps(s_tree(t0, defs, (n - 1) as nat, root), defs[n - 1], root, defs);
    }
}

/// A global symbol whose first listing parses into descriptors is one of the
/// definitions.
proof fn lemma_defs_of_has(syms: Seq<Seq<char>>, ps: Seq<Option<Seq<Desc>>>, s: Seq<char>, d: Seq<Desc>)
    requires
        syms.contains(s),
        spec_is_global_symbol(s),
        d.len() > 0,
        forall|j: int| 0 <= j < syms.len() && syms[j] == s ==> ps[j] == Some(d),
    ensures
        exists|i: int| 0 <= i < defs_of(syms, ps).len() && defs_of(syms, ps)[i] == (s, d),
    decreases syms.len(),
{
    let pre = syms.drop_last();
    if pre.contains(s) {
        assert forall|j: int| 0 <= j < pre.len() && pre[j] == s implies ps[j] == Some(d) by {
            assert(syms[j] == pre[j]);
        }
        lemma_defs_of_has(pre, ps, s, d);
        let i = choose|i: int| 0 <= i < defs_of(pre, ps).len() && defs_of(pre, ps)[i] == (s, d);
        assert(defs_of(syms, ps)[i] == defs_of(pre, ps)[i]);
    } else {
        let j = choose|j: int| 0 <= j < syms.len() && syms[j] == s;
        if j < syms.len() - 1 {
            assert(pre[j] == s);
        }
        assert(syms.last() == s);
        let n = defs_of(syms, ps).len() - 1;
        assert(defs_of(syms, ps)[n] == (s, d));
    }
}

/// Law: every global symbol listed in an index whose descriptors end in a
/// term is lowered to an item registered under that symbol, of kind `Const`
/// (`AssocConst` under a type); one ending in a method is lowered to a
/// `Function` (`AssocFn`), one ending in a macro to a `Macro`.
pub proof fn law_lowered_members_are_items(index: IndexView, s: Seq<char>, d: Seq<Desc>)
    requires
        all_symbols(index.documents).contains(s),
        spec_is_global_symbol(s),
        scip_symbol_descriptors(s) == Some(d),
        d.len() > 0,
        d.last().1 == SUFFIX_METHOD || d.last().1 == SUFFIX_TERM || d.last().1 == SUFFIX_MACRO,
    ensures
        exists|r: int, j: int|
            #![trigger lowered_state(index).registrations[r], lowered_state(index).items[j]]
            0 <= r < lowered_state(index).registrations.len() && 0 <= j < lowered_state(index).items.len()
            && lowered_state(index).registrations[r] == (s, lowered_state(index).items[j].id)
            && (d.last().1 == SUFFIX_TERM ==> (lowered_state(index).items[j].kind == ItemKind::Const
                || lowered_state(index).items[j].kind == ItemKind::AssocConst))
            && (d.last().1 == SUFFIX_METHOD ==> (lowered_state(index).items[j].kind == ItemKind::Function
                || lowered_state(index).items[j].kind == ItemKind::AssocFn))
            && (d.last().1 == SUFFIX_MACRO ==> lowered_state(index).items[j].kind == ItemKind::Macro),
{
    let syms = all_symbols(index.documents);
    let ps = scip_parses(syms);
    let name = index_crate_name(index);
    let s0 = s_add_crate(s_new(index_provenance(index)), name, true, root_key(name));
    let defs = defs_of(syms, ps);
    let t0 = TreeState { b: s0, module_of_sig: Seq::empty(), type_modules: Seq::empty(), item_keys: Seq::empty() };
    let root = ModuleId(0);
    lemma_defs_of_has(syms, ps, s, d);
    let i = choose|i: int| 0 <= i < defs.len() && defs[i] == (s, d);
    let ti = s_tree(t0, defs, i as nat, root);
    law_member_definitions_become_items(ti, defs[i], root, defs);
    let ti1 = s_tree(t0, defs, (i + 1) as nat, root);
    assert(ti1 == s_add_def(ti, defs[i], root, defs));
    let jj = ti1.b.items.len() - 1;
    let rr = ti1.b.registrations.len() - 1;
    assert(ti1.b.registrations[rr] == (s, ti1.b.items[jj].id));
    lemma_s_tree_keeps(t0, defs, (i + 1) as nat, defs.len(), root);
    let fin = lowered_state(index);
    assert(fin.items[jj] == ti1.b.items[jj]);
    assert(fin.registrations[rr] == ti1.b.registrations[rr]);
}

/// Law: a definition whose last descriptor is a namespace or a type ends with
/// a module recorded for its whole descriptor path; when none was recorded
/// before, that module is new, a type container (and recorded as one)
/// exactly for a type and a real module for a namespace.
pub proof fn law_container_definitions_become_modules(t: TreeState, def: Def, root: ModuleId, defs: Seq<Def>)
    requires
        def.1.len() > 0,
        def.1.last().1 == SUFFIX_NAMESPACE || def.1.last().1 == SUFFIX_TYPE,
    ensures
        ({
            let t2 = s_add_def(t, def, root, defs);
            let mm = t2.b.modules.last();
            &&& sig_module(t2.module_of_sig, def.1) is Some
            &&& sig_module(t.module_of_sig, def.1) is None ==> {
                &&& sig_module(t2.module_of_sig, def.1) == Some(mm.id)
                &&& (def.1.last().1 == SUFFIX_TYPE ==> mm.kind == ModuleKind::Type && t2.type_modules.contains(mm.id))
                &&& (def.1.last().1 == SUFFIX_NAMESPACE ==> mm.kind == ModuleKind::Mod)
            }
        }),
{
    let t2 = s_add_def(t, def, root, defs);
    if sig_module(t.module_of_sig, def.1) is None {
        law_ensure_module_creates(t, def.1, root, defs);
        let t1 = s_ensure(t, def.1.drop_last(), root, defs).0;
        let m = s_ensure(t, def.1, root, defs).1;
        lemma_sig_module_push(t1.module_of_sig, (def.1, m), def.1);
        if def.1.last().1 == SUFFIX_TYPE {
            assert(t2.type_modules.last() == m);
            assert(t2.type_modules[t2.type_modules.len() - 1] == m);
        }
    }
}

/// Law: a definition whose last descriptor is neither a namespace, a type, a
/// method, a term nor a macro (a parameter, a type parameter, a meta or local
/// descriptor) changes nothing.
pub proof fn law_other_definitions_are_skipped(t: TreeState, def: Def, root: ModuleId, defs: Seq<Def>)
    requires
        def.1.len() > 0,
        def.1.last().1 != SUFFIX_NAMESPACE,
        def.1.last().1 != SUFFIX_TYPE,
        def.1.last().1 != SUFFIX_METHOD,
        def.1.last().1 != SUFFIX_TERM,
        def.1.last().1 != SUFFIX_MACRO,
    ensures
        s_add_def(t, def, root, defs) == t,
{
}


/// Law: the crate an index lowers to is named after its project root's last
/// segment, or `crate` when the index has no metadata or the root has no
/// segment; its root stub is keyed `<root:NAME>`.
pub proof fn law_index_crate_name(index: IndexView, name: Seq<char>)
    ensures
        index.metadata is None ==> index_crate_name(index) == "crate"@,
        index.metadata matches Some(m) ==> index_crate_name(index) == match spec_project_basename(m.project_root) {
            Some(b) => b,
            None => "crate"@,
        },
        root_key(name) == seq!['<', 'r', 'o', 'o', 't', ':'] + name + seq!['>'],
{
    reveal_strlit("<root:");
    reveal_strlit(">");
    assert(root_key(name) =~= seq!['<', 'r', 'o', 'o', 't', ':'] + name + seq!['>']);
}

} // verus!
