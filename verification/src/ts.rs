//! TypeScript and JavaScript extraction, built on `oxc`.
//!
//! The source files of a project become a module tree (one module per
//! directory and per file, under the crate named after the project root), and
//! each file's top-level named declarations become items: exported ones
//! public, the rest private to their module. No dependency edges are recorded.

use vstd::prelude::*;
use vstd::hash_map::StringHashMap;
use oxc_allocator::Allocator;
use oxc_ast::ast::Declaration::{
    ClassDeclaration, FunctionDeclaration, TSEnumDeclaration, TSGlobalDeclaration, TSImportEqualsDeclaration,
    TSInterfaceDeclaration, TSModuleDeclaration, TSTypeAliasDeclaration, VariableDeclaration,
};
use oxc_ast::ast::Statement::ExportNamedDeclaration;
use oxc_parser::Parser;
use oxc_span::SourceType;
use self::TsForm::{Class, Enum, Function, Global, ImportEquals, Interface, Module, TypeAlias, Variable};
use crate::builder::{grown, ids_fit, s_add_crate, s_add_item, s_add_module, s_new, state_wf, BuilderState, CrateGraphBuilder};
use crate::extract_api::{ExtractError, ExtractRequest, Frontend, Project, SourceFile, TypeScript};
use crate::ir::{ItemId, ItemKind, ModuleId, Visibility, VisibilityView};
use crate::paths::{
    file_name_of, file_stem_of, last_segment, last_segment_of, rel_parent, rel_parent_of, spec_extension,
    spec_file_stem, std_file_name,
};
use crate::text::{concat, join3, str_eq};

verus! {

/// The `oxc` version this extractor is built against, recorded as provenance.
pub const OXC_VERSION: &'static str = "0.137";

/// The form of a declaration, one per `oxc` declaration variant.
#[derive(Clone, Copy, Debug, PartialEq, Eq, Structural)]
pub enum TsForm {
    Variable,
    Function,
    Class,
    TypeAlias,
    Interface,
    Enum,
    Module,
    Global,
    ImportEquals,
}

/// A top-level declaration: whether it is exported, the name it binds (if
/// any) and its form.
#[derive(Clone, Debug)]
pub struct TsDeclaration {
    pub exported: bool,
    pub name: Option<String>,
    pub form: TsForm,
}

/// A declaration, by value.
pub struct TsDeclView {
    pub exported: bool,
    pub name: Option<Seq<char>>,
    pub form: TsForm,
}

impl View for TsDeclaration {
    type V = TsDeclView;

    open spec fn view(&self) -> TsDeclView {
        TsDeclView {
            exported: self.exported,
            name: match self.name {
                Some(n) => Some(n@),
                None => None,
            },
            form: self.form,
        }
    }
}

/// Per-statement declarations, by value.
pub open spec fn decl_views(v: Seq<Option<TsDeclaration>>) -> Seq<Option<TsDeclView>> {
    v.map_values(|d: Option<TsDeclaration>| match d {
        Some(x) => Some(x@),
        None => None,
    })
}

/// What `oxc` parses from the source `text` of the file at `path`: for each
/// top-level statement, its declaration (an exported declaration, or a plain
/// one), if it has one.
pub uninterp spec fn ts_declarations(path: Seq<char>, text: Seq<char>) -> Seq<Option<TsDeclView>>;

/// Parses a source file with `oxc_parser` (its source type from the path's
/// extension, by `SourceType::from_path`, else the default) and lists, per
/// top-level statement, the declaration it makes: that of an
/// `export` declaration (exported), or the statement's own declaration.
#[verifier::external_body]
fn parse_declarations(path: &str, text: &str) -> (r: Vec<Option<TsDeclaration>>)
    ensures
        decl_views(r@) == ts_declarations(path@, text@),
{
    let alloc = Allocator::default();
    Parser::new(&alloc, text, SourceType::from_path(path).unwrap_or_default()).parse().program.body.iter().map(|s| {
        let (exported, d) = match s { ExportNamedDeclaration(e) => (true, e.declaration.as_ref()), s => (false, s.as_declaration()) };
        d.map(|d| TsDeclaration { exported, name: d.id().map(|i| i.name.to_string()), form: match d {
            VariableDeclaration(_) => Variable, FunctionDeclaration(_) => Function, ClassDeclaration(_) => Class,
            TSTypeAliasDeclaration(_) => TypeAlias, TSInterfaceDeclaration(_) => Interface, TSEnumDeclaration(_) => Enum,
            TSModuleDeclaration(_) => Module, TSGlobalDeclaration(_) => Global, TSImportEqualsDeclaration(_) => ImportEquals } })
    }).collect()
}

/// The item kind of a declaration form; `None` for the forms not recorded
/// (variables, namespaces, global augmentations, import-equals).
pub open spec fn spec_declaration_kind(form: TsForm) -> Option<ItemKind> {
    match form {
        TsForm::Function => Some(ItemKind::Function),
        TsForm::Class => Some(ItemKind::Struct),
        TsForm::Interface => Some(ItemKind::Trait),
        TsForm::TypeAlias => Some(ItemKind::TypeAlias),
        TsForm::Enum => Some(ItemKind::Enum),
        _ => None,
    }
}

/// Maps a declaration form to an item kind.
pub fn declaration_kind(form: TsForm) -> (r: Option<ItemKind>)
    ensures
        r == spec_declaration_kind(form),
{
    match form {
        TsForm::Function => Some(ItemKind::Function),
        TsForm::Class => Some(ItemKind::Struct),
        TsForm::Interface => Some(ItemKind::Trait),
        TsForm::TypeAlias => Some(ItemKind::TypeAlias),
        TsForm::Enum => Some(ItemKind::Enum),
        _ => None,
    }
}

/// The extensions treated as TypeScript or JavaScript source.
pub open spec fn source_exts() -> Seq<Seq<char>> {
    seq!["ts"@, "tsx"@, "mts"@, "cts"@, "js"@, "jsx"@, "mjs"@, "cjs"@]
}

/// The directories never descended into during discovery.
pub open spec fn skip_dirs() -> Seq<Seq<char>> {
    seq!["node_modules"@, ".git"@, "dist"@, "build"@, "out"@]
}

/// Whether a string is one of `v`.
fn one_of(v: &Vec<&str>, s: &str) -> (r: bool)
    ensures
        r == v@.map_values(|x: &str| x@).contains(s@),
{
    let ghost vv = v@.map_values(|x: &str| x@);
    let mut i: usize = 0;
    while i < v.len()
        invariant
            i <= v@.len(),
            vv == v@.map_values(|x: &str| x@),
            forall|j: int| 0 <= j < i ==> vv[j] != s@,
        decreases v@.len() - i,
    {
        assert(vv[i as int] == v@[i as int]@);
        if str_eq(v[i], s) {
            return true;
        }
        i = i + 1;
    }
    false
}

/// Whether discovery skips a directory of this name (vendored and build
/// output directories).
pub fn is_skipped_dir(name: &str) -> (r: bool)
    ensures
        r == skip_dirs().contains(name@),
{
    let v = vec!["node_modules", ".git", "dist", "build", "out"];
    assert(v@.map_values(|x: &str| x@) =~= skip_dirs());
    one_of(&v, name)
}

/// Whether a file name has a TypeScript or JavaScript source extension.
pub fn is_source_file(name: &str) -> (r: bool)
    ensures
        r == (spec_extension(name@) is Some && source_exts().contains(spec_extension(name@)->0)),
{
    match crate::paths::extension_of(name) {
        Some(ext) => {
            let v = vec!["ts", "tsx", "mts", "cts", "js", "jsx", "mjs", "cjs"];
            assert(v@.map_values(|x: &str| x@) =~= source_exts());
            one_of(&v, ext.as_str())
        },
        None => false,
    }
}

/// The module-building state: the builder and the module made for each
/// directory (relative to the root), in creation order.
pub struct TsState {
    pub b: BuilderState,
    pub dirs: Seq<(Seq<char>, ModuleId)>,
}

/// The module made for directory `dir`, if any.
pub open spec fn dir_module(dirs: Seq<(Seq<char>, ModuleId)>, dir: Seq<char>) -> Option<ModuleId>
    decreases dirs.len(),
{
    if dirs.len() == 0 {
        None
    } else if dirs.last().0 == dir {
        Some(dirs.last().1)
    } else {
        dir_module(dirs.drop_last(), dir)
    }
}

/// The module name of a directory: its last segment, or `module`.
pub open spec fn dir_name(dir: Seq<char>) -> Seq<char> {
    if last_segment(dir).len() == 0 { "module"@ } else { last_segment(dir) }
}

/// The key of a directory's module: `CRATE::DIR/`.
pub open spec fn dir_key(crate_name: Seq<char>, dir: Seq<char>) -> Seq<char> {
    crate_name + "::"@ + dir + "/"@
}

/// Ensures a module for `dir` and its ancestors, creating the missing ones top
/// down; the empty directory is the crate root `root`.
pub open spec fn ts_ensure(t: TsState, crate_name: Seq<char>, dir: Seq<char>, root: ModuleId) -> (TsState, ModuleId)
    decreases dir.len(),
{
    if dir.len() == 0 {
        (t, root)
    } else if dir_module(t.dirs, dir) is Some {
        (t, dir_module(t.dirs, dir)->0)
    } else if rel_parent(dir).len() >= dir.len() {
        (t, root)
    } else {
        let (t1, parent) = ts_ensure(t, crate_name, rel_parent(dir), root);
        let m = ModuleId(t1.b.modules.len() as u32);
        (
            TsState {
                b: s_add_module(t1.b, parent, dir_key(crate_name, dir), dir_name(dir), VisibilityView::Public),
                dirs: t1.dirs.push((dir, m)),
            },
            m,
        )
    }
}

/// The module name of a source file: the stem of its file name, or `module`.
pub open spec fn file_module_name(rel: Seq<char>) -> Seq<char> {
    if last_segment(rel).len() == 0 { "module"@ } else { spec_file_stem(last_segment(rel)) }
}

/// The key of a file's module: `CRATE::PATH`.
pub open spec fn file_key(crate_name: Seq<char>, rel: Seq<char>) -> Seq<char> {
    crate_name + "::"@ + rel
}

/// Adds the items of the first `n` declarations of a file.
pub open spec fn ts_add_decls(b: BuilderState, file_mod: ModuleId, key: Seq<char>, decls: Seq<Option<TsDeclView>>, n: nat) -> BuilderState
    decreases n,
{
    if n == 0 || n > decls.len() {
        b
    } else {
        let prev = ts_add_decls(b, file_mod, key, decls, (n - 1) as nat);
        match decls[n - 1] {
            Some(d) => match (spec_declaration_kind(d.form), d.name) {
                (Some(kind), Some(name)) => s_add_item(
                    prev,
                    file_mod,
                    key + "::"@ + name,
                    name,
                    kind,
                    if d.exported { VisibilityView::Public } else { VisibilityView::Private },
                ),
                _ => prev,
            },
            None => prev,
        }
    }
}

/// Adds one source file: its directory chain, its module and its items.
pub open spec fn ts_add_file(t: TsState, crate_name: Seq<char>, root: ModuleId, rel: Seq<char>, decls: Seq<Option<TsDeclView>>) -> TsState {
    let (t1, parent) = ts_ensure(t, crate_name, rel_parent(rel), root);
    let fm = ModuleId(t1.b.modules.len() as u32);
    let b2 = s_add_module(t1.b, parent, file_key(crate_name, rel), file_module_name(rel), VisibilityView::Public);
    TsState { b: ts_add_decls(b2, fm, file_key(crate_name, rel), decls, decls.len()), dirs: t1.dirs }
}

/// Adds the first `n` source files.
pub open spec fn ts_add_files(
    t: TsState,
    crate_name: Seq<char>,
    root: ModuleId,
    rels: Seq<Seq<char>>,
    decls: Seq<Seq<Option<TsDeclView>>>,
    n: nat,
) -> TsState
    decreases n,
{
    if n == 0 || n > rels.len() || n > decls.len() {
        t
    } else {
        ts_add_file(ts_add_files(t, crate_name, root, rels, decls, (n - 1) as nat), crate_name, root, rels[n - 1], decls[n - 1])
    }
}

/// The builder content of a project with these source files (relative paths)
/// and their declarations, under crate `crate_name`, from builder content `s`.
pub open spec fn ts_populated(
    s: BuilderState,
    crate_name: Seq<char>,
    rels: Seq<Seq<char>>,
    decls: Seq<Seq<Option<TsDeclView>>>,
) -> BuilderState {
    let s1 = s_add_crate(s, crate_name, true, crate_name);
    let root = ModuleId(s.modules.len() as u32);
    let t0 = TsState { b: s1, dirs: seq![(Seq::<char>::empty(), root)] };
    ts_add_files(t0, crate_name, root, rels, decls, rels.len()).b
}

/// Directory entries, by value.
pub open spec fn dir_views(v: Seq<(String, ModuleId)>) -> Seq<(Seq<char>, ModuleId)> {
    v.map_values(|e: (String, ModuleId)| (e.0@, e.1))
}

/// The module-building invariant: a well-formed builder with no edges whose
/// root and recorded directory modules exist.
pub open spec fn ts_ok(t: TsState, root: ModuleId) -> bool {
    &&& state_wf(t.b)
    &&& t.b.pending_edges.len() == 0
    &&& root.0 < t.b.modules.len()
    &&& forall|i: int| 0 <= i < t.dirs.len() ==> (#[trigger] t.dirs[i]).1.0 < t.b.modules.len()
}

/// A directory module found in the cache is one of the recorded entries.
proof fn lemma_dir_module_found(dirs: Seq<(Seq<char>, ModuleId)>, dir: Seq<char>)
    ensures
        dir_module(dirs, dir) is Some ==> exists|i: int| 0 <= i < dirs.len() && #[trigger] dirs[i].1 == dir_module(dirs, dir)->0,
    decreases dirs.len(),
{
    if dirs.len() > 0 && dirs.last().0 != dir {
        lemma_dir_module_found(dirs.drop_last(), dir);
        if dir_module(dirs, dir) is Some {
            let i = choose|i: int| 0 <= i < dirs.drop_last().len() && #[trigger] dirs.drop_last()[i].1 == dir_module(dirs, dir)->0;
            assert(dirs[i].1 == dir_module(dirs, dir)->0);
        }
    } else if dirs.len() > 0 {
        assert(dirs[dirs.len() - 1].1 == dir_module(dirs, dir)->0);
    }
}

/// The recorded directories as a map: each to its last recorded module.
pub open spec fn dir_map(dirs: Seq<(Seq<char>, ModuleId)>) -> Map<Seq<char>, ModuleId>
    decreases dirs.len(),
{
    if dirs.len() == 0 {
        Map::empty()
    } else {
        dir_map(dirs.drop_last()).insert(dirs.last().0, dirs.last().1)
    }
}

/// The map of the directories agrees with [`dir_module`].
proof fn lemma_dir_map(dirs: Seq<(Seq<char>, ModuleId)>, dir: Seq<char>)
    ensures
        dir_map(dirs).contains_key(dir) == (dir_module(dirs, dir) is Some),
        dir_module(dirs, dir) matches Some(m) ==> dir_map(dirs)[dir] == m,
    decreases dirs.len(),
{
    if dirs.len() > 0 {
        lemma_dir_map(dirs.drop_last(), dir);
    }
}

/// The module recorded for `dir`, if any.
fn find_dir(index: &StringHashMap<ModuleId>, dirs: &Vec<(String, ModuleId)>, dir: &str) -> (r: Option<ModuleId>)
    requires
        index@ == dir_map(dir_views(dirs@)),
    ensures
        r == dir_module(dir_views(dirs@), dir@),
{
    proof {
        lemma_dir_map(dir_views(dirs@), dir@);
    }
    match index.get(dir) {
        Some(m) => Some(*m),
        None => None,
    }
}

/// The module name of a directory.
fn dir_name_of(dir: &str) -> (r: String)
    ensures
        r@ == dir_name(dir@),
{
    let seg = last_segment_of(dir);
    if seg.unicode_len() == 0 {
        "module".to_owned()
    } else {
        seg
    }
}

/// Ensuring a directory chain adds modules and items, never removes them;
/// a new directory module adds one of each to its parent's chain.
proof fn lemma_ts_ensure_grows(t: TsState, crate_name: Seq<char>, dir: Seq<char>, root: ModuleId)
    ensures
        grown(t.b, ts_ensure(t, crate_name, dir, root).0.b),
        dir.len() > 0 && dir_module(t.dirs, dir) is None && rel_parent(dir).len() < dir.len() ==> ({
            let b1 = ts_ensure(t, crate_name, rel_parent(dir), root).0.b;
            let b2 = ts_ensure(t, crate_name, dir, root).0.b;
            b2.modules.len() == b1.modules.len() + 1 && b2.items.len() == b1.items.len() + 1
        }),
    decreases dir.len(),
{
    if dir.len() > 0 && dir_module(t.dirs, dir) is None && rel_parent(dir).len() < dir.len() {
        lemma_ts_ensure_grows(t, crate_name, rel_parent(dir), root);
    }
}

/// Later declarations of a file add items, never remove them.
proof fn lemma_ts_add_decls_grows(b: BuilderState, file_mod: ModuleId, key: Seq<char>, decls: Seq<Option<TsDeclView>>, k: nat, n: nat)
    requires
        k <= n <= decls.len(),
    ensures
        grown(ts_add_decls(b, file_mod, key, decls, k), ts_add_decls(b, file_mod, key, decls, n)),
    decreases n,
{
    if k < n {
        lemma_ts_add_decls_grows(b, file_mod, key, decls, k, (n - 1) as nat);
    }
}

/// A file whose directory chain, or whose own module, does not fit `u32`
/// ids leaves content that does not fit.
proof fn lemma_ts_add_file_fails(t: TsState, crate_name: Seq<char>, root: ModuleId, rel: Seq<char>, decls: Seq<Option<TsDeclView>>)
    requires
        ({
            let t1 = ts_ensure(t, crate_name, rel_parent(rel), root).0;
            !ids_fit(t1.b) || t1.b.modules.len() >= u32::MAX || t1.b.items.len() >= u32::MAX
        }),
    ensures
        !ids_fit(ts_add_file(t, crate_name, root, rel, decls).b),
{
    let (t1, parent) = ts_ensure(t, crate_name, rel_parent(rel), root);
    let b2 = s_add_module(t1.b, parent, file_key(crate_name, rel), file_module_name(rel), VisibilityView::Public);
    lemma_ts_add_decls_grows(b2, ModuleId(t1.b.modules.len() as u32), file_key(crate_name, rel), decls, 0, decls.len());
}

/// Adding a file adds modules and items, never removes them.
proof fn lemma_ts_add_file_grows(t: TsState, crate_name: Seq<char>, root: ModuleId, rel: Seq<char>, decls: Seq<Option<TsDeclView>>)
    ensures
        grown(t.b, ts_add_file(t, crate_name, root, rel, decls).b),
{
    lemma_ts_ensure_grows(t, crate_name, rel_parent(rel), root);
    let (t1, parent) = ts_ensure(t, crate_name, rel_parent(rel), root);
    let b2 = s_add_module(t1.b, parent, file_key(crate_name, rel), file_module_name(rel), VisibilityView::Public);
    lemma_ts_add_decls_grows(b2, ModuleId(t1.b.modules.len() as u32), file_key(crate_name, rel), decls, 0, decls.len());
}

/// Later files add modules and items, never remove them.
proof fn lemma_ts_add_files_grows(
    t: TsState,
    crate_name: Seq<char>,
    root: ModuleId,
    rels: Seq<Seq<char>>,
    decls: Seq<Seq<Option<TsDeclView>>>,
    k: nat,
    n: nat,
)
    requires
        k <= n,
        n <= rels.len(),
        n <= decls.len(),
    ensures
        grown(ts_add_files(t, crate_name, root, rels, decls, k).b, ts_add_files(t, crate_name, root, rels, decls, n).b),
    decreases n,
{
    if k < n {
        lemma_ts_add_files_grows(t, crate_name, root, rels, decls, k, (n - 1) as nat);
        lemma_ts_add_file_grows(ts_add_files(t, crate_name, root, rels, decls, (n - 1) as nat), crate_name, root, rels[n - 1], decls[n - 1]);
    }
}

/// Ensures the module of `dir` and its ancestors, as [`ts_ensure`] says.
fn ensure_dir(
    dir: &str,
    crate_name: &str,
    root: ModuleId,
    b: &mut CrateGraphBuilder,
    dirs: &mut Vec<(String, ModuleId)>,
    index: &mut StringHashMap<ModuleId>,
) -> (r: Option<ModuleId>)
    requires
        ts_ok(TsState { b: old(b).state(), dirs: dir_views(old(dirs)@) }, root),
        old(b).index_ok(),
        old(index)@ == dir_map(dir_views(old(dirs)@)),
    ensures
        final(b).wf(),
        final(b).pending_edges() == old(b).pending_edges(),
        final(b).provenance() == old(b).provenance(),
        match r {
            Some(m) => {
                &&& ts_ensure(TsState { b: old(b).state(), dirs: dir_views(old(dirs)@) }, crate_name@, dir@, root)
                    == (TsState { b: final(b).state(), dirs: dir_views(final(dirs)@) }, m)
                &&& ts_ok(TsState { b: final(b).state(), dirs: dir_views(final(dirs)@) }, root)
                &&& final(index)@ == dir_map(dir_views(final(dirs)@))
                &&& m.0 < final(b).modules().len()
            },
            None => !ids_fit(ts_ensure(TsState { b: old(b).state(), dirs: dir_views(old(dirs)@) }, crate_name@, dir@, root).0.b),
        },
    decreases dir@.len(),
{
    let ghost t = TsState { b: b.state(), dirs: dir_views(dirs@) };
    if dir.unicode_len() == 0 {
        return Some(root);
    }
    match find_dir(index, dirs, dir) {
        Some(found) => {
            proof {
                lemma_dir_module_found(dir_views(dirs@), dir@);
            }
            return Some(found);
        },
        None => {},
    }
    let parent_dir = rel_parent_of(dir);
    proof {
        lemma_ts_ensure_grows(t, crate_name@, dir@, root);
    }
    let parent = match ensure_dir(parent_dir.as_str(), crate_name, root, b, dirs, index) {
        Some(p) => p,
        None => return None,
    };
    if b.module_count() >= 4294967295usize || b.item_count() >= 4294967295usize {
        return None;
    }
    let name = dir_name_of(dir);
    let prefix = join3(crate_name, "::", dir);
    let key = concat(prefix.as_str(), "/");
    let m = b.add_module(parent, key.as_str(), name.as_str(), Visibility::Public);
    let ghost before = dir_views(dirs@);
    dirs.push((dir.to_owned(), m));
    index.insert(dir.to_owned(), m);
    assert(dir_views(dirs@) =~= before.push((dir@, m)));
    assert(dir_views(dirs@).drop_last() =~= before);
    Some(m)
}

/// Adds the items of a file's declarations, as [`ts_add_decls`] says.
fn add_decls(
    b: &mut CrateGraphBuilder,
    file_mod: ModuleId,
    key: &str,
    decls: &Vec<Option<TsDeclaration>>,
) -> (ok: bool)
    requires
        old(b).wf(),
        file_mod.0 < old(b).modules().len(),
    ensures
        ok ==> final(b).state() == ts_add_decls(old(b).state(), file_mod, key@, decl_views(decls@), decls@.len()),
        !ok ==> !ids_fit(ts_add_decls(old(b).state(), file_mod, key@, decl_views(decls@), decls@.len())),
        final(b).wf(),
        final(b).modules() == old(b).modules(),
        final(b).pending_edges() == old(b).pending_edges(),
        final(b).provenance() == old(b).provenance(),
{
    let ghost dv = decl_views(decls@);
    let ghost s0 = b.state();
    let mut j: usize = 0;
    while j < decls.len()
        invariant
            j <= decls@.len(),
            dv == decl_views(decls@),
            b.state() == ts_add_decls(s0, file_mod, key@, dv, j as nat),
            b.wf(),
            file_mod.0 < b.modules().len(),
            b.modules() == s0.modules,
            s0 == old(b).state(),
            old(b).modules() == s0.modules,
            b.pending_edges() == s0.pending_edges,
            b.provenance() == s0.provenance,
        decreases decls@.len() - j,
    {
        assert(dv[j as int] == match decls@[j as int] { Some(x) => Some(x@), None => None::<TsDeclView> });
        match &decls[j] {
            Some(d) => {
                let kind = declaration_kind(d.form);
                match (kind, &d.name) {
                    (Some(kind), Some(name)) => {
                        if b.item_count() >= 4294967295usize {
                            proof {
                                assert(ts_add_decls(s0, file_mod, key@, dv, (j + 1) as nat).items.len()
                                    == ts_add_decls(s0, file_mod, key@, dv, j as nat).items.len() + 1);
                                lemma_ts_add_decls_grows(s0, file_mod, key@, dv, (j + 1) as nat, dv.len());
                            }
                            return false;
                        }
                        let item_key = join3(key, "::", name.as_str());
                        let vis = if d.exported { Visibility::Public } else { Visibility::Private };
                        b.add_item(file_mod, item_key.as_str(), name.as_str(), kind, vis);
                    },
                    _ => {},
                }
            },
            None => {},
        }
        j = j + 1;
    }
    true
}

/// The module name of a source file.
fn file_module_name_of(rel: &str) -> (r: String)
    ensures
        r@ == file_module_name(rel@),
{
    let seg = last_segment_of(rel);
    if seg.unicode_len() == 0 {
        "module".to_owned()
    } else {
        file_stem_of(seg.as_str())
    }
}

/// Relative paths of source files, by value.
pub open spec fn source_paths(v: Seq<SourceFile>) -> Seq<Seq<char>> {
    v.map_values(|f: SourceFile| f.path@)
}

/// Declarations of each file, by value.
pub open spec fn file_decl_views(v: Seq<Vec<Option<TsDeclaration>>>) -> Seq<Seq<Option<TsDeclView>>> {
    v.map_values(|d: Vec<Option<TsDeclaration>>| decl_views(d@))
}

/// Populates a fresh builder with the crate `crate_name` of these source files
/// and their parsed declarations (see [`ts_populated`]); fails when that
/// content has more modules or items than `u32` ids can number.
pub fn populate_sources(
    crate_name: &str,
    sources: &Vec<SourceFile>,
    decls: &Vec<Vec<Option<TsDeclaration>>>,
    builder: &mut CrateGraphBuilder,
) -> (r: Result<(), ExtractError>)
    requires
        old(builder).wf(),
        old(builder).state() == s_new(old(builder).provenance()),
        decls@.len() == sources@.len(),
    ensures
        final(builder).wf(),
        final(builder).pending_edges().len() == 0,
        final(builder).provenance() == old(builder).provenance(),
        ids_fit(ts_populated(old(builder).state(), crate_name@, source_paths(sources@), file_decl_views(decls@))) ==> (r is Ok
            && final(builder).state() == ts_populated(old(builder).state(), crate_name@, source_paths(sources@), file_decl_views(decls@))),
        !ids_fit(ts_populated(old(builder).state(), crate_name@, source_paths(sources@), file_decl_views(decls@)))
            ==> r matches Err(ExtractError::Frontend(_)),
{
    let ghost rels = source_paths(sources@);
    let ghost dvs = file_decl_views(decls@);
    let ghost s = builder.state();
    let (_crate_id, root) = builder.add_crate(crate_name, true, crate_name);
    let mut dirs: Vec<(String, ModuleId)> = Vec::new();
    let mut index: StringHashMap<ModuleId> = StringHashMap::new();
    dirs.push((String::new(), root));
    index.insert(String::new(), root);
    let ghost t0 = TsState { b: builder.state(), dirs: seq![(Seq::<char>::empty(), root)] };
    assert(dir_views(dirs@) =~= t0.dirs);
    proof {
        let dv = dir_views(dirs@);
        assert(dv.drop_last() =~= Seq::<(Seq<char>, ModuleId)>::empty());
        assert(dir_map(dv.drop_last()) == Map::<Seq<char>, ModuleId>::empty());
        assert(dv.last() == (Seq::<char>::empty(), root));
        assert(dir_map(dv) == dir_map(dv.drop_last()).insert(dv.last().0, dv.last().1));
        assert(index@ =~= dir_map(dv));
    }
    let mut i: usize = 0;
    while i < sources.len()
        invariant
            i <= sources@.len(),
            decls@.len() == sources@.len(),
            rels == source_paths(sources@),
            dvs == file_decl_views(decls@),
            (TsState { b: builder.state(), dirs: dir_views(dirs@) }) == ts_add_files(t0, crate_name@, root, rels, dvs, i as nat),
            ts_ok(TsState { b: builder.state(), dirs: dir_views(dirs@) }, root),
            builder.index_ok(),
            index@ == dir_map(dir_views(dirs@)),
            builder.provenance() == old(builder).provenance(),
            t0 == (TsState { b: s_add_crate(s, crate_name@, true, crate_name@), dirs: seq![(Seq::<char>::empty(), root)] }),
            s == old(builder).state(),
            root == ModuleId(s.modules.len() as u32),
        decreases sources@.len() - i,
    {
        let ghost ti = TsState { b: builder.state(), dirs: dir_views(dirs@) };
        let rel = sources[i].path.as_str();
        proof {
            assert(rels[i as int] == rel@);
            assert(dvs[i as int] == decl_views(decls@[i as int]@));
            assert(ts_add_files(t0, crate_name@, root, rels, dvs, (i + 1) as nat)
                == ts_add_file(ti, crate_name@, root, rel@, dvs[i as int]));
            lemma_ts_add_files_grows(t0, crate_name@, root, rels, dvs, (i + 1) as nat, rels.len());
            lemma_ts_add_file_grows(ti, crate_name@, root, rel@, dvs[i as int]);
        }
        let parent_dir = rel_parent_of(rel);
        let parent = match ensure_dir(parent_dir.as_str(), crate_name, root, builder, &mut dirs, &mut index) {
            Some(p) => p,
            None => {
                proof {
                    lemma_ts_add_file_fails(ti, crate_name@, root, rel@, dvs[i as int]);
                }
                return Err(ExtractError::Frontend("the project has more modules and items than u32 ids can number".to_owned()));
            },
        };
        let name = file_module_name_of(rel);
        let key = join3(crate_name, "::", rel);
        if builder.module_count() >= 4294967295usize || builder.item_count() >= 4294967295usize {
            proof {
                lemma_ts_add_file_fails(ti, crate_name@, root, rel@, dvs[i as int]);
            }
            return Err(ExtractError::Frontend("the project has more modules and items than u32 ids can number".to_owned()));
        }
        let file_mod = builder.add_module(parent, key.as_str(), name.as_str(), Visibility::Public);
        if !add_decls(builder, file_mod, key.as_str(), &decls[i]) {
            return Err(ExtractError::Frontend("the project has more modules and items than u32 ids can number".to_owned()));
        }
        i = i + 1;
    }
    proof {
        assert(rels.len() == sources@.len());
    }
    Ok(())
}

/// The crate name of a TypeScript project: the root's final component, or
/// `app`.
pub open spec fn ts_crate_name(root: Seq<char>) -> Seq<char> {
    match std_file_name(root) {
        Some(n) => n,
        None => "app"@,
    }
}

/// What `oxc` parses from each source file, by value.
pub open spec fn parsed_sources(v: Seq<SourceFile>) -> Seq<Seq<Option<TsDeclView>>> {
    v.map_values(|f: SourceFile| ts_declarations(f.path@, f.text@))
}

/// Whether a project with these root files is a TypeScript or JavaScript one.
pub open spec fn ts_detect(files: Seq<Seq<char>>) -> bool {
    files.contains("tsconfig.json"@) || files.contains("package.json"@)
}

/// The `oxc`-backed TypeScript and JavaScript extractor.
#[derive(Clone, Copy, Debug, Default)]
pub struct TsExtractor;

impl Frontend for TsExtractor {
    type Lang = TypeScript;

    open spec fn spec_detect(&self, files: Seq<Seq<char>>) -> bool {
        ts_detect(files)
    }

    fn detect(&self, project: &Project) -> (r: bool) {
        project.has_file("tsconfig.json") || project.has_file("package.json")
    }

    open spec fn spec_tool_version(&self) -> Seq<char> {
        "oxc "@ + OXC_VERSION@
    }

    fn tool_version(&self) -> (r: String) {
        concat("oxc ", OXC_VERSION)
    }

    fn populate(&self, req: &ExtractRequest, project: &Project, builder: &mut CrateGraphBuilder) -> (r: Result<(), ExtractError>)
        ensures
            ids_fit(ts_populated(old(builder).state(), ts_crate_name(req.root@), source_paths(project.sources@),
                parsed_sources(project.sources@))) ==> (r is Ok
                && final(builder).state() == ts_populated(old(builder).state(), ts_crate_name(req.root@),
                    source_paths(project.sources@), parsed_sources(project.sources@))),
            !ids_fit(ts_populated(old(builder).state(), ts_crate_name(req.root@), source_paths(project.sources@),
                parsed_sources(project.sources@))) ==> r matches Err(ExtractError::Frontend(_)),
    {
        let crate_name = match file_name_of(req.root.as_str()) {
            Some(n) => n,
            None => "app".to_owned(),
        };
        let mut decls: Vec<Vec<Option<TsDeclaration>>> = Vec::new();
        let mut i: usize = 0;
        while i < project.sources.len()
            invariant
                i <= project.sources@.len(),
                file_decl_views(decls@) == parsed_sources(project.sources@).take(i as int),
            decreases project.sources@.len() - i,
        {
            let d = parse_declarations(project.sources[i].path.as_str(), project.sources[i].text.as_str());
            let ghost before = file_decl_views(decls@);
            decls.push(d);
            assert(file_decl_views(decls@) =~= before.push(decl_views(d@)));
            assert(parsed_sources(project.sources@).take(i + 1) =~= parsed_sources(project.sources@).take(i as int).push(
                ts_declarations(project.sources@[i as int].path@, project.sources@[i as int].text@)));
            i = i + 1;
        }
        assert(parsed_sources(project.sources@).take(project.sources@.len() as int) =~= parsed_sources(project.sources@));
        populate_sources(crate_name.as_str(), &project.sources, &decls, builder)
    }
}

/// Ensuring a directory chain records no edge.
proof fn lemma_ts_ensure_no_edges(t: TsState, crate_name: Seq<char>, dir: Seq<char>, root: ModuleId)
    ensures
        ts_ensure(t, crate_name, dir, root).0.b.pending_edges == t.b.pending_edges,
    decreases dir.len(),
{
    if dir.len() > 0 && dir_module(t.dirs, dir) is None && rel_parent(dir).len() < dir.len() {
        lemma_ts_ensure_no_edges(t, crate_name, rel_parent(dir), root);
    }
}

/// Adding declarations records no edge.
proof fn lemma_ts_add_decls_no_edges(b: BuilderState, file_mod: ModuleId, key: Seq<char>, decls: Seq<Option<TsDeclView>>, n: nat)
    ensures
        ts_add_decls(b, file_mod, key, decls, n).pending_edges == b.pending_edges,
    decreases n,
{
    if n > 0 && n <= decls.len() {
        lemma_ts_add_decls_no_edges(b, file_mod, key, decls, (n - 1) as nat);
    }
}

/// Adding files records no edge.
proof fn lemma_ts_add_files_no_edges(
    t: TsState,
    crate_name: Seq<char>,
    root: ModuleId,
    rels: Seq<Seq<char>>,
    decls: Seq<Seq<Option<TsDeclView>>>,
    n: nat,
)
    ensures
        ts_add_files(t, crate_name, root, rels, decls, n).b.pending_edges == t.b.pending_edges,
    decreases n,
{
    if n > 0 && n <= rels.len() && n <= decls.len() {
        lemma_ts_add_files_no_edges(t, crate_name, root, rels, decls, (n - 1) as nat);
        let tp = ts_add_files(t, crate_name, root, rels, decls, (n - 1) as nat);
        let rel = rels[n - 1];
        lemma_ts_ensure_no_edges(tp, crate_name, rel_parent(rel), root);
        let (t1, parent) = ts_ensure(tp, crate_name, rel_parent(rel), root);
        let fm = ModuleId(t1.b.modules.len() as u32);
        let b2 = s_add_module(t1.b, parent, file_key(crate_name, rel), file_module_name(rel), VisibilityView::Public);
        lemma_ts_add_decls_no_edges(b2, fm, file_key(crate_name, rel), decls[n - 1], decls[n - 1].len());
    }
}

/// Law: TypeScript extraction records no dependency edges: populating a
/// builder leaves its recorded edges as they were.
pub proof fn law_ts_records_no_edges(
    s: BuilderState,
    crate_name: Seq<char>,
    rels: Seq<Seq<char>>,
    decls: Seq<Seq<Option<TsDeclView>>>,
)
    ensures
        ts_populated(s, crate_name, rels, decls).pending_edges == s.pending_edges,
{
    let s1 = s_add_crate(s, crate_name, true, crate_name);
    let root = ModuleId(s.modules.len() as u32);
    let t0 = TsState { b: s1, dirs: seq![(Seq::<char>::empty(), root)] };
    lemma_ts_add_files_no_edges(t0, crate_name, root, rels, decls, rels.len());
}

/// Law: a declaration's item is public exactly when the declaration is
/// exported: adding one declaration adds at most one item, with the
/// declaration's name, under the file's module, public if exported and
/// private otherwise.
pub proof fn law_ts_export_decides_visibility(b: BuilderState, file_mod: ModuleId, key: Seq<char>, decls: Seq<Option<TsDeclView>>, n: nat)
    requires
        0 < n <= decls.len(),
    ensures
        ({
            let before = ts_add_decls(b, file_mod, key, decls, (n - 1) as nat);
            let after = ts_add_decls(b, file_mod, key, decls, n);
            match decls[n - 1] {
                Some(d) => if spec_declaration_kind(d.form) is Some && d.name is Some {
                    &&& after.items.len() == before.items.len() + 1
                    &&& after.items.last().owning_module == file_mod
                    &&& after.items.last().visibility == (if d.exported { VisibilityView::Public } else { VisibilityView::Private })
                    &&& after.registrations.last() == (key + "::"@ + d.name->0, after.items.last().id)
                } else {
                    after == before
                },
                None => after == before,
            }
        }),
{
}

/// Law: the TypeScript/JavaScript frontend recognizes a project exactly when
/// its root has a `tsconfig.json` or a `package.json` (so a plain JavaScript
/// project is recognized too), whether asked as a frontend or, through the
/// registry, as an extractor.
pub proof fn law_ts_detection(files: Seq<Seq<char>>)
    ensures
        Frontend::spec_detect(&TsExtractor, files) <==> (files.contains("tsconfig.json"@) || files.contains("package.json"@)),
        crate::extract_api::Extractor::spec_detect(&TsExtractor, files)
            <==> (files.contains("tsconfig.json"@) || files.contains("package.json"@)),
{
}

/// Law: what one more declaration of a file adds. A named function, class,
/// interface, type alias or enum becomes one item keyed `KEY::NAME`, owned by
/// the file's module, of kind `Function`, `Struct`, `Trait`, `TypeAlias` or
/// `Enum`, public exactly when exported; any other declaration (a variable, a
/// namespace, a global augmentation, an import-equals, or one without a
/// name) adds nothing.
pub proof fn law_ts_declaration_items(b: BuilderState, file_mod: ModuleId, key: Seq<char>, decls: Seq<Option<TsDeclView>>, n: nat)
    requires
        n < decls.len(),
    ensures
        ({
            let prev = ts_add_decls(b, file_mod, key, decls, n);
            let next = ts_add_decls(b, file_mod, key, decls, (n + 1) as nat);
            match decls[n as int] {
                Some(d) => {
                    let recorded = d.name is Some && (d.form == TsForm::Function || d.form == TsForm::Class
                        || d.form == TsForm::Interface || d.form == TsForm::TypeAlias || d.form == TsForm::Enum);
                    &&& !recorded ==> next == prev
                    &&& recorded ==> {
                        let it = next.items.last();
                        &&& next.items == prev.items.push(it)
                        &&& next.modules == prev.modules
                        &&& next.registrations == prev.registrations.push((key + "::"@ + d.name->0, it.id))
                        &&& it.id == ItemId(prev.items.len() as u32)
                        &&& it.owning_module == file_mod
                        &&& it.canonical_path == prev.modules[file_mod.0 as int].canonical_path + "::"@ + d.name->0
                        &&& (it.visibility == VisibilityView::Public) == d.exported
                        &&& (d.form == TsForm::Function ==> it.kind == ItemKind::Function)
                        &&& (d.form == TsForm::Class ==> it.kind == ItemKind::Struct)
                        &&& (d.form == TsForm::Interface ==> it.kind == ItemKind::Trait)
                        &&& (d.form == TsForm::TypeAlias ==> it.kind == ItemKind::TypeAlias)
                        &&& (d.form == TsForm::Enum ==> it.kind == ItemKind::Enum)
                    }
                },
                None => next == prev,
            }
        }),
{
    let prev = ts_add_decls(b, file_mod, key, decls, n);
    let next = ts_add_decls(b, file_mod, key, decls, (n + 1) as nat);
    if next != prev {
        assert(next.items.drop_last() =~= prev.items);
        assert(next.items =~= prev.items.push(next.items.last()));
    }
}


/// Law: discovery reads exactly the files whose extension is `ts`, `tsx`,
/// `mts`, `cts`, `js`, `jsx`, `mjs` or `cjs`, and never descends into
/// `node_modules`, `.git`, `dist`, `build` or `out`.
pub proof fn law_ts_discovery(ext: Seq<char>, dir: Seq<char>)
    ensures
        source_exts().contains(ext) <==> (ext == "ts"@ || ext == "tsx"@ || ext == "mts"@ || ext == "cts"@
            || ext == "js"@ || ext == "jsx"@ || ext == "mjs"@ || ext == "cjs"@),
        skip_dirs().contains(dir) <==> (dir == "node_modules"@ || dir == ".git"@ || dir == "dist"@
            || dir == "build"@ || dir == "out"@),
{
    let e = source_exts();
    if e.contains(ext) {
        let i = choose|i: int| 0 <= i < e.len() && e[i] == ext;
        assert(i == 0 || i == 1 || i == 2 || i == 3 || i == 4 || i == 5 || i == 6 || i == 7);
    }
    if ext == "ts"@ || ext == "tsx"@ || ext == "mts"@ || ext == "cts"@ || ext == "js"@ || ext == "jsx"@ || ext == "mjs"@ || ext == "cjs"@ {
        if ext == "ts"@ { assert(e[0] == ext); }
        else if ext == "tsx"@ { assert(e[1] == ext); }
        else if ext == "mts"@ { assert(e[2] == ext); }
        else if ext == "cts"@ { assert(e[3] == ext); }
        else if ext == "js"@ { assert(e[4] == ext); }
        else if ext == "jsx"@ { assert(e[5] == ext); }
        else if ext == "mjs"@ { assert(e[6] == ext); }
        else { assert(e[7] == ext); }
    }
    let d = skip_dirs();
    if d.contains(dir) {
        let i = choose|i: int| 0 <= i < d.len() && d[i] == dir;
        assert(i == 0 || i == 1 || i == 2 || i == 3 || i == 4);
    }
    if dir == "node_modules"@ || dir == ".git"@ || dir == "dist"@ || dir == "build"@ || dir == "out"@ {
        if dir == "node_modules"@ { assert(d[0] == dir); }
        else if dir == ".git"@ { assert(d[1] == dir); }
        else if dir == "dist"@ { assert(d[2] == dir); }
        else if dir == "build"@ { assert(d[3] == dir); }
        else { assert(d[4] == dir); }
    }
}

/// Law: the module tree of a TypeScript project mirrors its directories and
/// files: a directory's module is keyed `CRATE::DIR/` and named after its
/// last segment, a file's module is keyed `CRATE::PATH` and named after its
/// file stem (either named `module` when that segment is empty), and the crate is named after the project root's final
/// component, or `app` when it has none.
pub proof fn law_ts_module_names(crate_name: Seq<char>, dir: Seq<char>, rel: Seq<char>, root: Seq<char>)
    ensures
        dir_key(crate_name, dir) == crate_name + seq![':', ':'] + dir + seq!['/'],
        file_key(crate_name, rel) == crate_name + seq![':', ':'] + rel,
        last_segment(dir).len() > 0 ==> dir_name(dir) == last_segment(dir),
        last_segment(rel).len() > 0 ==> file_module_name(rel) == spec_file_stem(last_segment(rel)),
        last_segment(dir).len() == 0 ==> dir_name(dir) == "module"@,
        last_segment(rel).len() == 0 ==> file_module_name(rel) == "module"@,
        std_file_name(root) matches Some(n) ==> ts_crate_name(root) == n,
        std_file_name(root) is None ==> ts_crate_name(root) == "app"@,
{
    reveal_strlit("::");
    reveal_strlit("/");
    assert(dir_key(crate_name, dir) =~= crate_name + seq![':', ':'] + dir + seq!['/']);
    assert(file_key(crate_name, rel) =~= crate_name + seq![':', ':'] + rel);
}

} // verus!
