//! Which cargo targets Rust extraction analyzes: the lib and bin targets of
//! the selected workspace members, never tests, benches or examples.

use vstd::prelude::*;
use crate::scip_lower::str_views;
use crate::rank::{lemma_str_le_antisym, lemma_str_le_total, lemma_str_le_trans, str_le, str_le_exec};
use crate::text::{concat, str_eq};

verus! {

/// The kind of a cargo target.
#[derive(Clone, Copy, Debug, PartialEq, Eq, Structural)]
pub enum TargetKind {
    Lib,
    Bin,
    /// Tests, benches, examples and build scripts.
    Other,
}

/// Whether a cargo metadata kind names a library: `lib`, `rlib`, `dylib`,
/// `cdylib`, `staticlib` or `proc-macro`.
pub open spec fn is_lib_kind(k: Seq<char>) -> bool {
    ||| k == "lib"@
    ||| k == "rlib"@
    ||| k == "dylib"@
    ||| k == "cdylib"@
    ||| k == "staticlib"@
    ||| k == "proc-macro"@
}

/// The kind of a target whose cargo metadata lists `kinds`: a library if any
/// of them names one, else a bin if one is `bin`, else other.
pub open spec fn kind_of(kinds: Seq<Seq<char>>) -> TargetKind {
    if exists|i: int| 0 <= i < kinds.len() && is_lib_kind(#[trigger] kinds[i]) {
        TargetKind::Lib
    } else if kinds.contains("bin"@) {
        TargetKind::Bin
    } else {
        TargetKind::Other
    }
}

/// Classifies a target by the kinds cargo metadata lists for it.
pub fn target_kind(kinds: &Vec<String>) -> (r: TargetKind)
    ensures
        r == kind_of(str_views(kinds@)),
{
    let ghost ks = str_views(kinds@);
    let mut lib = false;
    let mut bin = false;
    let mut i: usize = 0;
    while i < kinds.len()
        invariant
            i <= kinds@.len(),
            ks == str_views(kinds@),
            ks.len() == kinds@.len(),
            lib == exists|j: int| 0 <= j < i && is_lib_kind(#[trigger] ks[j]),
            bin == exists|j: int| 0 <= j < i && ks[j] == "bin"@,
        decreases kinds@.len() - i,
    {
        let k = kinds[i].as_str();
        assert(ks[i as int] == k@);
        let is_lib = str_eq(k, "lib") || str_eq(k, "rlib") || str_eq(k, "dylib") || str_eq(k, "cdylib")
            || str_eq(k, "staticlib") || str_eq(k, "proc-macro");
        if is_lib {
            lib = true;
        }
        if str_eq(k, "bin") {
            bin = true;
        }
        i = i + 1;
    }
    if lib {
        TargetKind::Lib
    } else if bin {
        assert(ks.contains("bin"@));
        TargetKind::Bin
    } else {
        assert(!ks.contains("bin"@));
        TargetKind::Other
    }
}

/// A cargo target: its kind and the path of its root source file.
#[derive(Clone, Debug)]
pub struct CargoTarget {
    pub kind: TargetKind,
    pub root: String,
}

/// The mathematical value of a [`CargoTarget`].
pub struct TargetView {
    pub kind: TargetKind,
    pub root: Seq<char>,
}

impl View for CargoTarget {
    type V = TargetView;

    open spec fn view(&self) -> TargetView {
        TargetView { kind: self.kind, root: self.root@ }
    }
}

/// A cargo package of the loaded workspace.
#[derive(Clone, Debug)]
pub struct CargoPackage {
    pub name: String,
    /// The absolute path of its manifest.
    pub manifest: String,
    /// Whether it is a member of the workspace (not a dependency).
    pub is_member: bool,
    pub targets: Vec<CargoTarget>,
}

/// The mathematical value of a [`CargoPackage`].
pub struct PackageView {
    pub name: Seq<char>,
    pub manifest: Seq<char>,
    pub is_member: bool,
    pub targets: Seq<TargetView>,
}

impl View for CargoPackage {
    type V = PackageView;

    open spec fn view(&self) -> PackageView {
        PackageView {
            name: self.name@,
            manifest: self.manifest@,
            is_member: self.is_member,
            targets: self.targets@.map_values(|t: CargoTarget| t@),
        }
    }
}

/// The packages of a sequence, by value.
pub open spec fn package_views(ps: Seq<CargoPackage>) -> Seq<PackageView> {
    ps.map_values(|p: CargoPackage| p@)
}

/// A loaded project: a cargo workspace, or anything else (such as a
/// `rust-project.json` project), which Rust extraction does not support.
pub enum Workspace {
    Cargo { packages: Vec<CargoPackage> },
    Other,
}

/// Why no targets could be selected.
#[derive(Clone, Debug, PartialEq, Eq)]
pub enum SelectError {
    /// The project is not a cargo workspace.
    NotCargo,
    /// No workspace member has the requested name.
    PackageNotFound(String),
    /// No workspace member has the given manifest.
    NoPackageAtPath,
}

impl SelectError {
    /// The message shown to the user.
    pub fn message(&self) -> (r: String)
        ensures
            r@ == match self {
                SelectError::NotCargo => "modula only supports cargo workspaces"@,
                SelectError::PackageNotFound(name) => "package `"@ + name@ + "` not found in workspace"@,
                SelectError::NoPackageAtPath => "no package found at the given path; pass --package <NAME> or --workspace"@,
            },
    {
        match self {
            SelectError::NotCargo => "modula only supports cargo workspaces".to_owned(),
            SelectError::PackageNotFound(name) => {
                let a = concat("package `", name.as_str());
                concat(a.as_str(), "` not found in workspace")
            },
            SelectError::NoPackageAtPath => "no package found at the given path; pass --package <NAME> or --workspace".to_owned(),
        }
    }
}

/// The targets to analyze: the distinct root files of the selected lib and
/// bin targets, and the root of the first selected lib target.
#[derive(Clone, Debug)]
pub struct Selection {
    pub roots: Vec<String>,
    pub lib_root: Option<String>,
}

/// The value of an optional string.
pub open spec fn opt_view(o: Option<String>) -> Option<Seq<char>> {
    match o {
        Some(s) => Some(s@),
        None => None,
    }
}

/// Whether a package is selected: a workspace member that is either wanted
/// as part of the whole workspace, has the requested name, or (with no name
/// requested) has the given manifest.
pub open spec fn chosen(p: PackageView, manifest: Seq<char>, package: Option<Seq<char>>, workspace: bool) -> bool {
    &&& p.is_member
    &&& workspace || match package {
        Some(n) => p.name == n,
        None => p.manifest == manifest,
    }
}

/// The selected packages, in workspace order.
pub open spec fn selected_packages(
    ps: Seq<PackageView>,
    manifest: Seq<char>,
    package: Option<Seq<char>>,
    workspace: bool,
) -> Seq<PackageView> {
    ps.filter(|p: PackageView| chosen(p, manifest, package, workspace))
}

/// The targets of a sequence of packages, package by package.
pub open spec fn flat_targets(ps: Seq<PackageView>) -> Seq<TargetView>
    decreases ps.len(),
{
    if ps.len() == 0 {
        Seq::empty()
    } else {
        flat_targets(ps.drop_last()) + ps.last().targets
    }
}

/// Whether a target is analyzed: a lib or a bin.
pub open spec fn analyzed(t: TargetView) -> bool {
    t.kind is Lib || t.kind is Bin
}

/// The root files of the analyzed targets among `ts`.
pub open spec fn root_set(ts: Seq<TargetView>) -> Set<Seq<char>> {
    Set::new(|r: Seq<char>| exists|i: int| 0 <= i < ts.len() && analyzed(ts[i]) && ts[i].root == r)
}

/// The root of the first lib target among `ts`.
pub open spec fn first_lib(ts: Seq<TargetView>) -> Option<Seq<char>>
    decreases ts.len(),
{
    if ts.len() == 0 {
        None
    } else {
        match first_lib(ts.drop_last()) {
            Some(r) => Some(r),
            None => if ts.last().kind is Lib { Some(ts.last().root) } else { None },
        }
    }
}

/// Whether `v` lists the members of `s`, each once.
pub open spec fn lists_set(v: Seq<Seq<char>>, s: Set<Seq<char>>) -> bool {
    &&& v.no_duplicates()
    &&& forall|x: Seq<char>| v.contains(x) <==> s.contains(x)
}

/// Whether `s` is the selection made of the targets `ts`.
pub open spec fn selection_of(s: Selection, ts: Seq<TargetView>) -> bool {
    &&& lists_set(str_views(s.roots@), root_set(ts))
    &&& opt_view(s.lib_root) == first_lib(ts)
}

proof fn lemma_root_set_push(ts: Seq<TargetView>, t: TargetView)
    ensures
        root_set(ts.push(t)) == if analyzed(t) { root_set(ts).insert(t.root) } else { root_set(ts) },
{
    let a = root_set(ts.push(t));
    let b = if analyzed(t) { root_set(ts).insert(t.root) } else { root_set(ts) };
    assert forall|r: Seq<char>| a.contains(r) <==> b.contains(r) by {
        if a.contains(r) {
            let i = choose|i: int| 0 <= i < ts.push(t).len() && analyzed(ts.push(t)[i]) && ts.push(t)[i].root == r;
            if i < ts.len() {
                assert(analyzed(ts[i]) && ts[i].root == r);
            }
        }
        if b.contains(r) {
            if root_set(ts).contains(r) {
                let i = choose|i: int| 0 <= i < ts.len() && analyzed(ts[i]) && ts[i].root == r;
                assert(ts.push(t)[i] == ts[i]);
            } else {
                assert(ts.push(t)[ts.len() as int] == t);
            }
        }
    }
    assert(a =~= b);
}

/// Adds `r` to the distinct roots `roots`, unless it is there.
fn insert_root(roots: &mut Vec<String>, r: &String)
    requires
        str_views(old(roots)@).no_duplicates(),
    ensures
        str_views(final(roots)@).no_duplicates(),
        forall|x: Seq<char>| str_views(final(roots)@).contains(x) <==> (str_views(old(roots)@).contains(x) || x == r@),
{
    let ghost v = str_views(roots@);
    let mut found = false;
    let mut k: usize = 0;
    while k < roots.len()
        invariant
            k <= roots@.len(),
            roots@ == old(roots)@,
            v == str_views(roots@),
            found <==> exists|q: int| 0 <= q < k && v[q] == r@,
        decreases roots@.len() - k,
    {
        assert(v[k as int] == roots@[k as int]@);
        if str_eq(roots[k].as_str(), r.as_str()) {
            found = true;
        }
        k = k + 1;
    }
    if !found {
        roots.push(r.clone());
        let ghost w = str_views(roots@);
        assert(w =~= v.push(r@));
        assert forall|x: Seq<char>| w.contains(x) <==> (v.contains(x) || x == r@) by {
            if w.contains(x) {
                let q = choose|q: int| 0 <= q < w.len() && w[q] == x;
                if q < v.len() {
                    assert(v[q] == x);
                }
            }
            if v.contains(x) {
                let q = choose|q: int| 0 <= q < v.len() && v[q] == x;
                assert(w[q] == x);
            }
            if x == r@ {
                assert(w[v.len() as int] == x);
            }
        }
    } else {
        assert(v.contains(r@));
    }
}

/// Selects the lib and bin targets to analyze: those of every member with
/// `workspace`, else of the member named `package`, else of the member whose
/// manifest is `manifest`.
pub fn select_targets(workspace: &Workspace, manifest: &str, package: &Option<String>, all_members: bool) -> (r: Result<Selection, SelectError>)
    ensures
        match workspace {
            Workspace::Other => r == Err::<Selection, SelectError>(SelectError::NotCargo),
            Workspace::Cargo { packages } => {
                let sel = selected_packages(package_views(packages@), manifest@, opt_view(*package), all_members);
                if sel.len() == 0 {
                    match package {
                        Some(n) => r matches Err(SelectError::PackageNotFound(m)) && m@ == n@,
                        None => r == Err::<Selection, SelectError>(SelectError::NoPackageAtPath),
                    }
                } else {
                    r matches Ok(s) && selection_of(s, flat_targets(sel))
                }
            },
        },
{
    let packages = match workspace {
        Workspace::Other => {
            return Err(SelectError::NotCargo);
        },
        Workspace::Cargo { packages } => packages,
    };
    let ghost pv = package_views(packages@);
    let ghost pname = opt_view(*package);
    let ghost pred = |p: PackageView| chosen(p, manifest@, pname, all_members);
    let mut chosen_ix: Vec<usize> = Vec::new();
    let mut i: usize = 0;
    while i < packages.len()
        invariant
            i <= packages@.len(),
            pv == package_views(packages@),
            pname == opt_view(*package),
            pred == (|p: PackageView| chosen(p, manifest@, pname, all_members)),
            forall|q: int| 0 <= q < chosen_ix@.len() ==> chosen_ix@[q] < packages@.len(),
            chosen_ix@.map_values(|k: usize| pv[k as int]) == pv.take(i as int).filter(pred),
        decreases packages@.len() - i,
    {
        let p = &packages[i];
        let take = p.is_member && (all_members || match package {
            Some(n) => str_eq(p.name.as_str(), n.as_str()),
            None => str_eq(p.manifest.as_str(), manifest),
        });
        let ghost before = chosen_ix@;
        assert(pv.take(i + 1).drop_last() =~= pv.take(i as int));
        assert(pv[i as int] == p@);
        assert(pred(pv[i as int]) == take);
        assert(pv.take(i + 1).last() == pv[i as int]);
        proof {
            reveal(Seq::filter);
        }
        assert(pv.take(i + 1).filter(pred) == if take {
            pv.take(i as int).filter(pred).push(pv[i as int])
        } else {
            pv.take(i as int).filter(pred)
        });
        if take {
            chosen_ix.push(i);
            assert(chosen_ix@.map_values(|k: usize| pv[k as int]) =~= before.map_values(|k: usize| pv[k as int]).push(pv[i as int]));
        }
        i = i + 1;
    }
    assert(pv.take(packages@.len() as int) =~= pv);
    let ghost sel = chosen_ix@.map_values(|k: usize| pv[k as int]);
    if chosen_ix.len() == 0 {
        return match package {
            Some(n) => Err(SelectError::PackageNotFound(n.clone())),
            None => Err(SelectError::NoPackageAtPath),
        };
    }
    let mut roots: Vec<String> = Vec::new();
    let mut lib_root: Option<String> = None;
    let mut a: usize = 0;
    while a < chosen_ix.len()
        invariant
            a <= chosen_ix@.len(),
            pv == package_views(packages@),
            sel == chosen_ix@.map_values(|k: usize| pv[k as int]),
            forall|q: int| 0 <= q < chosen_ix@.len() ==> chosen_ix@[q] < packages@.len(),
            lists_set(str_views(roots@), root_set(flat_targets(sel.take(a as int)))),
            opt_view(lib_root) == first_lib(flat_targets(sel.take(a as int))),
        decreases chosen_ix@.len() - a,
    {
        let p = &packages[chosen_ix[a]];
        let ghost base = flat_targets(sel.take(a as int));
        let ghost tv = p@.targets;
        assert(sel[a as int] == p@);
        let mut b: usize = 0;
        while b < p.targets.len()
            invariant
                b <= p.targets@.len(),
                tv == p@.targets,
                lists_set(str_views(roots@), root_set(base + tv.take(b as int))),
                opt_view(lib_root) == first_lib(base + tv.take(b as int)),
            decreases p.targets@.len() - b,
        {
            let t = &p.targets[b];
            let ghost before = base + tv.take(b as int);
            assert(base + tv.take(b + 1) =~= before.push(t@));
            assert(before.push(t@).drop_last() =~= before);
            proof {
                lemma_root_set_push(before, t@);
            }
            match t.kind {
                TargetKind::Lib => {
                    if lib_root.is_none() {
                        lib_root = Some(t.root.clone());
                    }
                    insert_root(&mut roots, &t.root);
                },
                TargetKind::Bin => {
                    insert_root(&mut roots, &t.root);
                },
                TargetKind::Other => {},
            }
            b = b + 1;
        }
        assert(tv.take(tv.len() as int) =~= tv);
        assert(sel.take(a + 1).drop_last() =~= sel.take(a as int));
        assert(flat_targets(sel.take(a + 1)) == base + tv);
        a = a + 1;
    }
    assert(sel.take(sel.len() as int) =~= sel);
    Ok(Selection { roots, lib_root })
}

/// The root files of the analysis crates, by value.
pub open spec fn root_views(roots: Seq<Option<String>>) -> Seq<Option<Seq<char>>> {
    roots.map_values(|o: Option<String>| opt_view(o))
}

/// The root file of crate `i` (empty when it has none).
pub open spec fn root_of(roots: Seq<Option<Seq<char>>>, i: int) -> Seq<char> {
    match roots[i] {
        Some(r) => r,
        None => Seq::empty(),
    }
}

/// Whether crate `i` is kept: its root file is a selected target root.
pub open spec fn kept(roots: Seq<Option<Seq<char>>>, chosen: Set<Seq<char>>, i: int) -> bool {
    &&& 0 <= i < roots.len()
    &&& roots[i] matches Some(r) && chosen.contains(r)
}

/// The walk order of crates: by root file, then by position.
pub open spec fn crate_before(roots: Seq<Option<Seq<char>>>, a: int, b: int) -> bool {
    ||| root_of(roots, a) != root_of(roots, b) && str_le(root_of(roots, a), root_of(roots, b))
    ||| root_of(roots, a) == root_of(roots, b) && a < b
}

/// Whether the crates of `v` are in walk order.
pub open spec fn walk_sorted(roots: Seq<Option<Seq<char>>>, v: Seq<usize>) -> bool {
    forall|i: int, j: int| 0 <= i < j < v.len() ==> crate_before(roots, #[trigger] v[i] as int, #[trigger] v[j] as int)
}

/// Whether `v` holds each kept crate once.
pub open spec fn holds_kept(roots: Seq<Option<Seq<char>>>, chosen: Set<Seq<char>>, v: Seq<usize>) -> bool {
    &&& v.no_duplicates()
    &&& forall|q: int| 0 <= q < v.len() ==> kept(roots, chosen, #[trigger] v[q] as int)
    &&& forall|i: int| kept(roots, chosen, i) ==> exists|q: int| 0 <= q < v.len() && v[q] as int == i
}

/// Whether the crate whose root is the lib root leads: `v[0]` is the first
/// kept crate with root `lib`, and the rest is in walk order.
pub open spec fn lib_leads(roots: Seq<Option<Seq<char>>>, chosen: Set<Seq<char>>, lib: Seq<char>, v: Seq<usize>) -> bool {
    &&& v.len() > 0
    &&& root_of(roots, v[0] as int) == lib
    &&& forall|i: int| kept(roots, chosen, i) && root_of(roots, i) == lib ==> v[0] <= i
    &&& walk_sorted(roots, v.drop_first())
}

proof fn lemma_crate_before_trans(roots: Seq<Option<Seq<char>>>, a: int, b: int, c: int)
    requires
        crate_before(roots, a, b),
        crate_before(roots, b, c),
    ensures
        crate_before(roots, a, c),
{
    let (ra, rb, rc) = (root_of(roots, a), root_of(roots, b), root_of(roots, c));
    if ra != rb && rb != rc {
        lemma_str_le_trans(ra, rb, rc);
        if ra == rc {
            lemma_str_le_antisym(ra, rb);
        }
    }
}

/// Crates in walk order are distinct.
proof fn lemma_walk_sorted_distinct(roots: Seq<Option<Seq<char>>>, v: Seq<usize>)
    requires
        walk_sorted(roots, v),
    ensures
        v.no_duplicates(),
{
    assert forall|a: int, b: int| 0 <= a < b < v.len() implies v[a] != v[b] by {
        assert(crate_before(roots, v[a] as int, v[b] as int));
    }
}

/// Whether crate `i` is kept, tested against the selected roots.
fn is_kept(root: &Option<String>, chosen: &Vec<String>) -> (r: bool)
    ensures
        r == (match root {
            Some(s) => str_views(chosen@).contains(s@),
            None => false,
        }),
{
    match root {
        None => false,
        Some(s) => {
            let ghost v = str_views(chosen@);
            let mut found = false;
            let mut k: usize = 0;
            while k < chosen.len()
                invariant
                    k <= chosen@.len(),
                    v == str_views(chosen@),
                    v.len() == chosen@.len(),
                    found <==> exists|q: int| 0 <= q < k && v[q] == s@,
                decreases chosen@.len() - k,
            {
                assert(v[k as int] == chosen@[k as int]@);
                if str_eq(chosen[k].as_str(), s.as_str()) {
                    found = true;
                }
                k = k + 1;
            }
            found
        },
    }
}

/// The root of crate `i` as a string slice (empty when it has none).
fn root_str(roots: &Vec<Option<String>>, i: usize) -> (r: &str)
    requires
        i < roots@.len(),
    ensures
        r@ == root_of(root_views(roots@), i as int),
{
    proof {
        reveal_strlit("");
    }
    assert(root_views(roots@)[i as int] == opt_view(roots@[i as int]));
    match &roots[i] {
        Some(s) => s.as_str(),
        None => "",
    }
}

/// Inserts crate `i`, later than every crate of `v`, at its place in walk order.
#[verifier::spinoff_prover]
#[verifier::rlimit(30)]
fn insert_in_walk_order(v: &mut Vec<usize>, roots: &Vec<Option<String>>, i: usize)
    requires
        i < roots@.len(),
        walk_sorted(root_views(roots@), old(v)@),
        forall|q: int| 0 <= q < old(v)@.len() ==> old(v)@[q] < i,
    ensures
        walk_sorted(root_views(roots@), final(v)@),
        final(v)@.len() == old(v)@.len() + 1,
        forall|x: usize| final(v)@.contains(x) <==> (old(v)@.contains(x) || x == i),
{
    let ghost rv = root_views(roots@);
    let key = root_str(roots, i);
    let mut j: usize = 0;
    while j < v.len() && str_le_exec(root_str(roots, v[j]), key)
        invariant
            j <= v@.len(),
            v@ == old(v)@,
            i < roots@.len(),
            rv == root_views(roots@),
            key@ == root_of(rv, i as int),
            forall|q: int| 0 <= q < v@.len() ==> v@[q] < i,
            forall|q: int| 0 <= q < j ==> crate_before(rv, #[trigger] v@[q] as int, i as int),
        decreases v@.len() - j,
    {
        j = j + 1;
    }
    let ghost old_v = v@;
    assert(old_v == old(v)@);
    proof {
        if j < old_v.len() {
            let rj = root_of(rv, old_v[j as int] as int);
            lemma_str_le_total(rj, key@);
            assert(crate_before(rv, i as int, old_v[j as int] as int));
        }
    }
    v.insert(j, i);
    assert(v@ =~= old_v.insert(j as int, i));
    assert forall|a: int, b: int| 0 <= a < b < v@.len() implies crate_before(rv, #[trigger] v@[a] as int, #[trigger] v@[b] as int) by {
        if b < j {
            assert(v@[a] == old_v[a] && v@[b] == old_v[b]);
        } else if b == j {
            assert(v@[a] == old_v[a]);
        } else if a == j {
            assert(v@[b] == old_v[b - 1]);
            if b - 1 > j {
                lemma_crate_before_trans(rv, i as int, old_v[j as int] as int, old_v[b - 1] as int);
            }
        } else if a < j {
            assert(v@[a] == old_v[a] && v@[b] == old_v[b - 1]);
        } else {
            assert(v@[a] == old_v[a - 1] && v@[b] == old_v[b - 1]);
        }
    }
    assert forall|x: usize| v@.contains(x) <==> (old_v.contains(x) || x == i) by {
        if v@.contains(x) {
            let q = choose|q: int| 0 <= q < v@.len() && v@[q] == x;
            if q < j {
                assert(old_v[q] == x);
            } else if q > j {
                assert(old_v[q - 1] == x);
            }
        }
        if old_v.contains(x) {
            let q = choose|q: int| 0 <= q < old_v.len() && old_v[q] == x;
            if q < j {
                assert(v@[q] == x);
            } else {
                assert(v@[q + 1] == x);
            }
        }
        if x == i {
            assert(v@[j as int] == x);
        }
    }
}

/// The kept crates in walk order.
fn kept_in_walk_order(roots: &Vec<Option<String>>, chosen: &Vec<String>) -> (v: Vec<usize>)
    ensures
        walk_sorted(root_views(roots@), v@),
        holds_kept(root_views(roots@), str_views(chosen@).to_set(), v@),
{
    let ghost rv = root_views(roots@);
    let ghost cs = str_views(chosen@).to_set();
    assert(rv.len() == roots@.len());
    let mut v: Vec<usize> = Vec::new();
    let mut i: usize = 0;
    while i < roots.len()
        invariant
            i <= roots@.len(),
            rv == root_views(roots@),
            rv.len() == roots@.len(),
            cs == str_views(chosen@).to_set(),
            walk_sorted(rv, v@),
            forall|q: int| 0 <= q < v@.len() ==> #[trigger] v@[q] < i && kept(rv, cs, v@[q] as int),
            forall|j: int| 0 <= j < i && kept(rv, cs, j) ==> exists|q: int| 0 <= q < v@.len() && v@[q] as int == j,
        decreases roots@.len() - i,
    {
        assert(rv[i as int] == opt_view(roots@[i as int]));
        let ghost old_v = v@;
        if is_kept(&roots[i], chosen) {
            assert(kept(rv, cs, i as int));
            insert_in_walk_order(&mut v, roots, i);
            assert forall|q: int| 0 <= q < v@.len() implies #[trigger] v@[q] < i + 1 && kept(rv, cs, v@[q] as int) by {
                assert(v@.contains(v@[q]));
                if old_v.contains(v@[q]) {
                    let r = choose|r: int| 0 <= r < old_v.len() && old_v[r] == v@[q];
                    assert(kept(rv, cs, old_v[r] as int));
                }
            }
            assert forall|j: int| 0 <= j < i + 1 && kept(rv, cs, j) implies exists|q: int| 0 <= q < v@.len() && v@[q] as int == j by {
                if j < i {
                    let r = choose|r: int| 0 <= r < old_v.len() && old_v[r] as int == j;
                    assert(old_v.contains(old_v[r]));
                    assert(v@.contains(old_v[r]));
                } else {
                    assert(v@.contains(i));
                }
            }
        } else {
            assert(!kept(rv, cs, i as int));
        }
        i = i + 1;
    }
    proof {
        lemma_walk_sorted_distinct(rv, v@);
    }
    v
}

/// Moves the first crate whose root is `lib` to the front, if there is one.
fn lib_to_front(v: &mut Vec<usize>, roots: &Vec<Option<String>>, lib: &str, chosen: Ghost<Set<Seq<char>>>)
    requires
        walk_sorted(root_views(roots@), old(v)@),
        holds_kept(root_views(roots@), chosen@, old(v)@),
    ensures
        holds_kept(root_views(roots@), chosen@, final(v)@),
        if exists|i: int| kept(root_views(roots@), chosen@, i) && root_of(root_views(roots@), i) == lib@ {
            lib_leads(root_views(roots@), chosen@, lib@, final(v)@)
        } else {
            final(v)@ == old(v)@
        },
{
    let ghost rv = root_views(roots@);
    let ghost cs = chosen@;
    assert(rv.len() == roots@.len());
    assert forall|q: int| 0 <= q < v@.len() implies v@[q] < roots@.len() by {
        assert(kept(rv, cs, v@[q] as int));
    }
    let mut p: usize = 0;
    while p < v.len() && !str_eq(root_str(roots, v[p]), lib)
        invariant
            p <= v@.len(),
            forall|q: int| 0 <= q < v@.len() ==> v@[q] < roots@.len(),
            v@ == old(v)@,
            rv == root_views(roots@),
            forall|q: int| 0 <= q < p ==> root_of(rv, #[trigger] v@[q] as int) != lib@,
        decreases v@.len() - p,
    {
        p = p + 1;
    }
    if p == v.len() {
        assert forall|i: int| !(kept(rv, cs, i) && root_of(rv, i) == lib@) by {
            if kept(rv, cs, i) && root_of(rv, i) == lib@ {
                let q = choose|q: int| 0 <= q < v@.len() && v@[q] as int == i;
                assert(root_of(rv, v@[q] as int) != lib@);
            }
        }
        return;
    }
    let ghost old_v = v@;
    let c = v.remove(p);
    v.insert(0, c);
    let ghost rest = old_v.remove(p as int);
    assert(v@ =~= seq![c] + rest);
    assert(v@.drop_first() =~= rest);
    assert forall|a: int| 0 <= a < rest.len() implies #[trigger] rest[a] == old_v[if a < p { a } else { a + 1 }] by {}
    assert forall|a: int, b: int| 0 <= a < b < rest.len() implies
        crate_before(rv, #[trigger] rest[a] as int, #[trigger] rest[b] as int) by {
        let oa = if a < p { a } else { a + 1 };
        let ob = if b < p { b } else { b + 1 };
        assert(rest[a] == old_v[oa] && rest[b] == old_v[ob]);
    }
    assert forall|i: int| kept(rv, cs, i) && root_of(rv, i) == lib@ implies v@[0] <= i by {
        let q = choose|q: int| 0 <= q < old_v.len() && old_v[q] as int == i;
        if q < p {
            assert(root_of(rv, old_v[q] as int) != lib@);
        } else if q > p {
            assert(crate_before(rv, old_v[p as int] as int, old_v[q] as int));
        }
    }
    assert forall|q: int| 0 <= q < v@.len() implies kept(rv, cs, #[trigger] v@[q] as int) by {
        if q == 0 {
            assert(v@[q] == old_v[p as int]);
        } else {
            assert(v@[q] == rest[q - 1]);
        }
    }
    assert forall|i: int| kept(rv, cs, i) implies exists|q: int| 0 <= q < v@.len() && v@[q] as int == i by {
        let q = choose|q: int| 0 <= q < old_v.len() && old_v[q] as int == i;
        if q == p {
            assert(v@[0] as int == i);
        } else if q < p {
            assert(v@[q + 1] == rest[q]);
            assert(v@[q + 1] as int == i);
        } else {
            assert(v@[q] == rest[q - 1]);
            assert(v@[q] as int == i);
        }
    }
    assert(v@.no_duplicates()) by {
        assert forall|a: int, b: int| 0 <= a < b < v@.len() implies v@[a] != v@[b] by {
            let oa = if a == 0 { p as int } else if a - 1 < p { a - 1 } else { a };
            let ob = if b == 0 { p as int } else if b - 1 < p { b - 1 } else { b };
            assert(v@[a] == old_v[oa] && v@[b] == old_v[ob]);
        }
    }
}

/// The order in which the kept crates are walked: every crate whose root file
/// is a selected root, by root file (then position), with the first crate of
/// the lib root moved to the front. `None` when no crate is kept.
pub fn order_crates(roots: &Vec<Option<String>>, selection: &Selection) -> (r: Option<Vec<usize>>)
    ensures
        ({
            let rv = root_views(roots@);
            let chosen = str_views(selection.roots@).to_set();
            match r {
                None => forall|i: int| !kept(rv, chosen, i),
                Some(v) => {
                    &&& holds_kept(rv, chosen, v@)
                    &&& match selection.lib_root {
                        Some(lib) => if exists|i: int| kept(rv, chosen, i) && root_of(rv, i) == lib@ {
                            lib_leads(rv, chosen, lib@, v@)
                        } else {
                            walk_sorted(rv, v@)
                        },
                        None => walk_sorted(rv, v@),
                    }
                },
            }
        }),
{
    let ghost rv = root_views(roots@);
    let ghost cs = str_views(selection.roots@).to_set();
    assert(rv.len() == roots@.len());
    let mut v = kept_in_walk_order(roots, &selection.roots);
    if v.len() == 0 {
        return None;
    }
    match &selection.lib_root {
        None => Some(v),
        Some(lib) => {
            lib_to_front(&mut v, roots, lib.as_str(), Ghost(cs));
            Some(v)
        },
    }
}

/// Law: how a target is classified from the kinds cargo metadata lists for
/// it: any of `lib`, `rlib`, `dylib`, `cdylib`, `staticlib` or `proc-macro`
/// makes it a library; else `bin` makes it a bin; else (tests, benches,
/// examples, build scripts) it is neither.
pub proof fn law_target_kinds(kinds: Seq<Seq<char>>)
    ensures
        ({
            let lib = kinds.contains("lib"@) || kinds.contains("rlib"@) || kinds.contains("dylib"@)
                || kinds.contains("cdylib"@) || kinds.contains("staticlib"@) || kinds.contains("proc-macro"@);
            &&& lib ==> kind_of(kinds) == TargetKind::Lib
            &&& !lib && kinds.contains("bin"@) ==> kind_of(kinds) == TargetKind::Bin
            &&& !lib && !kinds.contains("bin"@) ==> kind_of(kinds) == TargetKind::Other
        }),
{
    let lib = kinds.contains("lib"@) || kinds.contains("rlib"@) || kinds.contains("dylib"@)
        || kinds.contains("cdylib"@) || kinds.contains("staticlib"@) || kinds.contains("proc-macro"@);
    if lib {
        let i = choose|i: int| 0 <= i < kinds.len() && (kinds[i] == "lib"@ || kinds[i] == "rlib"@ || kinds[i] == "dylib"@
            || kinds[i] == "cdylib"@ || kinds[i] == "staticlib"@ || kinds[i] == "proc-macro"@);
        assert(is_lib_kind(kinds[i]));
    } else {
        assert forall|i: int| 0 <= i < kinds.len() implies !is_lib_kind(#[trigger] kinds[i]) by {
            if is_lib_kind(kinds[i]) {
                assert(kinds.contains(kinds[i]));
            }
        }
    }
}

/// Law: which packages are selected: never a non-member; with the whole
/// workspace every member; else, with a package name, the members of that
/// name; else the members whose manifest is the given one.
pub proof fn law_selected_packages(p: PackageView, manifest: Seq<char>, package: Option<Seq<char>>, workspace: bool)
    ensures
        !p.is_member ==> !chosen(p, manifest, package, workspace),
        p.is_member && workspace ==> chosen(p, manifest, package, workspace),
        p.is_member && !workspace && package is Some ==> (chosen(p, manifest, package, workspace) <==> p.name == package->0),
        p.is_member && !workspace && package is None ==> (chosen(p, manifest, package, workspace) <==> p.manifest == manifest),
{
}

/// Law: what one more target adds to a selection: a lib or bin target its
/// root file (and, as the first lib, the library root); a test, bench,
/// example or build script nothing.
pub proof fn law_selection_grows(ts: Seq<TargetView>, t: TargetView)
    ensures
        (t.kind == TargetKind::Lib || t.kind == TargetKind::Bin) ==> root_set(ts.push(t)) == root_set(ts).insert(t.root),
        t.kind == TargetKind::Other ==> root_set(ts.push(t)) == root_set(ts),
        first_lib(ts) is Some ==> first_lib(ts.push(t)) == first_lib(ts),
        first_lib(ts) is None && t.kind == TargetKind::Lib ==> first_lib(ts.push(t)) == Some(t.root),
        first_lib(ts) is None && t.kind != TargetKind::Lib ==> first_lib(ts.push(t)) is None,
{
    lemma_root_set_push(ts, t);
    assert(ts.push(t).drop_last() =~= ts);
}

} // verus!
