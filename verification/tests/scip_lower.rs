use modula::ir::{CrateGraph, ItemKind, ModuleKind, RefKind};
use modula::scip::{descriptor_name, project_basename, synthetic_key, Range, ScipDescriptor, ScipDocument, ScipIndex,
    ScipMetadata, ScipOccurrence, ScipToolInfo};
use modula::scip_lower::{lower, lower_bytes, LowerError};
use protobuf::Message;

const PKG: &str = "scip-typescript npm sample-ts 1.0.0 ";

fn sym(desc: &str) -> String {
    format!("{PKG}{desc}")
}

fn def(symbol: &str, range: &[i32], enclosing: &[i32]) -> ScipOccurrence {
    ScipOccurrence { symbol: symbol.to_owned(), symbol_roles: 1, range: range.to_vec(), enclosing_range: enclosing.to_vec() }
}

fn reference(symbol: &str, roles: i32, range: &[i32]) -> ScipOccurrence {
    ScipOccurrence { symbol: symbol.to_owned(), symbol_roles: roles, range: range.to_vec(), enclosing_range: Vec::new() }
}

/// A TypeScript project: `src/util/math.ts` defines `add`, `double` and a
/// class `Calc` with a method `run`; `src/index.ts` imports `add` and defines
/// `greet` and a class `Internal`.
fn sample_index() -> ScipIndex {
    let add = sym("src/util/`math.ts`/add().");
    let double = sym("src/util/`math.ts`/double().");
    let calc = sym("src/util/`math.ts`/Calc#");
    let run = sym("src/util/`math.ts`/Calc#run().");
    let greet = sym("src/`index.ts`/greet().");
    let internal = sym("src/`index.ts`/Internal#");
    let math = ScipDocument {
        symbols: vec![add.clone(), double.clone(), calc.clone(), run.clone(), "local 3".to_owned()],
        occurrences: vec![
            def(&add, &[1, 16, 19], &[1, 0, 3, 1]),
            reference(&double, 0, &[2, 9, 15]),
            def(&double, &[5, 9, 15], &[5, 0, 7, 1]),
            def(&calc, &[9, 13, 17], &[9, 0, 13, 1]),
            def(&run, &[10, 2, 5], &[10, 2, 12, 3]),
            reference(&add, 0, &[11, 11, 14]),
            reference("local 3", 0, &[11, 20, 21]),
        ],
    };
    let index = ScipDocument {
        symbols: vec![greet.clone(), internal.clone()],
        occurrences: vec![
            reference(&add, 2, &[0, 9, 12]),
            def(&greet, &[2, 16, 21], &[2, 0, 4, 1]),
            reference(&add, 0, &[3, 10, 13]),
            def(&internal, &[6, 6, 14], &[6, 0, 6, 20]),
        ],
    };
    ScipIndex {
        metadata: Some(ScipMetadata {
            project_root: "file:///work/sample-ts".to_owned(),
            tool_info: Some(ScipToolInfo { name: "scip-typescript".to_owned(), version: "0.3.16".to_owned() }),
        }),
        documents: vec![math, index],
    }
}

fn path_of(g: &CrateGraph, id: modula::ir::ItemId) -> &str {
    g.item(id).canonical_path.as_str()
}

#[test]
fn lowers_a_typescript_index_into_modules_and_types() {
    let g = lower(&sample_index()).expect("lower");
    assert_eq!(g.krate(g.root_crate).name, "sample-ts");
    assert_eq!(g.ra_version, "scip-typescript 0.3.16");
    let module = |path: &str| g.modules.iter().find(|m| m.canonical_path == path);
    for path in ["sample-ts::src", "sample-ts::src::util", "sample-ts::src::util::math.ts", "sample-ts::src::index.ts"] {
        assert!(module(path).is_some(), "missing module {path}");
    }
    for path in ["sample-ts::src::util::math.ts::Calc", "sample-ts::src::index.ts::Internal"] {
        assert_eq!(module(path).map(|m| m.kind), Some(ModuleKind::Type), "{path}");
    }
}

#[test]
fn lowers_items_and_innermost_edges() {
    let g = lower(&sample_index()).expect("lower");
    let item = |suffix: &str| g.items.iter().find(|i| i.canonical_path.ends_with(suffix)).expect(suffix);
    assert_eq!(item("math.ts::add").kind, ItemKind::Function);
    assert_eq!(item("math.ts::double").kind, ItemKind::Function);
    assert_eq!(item("Calc::run").kind, ItemKind::AssocFn, "a method on a type is an associated function");
    let edge = |from: &str, to: &str| {
        g.edges.iter().any(|e| path_of(&g, e.from).ends_with(from) && path_of(&g, e.to).ends_with(to) && e.kind == RefKind::Body)
    };
    assert!(edge("math.ts::add", "math.ts::double"), "add -> double");
    assert!(edge("Calc::run", "math.ts::add"), "run -> add (innermost definition)");
    assert!(edge("index.ts::greet", "math.ts::add"), "greet -> add");
    assert_eq!(g.edges.len(), 3, "the file-level import and the local are dropped");
    assert!(g.edges.iter().all(|e| matches!(e.kind, RefKind::Body | RefKind::Import)));
}

#[test]
fn lowers_protobuf_bytes() {
    let mut index = scip::types::Index::new();
    let mut meta = scip::types::Metadata::new();
    meta.project_root = "file:///work/app/".to_owned();
    index.metadata = protobuf::MessageField::some(meta);
    let mut doc = scip::types::Document::new();
    let f = "scip-go gomod example.com/app v1 `example.com/app`/F().".to_owned();
    let g_sym = "scip-go gomod example.com/app v1 `example.com/app`/G().".to_owned();
    for s in [&f, &g_sym] {
        let mut si = scip::types::SymbolInformation::new();
        si.symbol = s.clone();
        doc.symbols.push(si);
    }
    let mut occ = |symbol: &str, roles: i32, range: Vec<i32>, enclosing: Vec<i32>| {
        let mut o = scip::types::Occurrence::new();
        o.symbol = symbol.to_owned();
        o.symbol_roles = roles;
        o.range = range;
        o.enclosing_range = enclosing;
        doc.occurrences.push(o);
    };
    occ(&f, 1, vec![0, 5, 6], vec![0, 0, 2, 1]);
    occ(&g_sym, 0, vec![1, 1, 2], vec![]);
    occ(&g_sym, 1, vec![3, 5, 6], vec![3, 0, 4, 1]);
    index.documents.push(doc);
    let bytes = index.write_to_bytes().expect("encode");
    let g = lower_bytes(&bytes).expect("lower");
    assert_eq!(g.krate(g.root_crate).name, "app");
    assert_eq!(g.ra_version, "");
    assert!(g.modules.iter().any(|m| m.canonical_path == "app::example.com/app"));
    assert_eq!(g.edges.len(), 1);
    assert!(path_of(&g, g.edges[0].from).ends_with("::F") && path_of(&g, g.edges[0].to).ends_with("::G"));
    assert!(matches!(lower_bytes(b"\xff\xff not scip"), Err(LowerError::Decode)));
}

#[test]
fn without_enclosing_ranges_references_go_to_the_preceding_item() {
    let a = "scip-clang cxx . . mathx/add(9b79fe2a).".to_owned();
    let b = "scip-clang cxx . . mathx/twice(1f2e).".to_owned();
    let doc = ScipDocument {
        symbols: vec![a.clone(), b.clone()],
        occurrences: vec![
            reference(&b, 0, &[0, 0, 3]),
            def(&a, &[1, 4, 7], &[]),
            reference(&b, 2, &[2, 4, 9]),
            def(&b, &[5, 4, 9], &[]),
            reference(&a, 0, &[6, 2, 5]),
        ],
    };
    let index = ScipIndex { metadata: None, documents: vec![doc] };
    let g = lower(&index).expect("lower");
    assert_eq!(g.krate(g.root_crate).name, "crate");
    let has = |from: &str, to: &str, kind: RefKind| {
        g.edges.iter().any(|e| path_of(&g, e.from).ends_with(from) && path_of(&g, e.to).ends_with(to) && e.kind == kind)
    };
    assert!(has("mathx::add", "mathx::twice", RefKind::Import));
    assert!(has("mathx::twice", "mathx::add", RefKind::Body));
    assert_eq!(g.edges.len(), 2, "the reference before every item has no owner");
}

#[test]
fn repeated_symbols_are_lowered_once() {
    let f = "scip-python python app 1 `app.main`/f().".to_owned();
    let doc = ScipDocument { symbols: vec![f.clone(), f.clone()], occurrences: Vec::new() };
    let g = lower(&ScipIndex { metadata: None, documents: vec![doc.clone(), doc] }).expect("lower");
    assert_eq!(g.items.iter().filter(|i| i.canonical_path.ends_with("::f")).count(), 1);
    assert!(g.modules.iter().any(|m| m.canonical_path == "crate::app.main"));
}

#[test]
fn ranges_read_three_or_four_numbers() {
    assert_eq!(Range::from_vec(&vec![1, 2, 3]), Some(Range { start_line: 1, start_char: 2, end_line: 1, end_char: 3 }));
    assert_eq!(Range::from_vec(&vec![1, 2, 4, 3]), Some(Range { start_line: 1, start_char: 2, end_line: 4, end_char: 3 }));
    assert_eq!(Range::from_vec(&vec![1, 2]), None);
    let outer = Range { start_line: 1, start_char: 0, end_line: 5, end_char: 1 };
    let inner = Range { start_line: 2, start_char: 4, end_line: 2, end_char: 9 };
    assert!(outer.contains(&inner) && !inner.contains(&outer) && outer.contains(&outer));
    assert_eq!(outer.span(), (4, 1));
    assert_eq!(inner.span(), (0, 5));
}

#[test]
fn names_keys_and_basenames() {
    assert_eq!(descriptor_name(""), "_");
    assert_eq!(descriptor_name("add"), "add");
    let sig = vec![
        ScipDescriptor { name: "src".to_owned(), suffix: 1 },
        ScipDescriptor { name: "Calc".to_owned(), suffix: 2 },
    ];
    assert_eq!(synthetic_key(&sig), "<ns>\u{1}src\u{2}1\u{1}Calc\u{2}2");
    assert_eq!(project_basename("file:///work/sample-ts"), Some("sample-ts".to_owned()));
    assert_eq!(project_basename("file:///work/app//"), Some("app".to_owned()));
    assert_eq!(project_basename("///"), None);
    assert_eq!(project_basename(""), None);
}

#[test]
fn an_unattributed_reference_is_dropped() {
    let base = lower(&sample_index()).expect("lower");
    let mut index = sample_index();
    // Line 20 lies in no definition's enclosing range of `math.ts`.
    index.documents[0].occurrences.insert(3, reference(&sym("src/util/`math.ts`/add()."), 0, &[20, 0, 3]));
    assert_eq!(lower(&index).expect("lower"), base);
}

#[test]
fn a_reference_to_an_external_symbol_is_dropped() {
    let base = lower(&sample_index()).expect("lower");
    let mut index = sample_index();
    // Inside `double`'s range, a call into another package.
    index.documents[0].occurrences.push(reference("scip-typescript npm lodash 4.17.21 `lodash`/map().", 0, &[6, 2, 5]));
    assert_eq!(lower(&index).expect("lower"), base);
}

#[test]
fn local_and_repeated_symbol_entries_change_nothing() {
    let base = lower(&sample_index()).expect("lower");
    let mut index = sample_index();
    index.documents[1].symbols.push("local 7".to_owned());
    index.documents[1].symbols.push(sym("src/util/`math.ts`/add()."));
    assert_eq!(lower(&index).expect("lower"), base);
}
