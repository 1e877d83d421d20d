use modula::extract_api::{ExtractRequest, Extractor, Project, SourceFile};
use modula::ir::ItemKind;
use modula::ts::{declaration_kind, is_skipped_dir, is_source_file, TsExtractor, TsForm};

/// The sample project: an entry file and a utility module in a subdirectory.
fn sample() -> Project {
    Project {
        files: vec!["package.json".to_owned(), "tsconfig.json".to_owned()],
        sources: vec![
            SourceFile {
                path: "index.ts".to_owned(),
                text: "import { add } from './util/math';\n\
                       export function greet(name: string): string { return 'hi ' + name + add(1, 2); }\n\
                       class Internal { value = 1; }\n"
                    .to_owned(),
            },
            SourceFile {
                path: "util/math.ts".to_owned(),
                text: "function double(x: number): number { return x * 2; }\n\
                       export function add(a: number, b: number): number { return double(a) + b; }\n\
                       export class Calc { run(): number { return add(1, 2); } }\n"
                    .to_owned(),
            },
        ],
    }
}

#[test]
fn builds_module_tree_and_items() {
    let graph = TsExtractor.extract(&ExtractRequest::new("/work/sample"), &sample()).expect("extract");

    assert_eq!(graph.krate(graph.root_crate).name, "sample");

    let module_paths: Vec<&str> = graph.modules.iter().map(|m| m.canonical_path.as_str()).collect();
    assert!(module_paths.contains(&"sample"), "{module_paths:?}");
    assert!(module_paths.iter().any(|p| p.ends_with("::index")), "{module_paths:?}");
    assert!(module_paths.iter().any(|p| p.ends_with("sample::util")), "{module_paths:?}");
    assert!(module_paths.iter().any(|p| p.ends_with("::math")), "{module_paths:?}");

    let item = |suffix: &str| {
        graph
            .items
            .iter()
            .find(|i| i.canonical_path.ends_with(suffix))
            .unwrap_or_else(|| panic!("missing item {suffix}"))
    };
    assert!(item("::greet").reachable_pub_api, "exported greet is public");
    assert!(!item("::Internal").reachable_pub_api, "non-exported class is module-local");
    assert!(item("::add").reachable_pub_api);
    assert!(item("::Calc").reachable_pub_api);
}

#[test]
fn detects_a_typescript_project() {
    assert!(TsExtractor.detect(&sample()));
}

#[test]
fn a_project_without_manifests_is_not_detected() {
    let p = Project { files: vec!["README.md".to_owned()], sources: Vec::new() };
    assert!(!TsExtractor.detect(&p));
}

#[test]
fn items_are_keyed_by_file_and_name() {
    let mut b = modula::builder::CrateGraphBuilder::new("t");
    modula::extract_api::Frontend::populate(&TsExtractor, &ExtractRequest::new("/work/sample/"), &sample(), &mut b)
        .expect("populate");
    let g = b.finish().expect("finish");
    assert_eq!(g.krate(g.root_crate).name, "sample");
    let math = g.modules.iter().find(|m| m.canonical_path == "sample::util::math").expect("math module");
    let add = g.items.iter().find(|i| i.canonical_path == "sample::util::math::add").expect("add");
    assert_eq!(add.owning_module, math.id);
    assert_eq!(add.kind, ItemKind::Function);
    let calc = g.items.iter().find(|i| i.canonical_path == "sample::util::math::Calc").expect("Calc");
    assert_eq!(calc.kind, ItemKind::Struct);
    assert!(g.items.iter().any(|i| i.canonical_path == "sample::util::math::double" && !i.reachable_pub_api));
    assert!(g.edges.is_empty());
    assert_eq!(modula::extract_api::Frontend::tool_version(&TsExtractor), "oxc 0.137");
}

#[test]
fn declaration_forms_map_to_item_kinds() {
    assert_eq!(declaration_kind(TsForm::Function), Some(ItemKind::Function));
    assert_eq!(declaration_kind(TsForm::Class), Some(ItemKind::Struct));
    assert_eq!(declaration_kind(TsForm::Interface), Some(ItemKind::Trait));
    assert_eq!(declaration_kind(TsForm::TypeAlias), Some(ItemKind::TypeAlias));
    assert_eq!(declaration_kind(TsForm::Enum), Some(ItemKind::Enum));
    assert_eq!(declaration_kind(TsForm::Variable), None);
    assert_eq!(declaration_kind(TsForm::Module), None);
}

#[test]
fn interfaces_aliases_and_enums_become_items() {
    let p = Project {
        files: vec!["tsconfig.json".to_owned()],
        sources: vec![SourceFile {
            path: "types.ts".to_owned(),
            text: "export interface Shape { area(): number }\nexport type Id = string;\nenum Color { Red }\nconst x = 1;\n"
                .to_owned(),
        }],
    };
    let g = TsExtractor.extract(&ExtractRequest::new("/p/app"), &p).expect("extract");
    let kind = |path: &str| g.items.iter().find(|i| i.canonical_path == path).map(|i| i.kind);
    assert_eq!(kind("app::types::Shape"), Some(ItemKind::Trait));
    assert_eq!(kind("app::types::Id"), Some(ItemKind::TypeAlias));
    assert_eq!(kind("app::types::Color"), Some(ItemKind::Enum));
    assert_eq!(kind("app::types::x"), None);
}

#[test]
fn discovery_skips_build_dirs_and_keeps_sources() {
    for d in ["node_modules", ".git", "dist", "build", "out"] {
        assert!(is_skipped_dir(d));
    }
    assert!(!is_skipped_dir("src"));
    for f in ["a.ts", "a.tsx", "a.mts", "a.cts", "a.js", "a.jsx", "a.mjs", "a.cjs", "x.d.ts"] {
        assert!(is_source_file(f), "{f}");
    }
    for f in ["a.rs", "ts", ".ts", "a.TS", "a"] {
        assert!(!is_source_file(f), "{f}");
    }
}
