use modula::ir::{ItemId, ItemKind, ModuleId, Visibility};
use modula::paths::{extension_of, file_stem_of, last_segment_of, rel_parent_of};
use modula::ra::{canonical_module_path, crate_name, item_kind, map_visibility, synthetic_path, DeclaredVisibility, DefKind};

#[test]
fn relative_paths_split_into_directory_and_file() {
    assert_eq!(rel_parent_of("util/math.ts"), "util");
    assert_eq!(rel_parent_of("a/b/c.ts"), "a/b");
    assert_eq!(rel_parent_of("index.ts"), "");
    assert_eq!(last_segment_of("a/b/c.ts"), "c.ts");
    assert_eq!(last_segment_of("c.ts"), "c.ts");
}

#[test]
fn stems_and_extensions_follow_std() {
    for (name, stem, ext) in [
        ("math.ts", "math", Some("ts")),
        ("x.d.ts", "x.d", Some("ts")),
        (".hidden", ".hidden", None),
        ("noext", "noext", None),
        ("trail.", "trail", Some("")),
    ] {
        assert_eq!(file_stem_of(name), stem, "{name}");
        assert_eq!(extension_of(name).as_deref(), ext, "{name}");
        let p = std::path::Path::new(name);
        assert_eq!(p.file_stem().and_then(|s| s.to_str()), Some(stem));
        assert_eq!(p.extension().and_then(|s| s.to_str()), ext);
    }
}

#[test]
fn rust_names_follow_the_crate_and_module_chain() {
    assert_eq!(crate_name(&Some("my-crate".to_owned())), "my_crate");
    assert_eq!(crate_name(&None), "");
    assert_eq!(canonical_module_path(&vec!["my_crate".to_owned(), "parser".to_owned(), "lexer".to_owned()]), "my_crate::parser::lexer");
    assert_eq!(canonical_module_path(&vec!["k".to_owned()]), "k");
    assert_eq!(canonical_module_path(&vec![]), "");
    assert_eq!(synthetic_path(ModuleId(3), ItemId(17), &Some("new".to_owned())), "{anon#3#17#new}");
    assert_eq!(synthetic_path(ModuleId(0), ItemId(0), &None), "{anon#0#0#_}");
}

#[test]
fn definitions_and_visibilities_map_to_the_ir() {
    assert_eq!(item_kind(DefKind::Module), None);
    assert_eq!(item_kind(DefKind::Union), Some(ItemKind::Union));
    assert_eq!(item_kind(DefKind::BuiltinType), Some(ItemKind::BuiltinType));
    assert_eq!(map_visibility(&DeclaredVisibility::Public), Visibility::Public);
    assert_eq!(map_visibility(&DeclaredVisibility::PubCrate), Visibility::Crate);
    let m = |root: bool, owning: bool, parent: bool| DeclaredVisibility::InModule {
        is_crate_root: root,
        is_owning: owning,
        is_parent: parent,
        path: "k::a".to_owned(),
    };
    assert_eq!(map_visibility(&m(true, false, false)), Visibility::Crate);
    assert_eq!(map_visibility(&m(false, true, false)), Visibility::Private);
    assert_eq!(map_visibility(&m(false, false, true)), Visibility::Super);
    assert_eq!(map_visibility(&m(false, false, false)), Visibility::Module("k::a".to_owned()));
}
