use modula::ra_targets::{order_crates, select_targets, target_kind, CargoPackage, CargoTarget, SelectError, Selection, TargetKind, Workspace};

fn target(kind: TargetKind, root: &str) -> CargoTarget {
    CargoTarget { kind, root: root.to_string() }
}

fn package(name: &str, member: bool, targets: Vec<CargoTarget>) -> CargoPackage {
    CargoPackage {
        name: name.to_string(),
        manifest: format!("/w/{name}/Cargo.toml"),
        is_member: member,
        targets,
    }
}

/// Members `a` (a lib, a bin, an integration test and an example) and `b`
/// (a lib), and a dependency `dep` that is not a member.
fn workspace() -> Workspace {
    Workspace::Cargo {
        packages: vec![
            package("dep", false, vec![target(TargetKind::Lib, "/reg/dep/src/lib.rs")]),
            package(
                "a",
                true,
                vec![
                    target(TargetKind::Lib, "/w/a/src/lib.rs"),
                    target(TargetKind::Bin, "/w/a/src/main.rs"),
                    target(TargetKind::Other, "/w/a/tests/it.rs"),
                    target(TargetKind::Other, "/w/a/examples/demo.rs"),
                ],
            ),
            package("b", true, vec![target(TargetKind::Lib, "/w/b/src/lib.rs")]),
        ],
    }
}

fn sorted(mut v: Vec<String>) -> Vec<String> {
    v.sort();
    v
}

#[test]
fn the_package_at_the_manifest_keeps_only_lib_and_bin_targets() {
    let s = select_targets(&workspace(), "/w/a/Cargo.toml", &None, false).expect("selected");
    assert_eq!(sorted(s.roots), vec!["/w/a/src/lib.rs".to_string(), "/w/a/src/main.rs".to_string()]);
    assert_eq!(s.lib_root, Some("/w/a/src/lib.rs".to_string()));
}

#[test]
fn a_named_package_is_selected_by_name() {
    let s = select_targets(&workspace(), "/elsewhere/Cargo.toml", &Some("b".to_string()), false).expect("selected");
    assert_eq!(s.roots, vec!["/w/b/src/lib.rs".to_string()]);
    assert_eq!(s.lib_root, Some("/w/b/src/lib.rs".to_string()));
}

#[test]
fn the_whole_workspace_takes_every_member_but_no_dependency() {
    let s = select_targets(&workspace(), "/w/a/Cargo.toml", &None, true).expect("selected");
    assert_eq!(
        sorted(s.roots),
        vec!["/w/a/src/lib.rs".to_string(), "/w/a/src/main.rs".to_string(), "/w/b/src/lib.rs".to_string()]
    );
    assert_eq!(s.lib_root, Some("/w/a/src/lib.rs".to_string()));
}

#[test]
fn a_dependency_cannot_be_selected_by_name() {
    let e = select_targets(&workspace(), "/w/a/Cargo.toml", &Some("dep".to_string()), false).unwrap_err();
    assert_eq!(e, SelectError::PackageNotFound("dep".to_string()));
    assert_eq!(e.message(), "package `dep` not found in workspace");
}

#[test]
fn no_member_at_the_manifest_is_an_error() {
    let e = select_targets(&workspace(), "/w/zzz/Cargo.toml", &None, false).unwrap_err();
    assert_eq!(e, SelectError::NoPackageAtPath);
    assert_eq!(e.message(), "no package found at the given path; pass --package <NAME> or --workspace");
}

#[test]
fn only_cargo_workspaces_are_supported() {
    let e = select_targets(&Workspace::Other, "/w/a/Cargo.toml", &None, false).unwrap_err();
    assert_eq!(e, SelectError::NotCargo);
    assert_eq!(e.message(), "modula only supports cargo workspaces");
}

#[test]
fn a_root_shared_by_two_targets_is_listed_once() {
    let ws = Workspace::Cargo {
        packages: vec![package(
            "a",
            true,
            vec![target(TargetKind::Bin, "/w/a/src/main.rs"), target(TargetKind::Bin, "/w/a/src/main.rs")],
        )],
    };
    let s = select_targets(&ws, "/w/a/Cargo.toml", &None, false).expect("selected");
    assert_eq!(s.roots, vec!["/w/a/src/main.rs".to_string()]);
    assert_eq!(s.lib_root, None);
}

fn selection(roots: &[&str], lib: Option<&str>) -> Selection {
    Selection { roots: roots.iter().map(|r| r.to_string()).collect(), lib_root: lib.map(|l| l.to_string()) }
}

fn crate_roots() -> Vec<Option<String>> {
    vec![
        Some("/w/b/src/main.rs".to_string()),
        Some("/w/a/src/lib.rs".to_string()),
        None,
        Some("/w/a/tests/it.rs".to_string()),
        Some("/w/a/src/main.rs".to_string()),
        Some("/reg/dep/src/lib.rs".to_string()),
    ]
}

#[test]
fn kept_crates_are_walked_by_root_with_the_lib_first() {
    let sel = selection(&["/w/a/src/lib.rs", "/w/a/src/main.rs", "/w/b/src/main.rs"], Some("/w/b/src/main.rs"));
    assert_eq!(order_crates(&crate_roots(), &sel), Some(vec![0, 1, 4]));
}

#[test]
fn without_a_lib_the_walk_is_by_root() {
    let sel = selection(&["/w/a/src/lib.rs", "/w/a/src/main.rs", "/w/b/src/main.rs"], None);
    assert_eq!(order_crates(&crate_roots(), &sel), Some(vec![1, 4, 0]));
}

#[test]
fn crates_with_the_same_root_keep_their_order() {
    let roots = vec![Some("/x/lib.rs".to_string()), Some("/a/lib.rs".to_string()), Some("/x/lib.rs".to_string())];
    let sel = selection(&["/x/lib.rs", "/a/lib.rs"], Some("/x/lib.rs"));
    assert_eq!(order_crates(&roots, &sel), Some(vec![0, 1, 2]));
    let sel = selection(&["/x/lib.rs", "/a/lib.rs"], None);
    assert_eq!(order_crates(&roots, &sel), Some(vec![1, 0, 2]));
}

#[test]
fn no_kept_crate_means_nothing_to_analyze() {
    let sel = selection(&["/w/c/src/lib.rs"], Some("/w/c/src/lib.rs"));
    assert_eq!(order_crates(&crate_roots(), &sel), None);
}

fn kinds(ks: &[&str]) -> Vec<String> {
    ks.iter().map(|k| k.to_string()).collect()
}

#[test]
fn target_kind_reads_cargo_metadata_kinds() {
    assert_eq!(target_kind(&kinds(&["lib"])), TargetKind::Lib);
    assert_eq!(target_kind(&kinds(&["proc-macro"])), TargetKind::Lib);
    assert_eq!(target_kind(&kinds(&["cdylib", "rlib"])), TargetKind::Lib);
    assert_eq!(target_kind(&kinds(&["bin"])), TargetKind::Bin);
    assert_eq!(target_kind(&kinds(&["example"])), TargetKind::Other);
    assert_eq!(target_kind(&kinds(&["custom-build"])), TargetKind::Other);
    assert_eq!(target_kind(&kinds(&[])), TargetKind::Other);
}
