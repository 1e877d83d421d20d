use modula::builder::{BuildError, CrateGraphBuilder};
use modula::extract_api::{
    finish_populated, ExtractError, ExtractOptions, ExtractRequest, Extractor, Frontend, Language, Project, Python, Registry, Rust,
    TypeScript,
};
use modula::ir::{ItemKind, Visibility};

/// A frontend that emits a fixed graph, recognizing a project by its
/// `tsconfig.json`.
struct DummyFrontend;

impl Frontend for DummyFrontend {
    type Lang = TypeScript;

    fn detect(&self, project: &Project) -> bool {
        project.has_file("tsconfig.json")
    }

    fn tool_version(&self) -> String {
        "dummy 0".to_owned()
    }

    fn populate(&self, _req: &ExtractRequest, _project: &Project, b: &mut CrateGraphBuilder) -> Result<(), ExtractError> {
        let (_c, root) = b.add_crate("app", true, "app");
        let m = b.add_module(root, "app::util", "util", Visibility::Public);
        b.add_item(m, "app::util::helper", "helper", ItemKind::Function, Visibility::Public);
        Ok(())
    }
}

fn ts_project() -> Project {
    Project { files: vec!["tsconfig.json".to_owned()], sources: Vec::new() }
}

fn other_project() -> Project {
    Project { files: Vec::new(), sources: Vec::new() }
}

#[test]
fn registry_dispatches_by_language_and_detection() {
    let mut registry = Registry::new();
    registry.register(Box::new(DummyFrontend));

    let by_language = registry
        .extract(&ExtractRequest::new("/anywhere").with_language::<TypeScript>(), &other_project())
        .expect("by language");
    assert_eq!(by_language.krate(by_language.root_crate).name, "app");

    let by_detection = registry.extract(&ExtractRequest::new("/tmp/ts-project"), &ts_project()).expect("by detection");
    assert_eq!(by_detection.krate(by_detection.root_crate).name, "app");

    assert!(registry.for_language(Python::ID).is_none());
    assert!(registry.detect(&other_project()).is_none());
}

#[test]
fn frontend_extracts_via_blanket_impl() {
    let req = ExtractRequest::new("/tmp/ts-project").with_language::<TypeScript>();
    let graph = DummyFrontend.extract(&req, &ts_project()).expect("extract");
    assert_eq!(graph.ra_version, "dummy 0");
    assert_eq!(graph.krate(graph.root_crate).name, "app");
    assert_eq!(DummyFrontend.language_id(), "typescript");
}

#[test]
fn unknown_language_and_undetected_projects_fail() {
    let mut registry = Registry::new();
    registry.register(Box::new(DummyFrontend));
    match registry.extract(&ExtractRequest::new("/x").with_language_id("cobol"), &ts_project()) {
        Err(ExtractError::NoExtractorForLanguage(l)) => assert_eq!(l, "cobol"),
        other => panic!("expected no extractor, got {other:?}"),
    }
    match registry.extract(&ExtractRequest::new("/tmp/other"), &other_project()) {
        Err(ExtractError::CouldNotDetect(root)) => assert_eq!(root, "/tmp/other"),
        other => panic!("expected no detection, got {other:?}"),
    }
}

#[test]
fn requests_default_to_detection_and_pin_languages() {
    let req = ExtractRequest::new("/p");
    assert_eq!(req.root, "/p");
    assert!(req.language.is_none());
    assert!(!req.options.include_dependencies && !req.options.all_members && req.options.member.is_none());
    assert_eq!(ExtractRequest::new("/p").with_language::<Rust>().language.as_deref(), Some("rust"));
    assert_eq!(ExtractRequest::new("/p").with_language_id("go").language.as_deref(), Some("go"));
    let o = ExtractOptions::default();
    assert!(!o.include_dependencies && o.member.is_none() && !o.all_members);
    assert_eq!(<Python as Language>::ID, "python");
    assert_eq!(modula::extract_api::JavaScript::ID, "javascript");
}

#[test]
fn finishing_keeps_the_frontend_error_or_finishes_the_builder() {
    let r = finish_populated(Err(ExtractError::Frontend("bad input".to_string())), CrateGraphBuilder::new("t"));
    assert!(matches!(r, Err(ExtractError::Frontend(m)) if m == "bad input"));
    let r = finish_populated(Ok(()), CrateGraphBuilder::new("t"));
    assert!(matches!(r, Err(ExtractError::Build(BuildError::NoCrate))));
    let mut b = CrateGraphBuilder::new("t 1");
    b.add_crate("k", true, "k");
    let g = finish_populated(Ok(()), b).expect("finished");
    assert_eq!(g.ra_version, "t 1");
    assert_eq!(g.crates[0].name, "k");
}

/// A second TypeScript frontend that recognizes every project and emits a
/// crate named `other`.
struct OtherFrontend;

impl Frontend for OtherFrontend {
    type Lang = TypeScript;

    fn detect(&self, _project: &Project) -> bool {
        true
    }

    fn tool_version(&self) -> String {
        "other 1".to_owned()
    }

    fn populate(&self, _req: &ExtractRequest, _project: &Project, b: &mut CrateGraphBuilder) -> Result<(), ExtractError> {
        b.add_crate("other", true, "other");
        Ok(())
    }
}

#[test]
fn the_first_registered_extractor_wins() {
    let mut registry = Registry::new();
    registry.register(Box::new(DummyFrontend)).register(Box::new(OtherFrontend));
    let pinned = registry.extract(&ExtractRequest::new("/x").with_language::<TypeScript>(), &other_project()).unwrap();
    assert_eq!(pinned.ra_version, "dummy 0");
    // DummyFrontend does not recognize a project without tsconfig.json; the
    // second does.
    let detected = registry.extract(&ExtractRequest::new("/x"), &other_project()).unwrap();
    assert_eq!(detected.ra_version, "other 1");
    assert_eq!(detected.krate(detected.root_crate).name, "other");
    let found = registry.detect(&ts_project()).unwrap();
    let req = ExtractRequest::new("/x");
    assert_eq!(found.extract(&req, &ts_project()).unwrap().ra_version, "dummy 0");
    assert_eq!(registry.for_language(TypeScript::ID).unwrap().language_id(), "typescript");
}
