//! The language-neutral extraction seam: language markers, extraction
//! requests, the [`Frontend`] a language implements by populating a
//! [`CrateGraphBuilder`], the object-safe [`Extractor`], and the [`Registry`]
//! that picks an extractor by language or by detection.
//!
//! Reading the project from disk is the caller's part: it hands the
//! extractors a [`Project`], the files found at the project root and the
//! source files a frontend reads.

use vstd::prelude::*;
use crate::builder::{finished_from, graph_is_built, has_crate, s_new, state_wf, BuildError, BuilderState, CrateGraphBuilder};
use crate::ir::CrateGraph;
use crate::text::str_eq;

verus! {

/// A source language, as a type-level marker with a stable lowercase id.
pub trait Language {
    /// The runtime id of the language (for example `"typescript"`).
    const ID: &'static str;
}

/// Rust.
pub struct Rust;

impl Language for Rust {
    const ID: &'static str = "rust";
}

/// JavaScript.
pub struct JavaScript;

impl Language for JavaScript {
    const ID: &'static str = "javascript";
}

/// TypeScript.
pub struct TypeScript;

impl Language for TypeScript {
    const ID: &'static str = "typescript";
}

/// Python.
pub struct Python;

impl Language for Python {
    const ID: &'static str = "python";
}

/// Language-neutral knobs for an extraction.
#[derive(Clone, Debug)]
pub struct ExtractOptions {
    /// Whether to include items from dependencies as analysis boundaries.
    pub include_dependencies: bool,
    /// Analyze a specific package or member by name.
    pub member: Option<String>,
    /// Analyze every package or member.
    pub all_members: bool,
}

impl Default for ExtractOptions {
    fn default() -> (r: Self)
        ensures
            !r.include_dependencies,
            r.member is None,
            !r.all_members,
    {
        ExtractOptions { include_dependencies: false, member: None, all_members: false }
    }
}

/// A request to extract the graph of a project.
#[derive(Clone, Debug)]
pub struct ExtractRequest {
    /// The project root (a directory, or a manifest file for some languages).
    pub root: String,
    /// The language id to use, or `None` to detect it.
    pub language: Option<String>,
    /// Language-neutral options.
    pub options: ExtractOptions,
}

impl ExtractRequest {
    /// A request for `root` with detection and default options.
    pub fn new(root: &str) -> (r: Self)
        ensures
            r.root@ == root@,
            r.language is None,
            !r.options.include_dependencies,
            r.options.member is None,
            !r.options.all_members,
    {
        ExtractRequest { root: root.to_owned(), language: None, options: ExtractOptions::default() }
    }

    /// Pins the language at the type level, skipping detection.
    pub fn with_language<L: Language>(self) -> (r: Self)
        ensures
            r.root == self.root,
            r.options == self.options,
            r.language matches Some(id) && id@ == L::ID@,
    {
        let mut r = self;
        r.language = Some(L::ID.to_owned());
        r
    }

    /// Pins the language by its runtime id.
    pub fn with_language_id(self, id: &str) -> (r: Self)
        ensures
            r.root == self.root,
            r.options == self.options,
            r.language matches Some(l) && l@ == id@,
    {
        let mut r = self;
        r.language = Some(id.to_owned());
        r
    }
}

/// A source file of a project: its path relative to the root (with `/`
/// separators) and its text.
#[derive(Clone, Debug)]
pub struct SourceFile {
    pub path: String,
    pub text: String,
}

/// A project as the extractors see it.
#[derive(Clone, Debug)]
pub struct Project {
    /// The regular files a detector may look for, as paths relative to the
    /// root (the root's own files, plus deeper marker files such as
    /// `build/compile_commands.json` when present).
    pub files: Vec<String>,
    /// The source files a frontend extracts, in discovery order.
    pub sources: Vec<SourceFile>,
}

/// The file paths of a project, by value.
pub open spec fn project_files(p: &Project) -> Seq<Seq<char>> {
    p.files@.map_values(|f: String| f@)
}

impl Project {
    /// Whether the project has the file at relative path `rel`.
    pub fn has_file(&self, rel: &str) -> (r: bool)
        ensures
            r == project_files(self).contains(rel@),
    {
        let mut i: usize = 0;
        while i < self.files.len()
            invariant
                i <= self.files@.len(),
                forall|j: int| 0 <= j < i ==> self.files@[j]@ != rel@,
            decreases self.files@.len() - i,
        {
            if str_eq(self.files[i].as_str(), rel) {
                assert(project_files(self)[i as int] == rel@);
                return true;
            }
            i = i + 1;
        }
        assert forall|j: int| 0 <= j < project_files(self).len() implies project_files(self)[j] != rel@ by {
            assert(project_files(self)[j] == self.files@[j]@);
        }
        false
    }
}

/// Why an extraction failed.
#[derive(Clone, Debug)]
pub enum ExtractError {
    /// No registered extractor has this language id.
    NoExtractorForLanguage(String),
    /// No registered extractor recognizes the project at this root.
    CouldNotDetect(String),
    /// The populated graph could not be finished.
    Build(BuildError),
    /// The frontend itself failed, with this message.
    Frontend(String),
}

/// A language extractor implemented by populating a [`CrateGraphBuilder`].
pub trait Frontend {
    /// The language this frontend handles.
    type Lang: Language;

    /// Whether a project with these root files looks like one this frontend
    /// analyzes. A frontend states its rule by overriding this; the default
    /// recognizes no project.
    open spec fn spec_detect(&self, files: Seq<Seq<char>>) -> bool {
        false
    }

    /// A cheap check of whether `project` is one this frontend analyzes.
    fn detect(&self, project: &Project) -> (r: bool)
        ensures
            r == self.spec_detect(project_files(project));

    /// The tool and version this frontend records as provenance; empty unless
    /// a frontend states its own.
    open spec fn spec_tool_version(&self) -> Seq<char> {
        Seq::empty()
    }

    /// The tool and version used, recorded as provenance.
    fn tool_version(&self) -> (r: String)
        ensures
            r@ == self.spec_tool_version();

    /// Populates the builder with the project's modules, items and edges; the
    /// builder's provenance stays as it was.
    fn populate(&self, req: &ExtractRequest, project: &Project, builder: &mut CrateGraphBuilder) -> (r: Result<(), ExtractError>)
        requires
            old(builder).wf(),
            old(builder).state() == s_new(old(builder).provenance()),
        ensures
            final(builder).wf(),
            final(builder).pending_edges().len() <= u32::MAX,
            final(builder).provenance() == old(builder).provenance();
}

/// Produces a [`CrateGraph`] for a project: the object-safe dispatch boundary.
pub trait Extractor {
    /// The language id this extractor handles.
    spec fn spec_language_id(&self) -> Seq<char>;

    /// Whether a project with these root files is one this extractor analyzes.
    spec fn spec_detect(&self, files: Seq<Seq<char>>) -> bool;

    /// The runtime id of the language this extractor handles.
    fn language_id(&self) -> (r: &'static str)
        ensures
            r@ == self.spec_language_id();

    /// A cheap check of whether `project` is one this extractor analyzes.
    fn detect(&self, project: &Project) -> (r: bool)
        ensures
            r == self.spec_detect(project_files(project));

    /// Whether `r` is a result this extractor's `extract` gives for `req` on
    /// `project`.
    spec fn extract_result(&self, req: ExtractRequest, project: Project, r: Result<CrateGraph, ExtractError>) -> bool;

    /// Extracts the graph of the project described by `req`; a graph it
    /// returns is one a well-formed builder finished into.
    fn extract(&self, req: &ExtractRequest, project: &Project) -> (r: Result<CrateGraph, ExtractError>)
        ensures
            self.extract_result(*req, *project, r),
            r matches Ok(g) ==> graph_is_built(g);
}

impl<F: Frontend> Extractor for F {
    open spec fn spec_language_id(&self) -> Seq<char> {
        F::Lang::ID@
    }

    open spec fn spec_detect(&self, files: Seq<Seq<char>>) -> bool {
        Frontend::spec_detect(self, files)
    }

    fn language_id(&self) -> (r: &'static str) {
        <F::Lang as Language>::ID
    }

    fn detect(&self, project: &Project) -> (r: bool) {
        Frontend::detect(self, project)
    }

    /// The frontend's error unchanged, or what the well-formed builder it
    /// populated, recording the frontend's tool version, finishes into.
    open spec fn extract_result(&self, req: ExtractRequest, project: Project, r: Result<CrateGraph, ExtractError>) -> bool {
        exists|p: Result<(), ExtractError>, s: BuilderState|
            state_wf(s) && s.provenance == Frontend::spec_tool_version(self) && #[trigger] extract_outcome(p, s, r)
    }

    /// Populates a fresh builder recording the tool version, then finishes it:
    /// whatever the frontend did, the result is its error unchanged, or what
    /// the well-formed builder it left finishes into.
    fn extract(&self, req: &ExtractRequest, project: &Project) -> (r: Result<CrateGraph, ExtractError>)
        ensures
            r matches Ok(g) ==> g.ra_version@ == Frontend::spec_tool_version(self),
    {
        let tool = self.tool_version();
        let mut builder = CrateGraphBuilder::new(tool.as_str());
        let populated = self.populate(req, project, &mut builder);
        let ghost s = builder.state();
        let r = finish_populated(populated, builder);
        assert(state_wf(s) && s.provenance == Frontend::spec_tool_version(self) && extract_outcome(populated, s, r));
        r
    }
}

/// What extraction returns once a frontend has left a builder in state `s`
/// with outcome `populated`: the frontend's error unchanged; else no crate, or
/// the keys registered more than once, as a build error; else the graph the
/// builder finishes into.
pub open spec fn extract_outcome(populated: Result<(), ExtractError>, s: BuilderState, r: Result<CrateGraph, ExtractError>) -> bool {
    match populated {
        Err(e) => r == Err::<CrateGraph, ExtractError>(e),
        Ok(_) => if !has_crate(s) {
            r matches Err(ExtractError::Build(BuildError::NoCrate))
        } else if s.duplicate_keys.len() > 0 {
            r matches Err(ExtractError::Build(BuildError::DuplicateKeys(d))) && d@.map_values(|k: String| k@) == s.duplicate_keys
        } else {
            r matches Ok(g) && finished_from(s, g)
        },
    }
}

/// Finishes an extraction after a frontend populated `builder` with outcome
/// `populated`: its error is returned unchanged, else the builder is finished.
pub fn finish_populated(populated: Result<(), ExtractError>, builder: CrateGraphBuilder) -> (r: Result<CrateGraph, ExtractError>)
    requires
        builder.wf(),
        builder.pending_edges().len() <= u32::MAX,
    ensures
        extract_outcome(populated, builder.state(), r),
{
    match populated {
        Err(e) => Err(e),
        Ok(()) => match builder.finish() {
            Ok(graph) => Ok(graph),
            Err(e) => Err(ExtractError::Build(e)),
        },
    }
}

/// The position of the first extractor of language `id`.
pub open spec fn first_of_language(exts: Seq<Box<dyn Extractor>>, id: Seq<char>, i: int) -> bool {
    &&& 0 <= i < exts.len()
    &&& exts[i].spec_language_id() == id
    &&& forall|j: int| 0 <= j < i ==> (#[trigger] exts[j]).spec_language_id() != id
}

/// The position of the first extractor that recognizes a project with these
/// root files.
pub open spec fn first_detecting(exts: Seq<Box<dyn Extractor>>, files: Seq<Seq<char>>, i: int) -> bool {
    &&& 0 <= i < exts.len()
    &&& exts[i].spec_detect(files)
    &&& forall|j: int| 0 <= j < i ==> !(#[trigger] exts[j]).spec_detect(files)
}

/// A set of available extractors, for detection and dispatch.
pub struct Registry {
    extractors: Vec<Box<dyn Extractor>>,
}

impl Registry {
    /// The registered extractors, in registration order.
    pub closed spec fn extractors(self) -> Seq<Box<dyn Extractor>> {
        self.extractors@
    }

    /// An empty registry.
    pub fn new() -> (r: Self)
        ensures
            r.extractors().len() == 0,
    {
        Registry { extractors: Vec::new() }
    }

    /// Registers an extractor after the ones already registered, and hands
    /// the registry back for chaining.
    pub fn register(&mut self, extractor: Box<dyn Extractor>) -> (r: &mut Self)
        ensures
            r.extractors() == old(self).extractors().push(extractor),
            *final(self) == *final(r),
    {
        self.extractors.push(extractor);
        self
    }

    /// The position of the first registered extractor for language `id`.
    pub fn position_of_language(&self, id: &str) -> (r: Option<usize>)
        ensures
            r matches Some(i) ==> first_of_language(self.extractors(), id@, i as int),
            r is None ==> forall|j: int| 0 <= j < self.extractors().len() ==> (#[trigger] self.extractors()[j]).spec_language_id() != id@,
    {
        let mut i: usize = 0;
        while i < self.extractors.len()
            invariant
                i <= self.extractors@.len(),
                forall|j: int| 0 <= j < i ==> (#[trigger] self.extractors@[j]).spec_language_id() != id@,
            decreases self.extractors@.len() - i,
        {
            let lid = self.extractors[i].language_id();
            if str_eq(lid, id) {
                return Some(i);
            }
            i = i + 1;
        }
        None
    }

    /// The position of the first registered extractor that recognizes `project`.
    pub fn position_detecting(&self, project: &Project) -> (r: Option<usize>)
        ensures
            r matches Some(i) ==> first_detecting(self.extractors(), project_files(project), i as int),
            r is None ==> forall|j: int| 0 <= j < self.extractors().len() ==> !(#[trigger] self.extractors()[j]).spec_detect(project_files(project)),
    {
        let mut i: usize = 0;
        while i < self.extractors.len()
            invariant
                i <= self.extractors@.len(),
                forall|j: int| 0 <= j < i ==> !(#[trigger] self.extractors@[j]).spec_detect(project_files(project)),
            decreases self.extractors@.len() - i,
        {
            if self.extractors[i].detect(project) {
                return Some(i);
            }
            i = i + 1;
        }
        None
    }

    /// The first registered extractor for language `id`, if any (the boxed
    /// extractor as it was registered).
    pub fn for_language(&self, id: &str) -> (r: Option<&Box<dyn Extractor>>)
        ensures
            r matches Some(e) ==> exists|i: int| first_of_language(self.extractors(), id@, i) && *e == self.extractors()[i],
            r is None ==> forall|j: int| 0 <= j < self.extractors().len() ==> (#[trigger] self.extractors()[j]).spec_language_id() != id@,
    {
        match self.position_of_language(id) {
            Some(i) => Some(&self.extractors[i]),
            None => None,
        }
    }

    /// The first registered extractor that recognizes `project`, if any (the
    /// boxed extractor as it was registered).
    pub fn detect(&self, project: &Project) -> (r: Option<&Box<dyn Extractor>>)
        ensures
            r matches Some(e) ==> exists|i: int| first_detecting(self.extractors(), project_files(project), i) && *e == self.extractors()[i],
            r is None ==> forall|j: int| 0 <= j < self.extractors().len() ==> !(#[trigger] self.extractors()[j]).spec_detect(project_files(project)),
    {
        match self.position_detecting(project) {
            Some(i) => Some(&self.extractors[i]),
            None => None,
        }
    }

    /// Extracts `req` with the first registered extractor of its pinned
    /// language or, with none pinned, the first that recognizes the project;
    /// the result is that extractor's. Fails when the pinned language has no
    /// extractor, or when none recognizes the project.
    pub fn extract(&self, req: &ExtractRequest, project: &Project) -> (r: Result<CrateGraph, ExtractError>)
        ensures
            match req.language {
                Some(id) => if exists|i: int| first_of_language(self.extractors(), id@, i) {
                    exists|i: int| first_of_language(self.extractors(), id@, i) && #[trigger] self.extractors()[i].extract_result(*req, *project, r)
                } else {
                    r matches Err(ExtractError::NoExtractorForLanguage(l)) && l@ == id@
                },
                None => if exists|i: int| first_detecting(self.extractors(), project_files(project), i) {
                    exists|i: int| first_detecting(self.extractors(), project_files(project), i) && #[trigger] self.extractors()[i].extract_result(*req, *project, r)
                } else {
                    r matches Err(ExtractError::CouldNotDetect(root)) && root@ == req.root@
                },
            },
            r matches Ok(g) ==> graph_is_built(g),
    {
        let i = match &req.language {
            Some(id) => match self.position_of_language(id.as_str()) {
                Some(i) => i,
                None => {
                    proof {
                        lemma_no_first_of_language(self.extractors(), id@);
                    }
                    return Err(ExtractError::NoExtractorForLanguage(id.clone()));
                },
            },
            None => match self.position_detecting(project) {
                Some(i) => i,
                None => {
                    proof {
                        lemma_no_first_detecting(self.extractors(), project_files(project));
                    }
                    return Err(ExtractError::CouldNotDetect(req.root.clone()));
                },
            },
        };
        let r = self.extractors[i].extract(req, project);
        assert(self.extractors()[i as int].extract_result(*req, *project, r));
        r
    }
}

/// With no extractor of language `id`, there is no first one.
proof fn lemma_no_first_of_language(exts: Seq<Box<dyn Extractor>>, id: Seq<char>)
    requires
        forall|j: int| 0 <= j < exts.len() ==> (#[trigger] exts[j]).spec_language_id() != id,
    ensures
        !exists|i: int| first_of_language(exts, id, i),
{
}

/// With no extractor recognizing the files, there is no first one.
proof fn lemma_no_first_detecting(exts: Seq<Box<dyn Extractor>>, files: Seq<Seq<char>>)
    requires
        forall|j: int| 0 <= j < exts.len() ==> !(#[trigger] exts[j]).spec_detect(files),
    ensures
        !exists|i: int| first_detecting(exts, files, i),
{
}

} // verus!
