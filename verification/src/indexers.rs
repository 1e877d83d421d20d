//! The per-language SCIP indexers: how each recognizes a project and which
//! command indexes it.
//!
//! Indexing happens in the user's environment (a built, dependency-installed
//! project), so an indexer only assembles a command, preferring an indexer
//! already on `PATH` and otherwise an ecosystem runner with a pinned version.
//! Which programs are on `PATH` is the caller's to find out: it hands in a
//! [`Toolbox`] of the [`indexer_programs`] that it found.

use vstd::prelude::*;
use crate::extract_api::{project_files, Project};
use crate::paths::{extension_of, file_name_of, spec_extension, std_file_name};
use crate::scip_lower::str_views;
use crate::text::{chars_of, concat, str_eq};

verus! {

/// A command to run: the program, its arguments, its working directory (or
/// the caller's) and the environment variables it sets.
#[derive(Clone, Debug)]
pub struct CommandSpec {
    pub program: String,
    pub args: Vec<String>,
    pub cwd: Option<String>,
    pub env: Vec<(String, String)>,
}

/// A command, by value.
pub struct CommandView {
    pub program: Seq<char>,
    pub args: Seq<Seq<char>>,
    pub cwd: Option<Seq<char>>,
    pub env: Seq<(Seq<char>, Seq<char>)>,
}

impl View for CommandSpec {
    type V = CommandView;

    open spec fn view(&self) -> CommandView {
        CommandView {
            program: self.program@,
            args: str_views(self.args@),
            cwd: match self.cwd {
                Some(c) => Some(c@),
                None => None,
            },
            env: self.env@.map_values(|e: (String, String)| (e.0@, e.1@)),
        }
    }
}

/// The programs found on `PATH`, among those the indexers may run.
#[derive(Clone, Debug)]
pub struct Toolbox {
    pub on_path: Vec<String>,
}

/// The names of the programs on `PATH`, by value.
pub open spec fn tool_names(t: &Toolbox) -> Seq<Seq<char>> {
    str_views(t.on_path@)
}

impl Toolbox {
    /// Whether `program` is on `PATH`.
    pub fn has(&self, program: &str) -> (r: bool)
        ensures
            r == tool_names(self).contains(program@),
    {
        let mut i: usize = 0;
        while i < self.on_path.len()
            invariant
                i <= self.on_path@.len(),
                forall|j: int| 0 <= j < i ==> self.on_path@[j]@ != program@,
            decreases self.on_path@.len() - i,
        {
            if str_eq(self.on_path[i].as_str(), program) {
                assert(tool_names(self)[i as int] == program@);
                return true;
            }
            i = i + 1;
        }
        assert forall|j: int| 0 <= j < tool_names(self).len() implies tool_names(self)[j] != program@ by {
            assert(tool_names(self)[j] == self.on_path@[j]@);
        }
        false
    }
}

/// Every program an indexer may run, for the caller to look up on `PATH`.
pub fn indexer_programs() -> (r: Vec<&'static str>)
    ensures
        r@.len() == 9,
{
    vec!["scip-typescript", "npx", "scip-python", "scip-go", "go", "scip-java", "cs", "scip-dotnet", "scip-clang"]
}

/// A command with no working directory and no environment.
pub open spec fn plain(program: Seq<char>, args: Seq<Seq<char>>) -> CommandView {
    CommandView { program, args, cwd: None, env: Seq::empty() }
}

/// A command run in `cwd`.
pub open spec fn in_dir(program: Seq<char>, args: Seq<Seq<char>>, cwd: Seq<char>) -> CommandView {
    CommandView { program, args, cwd: Some(cwd), env: Seq::empty() }
}

/// A per-language SCIP indexer that produces a `.scip` index.
pub trait ScipIndexer {
    /// Which indexer this is (its program's name).
    spec fn spec_name(&self) -> Seq<char>;

    /// Whether a project with these files is one this indexer handles.
    spec fn spec_detect(&self, files: Seq<Seq<char>>) -> bool;

    /// The command for `root`, writing to `output`, given the programs on
    /// `PATH` and the project's files.
    spec fn spec_command(&self, root: Seq<char>, output: Seq<char>, tools: Seq<Seq<char>>, files: Seq<Seq<char>>) -> Option<CommandView>;

    /// The one-line hint shown when no command can be assembled.
    spec fn spec_install_hint(&self) -> Seq<char>;

    /// Whether `project` looks like a project this indexer handles.
    fn detect(&self, project: &Project) -> (r: bool)
        ensures
            r == self.spec_detect(project_files(project));

    /// The command that indexes the project at `root`, writing the index to
    /// `output`. Prefers an on-`PATH` binary, else an ecosystem runner; `None`
    /// when neither is available, in which case the caller surfaces
    /// [`install_hint`](Self::install_hint).
    fn command(&self, root: &str, output: &str, tools: &Toolbox, project: &Project) -> (r: Option<CommandSpec>)
        ensures
            r matches Some(c) ==> self.spec_command(root@, output@, tool_names(tools), project_files(project)) == Some(c@),
            r is None ==> self.spec_command(root@, output@, tool_names(tools), project_files(project)) is None;

    /// A one-line hint shown when the indexer cannot be assembled.
    fn install_hint(&self) -> (r: &'static str)
        ensures
            r@ == self.spec_install_hint();
}

/// Appends `s` to `v`.
fn push_arg(v: &mut Vec<String>, s: &str)
    ensures
        str_views(final(v)@) == str_views(old(v)@).push(s@),
{
    let ghost before = v@;
    v.push(s.to_owned());
    assert(str_views(v@) =~= str_views(before).push(s@));
}

/// A command from its parts.
fn make_command(program: &str, args: Vec<String>, cwd: Option<&str>) -> (r: CommandSpec)
    ensures
        r@ == (CommandView {
            program: program@,
            args: str_views(args@),
            cwd: match cwd {
                Some(c) => Some(c@),
                None => None::<Seq<char>>,
            },
            env: Seq::empty(),
        }),
{
    let cwd = match cwd {
        Some(c) => Some(c.to_owned()),
        None => None,
    };
    let r = CommandSpec { program: program.to_owned(), args, cwd, env: Vec::new() };
    assert(r@.env =~= Seq::empty());
    r
}

/// The pinned `scip-typescript` version fetched via `npx` when it is not on `PATH`.
pub const SCIP_TYPESCRIPT_VERSION: &'static str = "0.3.16";

/// The pinned `scip-python` version fetched via `npx` when it is not on `PATH`.
pub const SCIP_PYTHON_VERSION: &'static str = "0.6.6";

/// The pinned `scip-go` version fetched via `go run` when it is not on `PATH`.
pub const SCIP_GO_VERSION: &'static str = "v0.2.7";

/// The pinned `scip-java` version fetched via `coursier` when it is not on `PATH`.
pub const SCIP_JAVA_VERSION: &'static str = "0.12.3";

/// Appends the arguments that tell `scip-typescript` what to index.
fn ts_index_args(v: &mut Vec<String>, root: &str, output: &str)
    ensures
        str_views(final(v)@) == str_views(old(v)@) + ts_args(root@, output@),
{
    let ghost before = str_views(v@);
    push_arg(v, "index");
    push_arg(v, "--cwd");
    push_arg(v, root);
    push_arg(v, "--output");
    push_arg(v, output);
    push_arg(v, "--no-progress-bar");
    assert(str_views(v@) =~= before + ts_args(root@, output@));
}

/// The `scip-typescript` arguments for `root` and `output`.
pub open spec fn ts_args(root: Seq<char>, output: Seq<char>) -> Seq<Seq<char>> {
    seq!["index"@, "--cwd"@, root, "--output"@, output, "--no-progress-bar"@]
}

/// The TypeScript and JavaScript indexer, `scip-typescript`.
#[derive(Clone, Copy, Debug, Default)]
pub struct TypeScriptIndexer;

impl ScipIndexer for TypeScriptIndexer {
    open spec fn spec_name(&self) -> Seq<char> {
        "scip-typescript"@
    }

    open spec fn spec_detect(&self, files: Seq<Seq<char>>) -> bool {
        files.contains("tsconfig.json"@) || files.contains("package.json"@)
    }

    open spec fn spec_command(&self, root: Seq<char>, output: Seq<char>, tools: Seq<Seq<char>>, files: Seq<Seq<char>>) -> Option<CommandView> {
        if tools.contains("scip-typescript"@) {
            Some(plain("scip-typescript"@, ts_args(root, output)))
        } else if tools.contains("npx"@) {
            Some(plain("npx"@, seq!["-y"@, "@sourcegraph/scip-typescript@"@ + SCIP_TYPESCRIPT_VERSION@] + ts_args(root, output)))
        } else {
            None
        }
    }

    open spec fn spec_install_hint(&self) -> Seq<char> {
        "install Node so `npx` is available, or `npm i -g @sourcegraph/scip-typescript`"@
    }

    fn detect(&self, project: &Project) -> (r: bool) {
        project.has_file("tsconfig.json") || project.has_file("package.json")
    }

    fn command(&self, root: &str, output: &str, tools: &Toolbox, project: &Project) -> (r: Option<CommandSpec>) {
        if tools.has("scip-typescript") {
            let mut args: Vec<String> = Vec::new();
            ts_index_args(&mut args, root, output);
            assert(str_views(args@) =~= ts_args(root@, output@));
            Some(make_command("scip-typescript", args, None))
        } else if tools.has("npx") {
            let mut args: Vec<String> = Vec::new();
            push_arg(&mut args, "-y");
            let pkg = concat("@sourcegraph/scip-typescript@", SCIP_TYPESCRIPT_VERSION);
            push_arg(&mut args, pkg.as_str());
            ts_index_args(&mut args, root, output);
            assert(str_views(args@) =~= seq!["-y"@, "@sourcegraph/scip-typescript@"@ + SCIP_TYPESCRIPT_VERSION@] + ts_args(root@, output@));
            Some(make_command("npx", args, None))
        } else {
            None
        }
    }

    fn install_hint(&self) -> (r: &'static str) {
        "install Node so `npx` is available, or `npm i -g @sourcegraph/scip-typescript`"
    }
}

/// The `scip-python` arguments for `root`, `output` and the project name.
pub open spec fn py_args(root: Seq<char>, output: Seq<char>, project: Seq<char>) -> Seq<Seq<char>> {
    seq!["index"@, "--cwd"@, root, "--output"@, output, "--project-name"@, project, "--quiet"@]
}

/// The project name `scip-python` is given: the root's final component, or
/// `project`.
pub open spec fn py_project(root: Seq<char>) -> Seq<char> {
    match std_file_name(root) {
        Some(n) => n,
        None => "project"@,
    }
}

/// Appends the arguments that tell `scip-python` what to index.
fn py_index_args(v: &mut Vec<String>, root: &str, output: &str, project: &str)
    ensures
        str_views(final(v)@) == str_views(old(v)@) + py_args(root@, output@, project@),
{
    let ghost before = str_views(v@);
    push_arg(v, "index");
    push_arg(v, "--cwd");
    push_arg(v, root);
    push_arg(v, "--output");
    push_arg(v, output);
    push_arg(v, "--project-name");
    push_arg(v, project);
    push_arg(v, "--quiet");
    assert(str_views(v@) =~= before + py_args(root@, output@, project@));
}

/// The Python indexer, `scip-python` (built on pyright, distributed on npm).
///
/// It resolves through the project's installed environment, so for full
/// results the project's dependencies should be installed before indexing.
#[derive(Clone, Copy, Debug, Default)]
pub struct PythonIndexer;

impl ScipIndexer for PythonIndexer {
    open spec fn spec_name(&self) -> Seq<char> {
        "scip-python"@
    }

    open spec fn spec_detect(&self, files: Seq<Seq<char>>) -> bool {
        files.contains("pyproject.toml"@) || files.contains("setup.py"@) || files.contains("setup.cfg"@)
    }

    open spec fn spec_command(&self, root: Seq<char>, output: Seq<char>, tools: Seq<Seq<char>>, files: Seq<Seq<char>>) -> Option<CommandView> {
        if tools.contains("scip-python"@) {
            Some(plain("scip-python"@, py_args(root, output, py_project(root))))
        } else if tools.contains("npx"@) {
            Some(plain("npx"@, seq!["-y"@, "@sourcegraph/scip-python@"@ + SCIP_PYTHON_VERSION@] + py_args(root, output, py_project(root))))
        } else {
            None
        }
    }

    open spec fn spec_install_hint(&self) -> Seq<char> {
        "install Node so `npx` is available, or `npm i -g @sourcegraph/scip-python`"@
    }

    fn detect(&self, project: &Project) -> (r: bool) {
        project.has_file("pyproject.toml") || project.has_file("setup.py") || project.has_file("setup.cfg")
    }

    fn command(&self, root: &str, output: &str, tools: &Toolbox, project: &Project) -> (r: Option<CommandSpec>) {
        let name = match file_name_of(root) {
            Some(n) => n,
            None => "project".to_owned(),
        };
        assert(name@ == py_project(root@));
        if tools.has("scip-python") {
            let mut args: Vec<String> = Vec::new();
            py_index_args(&mut args, root, output, name.as_str());
            assert(str_views(args@) =~= py_args(root@, output@, name@));
            Some(make_command("scip-python", args, None))
        } else if tools.has("npx") {
            let mut args: Vec<String> = Vec::new();
            push_arg(&mut args, "-y");
            let pkg = concat("@sourcegraph/scip-python@", SCIP_PYTHON_VERSION);
            push_arg(&mut args, pkg.as_str());
            py_index_args(&mut args, root, output, name.as_str());
            assert(str_views(args@) =~= seq!["-y"@, "@sourcegraph/scip-python@"@ + SCIP_PYTHON_VERSION@] + py_args(root@, output@, name@));
            Some(make_command("npx", args, None))
        } else {
            None
        }
    }

    fn install_hint(&self) -> (r: &'static str) {
        "install Node so `npx` is available, or `npm i -g @sourcegraph/scip-python`"
    }
}

/// The `scip-go` arguments for `root` and `output`.
pub open spec fn go_args(root: Seq<char>, output: Seq<char>) -> Seq<Seq<char>> {
    seq!["index"@, "--module-root"@, root, "--output"@, output, "--quiet"@]
}

/// Appends the arguments that tell `scip-go` what to index.
fn go_index_args(v: &mut Vec<String>, root: &str, output: &str)
    ensures
        str_views(final(v)@) == str_views(old(v)@) + go_args(root@, output@),
{
    let ghost before = str_views(v@);
    push_arg(v, "index");
    push_arg(v, "--module-root");
    push_arg(v, root);
    push_arg(v, "--output");
    push_arg(v, output);
    push_arg(v, "--quiet");
    assert(str_views(v@) =~= before + go_args(root@, output@));
}

/// The Go indexer, `scip-go`. Distributed as a Go program, so the
/// fetch-and-run form is `go run <package>@version`, letting the Go toolchain
/// upgrade itself.
#[derive(Clone, Copy, Debug, Default)]
pub struct GoIndexer;

impl ScipIndexer for GoIndexer {
    open spec fn spec_name(&self) -> Seq<char> {
        "scip-go"@
    }

    open spec fn spec_detect(&self, files: Seq<Seq<char>>) -> bool {
        files.contains("go.mod"@)
    }

    open spec fn spec_command(&self, root: Seq<char>, output: Seq<char>, tools: Seq<Seq<char>>, files: Seq<Seq<char>>) -> Option<CommandView> {
        if tools.contains("scip-go"@) {
            Some(plain("scip-go"@, go_args(root, output)))
        } else if tools.contains("go"@) {
            Some(CommandView {
                program: "go"@,
                args: seq!["run"@, "github.com/scip-code/scip-go/cmd/scip-go@"@ + SCIP_GO_VERSION@] + go_args(root, output),
                cwd: None,
                env: seq![("GOTOOLCHAIN"@, "auto"@)],
            })
        } else {
            None
        }
    }

    open spec fn spec_install_hint(&self) -> Seq<char> {
        "install Go (for `go run`), or scip-go from github.com/scip-code/scip-go"@
    }

    fn detect(&self, project: &Project) -> (r: bool) {
        project.has_file("go.mod")
    }

    fn command(&self, root: &str, output: &str, tools: &Toolbox, project: &Project) -> (r: Option<CommandSpec>) {
        if tools.has("scip-go") {
            let mut args: Vec<String> = Vec::new();
            go_index_args(&mut args, root, output);
            assert(str_views(args@) =~= go_args(root@, output@));
            Some(make_command("scip-go", args, None))
        } else if tools.has("go") {
            let mut args: Vec<String> = Vec::new();
            push_arg(&mut args, "run");
            let pkg = concat("github.com/scip-code/scip-go/cmd/scip-go@", SCIP_GO_VERSION);
            push_arg(&mut args, pkg.as_str());
            go_index_args(&mut args, root, output);
            assert(str_views(args@) =~= seq!["run"@, "github.com/scip-code/scip-go/cmd/scip-go@"@ + SCIP_GO_VERSION@] + go_args(root@, output@));
            let mut c = make_command("go", args, None);
            c.env.push(("GOTOOLCHAIN".to_owned(), "auto".to_owned()));
            assert(c@.env =~= seq![("GOTOOLCHAIN"@, "auto"@)]);
            Some(c)
        } else {
            None
        }
    }

    fn install_hint(&self) -> (r: &'static str) {
        "install Go (for `go run`), or scip-go from github.com/scip-code/scip-go"
    }
}

/// The JVM indexer, `scip-java` (Java, Kotlin, Scala and other JVM languages).
///
/// It rides the project's own build tool to compile with the semanticdb
/// plugin, and reads the build from its working directory, so the command
/// runs in the project root. The fetch-and-run form uses coursier (`cs launch`).
#[derive(Clone, Copy, Debug, Default)]
pub struct JvmIndexer;

impl ScipIndexer for JvmIndexer {
    open spec fn spec_name(&self) -> Seq<char> {
        "scip-java"@
    }

    open spec fn spec_detect(&self, files: Seq<Seq<char>>) -> bool {
        files.contains("pom.xml"@) || files.contains("build.gradle"@) || files.contains("build.gradle.kts"@)
            || files.contains("build.sbt"@)
    }

    open spec fn spec_command(&self, root: Seq<char>, output: Seq<char>, tools: Seq<Seq<char>>, files: Seq<Seq<char>>) -> Option<CommandView> {
        if tools.contains("scip-java"@) {
            Some(in_dir("scip-java"@, seq!["index"@, "--output"@, output], root))
        } else if tools.contains("cs"@) {
            Some(in_dir(
                "cs"@,
                seq!["launch"@, "com.sourcegraph:scip-java_2.13:"@ + SCIP_JAVA_VERSION@, "--"@, "index"@, "--output"@, output],
                root,
            ))
        } else {
            None
        }
    }

    open spec fn spec_install_hint(&self) -> Seq<char> {
        "install coursier (`cs`) so scip-java can be fetched, see https://get-coursier.io"@
    }

    fn detect(&self, project: &Project) -> (r: bool) {
        project.has_file("pom.xml") || project.has_file("build.gradle") || project.has_file("build.gradle.kts")
            || project.has_file("build.sbt")
    }

    fn command(&self, root: &str, output: &str, tools: &Toolbox, project: &Project) -> (r: Option<CommandSpec>) {
        if tools.has("scip-java") {
            let mut args: Vec<String> = Vec::new();
            push_arg(&mut args, "index");
            push_arg(&mut args, "--output");
            push_arg(&mut args, output);
            assert(str_views(args@) =~= seq!["index"@, "--output"@, output@]);
            Some(make_command("scip-java", args, Some(root)))
        } else if tools.has("cs") {
            let mut args: Vec<String> = Vec::new();
            push_arg(&mut args, "launch");
            let pkg = concat("com.sourcegraph:scip-java_2.13:", SCIP_JAVA_VERSION);
            push_arg(&mut args, pkg.as_str());
            push_arg(&mut args, "--");
            push_arg(&mut args, "index");
            push_arg(&mut args, "--output");
            push_arg(&mut args, output);
            assert(str_views(args@) =~= seq!["launch"@, "com.sourcegraph:scip-java_2.13:"@ + SCIP_JAVA_VERSION@, "--"@, "index"@, "--output"@, output@]);
            Some(make_command("cs", args, Some(root)))
        } else {
            None
        }
    }

    fn install_hint(&self) -> (r: &'static str) {
        "install coursier (`cs`) so scip-java can be fetched, see https://get-coursier.io"
    }
}

/// A character's code with ASCII upper case folded to lower case.
pub open spec fn ascii_fold(c: char) -> u32 {
    let n = c as u32;
    if 65 <= n <= 90 { (n + 32) as u32 } else { n }
}

/// Whether two strings are equal ignoring ASCII case.
pub open spec fn eq_ignore_ascii_case(a: Seq<char>, b: Seq<char>) -> bool {
    a.len() == b.len() && forall|i: int| 0 <= i < a.len() ==> ascii_fold(#[trigger] a[i]) == ascii_fold(b[i])
}

/// Whether two strings are equal ignoring ASCII case.
fn same_ignoring_ascii_case(a: &str, b: &str) -> (r: bool)
    ensures
        r == eq_ignore_ascii_case(a@, b@),
{
    let x = chars_of(a);
    let y = chars_of(b);
    if x.len() != y.len() {
        return false;
    }
    let mut i: usize = 0;
    while i < x.len()
        invariant
            i <= x@.len(),
            x@.len() == y@.len(),
            x@ == a@,
            y@ == b@,
            forall|j: int| 0 <= j < i ==> ascii_fold(#[trigger] x@[j]) == ascii_fold(y@[j]),
        decreases x@.len() - i,
    {
        let p = x[i] as u32;
        let q = y[i] as u32;
        let fp = if 65 <= p && p <= 90 { p + 32 } else { p };
        let fq = if 65 <= q && q <= 90 { q + 32 } else { q };
        if fp != fq {
            return false;
        }
        i = i + 1;
    }
    true
}

/// Whether a project file lies directly in the root and has one of
/// `extensions` (compared ignoring ASCII case).
pub open spec fn root_file_with_extension(f: Seq<char>, extensions: Seq<Seq<char>>) -> bool {
    &&& !f.contains('/')
    &&& spec_extension(f) is Some
    &&& exists|k: int| 0 <= k < extensions.len() && eq_ignore_ascii_case(spec_extension(f)->0, #[trigger] extensions[k])
}

/// Whether the project root directly contains a file with one of `extensions`
/// (without their leading dot), used to spot a C# solution or project file.
pub fn has_file_with_extension(project: &Project, extensions: &Vec<&str>) -> (r: bool)
    ensures
        r == exists|i: int| 0 <= i < project_files(project).len()
            && root_file_with_extension(#[trigger] project_files(project)[i], extensions@.map_values(|e: &str| e@)),
{
    let ghost files = project_files(project);
    let ghost exts = extensions@.map_values(|e: &str| e@);
    let mut i: usize = 0;
    while i < project.files.len()
        invariant
            i <= project.files@.len(),
            files == project_files(project),
            exts == extensions@.map_values(|e: &str| e@),
            forall|j: int| 0 <= j < i ==> !root_file_with_extension(#[trigger] files[j], exts),
        decreases project.files@.len() - i,
    {
        let f = &project.files[i];
        assert(files[i as int] == f@);
        let cs = chars_of(f.as_str());
        let mut slash = false;
        let mut k: usize = 0;
        while k < cs.len()
            invariant
                k <= cs@.len(),
                cs@ == f@,
                slash == exists|j: int| 0 <= j < k && cs@[j] == '/',
            decreases cs@.len() - k,
        {
            if cs[k] == '/' {
                slash = true;
            }
            k = k + 1;
        }
        assert(slash == f@.contains('/'));
        if !slash {
            match extension_of(f.as_str()) {
                Some(ext) => {
                    let mut e: usize = 0;
                    while e < extensions.len()
                        invariant
                            e <= extensions@.len(),
                            exts == extensions@.map_values(|x: &str| x@),
                            spec_extension(f@) == Some(ext@),
                            i < project.files@.len(),
                            files == project_files(project),
                            files[i as int] == f@,
                            !f@.contains('/'),
                            forall|j: int| 0 <= j < e ==> !eq_ignore_ascii_case(ext@, #[trigger] exts[j]),
                        decreases extensions@.len() - e,
                    {
                        assert(exts[e as int] == extensions@[e as int]@);
                        if same_ignoring_ascii_case(ext.as_str(), extensions[e]) {
                            assert(root_file_with_extension(files[i as int], exts));
                            return true;
                        }
                        e = e + 1;
                    }
                },
                None => {},
            }
        }
        i = i + 1;
    }
    false
}

/// The C# (.NET) indexer, `scip-dotnet`.
///
/// It loads the project through MSBuild, so the .NET SDK must be present.
/// There is no fetch-and-run form: when it is not on `PATH` the command is
/// `None`. It finds the `.sln` or `.csproj` in its working directory, so the
/// command runs in the project root.
#[derive(Clone, Copy, Debug, Default)]
pub struct DotNetIndexer;

/// The extensions of a C# solution or project file.
pub open spec fn dotnet_exts() -> Seq<Seq<char>> {
    seq!["sln"@, "csproj"@]
}

impl ScipIndexer for DotNetIndexer {
    open spec fn spec_name(&self) -> Seq<char> {
        "scip-dotnet"@
    }

    open spec fn spec_detect(&self, files: Seq<Seq<char>>) -> bool {
        exists|i: int| 0 <= i < files.len() && root_file_with_extension(#[trigger] files[i], dotnet_exts())
    }

    open spec fn spec_command(&self, root: Seq<char>, output: Seq<char>, tools: Seq<Seq<char>>, files: Seq<Seq<char>>) -> Option<CommandView> {
        if tools.contains("scip-dotnet"@) {
            Some(in_dir("scip-dotnet"@, seq!["index"@, "--output"@, output], root))
        } else {
            None
        }
    }

    open spec fn spec_install_hint(&self) -> Seq<char> {
        "install the .NET SDK, then `dotnet tool install --global scip-dotnet`"@
    }

    fn detect(&self, project: &Project) -> (r: bool) {
        let exts = vec!["sln", "csproj"];
        assert(exts@.map_values(|e: &str| e@) =~= dotnet_exts());
        has_file_with_extension(project, &exts)
    }

    fn command(&self, root: &str, output: &str, tools: &Toolbox, project: &Project) -> (r: Option<CommandSpec>) {
        if tools.has("scip-dotnet") {
            let mut args: Vec<String> = Vec::new();
            push_arg(&mut args, "index");
            push_arg(&mut args, "--output");
            push_arg(&mut args, output);
            assert(str_views(args@) =~= seq!["index"@, "--output"@, output@]);
            Some(make_command("scip-dotnet", args, Some(root)))
        } else {
            None
        }
    }

    fn install_hint(&self) -> (r: &'static str) {
        "install the .NET SDK, then `dotnet tool install --global scip-dotnet`"
    }
}

/// The C and C++ indexer, `scip-clang`.
///
/// It indexes from a JSON compilation database (`compile_commands.json`),
/// which the project's build system emits, looked for in the root and in a
/// `build/` subdirectory. There is no fetch-and-run form, and it must run from
/// the project root. It records no enclosing ranges, so edges come from the
/// lowering's nearest-definition fallback.
#[derive(Clone, Copy, Debug, Default)]
pub struct CppIndexer;

/// The compilation database of a project, relative to its root, if present.
pub open spec fn spec_compdb(files: Seq<Seq<char>>) -> Option<Seq<char>> {
    if files.contains("compile_commands.json"@) {
        Some("compile_commands.json"@)
    } else if files.contains("build/compile_commands.json"@) {
        Some("build/compile_commands.json"@)
    } else {
        None
    }
}

impl CppIndexer {
    /// The compilation database location, if present, relative to the root.
    pub fn compdb(project: &Project) -> (r: Option<&'static str>)
        ensures
            r matches Some(p) ==> spec_compdb(project_files(project)) == Some(p@),
            r is None ==> spec_compdb(project_files(project)) is None,
    {
        if project.has_file("compile_commands.json") {
            Some("compile_commands.json")
        } else if project.has_file("build/compile_commands.json") {
            Some("build/compile_commands.json")
        } else {
            None
        }
    }
}

impl ScipIndexer for CppIndexer {
    open spec fn spec_name(&self) -> Seq<char> {
        "scip-clang"@
    }

    open spec fn spec_detect(&self, files: Seq<Seq<char>>) -> bool {
        spec_compdb(files) is Some || files.contains("CMakeLists.txt"@)
    }

    open spec fn spec_command(&self, root: Seq<char>, output: Seq<char>, tools: Seq<Seq<char>>, files: Seq<Seq<char>>) -> Option<CommandView> {
        if !tools.contains("scip-clang"@) {
            None
        } else {
            match spec_compdb(files) {
                Some(db) => Some(in_dir(
                    "scip-clang"@,
                    seq!["--compdb-path="@ + db, "--index-output-path="@ + output],
                    root,
                )),
                None => None,
            }
        }
    }

    open spec fn spec_install_hint(&self) -> Seq<char> {
        "install scip-clang from github.com/sourcegraph/scip-clang and emit a compile_commands.json (CMake: -DCMAKE_EXPORT_COMPILE_COMMANDS=ON)"@
    }

    fn detect(&self, project: &Project) -> (r: bool) {
        Self::compdb(project).is_some() || project.has_file("CMakeLists.txt")
    }

    fn command(&self, root: &str, output: &str, tools: &Toolbox, project: &Project) -> (r: Option<CommandSpec>) {
        if !tools.has("scip-clang") {
            return None;
        }
        let db = match Self::compdb(project) {
            Some(db) => db,
            None => return None,
        };
        let mut args: Vec<String> = Vec::new();
        let a = concat("--compdb-path=", db);
        push_arg(&mut args, a.as_str());
        let b = concat("--index-output-path=", output);
        push_arg(&mut args, b.as_str());
        assert(str_views(args@) =~= seq!["--compdb-path="@ + db@, "--index-output-path="@ + output@]);
        Some(make_command("scip-clang", args, Some(root)))
    }

    fn install_hint(&self) -> (r: &'static str) {
        "install scip-clang from github.com/sourcegraph/scip-clang and emit a compile_commands.json (CMake: -DCMAKE_EXPORT_COMPILE_COMMANDS=ON)"
    }
}

/// The name of the first indexer, in the order TypeScript, Python, Go, JVM,
/// C#, C/C++, that recognizes a project with these files.
pub open spec fn detecting_indexer(files: Seq<Seq<char>>) -> Option<Seq<char>> {
    if TypeScriptIndexer.spec_detect(files) {
        Some(TypeScriptIndexer.spec_name())
    } else if PythonIndexer.spec_detect(files) {
        Some(PythonIndexer.spec_name())
    } else if GoIndexer.spec_detect(files) {
        Some(GoIndexer.spec_name())
    } else if JvmIndexer.spec_detect(files) {
        Some(JvmIndexer.spec_name())
    } else if DotNetIndexer.spec_detect(files) {
        Some(DotNetIndexer.spec_name())
    } else if CppIndexer.spec_detect(files) {
        Some(CppIndexer.spec_name())
    } else {
        None
    }
}

/// The indexer that recognizes the project, if any: the first, in the order
/// TypeScript, Python, Go, JVM, C#, C/C++.
pub fn indexer_for(project: &Project) -> (r: Option<Box<dyn ScipIndexer>>)
    ensures
        r matches Some(ix) ==> detecting_indexer(project_files(project)) == Some(ix.spec_name()) && ix.spec_detect(project_files(project)),
        r is None ==> detecting_indexer(project_files(project)) is None,
{
    if TypeScriptIndexer.detect(project) {
        Some(Box::new(TypeScriptIndexer))
    } else if PythonIndexer.detect(project) {
        Some(Box::new(PythonIndexer))
    } else if GoIndexer.detect(project) {
        Some(Box::new(GoIndexer))
    } else if JvmIndexer.detect(project) {
        Some(Box::new(JvmIndexer))
    } else if DotNetIndexer.detect(project) {
        Some(Box::new(DotNetIndexer))
    } else if CppIndexer.detect(project) {
        Some(Box::new(CppIndexer))
    } else {
        None
    }
}

/// Law: every command an indexer assembles writes the index to the requested
/// output: the output path is one of its arguments (for `scip-clang`, the
/// value of `--index-output-path=`).
pub proof fn law_commands_write_to_the_output(root: Seq<char>, output: Seq<char>, tools: Seq<Seq<char>>, files: Seq<Seq<char>>)
    ensures
        TypeScriptIndexer.spec_command(root, output, tools, files) matches Some(c) ==> c.args.contains(output),
        PythonIndexer.spec_command(root, output, tools, files) matches Some(c) ==> c.args.contains(output),
        GoIndexer.spec_command(root, output, tools, files) matches Some(c) ==> c.args.contains(output),
        JvmIndexer.spec_command(root, output, tools, files) matches Some(c) ==> c.args.contains(output),
        DotNetIndexer.spec_command(root, output, tools, files) matches Some(c) ==> c.args.contains(output),
        CppIndexer.spec_command(root, output, tools, files) matches Some(c) ==> c.args.contains("--index-output-path="@ + output),
{
    let ts = ts_args(root, output);
    assert(ts[4] == output);
    let pre = seq!["-y"@, "@sourcegraph/scip-typescript@"@ + SCIP_TYPESCRIPT_VERSION@];
    assert((pre + ts)[6] == output);
    let py = py_args(root, output, py_project(root));
    assert(py[4] == output);
    let ppre = seq!["-y"@, "@sourcegraph/scip-python@"@ + SCIP_PYTHON_VERSION@];
    assert((ppre + py)[6] == output);
    let go = go_args(root, output);
    assert(go[4] == output);
    let gpre = seq!["run"@, "github.com/scip-code/scip-go/cmd/scip-go@"@ + SCIP_GO_VERSION@];
    assert((gpre + go)[6] == output);
    assert(seq!["index"@, "--output"@, output][2] == output);
    assert(seq!["launch"@, "com.sourcegraph:scip-java_2.13:"@ + SCIP_JAVA_VERSION@, "--"@, "index"@, "--output"@, output][5] == output);
    if let Some(db) = spec_compdb(files) {
        assert(seq!["--compdb-path="@ + db, "--index-output-path="@ + output][1] == "--index-output-path="@ + output);
    }
}

/// Law: the indexers that read the build from their working directory
/// (`scip-java`, `scip-dotnet`, `scip-clang`) run in the project root.
pub proof fn law_build_driven_indexers_run_in_the_root(root: Seq<char>, output: Seq<char>, tools: Seq<Seq<char>>, files: Seq<Seq<char>>)
    ensures
        JvmIndexer.spec_command(root, output, tools, files) matches Some(c) ==> c.cwd == Some(root),
        DotNetIndexer.spec_command(root, output, tools, files) matches Some(c) ==> c.cwd == Some(root),
        CppIndexer.spec_command(root, output, tools, files) matches Some(c) ==> c.cwd == Some(root),
{
}

/// Law: an indexer already on `PATH` is preferred to an ecosystem runner: when
/// it is present, the command runs it.
pub proof fn law_installed_indexer_is_preferred(root: Seq<char>, output: Seq<char>, tools: Seq<Seq<char>>, files: Seq<Seq<char>>)
    ensures
        tools.contains("scip-typescript"@) ==> (TypeScriptIndexer.spec_command(root, output, tools, files) matches Some(c) && c.program == "scip-typescript"@),
        tools.contains("scip-python"@) ==> (PythonIndexer.spec_command(root, output, tools, files) matches Some(c) && c.program == "scip-python"@),
        tools.contains("scip-go"@) ==> (GoIndexer.spec_command(root, output, tools, files) matches Some(c) && c.program == "scip-go"@),
        tools.contains("scip-java"@) ==> (JvmIndexer.spec_command(root, output, tools, files) matches Some(c) && c.program == "scip-java"@),
        tools.contains("scip-dotnet"@) ==> (DotNetIndexer.spec_command(root, output, tools, files) matches Some(c) && c.program == "scip-dotnet"@),
{
}

/// Law: which root files make each indexer recognize a project. TypeScript:
/// `tsconfig.json` or `package.json`; Python: `pyproject.toml`, `setup.py` or
/// `setup.cfg`; Go: `go.mod`; JVM: `pom.xml`, `build.gradle`,
/// `build.gradle.kts` or `build.sbt`; C/C++: `compile_commands.json` (in the
/// root or in `build/`) or `CMakeLists.txt`; nothing else does.
pub proof fn law_indexer_markers(files: Seq<Seq<char>>)
    ensures
        TypeScriptIndexer.spec_detect(files) <==> (files.contains("tsconfig.json"@) || files.contains("package.json"@)),
        PythonIndexer.spec_detect(files) <==> (files.contains("pyproject.toml"@) || files.contains("setup.py"@)
            || files.contains("setup.cfg"@)),
        GoIndexer.spec_detect(files) <==> files.contains("go.mod"@),
        JvmIndexer.spec_detect(files) <==> (files.contains("pom.xml"@) || files.contains("build.gradle"@)
            || files.contains("build.gradle.kts"@) || files.contains("build.sbt"@)),
        CppIndexer.spec_detect(files) <==> (files.contains("compile_commands.json"@)
            || files.contains("build/compile_commands.json"@) || files.contains("CMakeLists.txt"@)),
{
}

/// Law: a file directly in the root whose extension is `sln` or `csproj`,
/// in any ASCII case, makes the C# indexer recognize the project, and only
/// such a file does.
pub proof fn law_dotnet_markers(files: Seq<Seq<char>>, f: Seq<char>)
    ensures
        files.contains(f) && !f.contains('/') && spec_extension(f) is Some
            && (eq_ignore_ascii_case(spec_extension(f)->0, "sln"@) || eq_ignore_ascii_case(spec_extension(f)->0, "csproj"@))
            ==> DotNetIndexer.spec_detect(files),
        DotNetIndexer.spec_detect(files) ==> exists|i: int| 0 <= i < files.len() && !(#[trigger] files[i]).contains('/')
            && spec_extension(files[i]) is Some
            && (eq_ignore_ascii_case(spec_extension(files[i])->0, "sln"@)
                || eq_ignore_ascii_case(spec_extension(files[i])->0, "csproj"@)),
{
    if files.contains(f) && !f.contains('/') && spec_extension(f) is Some
        && (eq_ignore_ascii_case(spec_extension(f)->0, "sln"@) || eq_ignore_ascii_case(spec_extension(f)->0, "csproj"@)) {
        let i = choose|i: int| 0 <= i < files.len() && files[i] == f;
        if eq_ignore_ascii_case(spec_extension(f)->0, "sln"@) {
            assert(eq_ignore_ascii_case(spec_extension(files[i])->0, dotnet_exts()[0]));
        } else {
            assert(eq_ignore_ascii_case(spec_extension(files[i])->0, dotnet_exts()[1]));
        }
    }
    if DotNetIndexer.spec_detect(files) {
        let i = choose|i: int| 0 <= i < files.len() && root_file_with_extension(#[trigger] files[i], dotnet_exts());
        let k = choose|k: int| 0 <= k < dotnet_exts().len() && eq_ignore_ascii_case(spec_extension(files[i])->0, #[trigger] dotnet_exts()[k]);
        assert(k == 0 || k == 1);
    }
}

/// Law: the indexer chosen for a project is the first, in the order
/// TypeScript, Python, Go, JVM, C#, C/C++, that recognizes it; for instance a
/// Gradle project with no TypeScript, Python or Go marker gets `scip-java`.
pub proof fn law_indexer_choice(files: Seq<Seq<char>>)
    ensures
        TypeScriptIndexer.spec_detect(files) ==> detecting_indexer(files) == Some("scip-typescript"@),
        !TypeScriptIndexer.spec_detect(files) && PythonIndexer.spec_detect(files) ==> detecting_indexer(files) == Some("scip-python"@),
        !TypeScriptIndexer.spec_detect(files) && !PythonIndexer.spec_detect(files) && GoIndexer.spec_detect(files)
            ==> detecting_indexer(files) == Some("scip-go"@),
        !TypeScriptIndexer.spec_detect(files) && !PythonIndexer.spec_detect(files) && !GoIndexer.spec_detect(files)
            && JvmIndexer.spec_detect(files) ==> detecting_indexer(files) == Some("scip-java"@),
        !TypeScriptIndexer.spec_detect(files) && !PythonIndexer.spec_detect(files) && !GoIndexer.spec_detect(files)
            && !JvmIndexer.spec_detect(files) && DotNetIndexer.spec_detect(files) ==> detecting_indexer(files) == Some("scip-dotnet"@),
        !TypeScriptIndexer.spec_detect(files) && !PythonIndexer.spec_detect(files) && !GoIndexer.spec_detect(files)
            && !JvmIndexer.spec_detect(files) && !DotNetIndexer.spec_detect(files) && CppIndexer.spec_detect(files)
            ==> detecting_indexer(files) == Some("scip-clang"@),
        !TypeScriptIndexer.spec_detect(files) && !PythonIndexer.spec_detect(files) && !GoIndexer.spec_detect(files)
            && !JvmIndexer.spec_detect(files) && !DotNetIndexer.spec_detect(files) && !CppIndexer.spec_detect(files)
            ==> detecting_indexer(files) is None,
{
}

/// Law: the command each indexer runs for `root` and `output`: its own
/// program when that is installed, else its fetch-and-run form (`npx`, `go
/// run`, coursier), else none; the C/C++ indexer needs `scip-clang` and a
/// compilation database (preferring the one in the root).
pub proof fn law_indexer_commands(root: Seq<char>, output: Seq<char>, tools: Seq<Seq<char>>, files: Seq<Seq<char>>)
    ensures
        tools.contains("scip-typescript"@) ==> TypeScriptIndexer.spec_command(root, output, tools, files) == Some(CommandView {
            program: "scip-typescript"@,
            args: seq!["index"@, "--cwd"@, root, "--output"@, output, "--no-progress-bar"@],
            cwd: None,
            env: Seq::empty(),
        }),
        !tools.contains("scip-typescript"@) && tools.contains("npx"@) ==> TypeScriptIndexer.spec_command(root, output, tools, files)
            == Some(CommandView {
                program: "npx"@,
                args: seq!["-y"@, "@sourcegraph/scip-typescript@"@ + SCIP_TYPESCRIPT_VERSION@, "index"@, "--cwd"@, root,
                    "--output"@, output, "--no-progress-bar"@],
                cwd: None,
                env: Seq::empty(),
            }),
        !tools.contains("scip-typescript"@) && !tools.contains("npx"@) ==> TypeScriptIndexer.spec_command(root, output, tools, files) is None,
        tools.contains("scip-python"@) ==> PythonIndexer.spec_command(root, output, tools, files) == Some(CommandView {
            program: "scip-python"@,
            args: seq!["index"@, "--cwd"@, root, "--output"@, output, "--project-name"@, py_project(root), "--quiet"@],
            cwd: None,
            env: Seq::empty(),
        }),
        !tools.contains("scip-python"@) && tools.contains("npx"@) ==> PythonIndexer.spec_command(root, output, tools, files)
            == Some(CommandView {
                program: "npx"@,
                args: seq!["-y"@, "@sourcegraph/scip-python@"@ + SCIP_PYTHON_VERSION@, "index"@, "--cwd"@, root,
                    "--output"@, output, "--project-name"@, py_project(root), "--quiet"@],
                cwd: None,
                env: Seq::empty(),
            }),
        !tools.contains("scip-python"@) && !tools.contains("npx"@) ==> PythonIndexer.spec_command(root, output, tools, files) is None,
        tools.contains("scip-go"@) ==> GoIndexer.spec_command(root, output, tools, files) == Some(CommandView {
            program: "scip-go"@,
            args: seq!["index"@, "--module-root"@, root, "--output"@, output, "--quiet"@],
            cwd: None,
            env: Seq::empty(),
        }),
        !tools.contains("scip-go"@) && tools.contains("go"@) ==> GoIndexer.spec_command(root, output, tools, files) == Some(CommandView {
            program: "go"@,
            args: seq!["run"@, "github.com/scip-code/scip-go/cmd/scip-go@"@ + SCIP_GO_VERSION@, "index"@, "--module-root"@, root,
                "--output"@, output, "--quiet"@],
            cwd: None,
            env: seq![("GOTOOLCHAIN"@, "auto"@)],
        }),
        !tools.contains("scip-go"@) && !tools.contains("go"@) ==> GoIndexer.spec_command(root, output, tools, files) is None,
        tools.contains("scip-java"@) ==> JvmIndexer.spec_command(root, output, tools, files) == Some(CommandView {
            program: "scip-java"@,
            args: seq!["index"@, "--output"@, output],
            cwd: Some(root),
            env: Seq::empty(),
        }),
        !tools.contains("scip-java"@) && tools.contains("cs"@) ==> JvmIndexer.spec_command(root, output, tools, files) == Some(CommandView {
            program: "cs"@,
            args: seq!["launch"@, "com.sourcegraph:scip-java_2.13:"@ + SCIP_JAVA_VERSION@, "--"@, "index"@, "--output"@, output],
            cwd: Some(root),
            env: Seq::empty(),
        }),
        !tools.contains("scip-java"@) && !tools.contains("cs"@) ==> JvmIndexer.spec_command(root, output, tools, files) is None,
        tools.contains("scip-dotnet"@) ==> DotNetIndexer.spec_command(root, output, tools, files) == Some(CommandView {
            program: "scip-dotnet"@,
            args: seq!["index"@, "--output"@, output],
            cwd: Some(root),
            env: Seq::empty(),
        }),
        !tools.contains("scip-dotnet"@) ==> DotNetIndexer.spec_command(root, output, tools, files) is None,
        tools.contains("scip-clang"@) && files.contains("compile_commands.json"@) ==> CppIndexer.spec_command(root, output, tools, files)
            == Some(CommandView {
                program: "scip-clang"@,
                args: seq!["--compdb-path="@ + "compile_commands.json"@, "--index-output-path="@ + output],
                cwd: Some(root),
                env: Seq::empty(),
            }),
        tools.contains("scip-clang"@) && !files.contains("compile_commands.json"@) && files.contains("build/compile_commands.json"@)
            ==> CppIndexer.spec_command(root, output, tools, files) == Some(CommandView {
                program: "scip-clang"@,
                args: seq!["--compdb-path="@ + "build/compile_commands.json"@, "--index-output-path="@ + output],
                cwd: Some(root),
                env: Seq::empty(),
            }),
        !tools.contains("scip-clang"@) || (!files.contains("compile_commands.json"@) && !files.contains("build/compile_commands.json"@))
            ==> CppIndexer.spec_command(root, output, tools, files) is None,
{
    assert(seq!["-y"@, "@sourcegraph/scip-typescript@"@ + SCIP_TYPESCRIPT_VERSION@] + ts_args(root, output)
        =~= seq!["-y"@, "@sourcegraph/scip-typescript@"@ + SCIP_TYPESCRIPT_VERSION@, "index"@, "--cwd"@, root,
            "--output"@, output, "--no-progress-bar"@]);
    assert(seq!["-y"@, "@sourcegraph/scip-python@"@ + SCIP_PYTHON_VERSION@] + py_args(root, output, py_project(root))
        =~= seq!["-y"@, "@sourcegraph/scip-python@"@ + SCIP_PYTHON_VERSION@, "index"@, "--cwd"@, root,
            "--output"@, output, "--project-name"@, py_project(root), "--quiet"@]);
    assert(seq!["run"@, "github.com/scip-code/scip-go/cmd/scip-go@"@ + SCIP_GO_VERSION@] + go_args(root, output)
        =~= seq!["run"@, "github.com/scip-code/scip-go/cmd/scip-go@"@ + SCIP_GO_VERSION@, "index"@, "--module-root"@, root,
            "--output"@, output, "--quiet"@]);
}

} // verus!
