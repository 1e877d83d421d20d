use modula::extract_api::Project;
use modula::indexers::{
    indexer_for, CppIndexer, DotNetIndexer, GoIndexer, JvmIndexer, PythonIndexer, ScipIndexer, Toolbox,
    TypeScriptIndexer,
};

fn project(files: &[&str]) -> Project {
    Project { files: files.iter().map(|f| f.to_string()).collect(), sources: Vec::new() }
}

fn ts_fixture() -> Project {
    project(&["package.json", "tsconfig.json"])
}

fn py_fixture() -> Project {
    project(&["pyproject.toml"])
}

fn go_fixture() -> Project {
    project(&["go.mod", "main.go"])
}

fn java_fixture() -> Project {
    project(&["pom.xml"])
}

fn csharp_fixture() -> Project {
    project(&["SampleCsharp.csproj", "Program.cs"])
}

fn cpp_fixture() -> Project {
    project(&["CMakeLists.txt", "main.cpp"])
}

fn nowhere() -> Project {
    project(&[])
}

fn tools(names: &[&str]) -> Toolbox {
    Toolbox { on_path: names.iter().map(|n| n.to_string()).collect() }
}

#[test]
fn typescript_indexer_detects_a_project() {
    assert!(TypeScriptIndexer.detect(&ts_fixture()));
    assert!(indexer_for(&ts_fixture()).is_some());
    assert!(!TypeScriptIndexer.detect(&nowhere()));
}

#[test]
fn typescript_command_targets_the_output() {
    let command = TypeScriptIndexer
        .command("/fixtures/sample-ts", "/tmp/out.scip", &tools(&["npx"]), &ts_fixture())
        .expect("npx is on PATH");
    let program = command.program.clone();
    assert!(program == "npx" || program == "scip-typescript", "unexpected program {program}");
    let args = &command.args;
    let index_at = args.iter().position(|a| a == "index");
    assert!(index_at.is_some(), "{args:?}");
    assert!(args.iter().any(|a| a == "/tmp/out.scip"), "{args:?}");
    if program == "npx" {
        let pkg_at = args.iter().position(|a| a.contains("scip-typescript"));
        assert!(pkg_at < index_at, "npx package spec must precede the index subcommand: {args:?}");
    }
}

#[test]
fn python_indexer_detects_a_project() {
    assert!(PythonIndexer.detect(&py_fixture()));
    assert!(indexer_for(&py_fixture()).is_some());
    assert!(!PythonIndexer.detect(&nowhere()));
}

#[test]
fn python_command_targets_the_output() {
    let command = PythonIndexer
        .command("/fixtures/sample-py", "/tmp/out.scip", &tools(&["npx"]), &py_fixture())
        .expect("npx is on PATH");
    let program = command.program.clone();
    assert!(program == "npx" || program == "scip-python", "unexpected program {program}");
    let args = &command.args;
    let index_at = args.iter().position(|a| a == "index");
    assert!(index_at.is_some(), "{args:?}");
    assert!(args.iter().any(|a| a == "/tmp/out.scip"), "{args:?}");
    if program == "npx" {
        let pkg_at = args.iter().position(|a| a.contains("scip-python"));
        assert!(pkg_at < index_at, "npx package spec must precede the index subcommand: {args:?}");
    }
}

#[test]
fn go_indexer_detects_a_project() {
    assert!(GoIndexer.detect(&go_fixture()));
    assert!(indexer_for(&go_fixture()).is_some());
    assert!(!GoIndexer.detect(&nowhere()));
}

#[test]
fn go_command_targets_the_output() {
    let command = GoIndexer
        .command("/fixtures/sample-go", "/tmp/out.scip", &tools(&["go"]), &go_fixture())
        .expect("go is on PATH");
    let program = command.program.clone();
    assert!(program == "go" || program == "scip-go", "unexpected program {program}");
    let args = &command.args;
    let index_at = args.iter().position(|a| a == "index");
    assert!(index_at.is_some(), "{args:?}");
    assert!(args.iter().any(|a| a == "/tmp/out.scip"), "{args:?}");
    if program == "go" {
        let pkg_at = args.iter().position(|a| a.contains("scip-go"));
        assert!(pkg_at < index_at, "go run package spec must precede the index subcommand: {args:?}");
    }
}

#[test]
fn jvm_indexer_detects_a_project() {
    assert!(JvmIndexer.detect(&java_fixture()));
    assert!(indexer_for(&java_fixture()).is_some());
    assert!(!JvmIndexer.detect(&nowhere()));
}

#[test]
fn jvm_command_targets_the_output() {
    let command = JvmIndexer
        .command("/fixtures/sample-java", "/tmp/out.scip", &tools(&["cs"]), &java_fixture())
        .expect("cs is on PATH");
    let program = command.program.clone();
    assert!(program == "cs" || program == "scip-java", "unexpected program {program}");
    assert_eq!(command.cwd.as_deref(), Some("/fixtures/sample-java"), "scip-java must run in the project root");
    let args = &command.args;
    let index_at = args.iter().position(|a| a == "index");
    assert!(index_at.is_some(), "{args:?}");
    assert!(args.iter().any(|a| a == "/tmp/out.scip"), "{args:?}");
    if program == "cs" {
        let pkg_at = args.iter().position(|a| a.contains("scip-java"));
        assert!(pkg_at < index_at, "coursier artifact spec must precede the index subcommand: {args:?}");
    }
}

#[test]
fn dotnet_indexer_detects_a_project() {
    assert!(DotNetIndexer.detect(&csharp_fixture()));
    assert!(indexer_for(&csharp_fixture()).is_some());
    assert!(!DotNetIndexer.detect(&nowhere()));
    assert!(!DotNetIndexer.detect(&go_fixture()));
}

#[test]
fn dotnet_command_targets_the_output() {
    let command = DotNetIndexer
        .command("/fixtures/sample-csharp", "/tmp/out.scip", &tools(&["scip-dotnet"]), &csharp_fixture())
        .expect("scip-dotnet is on PATH");
    assert_eq!(command.program, "scip-dotnet", "C# has no ephemeral runner, so only the on-PATH binary is used");
    assert_eq!(command.cwd.as_deref(), Some("/fixtures/sample-csharp"), "scip-dotnet must run in the project root");
    let args = &command.args;
    assert!(args.iter().any(|a| a == "index"), "{args:?}");
    assert!(args.iter().any(|a| a == "/tmp/out.scip"), "{args:?}");
}

#[test]
fn cpp_indexer_detects_a_project() {
    assert!(CppIndexer.detect(&cpp_fixture()));
    assert!(indexer_for(&cpp_fixture()).is_some());
    assert!(!CppIndexer.detect(&nowhere()));
    assert!(!CppIndexer.detect(&go_fixture()));
}

#[test]
fn cpp_command_needs_a_compilation_database() {
    assert!(
        CppIndexer.command("/fixtures/sample-cpp", "/tmp/out.scip", &tools(&["scip-clang"]), &cpp_fixture()).is_none(),
        "without a compilation database the command must be None"
    );
}

#[test]
fn commands_prefer_the_installed_indexer() {
    let ts = TypeScriptIndexer
        .command("/p", "/o.scip", &tools(&["npx", "scip-typescript"]), &ts_fixture())
        .expect("command");
    assert_eq!(ts.program, "scip-typescript");
    assert_eq!(ts.args, vec!["index", "--cwd", "/p", "--output", "/o.scip", "--no-progress-bar"]);
    let npx = TypeScriptIndexer.command("/p", "/o.scip", &tools(&["npx"]), &ts_fixture()).expect("command");
    assert_eq!(npx.args[0], "-y");
    assert_eq!(npx.args[1], "@sourcegraph/scip-typescript@0.3.16");
    assert!(TypeScriptIndexer.command("/p", "/o.scip", &tools(&[]), &ts_fixture()).is_none());
}

#[test]
fn python_names_the_project_after_its_root() {
    let c = PythonIndexer.command("/home/me/proj/", "/o.scip", &tools(&["scip-python"]), &py_fixture()).expect("command");
    assert_eq!(
        c.args,
        vec!["index", "--cwd", "/home/me/proj/", "--output", "/o.scip", "--project-name", "proj", "--quiet"]
    );
    let root = PythonIndexer.command("/", "/o.scip", &tools(&["scip-python"]), &py_fixture()).expect("command");
    assert_eq!(root.args[6], "project");
}

#[test]
fn go_run_lets_the_toolchain_upgrade() {
    let c = GoIndexer.command("/g", "/o.scip", &tools(&["go"]), &go_fixture()).expect("command");
    assert_eq!(c.program, "go");
    assert_eq!(c.args[..2], ["run".to_owned(), "github.com/scip-code/scip-go/cmd/scip-go@v0.2.7".to_owned()]);
    assert_eq!(c.env, vec![("GOTOOLCHAIN".to_owned(), "auto".to_owned())]);
    assert!(c.cwd.is_none());
}

#[test]
fn cpp_uses_the_compilation_database() {
    let root_db = project(&["compile_commands.json"]);
    let c = CppIndexer.command("/c", "/o.scip", &tools(&["scip-clang"]), &root_db).expect("command");
    assert_eq!(c.args, vec!["--compdb-path=compile_commands.json", "--index-output-path=/o.scip"]);
    let build_db = project(&["build/compile_commands.json"]);
    assert!(CppIndexer.detect(&build_db));
    assert_eq!(CppIndexer::compdb(&build_db), Some("build/compile_commands.json"));
    assert!(CppIndexer.command("/c", "/o.scip", &tools(&[]), &root_db).is_none());
}

#[test]
fn dotnet_extension_match_ignores_case_and_subdirectories() {
    assert!(DotNetIndexer.detect(&project(&["App.SLN"])));
    assert!(!DotNetIndexer.detect(&project(&["src/App.csproj"])));
    assert!(!DotNetIndexer.detect(&project(&[".sln"])));
}

#[test]
fn typescript_wins_when_several_indexers_match() {
    let both = project(&["package.json", "pyproject.toml"]);
    assert!(TypeScriptIndexer.detect(&both) && PythonIndexer.detect(&both));
    let ix = indexer_for(&both).expect("an indexer");
    assert_eq!(ix.install_hint(), TypeScriptIndexer.install_hint());
    assert!(indexer_for(&nowhere()).is_none());
}
