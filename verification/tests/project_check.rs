use deadcode::check::{
    add_extra_dependency_edges, add_import_edges, check_deadcode, collect_project_files,
    deadcode_entry_point_not_found_warning, plan_check,
    push_skipped_file_io_warning, push_skipped_file_syntax_error, CheckError, CheckPlan,
    ExtraDependency, FileScan, ParsingError, ProjectScan, ResolvedEntryPoints, WalkedFile,
    WalkedRoot,
};
use deadcode::collections::{SortedMap, SortedSet};
use deadcode::config::{
    DeadcodeConfig, DeadcodeDetection, ModuleConfig, ProjectConfig, RuleSetting, Severity,
};
use deadcode::diagnostics::{
    sort_diagnostics, CodeDiagnostic, ConfigurationDiagnostic, Diagnostic, DiagnosticDetails,
};
use deadcode::graph::FileImportGraph;
use deadcode::imports::{ModuleIndex, ModuleLookup, ResolvedModule};
use deadcode::path::FilePath;

fn text(s: &str) -> String {
    s.to_string()
}

fn path(s: &str) -> FilePath {
    FilePath::new(s.to_string())
}

fn config() -> ProjectConfig {
    ProjectConfig {
        exclude: vec![],
        modules: vec![],
        deadcode: DeadcodeConfig {
            detect: vec![DeadcodeDetection::Files],
            severity: RuleSetting::Error,
            entry_points: vec![],
            exclude: vec![],
            ignore: vec![],
            public_modules: vec![],
            public_symbols: vec![],
            public_decorators: vec![],
            include_test_usages: false,
            protect_init_files: false,
            respect_all: false,
            ignore_dynamic_modules: false,
        },
    }
}

fn files_plan() -> CheckPlan {
    CheckPlan {
        detect_files: true,
        detect_symbols: false,
        exclude_paths: vec![],
        entry_points: vec![],
    }
}

fn module_at(file: &str, module: &str) -> ModuleLookup {
    ModuleLookup {
        module_file: Some(path(file)),
        resolved: Some(ResolvedModule {
            file_path: path(file),
            member_name: None,
            file_module: Some(text(module)),
        }),
    }
}

/// A project with one source root; each file has a path below it, a module path, and imports.
fn project(files: &[(&str, &str, &[&str])], entries: &[&str]) -> ProjectScan {
    let mut index: ModuleIndex = SortedMap::new();
    let mut outcomes: SortedMap<FilePath, FileScan> = SortedMap::new();
    let mut walked: Vec<WalkedFile> = vec![];
    for (file, module, imports) in files {
        let whole = format!("/p/{}", file);
        index.insert(text(module), module_at(&whole, module));
        outcomes.insert(
            path(&whole),
            FileScan::Imports(imports.iter().map(|i| text(i)).collect()),
        );
        walked.push(WalkedFile { file_path: path(file), module: Some(text(module)) });
    }
    ProjectScan {
        source_roots: vec![path("/p")],
        entry_points: ResolvedEntryPoints {
            files: entries.iter().map(|e| path(e)).collect(),
            unresolved: vec![],
        },
        walked: vec![WalkedRoot { source_root: path("/p"), files: walked }],
        outcomes,
        index,
        extra_dependencies: vec![],
    }
}

fn run(config: &ProjectConfig, scan: ProjectScan) -> Vec<Diagnostic> {
    match check_deadcode(&path("/p"), config, &files_plan(), Ok(scan)) {
        Ok(list) => list,
        Err(error) => panic!("{:?}", error),
    }
}

fn messages(list: &Vec<Diagnostic>) -> Vec<String> {
    list.iter().map(|d| d.message()).collect()
}

fn dead_files(config: &ProjectConfig, scan: ProjectScan) -> Vec<String> {
    run(config, scan)
        .iter()
        .filter_map(|d| d.file_path().map(|p| p.as_str().to_string()))
        .collect()
}

fn sample() -> ProjectScan {
    project(
        &[
            ("main.py", "main", &["pkg.live"]),
            ("pkg/__init__.py", "pkg", &[]),
            ("pkg/live.py", "pkg.live", &["pkg.deep.leaf"]),
            ("pkg/deep/__init__.py", "pkg.deep", &[]),
            ("pkg/deep/leaf.py", "pkg.deep.leaf", &[]),
            ("pkg/old.py", "pkg.old", &["pkg.older"]),
            ("pkg/older.py", "pkg.older", &[]),
            ("lost/__init__.py", "lost", &[]),
        ],
        &["/p/main.py"],
    )
}

#[test]
fn files_that_no_entry_point_reaches_are_dead() {
    let list = run(&config(), sample());
    assert_eq!(list.len(), 3);
    assert_eq!(
        dead_files(&config(), sample()),
        vec!["/p/lost/__init__.py", "/p/pkg/old.py", "/p/pkg/older.py"],
    );
    match &list[1] {
        Diagnostic::Located { severity, details, file_path, line_number, original_line_number } => {
            assert_eq!(*severity, Severity::Error);
            assert!(matches!(
                details,
                DiagnosticDetails::Code(CodeDiagnostic::DeadFile { module }) if module == "pkg.old"
            ));
            assert_eq!(file_path.as_str(), "/p/pkg/old.py");
            assert_eq!(*line_number, 1);
            assert_eq!(*original_line_number, None);
        }
        Diagnostic::Global { .. } => panic!("expected a located diagnostic"),
    }
}

#[test]
fn the_severity_follows_the_rule() {
    let mut warn = config();
    warn.deadcode.severity = RuleSetting::Warn;
    for d in run(&warn, sample()) {
        assert!(matches!(d, Diagnostic::Located { severity: Severity::Warning, .. }));
    }
    let mut off = config();
    off.deadcode.severity = RuleSetting::Off;
    assert_eq!(run(&off, sample()).len(), 0);
}

#[test]
fn only_symbols_reports_no_files() {
    let mut plan = files_plan();
    plan.detect_files = false;
    plan.detect_symbols = true;
    match check_deadcode(&path("/p"), &config(), &plan, Ok(sample())) {
        Ok(list) => assert_eq!(list.len(), 0),
        Err(error) => panic!("{:?}", error),
    }
}

#[test]
fn init_files_can_be_protected() {
    let mut config = config();
    config.deadcode.protect_init_files = true;
    assert_eq!(dead_files(&config, sample()), vec!["/p/pkg/old.py", "/p/pkg/older.py"]);
}

#[test]
fn ignored_and_unchecked_files_are_left_out() {
    let mut config = config();
    config.deadcode.ignore = vec![text("pkg.old")];
    assert_eq!(dead_files(&config, sample()), vec!["/p/lost/__init__.py", "/p/pkg/older.py"]);
    config.deadcode.ignore = vec![text("pkg/older.py"), text("pkg.old:symbol")];
    assert_eq!(dead_files(&config, sample()), vec!["/p/lost/__init__.py", "/p/pkg/old.py"]);
    config.deadcode.ignore = vec![];
    config.modules = vec![
        ModuleConfig { path: text("pkg"), unchecked: true },
        ModuleConfig { path: text("pkg.old"), unchecked: false },
    ];
    assert_eq!(dead_files(&config, sample()), vec!["/p/lost/__init__.py", "/p/pkg/old.py"]);
}

#[test]
fn skipped_files_are_reported_and_not_dead() {
    let mut scan = sample();
    scan.outcomes.insert(path("/p/pkg/old.py"), FileScan::ReadFailed);
    scan.outcomes
        .insert(path("/p/pkg/older.py"), FileScan::ParseFailed(ParsingError::InvalidSyntax));
    let list = run(&config(), scan);
    assert_eq!(
        messages(&list),
        vec![
            "Skipped '/p/pkg/old.py' due to an I/O error.",
            "Skipped '/p/pkg/older.py' due to a syntax error.",
            "Module 'lost' is not reachable from any entry point.",
        ],
    );
    assert!(matches!(list[0], Diagnostic::Global { severity: Severity::Warning, .. }));
    assert!(matches!(list[1], Diagnostic::Global { severity: Severity::Error, .. }));
}

#[test]
fn each_way_to_fail_is_told_apart() {
    let cases = vec![
        (FileScan::ReadFailed, false),
        (FileScan::ParseFailed(ParsingError::PythonParse), true),
        (FileScan::ParseFailed(ParsingError::InvalidSyntax), true),
        (FileScan::ParseFailed(ParsingError::Io), false),
        (FileScan::ParseFailed(ParsingError::Filesystem), false),
        (FileScan::ImportsFailed, true),
    ];
    for (outcome, syntax) in cases {
        let mut scan = sample();
        scan.outcomes.insert(path("/p/pkg/old.py"), outcome);
        let list = run(&config(), scan);
        let expected = if syntax {
            "Skipped '/p/pkg/old.py' due to a syntax error."
        } else {
            "Skipped '/p/pkg/old.py' due to an I/O error."
        };
        assert_eq!(list[0].message(), expected);
    }
}

#[test]
fn a_file_without_an_outcome_counts_as_unreadable() {
    let mut scan = sample();
    scan.outcomes.remove(&path("/p/pkg/old.py"));
    assert_eq!(
        run(&config(), scan)[0].message(),
        "Skipped '/p/pkg/old.py' due to an I/O error.",
    );
}

#[test]
fn no_file_is_dead_where_a_live_one_was_skipped() {
    let mut scan = sample();
    scan.outcomes.insert(path("/p/pkg/live.py"), FileScan::ImportsFailed);
    let list = run(&config(), scan);
    assert_eq!(messages(&list), vec!["Skipped '/p/pkg/live.py' due to a syntax error."]);
}

#[test]
fn without_entry_files_that_is_all_there_is_to_say() {
    let mut scan = sample();
    scan.entry_points.files = vec![path("/elsewhere/main.py")];
    scan.entry_points.unresolved = vec![text("nowhere"), text("absent")];
    let list = run(&config(), scan);
    assert_eq!(
        messages(&list),
        vec![
            "Deadcode entry point 'absent' was not found.",
            "Deadcode entry point 'nowhere' was not found.",
            "No deadcode entry points were found in the project.",
        ],
    );
}

#[test]
fn packages_around_entry_files_are_live() {
    let scan = project(
        &[
            ("pkg/__init__.py", "pkg", &["pkg.setup"]),
            ("pkg/setup.py", "pkg.setup", &[]),
            ("pkg/main.py", "pkg.main", &[]),
            ("pkg/rest.py", "pkg.rest", &[]),
        ],
        &["/p/pkg/main.py"],
    );
    assert_eq!(dead_files(&config(), scan), vec!["/p/pkg/rest.py"]);
}

#[test]
fn only_python_files_are_followed() {
    let mut scan = project(
        &[("main.py", "main", &["fast"]), ("fast.py", "fast", &[])],
        &["/p/main.py"],
    );
    scan.index.insert(text("fast"), module_at("/p/fast.pyi", "fast"));
    scan.walked[0]
        .files
        .push(WalkedFile { file_path: path("fast.pyi"), module: Some(text("fast")) });
    scan.outcomes.insert(path("/p/fast.pyi"), FileScan::Imports(vec![]));
    assert_eq!(dead_files(&config(), scan), vec!["/p/fast.py", "/p/fast.pyi"]);
}

#[test]
fn members_lead_to_the_file_of_their_module() {
    let mut scan = project(
        &[("main.py", "main", &["lib.f"]), ("lib.py", "lib", &[])],
        &["/p/main.py"],
    );
    scan.index.insert(
        text("lib.f"),
        ModuleLookup {
            module_file: None,
            resolved: Some(ResolvedModule {
                file_path: path("/p/lib.py"),
                member_name: Some(text("f")),
                file_module: Some(text("lib")),
            }),
        },
    );
    assert_eq!(dead_files(&config(), scan), Vec::<String>::new());
}

#[test]
fn extra_dependencies_keep_files_alive() {
    let mut scan = sample();
    scan.extra_dependencies = vec![
        ExtraDependency {
            sources: vec![path("/p/main.py"), path("/elsewhere.py")],
            dependencies: vec![path("/p/pkg/old.py"), path("/missing.py")],
        },
        ExtraDependency {
            sources: vec![path("/p/unknown.py")],
            dependencies: vec![path("/p/lost/__init__.py")],
        },
    ];
    assert_eq!(dead_files(&config(), scan), vec!["/p/lost/__init__.py"]);
}

#[test]
fn a_failed_survey_is_handed_on() {
    let failed = check_deadcode(
        &path("/p"),
        &config(),
        &files_plan(),
        Err(CheckError::SourceRootResolution(text("no such root"))),
    );
    assert!(matches!(failed, Err(CheckError::SourceRootResolution(t)) if t == "no such root"));
    let failed = check_deadcode(
        &path("/p"),
        &config(),
        &files_plan(),
        Err(CheckError::Filesystem(text("denied"))),
    );
    assert!(matches!(failed, Err(CheckError::Filesystem(t)) if t == "denied"));
}

#[test]
fn a_root_that_is_no_directory_is_refused() {
    let plan = plan_check("/p/./x/", false, &config(), None, true, true, &vec![]);
    assert!(matches!(plan, Err(CheckError::InvalidDirectory(t)) if t == "/p/./x/"));
}

#[test]
fn flags_override_the_configured_detection() {
    let detect = |files: bool, symbols: bool, list: Vec<DeadcodeDetection>| {
        let mut config = config();
        config.deadcode.detect = list;
        match plan_check("/p", true, &config, None, files, symbols, &vec![]) {
            Ok(Some(plan)) => Some((plan.detect_files, plan.detect_symbols)),
            Ok(None) => None,
            Err(error) => panic!("{:?}", error),
        }
    };
    assert_eq!(detect(false, false, vec![]), None);
    assert_eq!(detect(false, false, vec![DeadcodeDetection::Files]), Some((true, false)));
    assert_eq!(detect(false, false, vec![DeadcodeDetection::Symbols]), Some((false, true)));
    assert_eq!(detect(true, false, vec![DeadcodeDetection::Symbols]), Some((true, false)));
    assert_eq!(detect(false, true, vec![]), Some((false, true)));
}

#[test]
fn plans_hold_entry_points_and_exclusions() {
    let mut config = config();
    config.exclude = vec![text("tests"), text("docs"), text("**/tests")];
    config.deadcode.exclude = vec![text("build")];
    config.deadcode.entry_points = vec![text("main")];
    let defaults = vec![text("docs"), text("**/tests"), text("tests")];
    let plan = |config: &ProjectConfig| {
        match plan_check(
            "/p",
            true,
            config,
            Some(vec![text("cli")]),
            true,
            false,
            &defaults,
        ) {
            Ok(Some(plan)) => plan,
            other => panic!("{:?}", other),
        }
    };
    assert_eq!(plan(&config).entry_points, vec!["main", "cli"]);
    assert_eq!(plan(&config).exclude_paths, vec!["tests", "docs", "**/tests", "build"]);
    config.deadcode.include_test_usages = true;
    assert_eq!(plan(&config).exclude_paths, vec!["docs", "build"]);
    config.exclude.push(text("more"));
    assert_eq!(plan(&config).exclude_paths, vec!["tests", "docs", "**/tests", "more", "build"]);
}

#[test]
fn project_files_are_sorted_and_found_once() {
    let walked = vec![
        WalkedRoot {
            source_root: path("/p/src"),
            files: vec![
                WalkedFile { file_path: path("b.py"), module: Some(text("b")) },
                WalkedFile { file_path: path("a/c.py"), module: Some(text("a.c")) },
                WalkedFile { file_path: path("no-module.py"), module: None },
            ],
        },
        WalkedRoot {
            source_root: path("/p"),
            files: vec![
                WalkedFile { file_path: path("src/b.py"), module: Some(text("src.b")) },
                WalkedFile { file_path: path("a.py"), module: Some(text("a")) },
            ],
        },
    ];
    let files: Vec<(String, String)> = collect_project_files(&walked)
        .iter()
        .map(|f| (f.file_path.as_str().to_string(), f.module.clone()))
        .collect();
    assert_eq!(
        files,
        vec![
            (text("/p/a.py"), text("a")),
            (text("/p/src/a/c.py"), text("a.c")),
            (text("/p/src/b.py"), text("b")),
        ],
    );
}

#[test]
fn entry_roots_are_files_of_the_project() {
    let mut scan = sample();
    scan.entry_points.files = vec![path("/p/pkg/deep/leaf.py"), path("/elsewhere.py")];
    assert_eq!(
        dead_files(&config(), scan),
        vec![
            "/p/lost/__init__.py",
            "/p/main.py",
            "/p/pkg/live.py",
            "/p/pkg/old.py",
            "/p/pkg/older.py",
        ],
    );
}

#[test]
fn an_import_also_imports_the_packages_around_it() {
    let scan = sample();
    let mut graph = FileImportGraph::new();
    for file in collect_project_files(&scan.walked) {
        graph.add_file(file.file_path, file.module);
    }
    let from = path("/p/main.py");
    add_import_edges(&mut graph, &scan.index, &from, "pkg.deep.leaf", &path("/elsewhere.py"));
    assert_eq!(graph.reachable_from(&vec![path("/p/main.py")]).len(), 1);
    add_import_edges(&mut graph, &scan.index, &from, "pkg.deep.leaf", &path("/p/pkg/deep/leaf.py"));
    let live = graph.reachable_from(&vec![path("/p/main.py")]);
    assert_eq!(live.len(), 4);
    assert!(live.contains(&path("/p/pkg/__init__.py")));
    assert!(live.contains(&path("/p/pkg/deep/__init__.py")));
    add_extra_dependency_edges(
        &mut graph,
        &vec![ExtraDependency {
            sources: vec![path("/p/main.py")],
            dependencies: vec![path("/p/pkg/old.py")],
        }],
    );
    assert_eq!(graph.reachable_from(&vec![path("/p/main.py")]).len(), 5);
}

#[test]
fn skipped_files_are_pushed() {
    let mut diagnostics = vec![deadcode_entry_point_not_found_warning("main")];
    let mut failures: SortedSet<FilePath> = SortedSet::new();
    push_skipped_file_syntax_error(&mut diagnostics, &mut failures, &path("/p/a.py"));
    push_skipped_file_io_warning(&mut diagnostics, &mut failures, &path("/p/b.py"));
    assert_eq!(
        messages(&diagnostics),
        vec![
            "Deadcode entry point 'main' was not found.",
            "Skipped '/p/a.py' due to a syntax error.",
            "Skipped '/p/b.py' due to an I/O error.",
        ],
    );
    assert_eq!(failures.len(), 2);
    assert!(failures.contains(&path("/p/a.py")) && failures.contains(&path("/p/b.py")));
}

fn located(file: &str, module: &str, line: usize) -> Diagnostic {
    Diagnostic::new_located(
        Severity::Error,
        DiagnosticDetails::Code(CodeDiagnostic::DeadFile { module: text(module) }),
        path(file),
        line,
        Some(line),
    )
}

#[test]
fn diagnostics_are_sorted_stably() {
    let none = || {
        DiagnosticDetails::Configuration(ConfigurationDiagnostic::DeadcodeNoEntryPoints)
    };
    let list = vec![
        located("/p/b.py", "x", 1),
        located("/p/a.py", "z", 1),
        Diagnostic::new_global_warning(none()),
        located("/p/a.py", "y", 7),
        located("/p/a.py", "y", 3),
        Diagnostic::new_global_error(none()),
        deadcode_entry_point_not_found_warning("main"),
    ];
    let sorted = sort_diagnostics(list);
    assert_eq!(
        messages(&sorted),
        vec![
            "Deadcode entry point 'main' was not found.",
            "No deadcode entry points were found in the project.",
            "No deadcode entry points were found in the project.",
            "Module 'y' is not reachable from any entry point.",
            "Module 'y' is not reachable from any entry point.",
            "Module 'z' is not reachable from any entry point.",
            "Module 'x' is not reachable from any entry point.",
        ],
    );
    // Equal positions keep their order, and what is sorted stays as it is.
    let order = messages(&sorted);
    let sorted = sort_diagnostics(sorted);
    assert_eq!(messages(&sorted), order);
    assert!(matches!(sorted[1], Diagnostic::Global { severity: Severity::Warning, .. }));
    assert!(matches!(sorted[2], Diagnostic::Global { severity: Severity::Error, .. }));
    assert!(matches!(sorted[3], Diagnostic::Located { line_number: 7, .. }));
    assert!(matches!(sorted[4], Diagnostic::Located { line_number: 3, .. }));
}

#[test]
fn reports_show_paths_as_they_are_written() {
    let mut scan = sample();
    scan.walked[0].source_root = path("/p/./");
    scan.outcomes.insert(path("/p/pkg/old.py"), FileScan::ReadFailed);
    // However they are written, the paths name the same files.
    let list = run(&config(), scan);
    assert_eq!(
        messages(&list),
        vec![
            "Skipped '/p/./pkg/old.py' due to an I/O error.",
            "Module 'lost' is not reachable from any entry point.",
            "Module 'pkg.older' is not reachable from any entry point.",
        ],
    );
    let mut config = config();
    config.deadcode.ignore = vec![text("/p/pkg/old.py")];
    let mut scan = sample();
    scan.walked[0].source_root = path("/p/./");
    assert_eq!(dead_files(&config, scan).len(), 3);
    config.deadcode.ignore = vec![text("/p/./pkg/old.py")];
    let mut scan = sample();
    scan.walked[0].source_root = path("/p/./");
    let list = run(&config, scan);
    let written: Vec<&str> =
        list.iter().filter_map(|d| d.file_path().map(|p| p.display())).collect();
    assert_eq!(written, vec!["/p/./lost/__init__.py", "/p/./pkg/older.py"]);
}
