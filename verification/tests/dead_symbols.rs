use deadcode::ast::{Alias, Clause, Expr, ExprContext, Keyword, Parameter, Stmt, StmtKind};
use deadcode::collections::{SortedMap, SortedSet};
use deadcode::collector::{collect_module_symbols, ModuleCollector, SymbolKind};
use deadcode::config::{DeadcodeConfig, ProjectConfig, RuleSetting};
use deadcode::graph::FileImportGraph;
use deadcode::imports::{ImportTarget, ModuleIndex, ModuleLookup, ResolvedModule};
use deadcode::keys::SymbolKey;
use deadcode::path::FilePath;
use deadcode::rules::EntryFiles;
use deadcode::symbols::{
    find_dead_symbols, DeadSymbolAnalysisInput, DeadSymbolFinding, ParsedFile,
};

fn text(s: &str) -> String {
    s.to_string()
}

fn path(s: &str) -> FilePath {
    FilePath::new(s.to_string())
}

fn name(id: &str) -> Expr {
    Expr::Name { id: text(id), ctx: ExprContext::Load }
}

fn target(id: &str) -> Expr {
    Expr::Name { id: text(id), ctx: ExprContext::Store }
}

fn attr(value: Expr, attr: &str) -> Expr {
    Expr::Attribute { value: Box::new(value), attr: text(attr), ctx: ExprContext::Load }
}

fn call(func: Expr, args: Vec<Expr>) -> Expr {
    Expr::Call { func: Box::new(func), args, keywords: vec![] }
}

fn string(s: &str) -> Expr {
    Expr::StringLiteral { text: text(s) }
}

fn number() -> Expr {
    Expr::Other { children: vec![] }
}

fn stmt(offset: u32, kind: StmtKind) -> Stmt {
    Stmt { offset, kind, expressions: vec![], nested: vec![] }
}

fn function(offset: u32, id: &str, body: Vec<Stmt>) -> Stmt {
    decorated(offset, id, vec![], body)
}

fn decorated(offset: u32, id: &str, decorators: Vec<Expr>, body: Vec<Stmt>) -> Stmt {
    stmt(
        offset,
        StmtKind::FunctionDef {
            name: text(id),
            decorators,
            parameters: vec![],
            return_type: None,
            body,
        },
    )
}

fn class(offset: u32, id: &str, arguments: Vec<Expr>, body: Vec<Stmt>) -> Stmt {
    stmt(offset, StmtKind::ClassDef { name: text(id), decorators: vec![], arguments, body })
}

fn assign(offset: u32, id: &str, value: Expr) -> Stmt {
    stmt(offset, StmtKind::Assign { targets: vec![target(id)], value })
}

fn evaluate(offset: u32, value: Expr) -> Stmt {
    stmt(offset, StmtKind::Expr { value })
}

fn alias(name: &str) -> Alias {
    Alias { name: text(name), asname: None }
}

fn alias_as(name: &str, asname: &str) -> Alias {
    Alias { name: text(name), asname: Some(text(asname)) }
}

fn import(names: Vec<Alias>) -> Stmt {
    stmt(0, StmtKind::Import { names })
}

fn from_import(module: Option<&str>, level: u32, names: Vec<Alias>) -> Stmt {
    stmt(0, StmtKind::ImportFrom { module: module.map(text), level, names })
}

fn all(names: &[&str]) -> Stmt {
    let elts = names.iter().map(|n| string(n)).collect();
    assign(0, "__all__", Expr::List { elts })
}

fn config() -> ProjectConfig {
    ProjectConfig {
        exclude: vec![],
        modules: vec![],
        deadcode: DeadcodeConfig {
            detect: vec![],
            severity: RuleSetting::Error,
            entry_points: vec![],
            exclude: vec![],
            ignore: vec![],
            public_modules: vec![],
            public_symbols: vec![],
            public_decorators: vec![],
            include_test_usages: false,
            protect_init_files: false,
            respect_all: false,
            ignore_dynamic_modules: false,
        },
    }
}

struct Project {
    config: ProjectConfig,
    graph: FileImportGraph,
    roots: Vec<FilePath>,
    failures: SortedSet<FilePath>,
    entry_points: Vec<String>,
    entry_files: EntryFiles,
    sources: SortedMap<FilePath, ParsedFile>,
    index: ModuleIndex,
}

impl Project {
    fn new() -> Project {
        Project {
            config: config(),
            graph: FileImportGraph::new(),
            roots: vec![],
            failures: SortedSet::new(),
            entry_points: vec![],
            entry_files: SortedMap::new(),
            sources: SortedMap::new(),
            index: SortedMap::new(),
        }
    }

    /// Adds a module that is a root of the search.
    fn module(&mut self, file: &str, module: &str, contents: &str, body: Vec<Stmt>) {
        self.graph.add_file(path(file), text(module));
        self.roots.push(path(file));
        self.sources.insert(path(file), ParsedFile { contents: text(contents), body });
        self.index.insert(
            text(module),
            ModuleLookup {
                module_file: Some(path(file)),
                resolved: Some(ResolvedModule {
                    file_path: path(file),
                    member_name: None,
                    file_module: Some(text(module)),
                }),
            },
        );
    }

    /// Makes a dotted path lead to a member of a module.
    fn member(&mut self, dotted: &str, file: &str, module: &str, member: &str) {
        self.index.insert(
            text(dotted),
            ModuleLookup {
                module_file: None,
                resolved: Some(ResolvedModule {
                    file_path: path(file),
                    member_name: Some(text(member)),
                    file_module: Some(text(module)),
                }),
            },
        );
    }

    fn findings(&self) -> Vec<DeadSymbolFinding> {
        find_dead_symbols(DeadSymbolAnalysisInput {
            project_config: &self.config,
            graph: &self.graph,
            entry_file_roots: &self.roots,
            parse_failures: &self.failures,
            entry_points: &self.entry_points,
            entry_files: &self.entry_files,
            sources: &self.sources,
            index: &self.index,
        })
    }

    fn dead(&self) -> Vec<String> {
        self.findings().iter().map(|f| format!("{}:{}", f.module, f.symbol_name)).collect()
    }
}

#[test]
fn unused_symbols_are_reported_with_kind_and_line() {
    let mut project = Project::new();
    let contents = "def run(): pass\nclass Box: pass\r\nlimit = 1\rname = 2\n";
    project.module(
        "/p/app.py",
        "app",
        contents,
        vec![
            function(0, "run", vec![]),
            class(16, "Box", vec![], vec![]),
            assign(33, "limit", number()),
            assign(43, "name", number()),
        ],
    );
    let findings = project.findings();
    assert_eq!(findings.len(), 4);
    let lines: Vec<usize> = findings.iter().map(|f| f.line_number).collect();
    assert_eq!(lines, vec![1, 2, 3, 4]);
    assert_eq!(findings[0].symbol_name, "run");
    assert_eq!(findings[0].symbol_kind, SymbolKind::Function);
    assert_eq!(findings[1].symbol_kind, SymbolKind::Class);
    assert_eq!(findings[2].symbol_kind, SymbolKind::Variable);
    assert_eq!(findings[3].module, "app");
    assert_eq!(findings[3].file_path.as_str(), "/p/app.py");
}

#[test]
fn lines_are_counted_in_bytes() {
    let mut project = Project::new();
    // The comment takes two bytes for one character.
    project.module("/p/a.py", "a", "#\u{e9}\nx = 1\n", vec![assign(4, "x", number())]);
    assert_eq!(project.findings()[0].line_number, 2);
    let mut late = Project::new();
    late.module("/p/a.py", "a", "x = 1\ny = 2", vec![assign(4000, "y", number())]);
    assert_eq!(late.findings()[0].line_number, 2);
}

#[test]
fn symbol_kinds_have_names() {
    assert_eq!(SymbolKind::Function.as_str(), "function");
    assert_eq!(SymbolKind::Class.as_str(), "class");
    assert_eq!(SymbolKind::Variable.as_str(), "variable");
}

#[test]
fn module_code_keeps_symbols_alive() {
    let mut project = Project::new();
    project.module(
        "/p/app.py",
        "app",
        "",
        vec![
            function(0, "used", vec![]),
            function(0, "unused", vec![]),
            evaluate(0, call(name("used"), vec![])),
        ],
    );
    assert_eq!(project.dead(), vec!["app:unused"]);
}

#[test]
fn liveness_spreads_along_references() {
    let mut project = Project::new();
    project.module(
        "/p/app.py",
        "app",
        "",
        vec![
            function(0, "first", vec![evaluate(0, call(name("second"), vec![]))]),
            function(0, "second", vec![evaluate(0, call(name("third"), vec![]))]),
            function(0, "third", vec![]),
            function(0, "lonely", vec![evaluate(0, call(name("shy"), vec![]))]),
            function(0, "shy", vec![]),
            evaluate(0, call(name("first"), vec![])),
        ],
    );
    assert_eq!(project.dead(), vec!["app:lonely", "app:shy"]);
}

#[test]
fn assigning_to_a_name_does_not_use_it() {
    let mut project = Project::new();
    project.module(
        "/p/app.py",
        "app",
        "",
        vec![assign(0, "limit", number()), assign(0, "limit", number())],
    );
    assert_eq!(project.dead(), vec!["app:limit"]);
}

#[test]
fn the_first_definition_counts() {
    let mut project = Project::new();
    project.module(
        "/p/app.py",
        "app",
        "x = 1\ndef x(): pass\n",
        vec![assign(0, "x", number()), function(6, "x", vec![])],
    );
    let findings = project.findings();
    assert_eq!(findings.len(), 1);
    assert_eq!(findings[0].symbol_kind, SymbolKind::Variable);
    assert_eq!(findings[0].line_number, 1);
}

#[test]
fn dunder_names_are_no_symbols() {
    let mut project = Project::new();
    project.module(
        "/p/app.py",
        "app",
        "",
        vec![
            assign(0, "__version__", number()),
            function(0, "__dir__", vec![]),
            assign(0, "__", number()),
            assign(0, "__private", number()),
        ],
    );
    assert_eq!(project.dead(), vec!["app:__private"]);
}

#[test]
fn shadowed_names_are_not_references() {
    let mut project = Project::new();
    let parameter = Parameter { name: text("a"), annotation: None, default: Some(name("d")) };
    project.module(
        "/p/app.py",
        "app",
        "",
        vec![
            assign(0, "a", number()),
            assign(0, "b", number()),
            assign(0, "c", number()),
            assign(0, "d", number()),
            stmt(
                0,
                StmtKind::FunctionDef {
                    name: text("run"),
                    decorators: vec![],
                    parameters: vec![parameter],
                    return_type: None,
                    body: vec![
                        assign(0, "b", number()),
                        evaluate(0, name("a")),
                        evaluate(0, name("b")),
                        evaluate(0, name("c")),
                    ],
                },
            ),
            evaluate(0, name("run")),
        ],
    );
    assert_eq!(project.dead(), vec!["app:a", "app:b"]);
}

#[test]
fn names_bound_in_nested_statements_are_shadowed() {
    let mut project = Project::new();
    let body = vec![
        stmt(
            0,
            StmtKind::For {
                target: Expr::Tuple { elts: vec![target("a"), target("b")] },
                body: vec![import(vec![alias("c.x")])],
                orelse: vec![from_import(Some("m"), 0, vec![alias_as("x", "d"), alias("*")])],
            },
        ),
        stmt(
            0,
            StmtKind::With {
                targets: vec![Expr::List { elts: vec![target("e")] }],
                body: vec![class(0, "f", vec![], vec![])],
            },
        ),
        stmt(
            0,
            StmtKind::If {
                body: vec![stmt(0, StmtKind::AugAssign { target: target("g") })],
                clauses: vec![Clause { body: vec![function(0, "h", vec![])] }],
            },
        ),
        stmt(
            0,
            StmtKind::Try {
                body: vec![stmt(
                    0,
                    StmtKind::AnnAssign { target: target("i"), initial: None, simple: true },
                )],
                orelse: vec![assign(0, "j", number())],
                finalbody: vec![assign(0, "k", number())],
            },
        ),
        Stmt {
            offset: 0,
            kind: StmtKind::Other,
            expressions: vec![],
            nested: vec![assign(0, "l", number())],
        },
        evaluate(
            0,
            Expr::Other {
                children: ["a", "b", "c", "d", "e", "f", "g", "h", "i", "j", "k", "l"]
                    .iter()
                    .map(|n| name(n))
                    .collect(),
            },
        ),
    ];
    let mut module: Vec<Stmt> = ["a", "b", "c", "d", "e", "f", "g", "h", "i", "j", "k", "l"]
        .iter()
        .map(|n| assign(0, n, number()))
        .collect();
    module.push(function(0, "run", body));
    module.push(evaluate(0, name("run")));
    project.module("/p/app.py", "app", "", module);
    let expected: Vec<String> = ["a", "b", "c", "d", "e", "f", "g", "h", "i", "j", "k"]
        .iter()
        .map(|n| format!("app:{}", n))
        .collect();
    assert_eq!(project.dead(), expected);
}

#[test]
fn class_scopes_shadow_their_own_bases() {
    let mut project = Project::new();
    project.module(
        "/p/app.py",
        "app",
        "",
        vec![
            class(0, "Base", vec![], vec![]),
            class(0, "Other", vec![], vec![]),
            class(
                0,
                "Child",
                vec![name("Base"), name("Other")],
                vec![assign(0, "Base", number())],
            ),
            evaluate(0, name("Child")),
        ],
    );
    assert_eq!(project.dead(), vec!["app:Base"]);
}

#[test]
fn imports_of_symbols_are_followed() {
    let mut project = Project::new();
    project.module(
        "/p/lib.py",
        "lib",
        "",
        vec![function(0, "taken", vec![]), function(0, "left", vec![])],
    );
    project.member("lib.taken", "/p/lib.py", "lib", "taken");
    project.module(
        "/p/app.py",
        "app",
        "",
        vec![
            from_import(Some("lib"), 0, vec![alias_as("taken", "t")]),
            evaluate(0, call(name("t"), vec![])),
        ],
    );
    assert_eq!(project.dead(), vec!["lib:left"]);
}

#[test]
fn attributes_of_imported_modules_are_followed() {
    let mut project = Project::new();
    project.module("/p/pkg/__init__.py", "pkg", "", vec![function(0, "top", vec![])]);
    project.module(
        "/p/pkg/lib.py",
        "pkg.lib",
        "",
        vec![function(0, "taken", vec![]), function(0, "left", vec![])],
    );
    project.module(
        "/p/app.py",
        "app",
        "",
        vec![
            import(vec![alias("pkg.lib")]),
            import(vec![alias_as("pkg", "p")]),
            evaluate(0, call(attr(attr(name("pkg"), "lib"), "taken"), vec![])),
            evaluate(0, attr(name("p"), "top")),
        ],
    );
    assert_eq!(project.dead(), vec!["pkg.lib:left"]);
}

#[test]
fn relative_imports_start_at_the_package() {
    let mut project = Project::new();
    project.module("/p/pkg/lib.py", "pkg.lib", "", vec![function(0, "f", vec![])]);
    project.member("pkg.lib.f", "/p/pkg/lib.py", "pkg.lib", "f");
    project.module("/p/pkg/other.py", "pkg.other", "", vec![function(0, "g", vec![])]);
    // In a module, one dot is its package; in a package, one dot is the package itself.
    project.module(
        "/p/pkg/app.py",
        "pkg.app",
        "",
        vec![from_import(Some("lib"), 1, vec![alias("f")]), evaluate(0, name("f"))],
    );
    project.module(
        "/p/pkg/__init__.py",
        "pkg",
        "",
        vec![
            from_import(None, 1, vec![alias("other")]),
            evaluate(0, attr(name("other"), "g")),
            from_import(None, 9, vec![alias("too_far")]),
        ],
    );
    assert_eq!(project.dead(), Vec::<String>::new());
}

#[test]
fn unresolved_members_are_symbols_of_their_last_segment() {
    let mut project = Project::new();
    project.module("/p/lib.py", "lib", "", vec![function(0, "f", vec![])]);
    project.module(
        "/p/app.py",
        "app",
        "",
        vec![from_import(Some("lib"), 0, vec![alias("f")]), evaluate(0, name("f"))],
    );
    assert_eq!(project.dead(), Vec::<String>::new());
}

#[test]
fn exports_count_where_all_is_respected() {
    let mut project = Project::new();
    project.module(
        "/p/lib.py",
        "lib",
        "",
        vec![function(0, "f", vec![]), function(0, "_g", vec![]), function(0, "h", vec![])],
    );
    project.member("lib.h", "/p/lib.py", "lib", "h");
    project.module(
        "/p/app.py",
        "app",
        "",
        vec![
            from_import(Some("lib"), 0, vec![alias("h")]),
            function(0, "own", vec![]),
            all(&["own", "h"]),
        ],
    );
    assert_eq!(project.dead(), vec!["app:own", "lib:_g", "lib:f", "lib:h"]);
    project.config.deadcode.respect_all = true;
    assert_eq!(project.dead(), vec!["lib:_g", "lib:f"]);
}

#[test]
fn annotated_all_lists_exports_too() {
    let mut project = Project::new();
    project.config.deadcode.respect_all = true;
    project.module(
        "/p/app.py",
        "app",
        "",
        vec![
            function(0, "own", vec![]),
            function(0, "rest", vec![]),
            stmt(
                0,
                StmtKind::AnnAssign {
                    target: target("__all__"),
                    initial: Some(Expr::Tuple { elts: vec![string("own"), number()] }),
                    simple: true,
                },
            ),
        ],
    );
    assert_eq!(project.dead(), vec!["app:rest"]);
}

#[test]
fn star_imports_bring_in_public_names() {
    let mut project = Project::new();
    let body = || vec![function(0, "f", vec![]), function(0, "_g", vec![])];
    project.module("/p/lib.py", "lib", "", body());
    project.module("/p/app.py", "app", "", vec![from_import(Some("lib"), 0, vec![alias("*")])]);
    assert_eq!(project.dead(), vec!["lib:_g"]);
}

#[test]
fn star_imports_follow_all_where_it_is_respected() {
    let mut project = Project::new();
    project.module(
        "/p/lib.py",
        "lib",
        "",
        vec![function(0, "f", vec![]), function(0, "_g", vec![]), all(&["_g"])],
    );
    project.module("/p/app.py", "app", "", vec![from_import(Some("lib"), 0, vec![alias("*")])]);
    assert_eq!(project.dead(), vec!["lib:_g"]);
    project.config.deadcode.respect_all = true;
    assert_eq!(project.dead(), vec!["lib:f"]);
}

#[test]
fn public_symbols_are_live() {
    let mut project = Project::new();
    project.module(
        "/p/pkg/a.py",
        "pkg.a",
        "",
        vec![function(0, "f", vec![]), function(0, "g", vec![]), function(0, "h", vec![])],
    );
    project.config.deadcode.public_symbols =
        vec![text("pkg.a:f"), text("pkg.a.g"), text("pkg.a:absent"), text(":h")];
    assert_eq!(project.dead(), vec!["pkg.a:h"]);
}

#[test]
fn public_modules_are_live_but_for_their_private_names() {
    let mut project = Project::new();
    project.module(
        "/p/a.py",
        "a",
        "",
        vec![function(0, "f", vec![]), function(0, "_g", vec![])],
    );
    project.module("/p/b.py", "b", "", vec![function(0, "f", vec![])]);
    project.config.deadcode.public_modules = vec![text("a"), text("absent")];
    assert_eq!(project.dead(), vec!["a:_g", "b:f"]);
}

#[test]
fn public_decorators_make_symbols_live() {
    let mut project = Project::new();
    project.member("web.route", "/lib/web.py", "web", "route");
    project.module(
        "/p/app.py",
        "app",
        "",
        vec![
            from_import(Some("web"), 0, vec![alias("route")]),
            import(vec![alias_as("tasks.queue", "q")]),
            decorated(0, "plain", vec![name("task")], vec![]),
            decorated(0, "called", vec![call(name("route"), vec![string("/")])], vec![]),
            decorated(0, "by_module", vec![attr(name("q"), "job")], vec![]),
            decorated(0, "by_text", vec![attr(name("unknown"), "hook")], vec![]),
            decorated(0, "other", vec![name("other_decorator")], vec![]),
        ],
    );
    project.config.deadcode.public_decorators =
        vec![text("task"), text("web.route"), text("tasks.queue.job"), text("unknown.hook")];
    assert_eq!(project.dead(), vec!["app:other"]);
}

#[test]
fn local_decorators_are_known_by_their_full_path() {
    let mut project = Project::new();
    project.module(
        "/p/app.py",
        "app",
        "",
        vec![
            function(0, "mark", vec![]),
            decorated(0, "marked", vec![name("mark")], vec![]),
        ],
    );
    project.config.deadcode.public_decorators = vec![text("app.mark")];
    assert_eq!(project.dead(), Vec::<String>::new());
}

#[test]
fn entry_points_with_a_symbol_are_live() {
    let mut project = Project::new();
    project.module(
        "/p/app.py",
        "app",
        "",
        vec![function(0, "main", vec![]), function(0, "rest", vec![])],
    );
    project.entry_points = vec![text(" app : main "), text("app"), text("app: ")];
    project.entry_files.insert(text("app"), vec![path("/p/app.py"), path("/elsewhere.py")]);
    assert_eq!(project.dead(), vec!["app:rest"]);
}

#[test]
fn dynamic_modules_can_be_left_out() {
    let calls = vec![
        call(name("globals"), vec![]),
        call(name("locals"), vec![]),
        call(name("getattr"), vec![]),
        call(name("setattr"), vec![]),
        call(name("__import__"), vec![]),
        call(attr(name("importlib"), "import_module"), vec![]),
    ];
    for dynamic in calls {
        let mut project = Project::new();
        project.module(
            "/p/app.py",
            "app",
            "",
            vec![
                function(0, "f", vec![]),
                function(0, "g", vec![evaluate(0, Expr::Other { children: vec![dynamic] })]),
            ],
        );
        assert_eq!(project.dead(), vec!["app:f", "app:g"]);
        project.config.deadcode.ignore_dynamic_modules = true;
        assert_eq!(project.dead(), Vec::<String>::new());
    }
}

#[test]
fn star_imports_and_getattr_make_a_module_dynamic() {
    let mut project = Project::new();
    project.config.deadcode.ignore_dynamic_modules = true;
    project.module(
        "/p/a.py",
        "a",
        "",
        vec![function(0, "f", vec![]), from_import(Some("b"), 0, vec![alias("*")])],
    );
    project.module(
        "/p/c.py",
        "c",
        "",
        vec![function(0, "f", vec![]), function(0, "__getattr__", vec![])],
    );
    project.module(
        "/p/d.py",
        "d",
        "",
        vec![function(0, "f", vec![]), evaluate(0, call(attr(name("x"), "getattr"), vec![]))],
    );
    assert_eq!(project.dead(), vec!["d:f"]);
}

#[test]
fn nothing_is_reported_where_a_live_file_failed() {
    let mut project = Project::new();
    project.module("/p/app.py", "app", "", vec![function(0, "f", vec![])]);
    project.graph.add_file(path("/p/broken.py"), text("broken"));
    project.failures.insert(path("/p/broken.py"));
    assert_eq!(project.dead(), vec!["app:f"]);
    project.graph.add_import(&path("/p/app.py"), &path("/p/broken.py"));
    assert_eq!(project.dead(), Vec::<String>::new());
}

#[test]
fn files_that_are_not_live_are_not_looked_into() {
    let mut project = Project::new();
    project.module("/p/app.py", "app", "", vec![function(0, "f", vec![])]);
    project.module("/p/lib.py", "lib", "", vec![function(0, "g", vec![])]);
    project.roots = vec![path("/p/app.py")];
    assert_eq!(project.dead(), vec!["app:f"]);
    project.graph.add_import(&path("/p/app.py"), &path("/p/lib.py"));
    assert_eq!(project.dead(), vec!["app:f", "lib:g"]);
}

#[test]
fn findings_are_ordered_by_place_then_name() {
    let mut project = Project::new();
    let contents = "a = 1\nb = 2\n";
    project.module(
        "/p/x/m.py",
        "x.m",
        contents,
        vec![
            assign(6, "b", number()),
            stmt(
                0,
                StmtKind::Assign { targets: vec![target("z"), target("a")], value: number() },
            ),
        ],
    );
    project.module("/p/x-y.py", "x-y", contents, vec![assign(0, "c", number())]);
    // Paths are ordered by their components: `x` comes before `x-y.py`.
    assert_eq!(project.dead(), vec!["x.m:a", "x.m:z", "x.m:b", "x-y:c"]);
}

#[test]
fn of_two_files_with_one_module_the_later_decides() {
    let mut project = Project::new();
    project.module("/p/one/m.py", "m", "", vec![function(0, "f", vec![])]);
    project.module("/p/two/m.py", "m", "", vec![function(0, "g", vec![])]);
    assert_eq!(project.dead(), vec!["m:g"]);
}

#[test]
fn more_seeds_only_take_findings_away() {
    let mut project = Project::new();
    project.module(
        "/p/app.py",
        "app",
        "",
        vec![
            function(0, "f", vec![evaluate(0, name("g"))]),
            function(0, "g", vec![]),
            function(0, "h", vec![]),
        ],
    );
    assert_eq!(project.dead(), vec!["app:f", "app:g", "app:h"]);
    project.config.deadcode.public_symbols = vec![text("app:f")];
    assert_eq!(project.dead(), vec!["app:h"]);
}

#[test]
fn fastapi_routes_are_live_from_the_app() {
    let mut project = Project::new();
    project.member("routes.router", "/p/routes.py", "routes", "router");
    project.module(
        "/p/main.py",
        "main",
        "",
        vec![
            from_import(Some("fastapi"), 0, vec![alias("FastAPI")]),
            from_import(Some("routes"), 0, vec![alias("router")]),
            assign(0, "app", call(name("FastAPI"), vec![])),
            evaluate(0, call(attr(name("app"), "include_router"), vec![name("router")])),
            decorated(0, "health", vec![call(attr(name("app"), "get"), vec![string("/")])], vec![]),
            decorated(0, "idle", vec![call(attr(name("app"), "middleware"), vec![])], vec![]),
        ],
    );
    project.module(
        "/p/routes.py",
        "routes",
        "",
        vec![
            import(vec![alias("fastapi")]),
            assign(0, "router", call(attr(name("fastapi"), "APIRouter"), vec![])),
            assign(0, "spare", call(attr(name("fastapi"), "APIRouter"), vec![])),
            decorated(0, "list_items", vec![attr(name("router"), "websocket")], vec![]),
            decorated(0, "hidden", vec![call(attr(name("spare"), "post"), vec![])], vec![]),
        ],
    );
    project.config.deadcode.respect_all = true;
    // Module code mentions `app` and `router`, but not their handlers.
    assert_eq!(
        project.dead(),
        vec!["main:health", "main:idle", "routes:hidden", "routes:list_items", "routes:spare"],
    );
    project.entry_points = vec![text("main:app")];
    project.entry_files.insert(text("main"), vec![path("/p/main.py")]);
    assert_eq!(project.dead(), vec!["main:idle", "routes:hidden", "routes:spare"]);
}

#[test]
fn fastapi_routers_may_be_passed_by_keyword() {
    let mut project = Project::new();
    let mount = |arg: &str| {
        evaluate(
            0,
            Expr::Call {
                func: Box::new(attr(name("app"), "include_router")),
                args: vec![],
                keywords: vec![
                    Keyword { arg: None, value: name("extra") },
                    Keyword { arg: Some(text(arg)), value: name("router") },
                ],
            },
        )
    };
    let body = |arg: &str| {
        vec![
            from_import(Some("fastapi"), 0, vec![alias("FastAPI"), alias("APIRouter")]),
            assign(0, "app", call(name("FastAPI"), vec![])),
            assign(0, "router", call(name("APIRouter"), vec![])),
            decorated(0, "handler", vec![call(attr(name("router"), "put"), vec![])], vec![]),
            mount(arg),
        ]
    };
    project.entry_points = vec![text("main:app")];
    project.entry_files.insert(text("main"), vec![path("/p/main.py")]);
    project.module("/p/main.py", "main", "", body("router"));
    assert_eq!(project.dead(), Vec::<String>::new());
    let mut other = Project::new();
    other.entry_points = vec![text("main:app")];
    other.entry_files.insert(text("main"), vec![path("/p/main.py")]);
    other.module("/p/main.py", "main", "", body("prefix"));
    assert_eq!(other.dead(), vec!["main:handler"]);
}

#[test]
fn only_the_paths_that_are_imported_from_matter() {
    let body = || {
        vec![
            from_import(Some("lib"), 0, vec![alias("f"), alias_as("g", "h")]),
            from_import(Some("other"), 0, vec![alias("*")]),
            from_import(None, 1, vec![alias("sibling")]),
            import(vec![alias("os")]),
            evaluate(0, name("f")),
        ]
    };
    let no_answers: ModuleIndex = SortedMap::new();
    let no_decorators: SortedSet<String> = SortedSet::new();
    let collector = ModuleCollector::new(
        &no_answers,
        text("pkg.app"),
        path("/p/pkg/app.py"),
        "",
        &no_decorators,
    );
    assert_eq!(collector.from_import_paths(&body()), vec!["lib.f", "lib.g", "pkg.sibling"]);
    let mut project = Project::new();
    project.module("/p/lib.py", "lib", "", vec![function(0, "f", vec![])]);
    project.member("lib.f", "/p/lib.py", "lib", "f");
    project.module("/p/pkg/app.py", "pkg.app", "", body());
    let before = project.dead();
    project.member("os", "/p/lib.py", "lib", "f");
    project.member("lib.other", "/p/lib.py", "lib", "other");
    assert_eq!(project.dead(), before);
    project.member("lib.f", "/p/lib.py", "lib", "renamed");
    assert_eq!(project.dead(), vec!["lib:f"]);
}

#[test]
fn modules_are_collected_whole() {
    let mut index: ModuleIndex = SortedMap::new();
    index.insert(text("lib.f"), ModuleLookup { module_file: None, resolved: None });
    let no_decorators: SortedSet<String> = SortedSet::new();
    let symbols = collect_module_symbols(
        &index,
        &path("/p/app.py"),
        &text("app"),
        "\n\nx = 1\n",
        &vec![
            from_import(Some("lib"), 0, vec![alias("f"), alias("*")]),
            import(vec![alias("a.b"), alias_as("c.d", "e")]),
            assign(2, "x", name("f")),
            all(&["x", "x", "y"]),
        ],
        &no_decorators,
    );
    assert_eq!(symbols.symbols.len(), 1);
    assert_eq!(symbols.symbols.value_at(0).line_number, 3);
    assert_eq!(symbols.star_imports, vec!["lib"]);
    assert!(symbols.is_dynamic);
    assert_eq!(symbols.exports.to_list(), vec!["x", "y"]);
    let target = |binding: &str| match symbols.imports.get(&text(binding)) {
        Some(ImportTarget::Module(module)) => format!("module {}", module),
        Some(ImportTarget::Symbol(key)) => format!("symbol {} {}", key.module, key.symbol_name),
        None => text("nothing"),
    };
    assert_eq!(target("a"), "module a");
    assert_eq!(target("e"), "module c.d");
    assert_eq!(target("f"), "symbol lib f");
    assert_eq!(target("b"), "nothing");
    assert_eq!(symbols.module_references.len(), 1);
    assert!(symbols.module_references.contains(&SymbolKey::new(text("lib"), text("f"))));
}

#[test]
fn findings_have_paths_as_the_graph_writes_them() {
    let mut project = Project::new();
    project.module("/p/./app.py", "app", "", vec![function(0, "f", vec![])]);
    project.roots = vec![path("/p/app.py")];
    let findings = project.findings();
    assert_eq!(findings[0].file_path.display(), "/p/./app.py");
    assert_eq!(findings[0].file_path.as_str(), "/p/app.py");
}

#[test]
fn a_name_is_bound_by_each_alias() {
    let no_answers: ModuleIndex = SortedMap::new();
    let no_decorators: SortedSet<String> = SortedSet::new();
    let mut collector =
        ModuleCollector::new(&no_answers, text("app"), path("/p/app.py"), "", &no_decorators);
    collector.register_import_from(&alias("*"), &text("lib"));
    collector.register_import_from(&alias_as("f", ""), &text("lib"));
    assert_eq!(collector.imports.len(), 1);
    match collector.imports.get(&text("*")) {
        Some(ImportTarget::Symbol(key)) => {
            assert_eq!((key.module.as_str(), key.symbol_name.as_str()), ("lib", "*"))
        }
        _ => panic!("expected a symbol"),
    }
}
