use std::collections::BTreeSet;
use std::path::{Path, PathBuf};

use deadcode::collections::{SortedMap, SortedSet};
use deadcode::collector::should_skip_symbol_candidate;
use deadcode::config::{
    DeadcodeConfig, ModuleConfig, ProjectConfig, RuleSetting, Severity, ROOT_MODULE_SENTINEL_TAG,
};
use deadcode::imports::{import_target_from_path, ImportTarget, ModuleIndex, ModuleLookup, ResolvedModule};
use deadcode::keys::SymbolKey;
use deadcode::path::{is_init_file, FilePath};
use deadcode::reach::{add_edge, explore};
use deadcode::rules::{entry_point_parts, parse_symbol_rule, parse_symbol_rule_parts};
use deadcode::settings::{
    deadcode_exclude_paths, is_default_exclude_set, is_unchecked_module, module_matches,
    normalize_path, should_ignore_file,
};
use deadcode::text::{join_text, parent_modules, split_text, trim};

fn text(s: &str) -> String {
    s.to_string()
}

fn path(s: &str) -> FilePath {
    FilePath::new(s.to_string())
}

fn texts(list: &[&str]) -> Vec<String> {
    list.iter().map(|s| s.to_string()).collect()
}

fn config() -> ProjectConfig {
    ProjectConfig {
        exclude: vec![],
        modules: vec![],
        deadcode: DeadcodeConfig {
            detect: vec![],
            severity: RuleSetting::Error,
            entry_points: vec![],
            exclude: vec![],
            ignore: vec![],
            public_modules: vec![],
            public_symbols: vec![],
            public_decorators: vec![],
            include_test_usages: false,
            protect_init_files: false,
            respect_all: false,
            ignore_dynamic_modules: false,
        },
    }
}

#[test]
fn symbol_rules_are_split_at_the_first_colon_or_the_last_dot() {
    assert_eq!(
        parse_symbol_rule_parts("pkg.service:dynamic_handler"),
        Some(("pkg.service", "dynamic_handler")),
    );
    assert_eq!(parse_symbol_rule_parts("pkg.service.run"), Some(("pkg.service", "run")));
    assert_eq!(parse_symbol_rule_parts("a:b:c"), Some(("a", "b:c")));
    assert_eq!(parse_symbol_rule_parts("a.b:c.d"), Some(("a.b", "c.d")));
    assert_eq!(parse_symbol_rule_parts("pkg"), None);
    assert_eq!(parse_symbol_rule_parts(""), None);
    assert_eq!(parse_symbol_rule_parts(":f"), None);
    assert_eq!(parse_symbol_rule_parts("m:"), None);
    assert_eq!(parse_symbol_rule_parts(".f"), None);
    assert_eq!(parse_symbol_rule_parts("m."), None);
    assert_eq!(parse_symbol_rule_parts("m.f:"), None);
}

#[test]
fn symbol_rules_give_keys() {
    match parse_symbol_rule("pkg.a:f") {
        Some(key) => assert_eq!((key.module.as_str(), key.symbol_name.as_str()), ("pkg.a", "f")),
        None => panic!("expected a symbol"),
    }
    assert!(parse_symbol_rule("pkg").is_none());
}

#[test]
fn entry_points_may_name_a_symbol() {
    assert_eq!(entry_point_parts(" pkg.app : main "), Some((text("pkg.app"), text("main"))));
    assert_eq!(entry_point_parts("pkg.app:a:b"), Some((text("pkg.app"), text("a:b"))));
    assert_eq!(entry_point_parts(":main"), Some((text(""), text("main"))));
    assert_eq!(entry_point_parts("pkg.app: "), None);
    assert_eq!(entry_point_parts("pkg.app"), None);
}

#[test]
fn dunder_names_are_skipped() {
    assert!(should_skip_symbol_candidate(&text("__all__")));
    assert!(should_skip_symbol_candidate(&text("__")));
    assert!(should_skip_symbol_candidate(&text("___")));
    assert!(!should_skip_symbol_candidate(&text("_")));
    assert!(!should_skip_symbol_candidate(&text("__a_")));
    assert!(!should_skip_symbol_candidate(&text("_a__")));
}

#[test]
fn modules_match_themselves_and_what_is_below() {
    assert!(module_matches("pkg", "pkg"));
    assert!(module_matches("pkg", "pkg.sub.mod"));
    assert!(!module_matches("pkg", "pkgs"));
    assert!(!module_matches("pkg.sub", "pkg"));
    assert!(module_matches(ROOT_MODULE_SENTINEL_TAG, "anything.at.all"));
    assert!(module_matches("", ".a"));
    assert!(!module_matches("", "a"));
}

#[test]
fn the_most_specific_module_decides() {
    let mut config = config();
    let module = |path: &str, unchecked: bool| ModuleConfig { path: text(path), unchecked };
    assert!(!is_unchecked_module(&config, "pkg.a"));
    config.modules = vec![
        module("pkg.a", true),
        module(ROOT_MODULE_SENTINEL_TAG, false),
        module("pkg", false),
    ];
    assert!(is_unchecked_module(&config, "pkg.a.b"));
    assert!(!is_unchecked_module(&config, "pkg.b"));
    assert!(!is_unchecked_module(&config, "other"));
    config.modules.push(module("pkg.a", false));
    assert!(!is_unchecked_module(&config, "pkg.a.b"));
    config.modules = vec![module(ROOT_MODULE_SENTINEL_TAG, true)];
    assert!(is_unchecked_module(&config, "other"));
}

#[test]
fn ignore_rules_name_modules_files_or_paths() {
    let root = path("/p");
    let sources = vec![path("/p/src")];
    let file = path("/p/src/pkg/generated.py");
    let ignored = |rule: &str| {
        should_ignore_file(&texts(&[rule]), &root, &sources, &file, Some("pkg.generated"))
    };
    assert!(ignored("pkg.generated"));
    assert!(ignored("  pkg.generated "));
    assert!(ignored("pkg/generated.py"));
    assert!(ignored("src/pkg/generated.py"));
    assert!(ignored("src\\pkg\\generated.py"));
    assert!(ignored("/p/src/pkg/generated.py"));
    assert!(ignored("generated.py"));
    assert!(ignored("generated.py:symbol"));
    assert!(!ignored("pkg.generated:symbol"));
    assert!(!ignored("pkg/generated.py:symbol"));
    assert!(!ignored("pkg"));
    assert!(!ignored(""));
    assert!(!ignored("  :generated.py"));
    assert!(!should_ignore_file(&texts(&["pkg.generated"]), &root, &sources, &file, None));
    assert!(!should_ignore_file(&vec![], &root, &sources, &file, Some("pkg.generated")));
    assert!(should_ignore_file(
        &texts(&["other", "pkg.generated"]),
        &root,
        &sources,
        &file,
        Some("pkg.generated"),
    ));
}

#[test]
fn paths_are_normalized_once() {
    assert_eq!(normalize_path("a\\b/c\\d.py"), "a/b/c/d.py");
    assert_eq!(normalize_path(&normalize_path("a\\b")), normalize_path("a\\b"));
}

#[test]
fn default_exclusions_are_compared_as_sets() {
    let defaults = texts(&["tests", "docs"]);
    assert!(is_default_exclude_set(&texts(&["docs", "tests", "docs"]), &defaults));
    assert!(!is_default_exclude_set(&texts(&["docs"]), &defaults));
    assert!(!is_default_exclude_set(&texts(&["docs", "tests", "x"]), &defaults));
}

#[test]
fn tests_are_shown_where_their_usages_count() {
    let mut config = config();
    config.exclude = texts(&["tests", "**/tests", "docs"]);
    config.deadcode.exclude = texts(&["build", "tests"]);
    let defaults = config.exclude.clone();
    assert_eq!(
        deadcode_exclude_paths(&config, &defaults),
        vec!["tests", "**/tests", "docs", "build", "tests"],
    );
    config.deadcode.include_test_usages = true;
    assert_eq!(deadcode_exclude_paths(&config, &defaults), vec!["docs", "build", "tests"]);
}

#[test]
fn rules_have_severities() {
    assert_eq!(RuleSetting::Off.severity(), None);
    assert_eq!(RuleSetting::Warn.severity(), Some(Severity::Warning));
    assert_eq!(RuleSetting::Error.severity(), Some(Severity::Error));
}

#[test]
fn import_targets_prefer_modules() {
    let mut index: ModuleIndex = SortedMap::new();
    let member = |file: &str, member: Option<&str>, module: Option<&str>| ModuleLookup {
        module_file: None,
        resolved: Some(ResolvedModule {
            file_path: path(file),
            member_name: member.map(text),
            file_module: module.map(text),
        }),
    };
    index.insert(
        text("pkg.mod"),
        ModuleLookup { module_file: Some(path("/p/pkg/mod.py")), resolved: None },
    );
    index.insert(text("pkg.f"), member("/p/pkg/__init__.py", Some("f"), Some("pkg")));
    index.insert(text("pkg.g"), member("/p/pkg/__init__.py", None, Some("pkg")));
    index.insert(text("pkg.h"), member("/p/pkg/__init__.py", Some("h"), None));
    let target = |full: &str| match import_target_from_path(&index, &text(full)) {
        ImportTarget::Module(module) => format!("module {}", module),
        ImportTarget::Symbol(key) => format!("symbol {} {}", key.module, key.symbol_name),
    };
    assert_eq!(target("pkg.mod"), "module pkg.mod");
    assert_eq!(target("pkg.f"), "symbol pkg f");
    assert_eq!(target("pkg.g"), "module pkg.g");
    assert_eq!(target("pkg.h"), "module pkg.h");
    assert_eq!(target("a.b.c"), "symbol a.b c");
    assert_eq!(target("os"), "module os");
}

#[test]
fn segments_join_to_what_was_split() {
    let parts = split_text("a..b.", '.');
    assert_eq!(parts, vec!["a", "", "b", ""]);
    assert_eq!(join_text(&parts, "."), "a..b.");
    assert_eq!(split_text("", '.'), vec![""]);
    assert_eq!(parent_modules("a.b.c"), vec!["a", "a.b"]);
    assert_eq!(parent_modules("a"), Vec::<String>::new());
}

#[test]
fn white_space_is_trimmed_as_unicode_has_it() {
    for s in ["", " ", "\u{a0}x\u{2003}", "\t a b \r\n", "\u{feff}x", "\u{200b}x", "\u{3000}"] {
        assert_eq!(trim(s), s.trim());
    }
}

#[test]
fn paths_have_names_extensions_and_remainders() {
    assert_eq!(path("/p/a.tar.gz").file_name(), "a.tar.gz");
    assert_eq!(path("/p/a.tar.gz").extension(), Some("gz"));
    assert_eq!(path("/p/.hidden").extension(), None);
    assert_eq!(path("/p/plain").extension(), None);
    assert_eq!(path("/p").join(&path("a/b.py")).as_str(), "/p/a/b.py");
    assert_eq!(path("/p").join(&path("/q")).as_str(), "/q");
    assert_eq!(path("/").join(&path("a")).as_str(), "/a");
    assert_eq!(path("/p/a/b").relative_to(&path("/p")), Some("a/b"));
    assert_eq!(path("/pa/b").relative_to(&path("/p")), None);
    assert_eq!(path("/p").relative_to(&path("/p")), Some(""));
    assert!(is_init_file(&path("/p/__init__.py")));
    assert!(!is_init_file(&path("/p/init.py")));
}

#[test]
fn paths_are_written_in_one_way() {
    assert_eq!(path("/p//a/./b.py/").as_str(), "/p/a/b.py");
    assert_eq!(path("//").as_str(), "/");
    assert_eq!(path("./a/.").as_str(), "./a");
    assert_eq!(path("a/../b").as_str(), "a/../b");
    assert_eq!(path("").as_str(), "");
    assert_eq!(path("/p").join(&path("./a")).as_str(), "/p/a");
    assert_eq!(path("/p").join(&path("./a")).display(), "/p/./a");
    assert_eq!(path("/p//a/./b.py/").display(), "/p//a/./b.py/");
}

#[test]
fn parent_components_have_no_name_and_come_first() {
    assert_eq!(path("/p/..").file_name(), "");
    assert_eq!(path("/p/..").extension(), None);
    assert_eq!(path(".").file_name(), "");
    let mut set: SortedSet<FilePath> = SortedSet::new();
    set.insert(path("/p/-a"));
    set.insert(path("/p/../x"));
    assert_eq!(set.at(0).as_str(), "/p/../x");
}

#[test]
fn paths_behave_like_those_of_the_standard_library() {
    let samples = [
        "", "/", ".", "..", "./a", "../a", "a", "a/b", "a-b", "a/..", "a/../b", "/a", "/a/", "/a//b",
        "/-a", "/..", "/../x", "/.hidden", "/a/./b.py", "/a/b.tar.gz", "-", ".-", "..a", "a.", "/p/-a",
        "/p/../x", "/p/..", "a b", "\u{e9}/x",
    ];
    let mut set: SortedSet<FilePath> = SortedSet::new();
    let mut expected: BTreeSet<PathBuf> = BTreeSet::new();
    for sample in samples {
        set.insert(path(sample));
        expected.insert(PathBuf::from(sample));
        let std = Path::new(sample);
        assert_eq!(Path::new(path(sample).as_str()), std);
        assert_eq!(
            path(sample).file_name(),
            std.file_name().and_then(|n| n.to_str()).unwrap_or(""),
            "{}",
            sample,
        );
        assert_eq!(path(sample).extension(), std.extension().and_then(|e| e.to_str()), "{}", sample);
        for other in samples {
            assert_eq!(
                Path::new(path(sample).join(&path(other)).as_str()),
                std.join(other),
                "{} {}",
                sample,
                other,
            );
            assert_eq!(
                path(sample).join(&path(other)).display(),
                std.join(other).display().to_string(),
            );
            let normal = path(sample);
            let base = path(other);
            assert_eq!(
                normal.relative_to(&base),
                Path::new(normal.as_str())
                    .strip_prefix(base.as_str())
                    .ok()
                    .and_then(|rest| rest.to_str()),
                "{} {}",
                sample,
                other,
            );
        }
    }
    let list: Vec<PathBuf> = set.to_list().iter().map(|p| PathBuf::from(p.as_str())).collect();
    assert_eq!(list, expected.into_iter().collect::<Vec<PathBuf>>());
}

#[test]
fn sorted_collections_list_their_keys_in_order() {
    let mut set: SortedSet<FilePath> = SortedSet::new();
    assert!(set.insert(path("a-b")));
    assert!(set.insert(path("a/c")));
    assert!(!set.insert(path("a-b")));
    let list: Vec<String> = set.to_list().iter().map(|p| p.as_str().to_string()).collect();
    assert_eq!(list, vec!["a/c", "a-b"]);
    let mut map: SortedMap<String, String> = SortedMap::new();
    map.insert(text("k"), text("1"));
    map.insert(text("j"), text("2"));
    map.insert(text("k"), text("3"));
    assert_eq!(map.len(), 2);
    assert_eq!(map.key_at(0), "j");
    assert_eq!(map.value_at(1), "3");
    assert_eq!(map.get(&text("k")), Some(&text("3")));
    assert_eq!(map.remove(&text("k")), Some(text("3")));
    assert_eq!(map.get(&text("k")), None);
}

#[test]
fn exploring_finds_what_is_reachable() {
    let key = |name: &str| SymbolKey::new(text("m"), text(name));
    let mut next: SortedMap<SymbolKey, SortedSet<SymbolKey>> = SortedMap::new();
    add_edge(&mut next, &key("a"), &key("b"));
    add_edge(&mut next, &key("b"), &key("c"));
    add_edge(&mut next, &key("c"), &key("a"));
    add_edge(&mut next, &key("d"), &key("e"));
    let mut start: SortedSet<SymbolKey> = SortedSet::new();
    start.insert(key("b"));
    let found = explore(&start, &next);
    let names: Vec<String> = found.to_list().iter().map(|k| k.symbol_name.clone()).collect();
    assert_eq!(names, vec!["a", "b", "c"]);
}
