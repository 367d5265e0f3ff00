//! How the settings apply to files and modules.

use crate::config::{DeadcodeDetection, ModuleConfig, ProjectConfig, ROOT_MODULE_SENTINEL_TAG};
use crate::collections::{views, SortedSet};
use crate::path::{file_name, relative, FilePath};
use crate::text::{
    before_first, contains_char, leading_part, same_text, slashed, texts, trim, trimmed,
    with_slashes,
};
use vstd::prelude::*;

verus! {

/// What to look for: what the command line asks for, or, where it asks for nothing, what the
/// settings list. Files first, then symbols.
pub open spec fn detections(config: ProjectConfig, files: bool, symbols: bool) -> (bool, bool) {
    if files || symbols {
        (files, symbols)
    } else {
        (
            config.deadcode.detect@.contains(DeadcodeDetection::Files),
            config.deadcode.detect@.contains(DeadcodeDetection::Symbols),
        )
    }
}

fn detects(list: &Vec<DeadcodeDetection>, wanted: DeadcodeDetection) -> (yes: bool)
    ensures
        yes == list@.contains(wanted),
{
    let mut i: usize = 0;
    while i < list.len()
        invariant
            i <= list@.len(),
            forall|j: int| 0 <= j < i ==> list@[j] != wanted,
        decreases list@.len() - i,
    {
        if list[i] == wanted {
            assert(list@[i as int] == wanted);
            return true;
        }
        i += 1;
    }
    false
}

pub fn chosen_detections(config: &ProjectConfig, files: bool, symbols: bool) -> (chosen: (
    bool,
    bool,
))
    ensures
        chosen == detections(*config, files, symbols),
{
    if files || symbols {
        (files, symbols)
    } else {
        (
            detects(&config.deadcode.detect, DeadcodeDetection::Files),
            detects(&config.deadcode.detect, DeadcodeDetection::Symbols),
        )
    }
}

pub open spec fn texts_of(list: Option<Vec<String>>) -> Seq<Seq<char>> {
    match list {
        Some(v) => texts(v@),
        None => Seq::empty(),
    }
}

/// Appends copies of the texts in `more`.
fn extend_texts(list: &mut Vec<String>, more: &Vec<String>)
    ensures
        texts(final(list)@) == texts(old(list)@) + texts(more@),
{
    let ghost start = texts(list@);
    let mut i: usize = 0;
    assert(texts(list@) =~= start + texts(more@).take(0));
    while i < more.len()
        invariant
            i <= more@.len(),
            texts(list@) == start + texts(more@).take(i as int),
        decreases more@.len() - i,
    {
        let ghost before = texts(list@);
        list.push(more[i].clone());
        assert(texts(list@) =~= before.push(more@[i as int]@));
        assert(texts(more@).take(i + 1) =~= texts(more@).take(i as int).push(more@[i as int]@));
        assert(texts(list@) =~= start + texts(more@).take(i + 1));
        i += 1;
    }
    assert(texts(more@).take(i as int) =~= texts(more@));
}

/// The configured entry points, followed by those of the command line.
pub fn effective_entry_points(config: &ProjectConfig, entry_points: Option<Vec<String>>) -> (all:
    Vec<String>)
    ensures
        texts(all@) == texts(config.deadcode.entry_points@) + texts_of(entry_points),
{
    let mut all: Vec<String> = Vec::new();
    extend_texts(&mut all, &config.deadcode.entry_points);
    if let Some(more) = &entry_points {
        extend_texts(&mut all, more);
    }
    assert(texts(all@) =~= texts(config.deadcode.entry_points@) + texts_of(entry_points));
    all
}

/// Whether the configured exclusions are the default ones, in whatever order and number.
pub fn is_default_exclude_set(exclude_paths: &Vec<String>, defaults: &Vec<String>) -> (yes: bool)
    ensures
        yes == (texts(exclude_paths@).to_set() == texts(defaults@).to_set()),
{
    let configured = SortedSet::from_list(exclude_paths);
    let expected = SortedSet::from_list(defaults);
    assert(views(exclude_paths@) =~= texts(exclude_paths@));
    assert(views(defaults@) =~= texts(defaults@));
    let yes = holds_all(&configured, defaults) && holds_all(&expected, exclude_paths);
    proof {
        let left = texts(exclude_paths@);
        let right = texts(defaults@);
        if yes {
            assert forall|t: Seq<char>| left.to_set().contains(t) == right.to_set().contains(t) by {
                if left.contains(t) {
                    let j = choose|j: int| 0 <= j < left.len() && left[j] == t;
                    assert(expected@.contains(left[j]));
                }
                if right.contains(t) {
                    let j = choose|j: int| 0 <= j < right.len() && right[j] == t;
                    assert(configured@.contains(right[j]));
                }
            }
            assert(left.to_set() =~= right.to_set());
        }
        if left.to_set() == right.to_set() {
            assert forall|j: int| 0 <= j < left.len() implies expected@.contains(
                #[trigger] left[j],
            ) by {
                assert(left.to_set().contains(left[j]));
            }
            assert forall|j: int| 0 <= j < right.len() implies configured@.contains(
                #[trigger] right[j],
            ) by {
                assert(right.to_set().contains(right[j]));
            }
        }
    }
    yes
}

fn holds_all(set: &SortedSet<String>, list: &Vec<String>) -> (yes: bool)
    ensures
        yes == forall|j: int| 0 <= j < list@.len() ==> set@.contains(#[trigger] texts(list@)[j]),
{
    let mut i: usize = 0;
    while i < list.len()
        invariant
            i <= list@.len(),
            forall|j: int| 0 <= j < i ==> set@.contains(#[trigger] texts(list@)[j]),
        decreases list@.len() - i,
    {
        if !set.contains(&list[i]) {
            assert(!set@.contains(texts(list@)[i as int]));
            return false;
        }
        i += 1;
    }
    true
}

/// Whether an exclusion is one of those that hide the tests.
pub open spec fn hides_tests(path: Seq<char>) -> bool {
    path == "tests"@ || path == "**/tests"@
}

/// The exclusions that apply: the project's, without those that hide the tests where usages in
/// tests count and the project has just the default exclusions; then those of the analysis.
pub open spec fn exclusions(config: ProjectConfig, defaults: Seq<Seq<char>>) -> Seq<Seq<char>> {
    let base = texts(config.exclude@);
    let kept = if config.deadcode.include_test_usages && base.to_set() == defaults.to_set() {
        base.filter(|path: Seq<char>| !hides_tests(path))
    } else {
        base
    };
    kept + texts(config.deadcode.exclude@)
}

/// Copies the exclusions that do not hide the tests.
fn without_tests(list: &Vec<String>) -> (kept: Vec<String>)
    ensures
        texts(kept@) == texts(list@).filter(|path: Seq<char>| !hides_tests(path)),
{
    let ghost shown = |path: Seq<char>| !hides_tests(path);
    let mut kept: Vec<String> = Vec::new();
    let mut i: usize = 0;
    proof {
        reveal(Seq::filter);
        assert(texts(kept@) =~= texts(list@).take(0).filter(shown));
    }
    while i < list.len()
        invariant
            i <= list@.len(),
            shown == (|path: Seq<char>| !hides_tests(path)),
            texts(kept@) == texts(list@).take(i as int).filter(shown),
        decreases list@.len() - i,
    {
        let ghost before = texts(kept@);
        let path = list[i].as_str();
        proof {
            reveal(Seq::filter);
            assert(texts(list@).take(i + 1).drop_last() =~= texts(list@).take(i as int));
        }
        if !same_text(path, "tests") && !same_text(path, "**/tests") {
            kept.push(list[i].clone());
            assert(texts(kept@) =~= before.push(list@[i as int]@));
        }
        i += 1;
    }
    assert(texts(list@).take(i as int) =~= texts(list@));
    kept
}

/// The exclusions that apply to the analysis.
pub fn deadcode_exclude_paths(config: &ProjectConfig, defaults: &Vec<String>) -> (paths: Vec<
    String,
>)
    ensures
        texts(paths@) == exclusions(*config, texts(defaults@)),
{
    let mut paths: Vec<String> = Vec::new();
    if config.deadcode.include_test_usages && is_default_exclude_set(&config.exclude, defaults) {
        paths = without_tests(&config.exclude);
    } else {
        extend_texts(&mut paths, &config.exclude);
        assert(texts(paths@) =~= texts(config.exclude@));
    }
    extend_texts(&mut paths, &config.deadcode.exclude);
    paths
}

/// Backslashes as slashes.
pub fn normalize_path(path: &str) -> (normalized: String)
    ensures
        normalized@ == slashed(path@),
{
    with_slashes(path)
}

/// Whether a configured module path covers a module: the root covers all, any other covers itself
/// and the modules below it.
pub open spec fn covers(configured: Seq<char>, module: Seq<char>) -> bool {
    configured == ROOT_MODULE_SENTINEL_TAG@ || module == configured || configured.push(
        '.',
    ).is_prefix_of(module)
}

pub fn module_matches(configured: &str, module: &str) -> (yes: bool)
    ensures
        yes == covers(configured@, module@),
{
    if same_text(configured, ROOT_MODULE_SENTINEL_TAG) || same_text(module, configured) {
        return true;
    }
    let n = module.unicode_len();
    let m = configured.unicode_len();
    if n <= m {
        return false;
    }
    let front = module.substring_char(0, m);
    assert(front@ =~= module@.take(m as int));
    let yes = same_text(front, configured) && module.get_char(m) == '.';
    proof {
        let below = configured@.push('.');
        if yes {
            assert(below =~= module@.take(m + 1));
        }
        if below.is_prefix_of(module@) {
            assert(front@ =~= configured@);
            assert(below[m as int] == module@[m as int]);
        }
    }
    yes
}

/// How specific a configured module path is. All paths but the root that cover one module are
/// prefixes of it, so the longer one, in characters or in bytes, is the more specific one.
pub open spec fn specificity(configured: Seq<char>) -> nat {
    if configured == ROOT_MODULE_SENTINEL_TAG@ {
        0
    } else {
        configured.len()
    }
}

/// Whether the configuration at position `i` decides for a module: it covers the module, none
/// that covers it is more specific, and none that is as specific comes later.
pub open spec fn decides(list: Seq<ModuleConfig>, module: Seq<char>, i: int) -> bool {
    &&& 0 <= i < list.len()
    &&& covers(list[i].path@, module)
    &&& forall|j: int|
        0 <= j < list.len() && covers((#[trigger] list[j]).path@, module) ==> if j <= i {
            specificity(list[j].path@) <= specificity(list[i].path@)
        } else {
            specificity(list[j].path@) < specificity(list[i].path@)
        }
}

/// Whether the configuration that decides for a module leaves it unchecked.
pub open spec fn is_unchecked(list: Seq<ModuleConfig>, module: Seq<char>) -> bool {
    exists|i: int| #[trigger] decides(list, module, i) && list[i].unchecked
}

fn path_specificity(configured: &str) -> (n: usize)
    ensures
        n == specificity(configured@),
{
    if same_text(configured, ROOT_MODULE_SENTINEL_TAG) {
        0
    } else {
        configured.unicode_len()
    }
}

pub fn is_unchecked_module(config: &ProjectConfig, module: &str) -> (yes: bool)
    ensures
        yes == is_unchecked(config.modules@, module@),
{
    let ghost list = config.modules@;
    let mut best: Option<usize> = None;
    let mut i: usize = 0;
    while i < config.modules.len()
        invariant
            i <= list.len(),
            list == config.modules@,
            match best {
                Some(b) => b < i && decides(list.take(i as int), module@, b as int),
                None => forall|j: int|
                    0 <= j < i ==> !covers((#[trigger] list[j]).path@, module@),
            },
        decreases list.len() - i,
    {
        let path = config.modules[i].path.as_str();
        let ghost seen = list.take(i as int);
        let ghost more = list.take(i + 1);
        proof {
            assert(forall|j: int| 0 <= j < i ==> #[trigger] more[j] == seen[j]);
            assert(forall|j: int| 0 <= j < i ==> #[trigger] more[j] == list[j]);
            assert(more[i as int] == list[i as int]);
        }
        if module_matches(path, module) {
            let replaces = match best {
                Some(b) => path_specificity(path) >= path_specificity(
                    config.modules[b].path.as_str(),
                ),
                None => true,
            };
            if replaces {
                best = Some(i);
                assert(decides(more, module@, i as int));
            }
        }
        i += 1;
    }
    assert(list.take(i as int) =~= list);
    match best {
        Some(b) => {
            proof {
                assert(decides(list, module@, b as int));
                assert forall|k: int| decides(list, module@, k) implies k == b by {
                    assert(covers(list[k].path@, module@) && covers(list[b as int].path@, module@));
                }
            }
            config.modules[b].unchecked
        },
        None => false,
    }
}

/// Whether an ignore rule applies to a file. Its part before the first colon, without surrounding
/// white space, must be the file's name; or the rule has no colon and is the module path, or,
/// with slashes for backslashes, the file's name or its path, as it is written, or below the
/// project root or a source root.
pub open spec fn rule_ignores(
    rule: Seq<char>,
    root: Seq<char>,
    source_roots: Seq<Seq<char>>,
    file: Seq<char>,
    spelling: Seq<char>,
    module: Option<Seq<char>>,
) -> bool {
    let subject = trimmed(before_first(rule, ':'));
    &&& subject.len() > 0
    &&& (subject == file_name(file) || (!rule.contains(':') && (module == Some(subject)
        || slashed(subject) == file_name(file) || lies_at(file, root, slashed(subject)) || (exists|
        j: int,
    |
        0 <= j < source_roots.len() && lies_at(
            file,
            #[trigger] source_roots[j],
            slashed(subject),
        )) || slashed(spelling) == slashed(subject))))
}

/// Whether the path of a file below a directory, with slashes for backslashes, is `path`.
pub open spec fn lies_at(file: Seq<char>, directory: Seq<char>, path: Seq<char>) -> bool {
    match relative(file, directory) {
        Some(rest) => slashed(rest) == path,
        None => false,
    }
}

/// Whether some ignore rule applies to a file.
pub open spec fn is_ignored(
    rules: Seq<Seq<char>>,
    root: Seq<char>,
    source_roots: Seq<Seq<char>>,
    file: Seq<char>,
    spelling: Seq<char>,
    module: Option<Seq<char>>,
) -> bool {
    exists|i: int|
        0 <= i < rules.len() && rule_ignores(
            #[trigger] rules[i],
            root,
            source_roots,
            file,
            spelling,
            module,
        )
}

fn found_at(file_path: &FilePath, directory: &FilePath, path: &str) -> (yes: bool)
    ensures
        yes == lies_at(file_path@, directory@, path@),
{
    match file_path.relative_to(directory) {
        Some(rest) => {
            let normalized = normalize_path(rest);
            same_text(normalized.as_str(), path)
        },
        None => false,
    }
}

fn found_at_any(file_path: &FilePath, directories: &Vec<FilePath>, path: &str) -> (yes: bool)
    ensures
        yes == exists|j: int|
            0 <= j < directories@.len() && lies_at(
                file_path@,
                #[trigger] views(directories@)[j],
                path@,
            ),
{
    let mut i: usize = 0;
    while i < directories.len()
        invariant
            i <= directories@.len(),
            forall|j: int|
                0 <= j < i ==> !lies_at(file_path@, #[trigger] views(directories@)[j], path@),
        decreases directories@.len() - i,
    {
        if found_at(file_path, &directories[i], path) {
            assert(lies_at(file_path@, views(directories@)[i as int], path@));
            return true;
        }
        i += 1;
    }
    false
}

pub open spec fn optional_text(text: Option<&str>) -> Option<Seq<char>> {
    match text {
        Some(t) => Some(t@),
        None => None,
    }
}

/// Whether one ignore rule applies to a file.
fn rule_applies(
    rule: &str,
    project_root: &FilePath,
    source_roots: &Vec<FilePath>,
    file_path: &FilePath,
    spelling: &str,
    module: Option<&str>,
) -> (yes: bool)
    ensures
        yes == rule_ignores(
            rule@,
            project_root@,
            views(source_roots@),
            file_path@,
            spelling@,
            optional_text(module),
        ),
{
    let has_symbol_separator = contains_char(rule, ':');
    let subject = trim(leading_part(rule, ':'));
    if subject.is_empty() {
        return false;
    }
    let name = file_path.file_name();
    if same_text(name, subject) {
        return true;
    }
    if has_symbol_separator {
        return false;
    }
    if let Some(m) = module {
        if same_text(m, subject) {
            return true;
        }
    }
    let normalized_rule = normalize_path(subject);
    let absolute_file_path = normalize_path(spelling);
    same_text(normalized_rule.as_str(), name) || found_at(
        file_path,
        project_root,
        normalized_rule.as_str(),
    ) || found_at_any(file_path, source_roots, normalized_rule.as_str()) || same_text(
        absolute_file_path.as_str(),
        normalized_rule.as_str(),
    )
}

/// Whether some ignore rule applies to a file whose path is written as `spelling`.
pub fn ignores_file(
    ignore_rules: &Vec<String>,
    project_root: &FilePath,
    source_roots: &Vec<FilePath>,
    file_path: &FilePath,
    spelling: &str,
    module: Option<&str>,
) -> (yes: bool)
    ensures
        yes == is_ignored(
            texts(ignore_rules@),
            project_root@,
            views(source_roots@),
            file_path@,
            spelling@,
            optional_text(module),
        ),
{
    let ghost rules = texts(ignore_rules@);
    let mut i: usize = 0;
    while i < ignore_rules.len()
        invariant
            i <= ignore_rules@.len(),
            rules == texts(ignore_rules@),
            forall|j: int|
                0 <= j < i ==> !rule_ignores(
                    #[trigger] rules[j],
                    project_root@,
                    views(source_roots@),
                    file_path@,
                    spelling@,
                    optional_text(module),
                ),
        decreases ignore_rules@.len() - i,
    {
        if rule_applies(
            ignore_rules[i].as_str(),
            project_root,
            source_roots,
            file_path,
            spelling,
            module,
        ) {
            assert(rules[i as int] == ignore_rules@[i as int]@);
            return true;
        }
        i += 1;
    }
    false
}


pub fn should_ignore_file(
    ignore_rules: &Vec<String>,
    project_root: &FilePath,
    source_roots: &Vec<FilePath>,
    file_path: &FilePath,
    module: Option<&str>,
) -> (yes: bool)
    ensures
        yes == is_ignored(
            texts(ignore_rules@),
            project_root@,
            views(source_roots@),
            file_path@,
            file_path.spelling(),
            optional_text(module),
        ),
{
    ignores_file(
        ignore_rules,
        project_root,
        source_roots,
        file_path,
        file_path.display(),
        module,
    )
}

} // verus!
