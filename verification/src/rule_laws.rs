//! What holds of settings, rules and names as a whole.

use crate::ast::{Expr, ExprContext};
use crate::config::{ModuleConfig, ProjectConfig, ROOT_MODULE_SENTINEL_TAG};
use crate::lines::line_at;
use crate::path::{file_name, relative};
use crate::references::{direct_reference, named_symbol, Scope};
use crate::rules::rule_symbol;
use crate::settings::{
    covers, decides, exclusions, hides_tests, is_unchecked, lies_at, rule_ignores, specificity,
};
use crate::text::{
    before_first, cut_first, dotted, first_index, join_segments, last_index, lemma_first_index,
    lemma_last_index, lemma_split_push, parents, slashed, split_segments, texts, trimmed,
};
use vstd::prelude::*;

verus! {

/// A symbol rule names a module and a symbol, neither empty, and consists of these and what
/// separates them: the first colon, or, where there is none, the last dot.
pub proof fn lemma_rule_parts(rule: Seq<char>)
    requires
        rule_symbol(rule) is Some,
    ensures
        ({
            let (module, name) = rule_symbol(rule)->0;
            &&& module.len() > 0
            &&& name.len() > 0
            &&& (!module.contains(':') && rule == module.push(':') + name) || (!rule.contains(':')
                && !name.contains('.') && rule == dotted(module, name))
        }),
{
    lemma_first_index(rule, ':');
    lemma_last_index(rule, '.');
    let (module, name) = rule_symbol(rule)->0;
    if cut_first(rule, ':') is Some {
        assert(!module.contains(':'));
        assert(rule =~= module.push(':') + name);
    } else {
        assert(!name.contains('.')) by {
            if name.contains('.') {
                let j = choose|j: int| 0 <= j < name.len() && name[j] == '.';
                assert(rule[last_index(rule, '.') + 1 + j] == '.');
            }
        }
        assert(rule =~= dotted(module, name));
    }
}

/// A module and a name with a colon between them are the rule for that symbol of that module.
pub proof fn lemma_colon_rule(module: Seq<char>, name: Seq<char>)
    requires
        module.len() > 0,
        name.len() > 0,
        !module.contains(':'),
    ensures
        rule_symbol(module.push(':') + name) == Some((module, name)),
{
    let rule = module.push(':') + name;
    lemma_first_index(rule, ':');
    let i = first_index(rule, ':');
    assert(rule[module.len() as int] == ':');
    if i < module.len() {
        assert(module[i] == ':');
    }
    assert(i == module.len());
    assert(rule.take(i) =~= module);
    assert(rule.skip(i + 1) =~= name);
}

/// So are a module and a name with a dot between them, where there is no colon and the name has
/// no dot.
pub proof fn lemma_dotted_rule(module: Seq<char>, name: Seq<char>)
    requires
        module.len() > 0,
        name.len() > 0,
        !module.contains(':'),
        !name.contains(':'),
        !name.contains('.'),
    ensures
        rule_symbol(dotted(module, name)) == Some((module, name)),
{
    let rule = dotted(module, name);
    lemma_first_index(rule, ':');
    lemma_last_index(rule, '.');
    let n = module.len() as int;
    assert(!rule.contains(':')) by {
        if rule.contains(':') {
            let j = choose|j: int| 0 <= j < rule.len() && rule[j] == ':';
            if j < n {
                assert(module[j] == ':');
            } else if j > n {
                assert(name[j - n - 1] == ':');
            }
        }
    }
    let i = last_index(rule, '.');
    assert(rule[n] == '.');
    if i > n {
        assert(name[i - n - 1] == '.');
    }
    assert(i == n);
    assert(rule.take(i) =~= module);
    assert(rule.skip(i + 1) =~= name);
}

/// The root covers every module, and every module covers itself.
pub proof fn lemma_covers_self(module: Seq<char>)
    ensures
        covers(ROOT_MODULE_SENTINEL_TAG@, module),
        covers(module, module),
{
}

/// A module covers the modules below it.
pub proof fn lemma_covers_below(module: Seq<char>, rest: Seq<char>)
    ensures
        covers(module, dotted(module, rest)),
{
    let whole = dotted(module, rest);
    assert(module.push('.') =~= whole.take(module.len() as int + 1));
}

/// What is covered by a covered module is covered.
pub proof fn lemma_covers_transitive(a: Seq<char>, b: Seq<char>, c: Seq<char>)
    requires
        b != ROOT_MODULE_SENTINEL_TAG@,
        covers(a, b),
        covers(b, c),
    ensures
        covers(a, c),
{
    if a != ROOT_MODULE_SENTINEL_TAG@ && a != b && b != c {
        let below = a.push('.');
        assert forall|j: int| 0 <= j < below.len() implies below[j] == #[trigger] c[j] by {
            assert(below[j] == b[j]);
            assert(b.push('.')[j] == c[j]);
        }
        assert(b.push('.').len() <= c.len());
        assert(below =~= c.take(below.len() as int));
    }
}

/// At most one configuration decides for a module.
pub proof fn lemma_one_decides(list: Seq<ModuleConfig>, module: Seq<char>, i: int, j: int)
    requires
        decides(list, module, i),
        decides(list, module, j),
    ensures
        i == j,
{
    assert(covers(list[i].path@, module) && covers(list[j].path@, module));
}

/// Where some configuration covers a module, one decides for it.
pub proof fn lemma_some_decides(list: Seq<ModuleConfig>, module: Seq<char>, k: int)
    requires
        0 <= k < list.len(),
        covers(list[k].path@, module),
    ensures
        exists|i: int| #[trigger] decides(list, module, i),
    decreases list.len(),
{
    let shorter = list.drop_last();
    let last = list.len() - 1;
    if exists|j: int| 0 <= j < shorter.len() && covers((#[trigger] shorter[j]).path@, module) {
        let j = choose|j: int|
            0 <= j < shorter.len() && covers((#[trigger] shorter[j]).path@, module);
        lemma_some_decides(shorter, module, j);
        let i = choose|i: int| #[trigger] decides(shorter, module, i);
        assert(list[i] == shorter[i]);
        assert(forall|n: int| 0 <= n < last ==> #[trigger] list[n] == shorter[n]);
        if covers(list[last].path@, module) && specificity(list[last].path@) >= specificity(
            list[i].path@,
        ) {
            assert(decides(list, module, last));
        } else {
            assert(decides(list, module, i));
        }
    } else {
        assert forall|n: int|
            0 <= n < list.len() && covers((#[trigger] list[n]).path@, module) implies n == last by {
            if n < last {
                assert(shorter[n] == list[n]);
            }
        }
        assert(decides(list, module, last));
    }
}

/// The configuration for just this module overrides those for the modules around it.
pub proof fn lemma_own_configuration_decides(
    list: Seq<ModuleConfig>,
    module: Seq<char>,
    i: int,
)
    requires
        0 <= i < list.len(),
        list[i].path@ == module,
        module != ROOT_MODULE_SENTINEL_TAG@,
        module.len() > 0,
        forall|j: int| i < j < list.len() ==> (#[trigger] list[j]).path@ != module,
    ensures
        decides(list, module, i),
        is_unchecked(list, module) == list[i].unchecked,
{
    assert forall|j: int|
        0 <= j < list.len() && covers((#[trigger] list[j]).path@, module) implies if j <= i {
        specificity(list[j].path@) <= specificity(list[i].path@)
    } else {
        specificity(list[j].path@) < specificity(list[i].path@)
    } by {
        let path = list[j].path@;
        if path != ROOT_MODULE_SENTINEL_TAG@ && path != module {
            assert(path.push('.').len() <= module.len());
        }
    }
    assert(decides(list, module, i));
    if is_unchecked(list, module) {
        let k = choose|k: int| #[trigger] decides(list, module, k) && list[k].unchecked;
        lemma_one_decides(list, module, i, k);
    }
}

/// Turning backslashes into slashes keeps the length, leaves no backslash, and does nothing the
/// second time.
pub proof fn lemma_slashed(s: Seq<char>)
    ensures
        slashed(s).len() == s.len(),
        !slashed(s).contains('\\'),
        slashed(slashed(s)) == slashed(s),
{
    assert(slashed(slashed(s)) =~= slashed(s));
}

proof fn lemma_whole_rule(rule: Seq<char>)
    requires
        !rule.contains(':'),
    ensures
        before_first(rule, ':') == rule,
{
    lemma_first_index(rule, ':');
    assert(rule.take(rule.len() as int) =~= rule);
}

/// An ignore rule that is the path of a module applies to the file of that module.
pub proof fn lemma_module_rule_ignores(
    module: Seq<char>,
    root: Seq<char>,
    source_roots: Seq<Seq<char>>,
    file: Seq<char>,
    spelling: Seq<char>,
)
    requires
        module.len() > 0,
        !module.contains(':'),
        trimmed(module) == module,
    ensures
        rule_ignores(module, root, source_roots, file, spelling, Some(module)),
{
    lemma_whole_rule(module);
}

/// An ignore rule that is the path of a file below the project root or a source root applies to
/// that file.
pub proof fn lemma_path_rule_ignores(
    rule: Seq<char>,
    root: Seq<char>,
    source_roots: Seq<Seq<char>>,
    file: Seq<char>,
    spelling: Seq<char>,
    module: Option<Seq<char>>,
)
    requires
        rule.len() > 0,
        !rule.contains(':'),
        trimmed(rule) == rule,
        relative(file, root) == Some(rule) || exists|j: int|
            0 <= j < source_roots.len() && relative(file, #[trigger] source_roots[j]) == Some(rule),
    ensures
        rule_ignores(rule, root, source_roots, file, spelling, module),
{
    lemma_whole_rule(rule);
    if relative(file, root) == Some(rule) {
        assert(lies_at(file, root, slashed(rule)));
    } else {
        let j = choose|j: int|
            0 <= j < source_roots.len() && relative(file, #[trigger] source_roots[j]) == Some(rule);
        assert(lies_at(file, source_roots[j], slashed(rule)));
    }
}

/// An ignore rule for a symbol does not apply to a file, unless what stands before its colon is
/// the file's name.
pub proof fn lemma_symbol_rule_keeps_file(
    rule: Seq<char>,
    root: Seq<char>,
    source_roots: Seq<Seq<char>>,
    file: Seq<char>,
    spelling: Seq<char>,
    module: Option<Seq<char>>,
)
    requires
        rule.contains(':'),
        trimmed(before_first(rule, ':')) != file_name(file),
    ensures
        !rule_ignores(rule, root, source_roots, file, spelling, module),
{
}

/// The exclusions of the analysis always apply, and those of the project too, but for the ones
/// that hide the tests.
pub proof fn lemma_exclusions_kept(config: ProjectConfig, defaults: Seq<Seq<char>>, path: Seq<char>)
    requires
        texts(config.deadcode.exclude@).contains(path) || (texts(config.exclude@).contains(path)
            && !hides_tests(path)),
    ensures
        exclusions(config, defaults).contains(path),
{
    let base = texts(config.exclude@);
    let own = texts(config.deadcode.exclude@);
    let shown = |p: Seq<char>| !hides_tests(p);
    let all = exclusions(config, defaults);
    if own.contains(path) {
        let j = choose|j: int| 0 <= j < own.len() && own[j] == path;
        assert(all[all.len() - own.len() + j] == path);
    } else {
        let j = choose|j: int| 0 <= j < base.len() && base[j] == path;
        if config.deadcode.include_test_usages && base.to_set() == defaults.to_set() {
            base.lemma_filter_contains(shown, j);
            let k = choose|k: int|
                0 <= k < base.filter(shown).len() && base.filter(shown)[k] == path;
            assert(all[k] == path);
        } else {
            assert(all[j] == path);
        }
    }
}

/// Where usages in tests count and the project has the default exclusions, the tests are hidden
/// only if the exclusions of the analysis do so.
pub proof fn lemma_tests_shown(config: ProjectConfig, defaults: Seq<Seq<char>>, path: Seq<char>)
    requires
        config.deadcode.include_test_usages,
        texts(config.exclude@).to_set() == defaults.to_set(),
        hides_tests(path),
        exclusions(config, defaults).contains(path),
    ensures
        texts(config.deadcode.exclude@).contains(path),
{
    let base = texts(config.exclude@);
    let own = texts(config.deadcode.exclude@);
    let shown = |p: Seq<char>| !hides_tests(p);
    let all = exclusions(config, defaults);
    let kept = base.filter(shown);
    let j = choose|j: int| 0 <= j < all.len() && all[j] == path;
    if j < kept.len() {
        base.lemma_filter_pred(shown, j);
    } else {
        assert(own[j - kept.len()] == path);
    }
}

/// Joining the segments of a dotted path with dots gives the path back. Its parents are what the
/// first segment, the first two segments, and so on up to all but the last one join to.
pub proof fn lemma_segments(module: Seq<char>)
    ensures
        join_segments(split_segments(module, '.'), '.') == module,
        parents(module).len() + 1 == split_segments(module, '.').len(),
        forall|k: int|
            0 <= k < parents(module).len() ==> #[trigger] parents(module)[k] == join_segments(
                split_segments(module, '.').take(k + 1),
                '.',
            ),
    decreases module.len(),
{
    let parts = split_segments(module, '.');
    if module.len() == 0 {
        lemma_first_index(module, '.');
        assert(parts =~= seq![module]);
    } else {
        let shorter = module.drop_last();
        let x = module.last();
        let before = split_segments(shorter, '.');
        assert(module =~= shorter.push(x));
        lemma_segments(shorter);
        lemma_split_push(shorter, x, '.');
        if x == '.' {
            assert(parts == before.push(Seq::empty()));
            assert(parts.drop_last() =~= before);
            assert(dotted(shorter, Seq::empty()) =~= module);
            assert forall|k: int|
                0 <= k < parents(module).len() implies #[trigger] parents(module)[k]
                == join_segments(parts.take(k + 1), '.') by {
                if k < parents(shorter).len() {
                    assert(parents(module)[k] == parents(shorter)[k]);
                    assert(parts.take(k + 1) =~= before.take(k + 1));
                } else {
                    assert(parts.take(k + 1) =~= before);
                }
            }
        } else {
            let last = before.last().push(x);
            assert(parts == before.drop_last().push(last));
            assert(parts.drop_last() =~= before.drop_last());
            if before.len() == 1 {
                assert(before.last() == shorter);
            } else {
                let front = join_segments(before.drop_last(), '.');
                assert(shorter == dotted(front, before.last()));
                assert(dotted(front, last) =~= module);
            }
            assert forall|k: int|
                0 <= k < parents(module).len() implies #[trigger] parents(module)[k]
                == join_segments(parts.take(k + 1), '.') by {
                assert(parents(module)[k] == parents(shorter)[k]);
                assert(parts.take(k + 1) =~= before.take(k + 1));
            }
        }
    }
}

proof fn lemma_parents_prefix(module: Seq<char>, k: int)
    requires
        0 <= k < parents(module).len(),
    ensures
        parents(module)[k].push('.').is_prefix_of(module),
    decreases module.len(),
{
    if module.len() > 0 {
        let shorter = module.drop_last();
        let parent = parents(module)[k];
        if k < parents(shorter).len() {
            lemma_parents_prefix(shorter, k);
            assert(parents(shorter)[k] == parent);
            assert(parent.push('.') =~= module.take(parent.len() as int + 1));
        } else {
            assert(parent.push('.') =~= module);
        }
    }
}

/// Each parent of a module covers it.
pub proof fn lemma_parents_cover(module: Seq<char>, k: int)
    requires
        0 <= k < parents(module).len(),
    ensures
        covers(parents(module)[k], module),
{
    lemma_parents_prefix(module, k);
}

/// Lines are counted from 1, and a later place is on no earlier line.
pub proof fn lemma_lines_grow(text: Seq<char>, offset: nat, later: nat)
    requires
        offset <= later,
    ensures
        line_at(text, 0) == 1,
        line_at(text, offset) <= line_at(text, later),
    decreases later,
{
    if offset < later {
        lemma_lines_grow(text, offset, (later - 1) as nat);
    }
}

/// A name that is hidden refers to nothing; otherwise a name that the module defines refers to the
/// module's own symbol, whatever it imports under that name.
pub proof fn lemma_name_resolution(scope: Scope, name: Seq<char>)
    ensures
        scope.shadowed.contains(name) ==> named_symbol(scope, name) is None,
        !scope.shadowed.contains(name) && scope.locals.contains(name) ==> named_symbol(scope, name)
            == Some((scope.module, name)),
{
}

/// Only what is read counts: a name or an attribute that is assigned or deleted refers to nothing.
pub proof fn lemma_only_loads_refer(scope: Scope, expr: Expr)
    requires
        expr matches Expr::Name { ctx, .. } ==> ctx != ExprContext::Load,
        expr matches Expr::Attribute { ctx, .. } ==> ctx != ExprContext::Load,
    ensures
        direct_reference(scope, expr) is None,
{
}

} // verus!
