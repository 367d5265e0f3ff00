//! What the operations on texts, paths, lines and rules give, said of how their inputs are put
//! together.

use crate::config::{ModuleConfig, ProjectConfig};
use crate::graph::GraphModel;
use crate::lines::line_at;
use crate::order::text_precedes;
use crate::path::{
    components, current, extension, file_name, is_component, joined, lemma_filter_members,
    normalized, path_precedes, relative, FilePath,
};
use crate::rules::entry_symbols;
use crate::settings::{covers, decides, exclusions, hides_tests, is_unchecked, rule_ignores};
use crate::text::{
    before_first, cut_first, cut_last, is_white_space, join_segments, last_index, lemma_first_index,
    lemma_last_index, lemma_split_append, slashed, split_segments, texts, trimmed, trimmed_end,
    trimmed_start,
};
use vstd::prelude::*;

verus! {

/// Blanks, tabs and line breaks are white space; the visible ASCII characters are not.
pub proof fn lemma_white_space(c: char)
    ensures
        c == ' ' || c == '\t' || c == '\n' || c == '\r' ==> is_white_space(c),
        '!' <= c <= '~' ==> !is_white_space(c),
{
}

/// The white space characters, by their code points.
pub proof fn lemma_white_space_exact(c: char)
    ensures
        is_white_space(c) <==> {
            let n = c as u32;
            ||| 0x09 <= n <= 0x0D
            ||| n == 0x20 || n == 0x85 || n == 0xA0 || n == 0x1680
            ||| 0x2000 <= n <= 0x200A
            ||| n == 0x2028 || n == 0x2029 || n == 0x202F || n == 0x205F || n == 0x3000
        },
{
}

proof fn lemma_trimmed_start(before: Seq<char>, rest: Seq<char>)
    requires
        forall|i: int| 0 <= i < before.len() ==> is_white_space(#[trigger] before[i]),
        rest.len() > 0 ==> !is_white_space(rest[0]),
    ensures
        trimmed_start(before + rest) == rest,
    decreases before.len(),
{
    let s = before + rest;
    if before.len() > 0 {
        assert(s[0] == before[0]);
        let fewer = before.drop_first();
        assert forall|i: int| 0 <= i < fewer.len() implies is_white_space(#[trigger] fewer[i]) by {
            assert(fewer[i] == before[i + 1]);
        }
        lemma_trimmed_start(fewer, rest);
        assert(s.drop_first() =~= fewer + rest);
    } else {
        assert(s =~= rest);
    }
}

proof fn lemma_trimmed_end(rest: Seq<char>, after: Seq<char>)
    requires
        forall|i: int| 0 <= i < after.len() ==> is_white_space(#[trigger] after[i]),
        rest.len() > 0 ==> !is_white_space(rest.last()),
    ensures
        trimmed_end(rest + after) == rest,
    decreases after.len(),
{
    let s = rest + after;
    if after.len() > 0 {
        assert(s.last() == after.last());
        let fewer = after.drop_last();
        assert forall|i: int| 0 <= i < fewer.len() implies is_white_space(#[trigger] fewer[i]) by {
            assert(fewer[i] == after[i]);
        }
        lemma_trimmed_end(rest, fewer);
        assert(s.drop_last() =~= rest + fewer);
    } else {
        assert(s =~= rest);
    }
}

/// Trimming takes away the white space at both ends, all of it, and nothing else.
pub proof fn lemma_trimmed(before: Seq<char>, core: Seq<char>, after: Seq<char>)
    requires
        forall|i: int| 0 <= i < before.len() ==> is_white_space(#[trigger] before[i]),
        forall|i: int| 0 <= i < after.len() ==> is_white_space(#[trigger] after[i]),
        core.len() > 0,
        !is_white_space(core[0]),
        !is_white_space(core.last()),
    ensures
        trimmed(before + core + after) == core,
        trimmed(before) == Seq::<char>::empty(),
{
    assert(before + core + after =~= before + (core + after));
    assert((core + after)[0] == core[0]);
    lemma_trimmed_start(before, core + after);
    lemma_trimmed_end(core, after);
    lemma_trimmed_start(before, Seq::empty());
    assert(before + Seq::<char>::empty() =~= before);
}

/// Cutting at the first occurrence of a character.
pub proof fn lemma_cut_first(before: Seq<char>, c: char, after: Seq<char>)
    requires
        !before.contains(c),
    ensures
        cut_first(before.push(c) + after, c) == Some((before, after)),
        before_first(before.push(c) + after, c) == before,
        cut_first(before, c) is None,
        before_first(before, c) == before,
{
    let s = before.push(c) + after;
    lemma_first_index(s, c);
    lemma_first_index(before, c);
    assert(s[before.len() as int] == c);
    assert(s.contains(c));
    let at = crate::text::first_index(s, c);
    if at < before.len() {
        assert(before[at] == c);
        assert(before.contains(c));
    }
    assert(at == before.len());
    assert(s.take(at) =~= before);
    assert(s.skip(at + 1) =~= after);
    assert(before.take(before.len() as int) =~= before);
}

/// Cutting at the last occurrence of a character.
pub proof fn lemma_cut_last(before: Seq<char>, c: char, after: Seq<char>)
    requires
        !after.contains(c),
    ensures
        cut_last(before.push(c) + after, c) == Some((before, after)),
        cut_last(after, c) is None,
        last_index(before.push(c) + after, c) == before.len(),
        last_index(after, c) == -1,
{
    let s = before.push(c) + after;
    lemma_last_index(s, c);
    lemma_last_index(after, c);
    assert(s[before.len() as int] == c);
    assert(s.contains(c));
    let at = last_index(s, c);
    if at > before.len() {
        assert(after[at - before.len() - 1] == c);
        assert(after.contains(c));
    }
    assert(at == before.len());
    assert(s.take(at) =~= before);
    assert(s.skip(at + 1) =~= after);
}

/// Whether a text is the name of a file or a directory.
pub open spec fn is_name(name: Seq<char>) -> bool {
    name.len() > 0 && !name.contains('/') && name != seq!['.'] && name != seq!['.', '.']
}

/// The name of a file is what stands after the last slash, or the whole path.
pub proof fn lemma_file_name(directory: Seq<char>, name: Seq<char>)
    requires
        is_name(name),
    ensures
        file_name(directory.push('/') + name) == name,
        file_name(name) == name,
{
    lemma_cut_last(directory, '/', name);
    let s = directory.push('/') + name;
    assert(s.skip(directory.len() as int + 1) =~= name);
    assert(name.skip(0) =~= name);
}

/// The extension is what stands after the last dot of the name; a name whose only dot is its first
/// character has none, and neither has a name without a dot.
pub proof fn lemma_extension(directory: Seq<char>, stem: Seq<char>, ext: Seq<char>)
    requires
        !ext.contains('.'),
    ensures
        is_name(stem.push('.') + ext) && stem.len() > 0 ==> extension(
            directory.push('/') + (stem.push('.') + ext),
        ) == Some(ext),
        is_name(stem.push('.') + ext) && stem.len() == 0 ==> extension(
            directory.push('/') + (stem.push('.') + ext),
        ) is None,
        is_name(ext) ==> extension(directory.push('/') + ext) is None,
{
    let name = stem.push('.') + ext;
    lemma_cut_last(stem, '.', ext);
    if is_name(name) {
        lemma_file_name(directory, name);
    }
    if is_name(ext) {
        lemma_file_name(directory, ext);
    }
}

/// A relative path below a directory is written after it, with one slash between them; an absolute
/// path stands on its own.
pub proof fn lemma_joined(base: Seq<char>, path: Seq<char>)
    ensures
        path.len() > 0 && path[0] == '/' ==> joined(base, path) == path,
        !(path.len() > 0 && path[0] == '/') && base.len() > 0 && base.last() != '/' ==> joined(
            base,
            path,
        ) == base + seq!['/'] + path,
        !(path.len() > 0 && path[0] == '/') && (base.len() == 0 || base.last() == '/') ==> joined(
            base,
            path,
        ) == base + path,
{
    assert(base.push('/') =~= base + seq!['/']);
}

/// A path below a directory is what follows the directory and a slash; nothing else lies below it.
pub proof fn lemma_relative(base: Seq<char>, rest: Seq<char>, path: Seq<char>)
    requires
        base.len() > 0,
        base.last() != '/',
    ensures
        relative(base + seq!['/'] + rest, base) == Some(rest),
        relative(base, base) == Some(Seq::<char>::empty()),
        relative(path, base) is Some ==> path == base || path == base + seq!['/']
            + relative(path, base)->0,
{
    let below = base + seq!['/'] + rest;
    let prefix = base.push('/');
    assert(below.len() > base.len());
    assert(prefix =~= below.take(prefix.len() as int));
    assert(below.skip(base.len() as int + 1) =~= rest);
    if path != base && relative(path, base) is Some {
        assert(prefix.is_prefix_of(path));
        let tail = path.skip(base.len() as int + 1);
        assert(path =~= base + seq!['/'] + tail) by {
            assert(path.take(prefix.len() as int) == prefix);
            assert forall|i: int| 0 <= i < prefix.len() implies path[i] == prefix[i] by {
                assert(path.take(prefix.len() as int)[i] == path[i]);
            }
        }
    }
}

/// A path of one component is written as it is; below the root an empty component or a single dot
/// is dropped.
pub proof fn lemma_normalized_name(last: Seq<char>)
    requires
        !last.contains('/'),
    ensures
        normalized(last) == last,
        normalized(seq!['/'] + last) == if last.len() == 0 || last == seq!['.'] {
            seq!['/']
        } else {
            seq!['/'] + last
        },
{
    reveal(Seq::filter);
    lemma_first_index(last, '/');
    assert(last.len() > 0 ==> last.contains(last[0]));
    let alone = seq![last];
    assert(split_segments(last, '/') =~= alone);
    assert(alone.drop_last() =~= Seq::empty());
    assert(alone.last() == last);
    assert(alone.drop_last().filter(is_component()) =~= Seq::empty());
    let kept = alone.filter(is_component());
    assert(kept =~= if is_component()(last) {
        alone
    } else {
        Seq::empty()
    });
    if last == current() {
        assert(components(last) =~= alone);
    }
    let empty = Seq::<char>::empty();
    lemma_first_index(empty, '/');
    lemma_split_append(empty, last, '/');
    let s = seq!['/'] + last;
    assert(empty.push('/') + last =~= s);
    assert(split_segments(empty, '/') =~= seq![empty]);
    let parts = seq![empty].push(last);
    assert(split_segments(s, '/') =~= parts);
    assert(parts.drop_last() =~= seq![empty]);
    assert(seq![empty].drop_last() =~= Seq::empty());
    assert(seq![empty].drop_last().filter(is_component()) =~= Seq::empty());
    assert(seq![empty].filter(is_component()) =~= Seq::empty());
    assert(parts.filter(is_component()) =~= kept);
    assert(parts[0] == empty);
    assert(seq!['/'] + empty =~= seq!['/']);
}

/// What follows the last slash of a path is written after the rest, with one slash between them;
/// where it is empty or a single dot it is dropped.
pub proof fn lemma_normalized_below(text: Seq<char>, last: Seq<char>)
    requires
        text.len() > 0,
        !last.contains('/'),
    ensures
        normalized(text + seq!['/'] + last) == if last.len() == 0 || last == seq!['.'] {
            normalized(text)
        } else if text[0] == '/' && normalized(text).len() == 1 {
            normalized(text) + last
        } else {
            normalized(text) + seq!['/'] + last
        },
{
    reveal(Seq::filter);
    let whole = text + seq!['/'] + last;
    let parts = split_segments(text, '/');
    let more = parts.push(last);
    lemma_first_index(text, '/');
    lemma_split_append(text, last, '/');
    assert(text.push('/') + last =~= whole);
    assert(split_segments(whole, '/') =~= more);
    assert(more.drop_last() =~= parts);
    assert(more.last() == last);
    assert(more[0] == parts[0]);
    assert(whole[0] == text[0]);
    let list = components(text);
    let kept = parts.filter(is_component());
    lemma_filter_members(parts, is_component());
    if is_component()(last) {
        assert(components(whole) =~= list.push(last));
        assert(list.push(last).drop_last() =~= list);
        if list.len() > 0 {
            let joint = join_segments(list, '/');
            if list.len() == 1 {
                assert(joint == list[0]);
            }
            if parts[0] != current() {
                assert(list.last() == kept[kept.len() - 1]);
            } else if kept.len() > 0 {
                assert(list.last() == kept[kept.len() - 1]);
            }
            assert(list.last().len() > 0);
            assert(joint.len() > 0);
            assert(joint.push('/') + last =~= joint + seq!['/'] + last);
            assert(seq!['/'] + (joint + seq!['/'] + last) =~= seq!['/'] + joint + seq!['/'] + last);
        } else {
            if text[0] != '/' {
                assert(parts[0] == before_first(text, '/'));
                assert(parts[0].len() > 0);
                lemma_filter_keeps(parts, 0);
            }
            assert(seq!['/'] + Seq::<char>::empty() =~= seq!['/']);
        }
    } else {
        assert(components(whole) =~= list);
    }
}

proof fn lemma_filter_keeps(parts: Seq<Seq<char>>, i: int)
    requires
        0 <= i < parts.len(),
        is_component()(parts[i]),
    ensures
        parts.filter(is_component()).len() > 0,
    decreases parts.len(),
{
    reveal(Seq::filter);
    if i < parts.len() - 1 {
        assert(parts.drop_last()[i] == parts[i]);
        lemma_filter_keeps(parts.drop_last(), i);
    }
}

/// Texts are ordered by the first character in which they differ, and one that starts another comes
/// before it.
pub proof fn lemma_text_order(common: Seq<char>, x: char, a: Seq<char>, y: char, b: Seq<char>)
    ensures
        x != y ==> (text_precedes(common.push(x) + a, common.push(y) + b) <==> x < y),
        text_precedes(common, common.push(y) + b),
        !text_precedes(common.push(y) + b, common),
    decreases common.len(),
{
    let left = common.push(x) + a;
    let right = common.push(y) + b;
    if common.len() > 0 {
        let fewer = common.drop_first();
        lemma_text_order(fewer, x, a, y, b);
        assert(left.drop_first() =~= fewer.push(x) + a);
        assert(right.drop_first() =~= fewer.push(y) + b);
        assert(left[0] == common[0] && right[0] == common[0]);
    } else {
        assert(left[0] == x && right[0] == y);
    }
}

/// Paths are ordered component by component: a directory comes before what lies below it, what lies
/// below it is ordered by the rest, and named components by their characters.
pub proof fn lemma_path_order(
    directory: Seq<char>,
    other: Seq<char>,
    a: Seq<char>,
    b: Seq<char>,
)
    requires
        is_name(directory),
        is_name(other),
    ensures
        path_precedes(directory, directory.push('/') + b),
        !path_precedes(directory.push('/') + a, directory),
        path_precedes(directory.push('/') + a, directory.push('/') + b) <==> path_precedes(a, b),
        directory != other ==> (path_precedes(directory.push('/') + a, other.push('/') + b)
            <==> text_precedes(directory, other)),
        directory != other ==> (path_precedes(directory.push('/') + a, other) <==> text_precedes(
            directory,
            other,
        )),
        directory != other ==> (path_precedes(directory, other.push('/') + b) <==> text_precedes(
            directory,
            other,
        )),
        directory != other ==> (path_precedes(directory, other) <==> text_precedes(
            directory,
            other,
        )),
{
    lemma_cut_first(directory, '/', a);
    lemma_cut_first(directory, '/', b);
    lemma_cut_first(other, '/', b);
}

/// The directory itself and the one above it have no file name. In the order, the root comes
/// first, then the directory itself, the one above it, and then the named components.
pub proof fn lemma_special_components(directory: Seq<char>, name: Seq<char>)
    requires
        is_name(name),
    ensures
        file_name(seq!['.', '.']) == Seq::<char>::empty(),
        file_name(directory.push('/') + seq!['.', '.']) == Seq::<char>::empty(),
        file_name(directory.push('/')) == Seq::<char>::empty(),
        path_precedes(seq!['/'] + name, seq!['.']),
        path_precedes(seq!['.'], seq!['.', '.']),
        path_precedes(seq!['.', '.'], name),
        !path_precedes(name, seq!['.', '.']),
        !path_precedes(seq!['.', '.'], seq!['.']),
        !path_precedes(seq!['.'], seq!['/'] + name),
{
    let above = seq!['.', '.'];
    let here = seq!['.'];
    let empty = Seq::<char>::empty();
    assert(!above.contains('/'));
    assert(!here.contains('/'));
    lemma_cut_last(directory, '/', above);
    lemma_cut_last(directory, '/', empty);
    lemma_cut_first(above, '/', empty);
    lemma_cut_first(here, '/', empty);
    lemma_cut_first(name, '/', empty);
    lemma_cut_first(empty, '/', name);
    assert(empty.push('/') + name =~= seq!['/'] + name);
    assert((directory.push('/') + above).skip(directory.len() as int + 1) =~= above);
    assert((directory.push('/') + empty) =~= directory.push('/'));
    assert(directory.push('/').skip(directory.len() as int + 1) =~= empty);
    assert(above.skip(0) =~= above);
    assert(above.len() == 2 && here.len() == 1);
}

/// The line of an offset grows by one just after a line break: a line feed, or a carriage return
/// that no line feed follows. The first line is line one.
pub proof fn lemma_line_steps(text: Seq<char>, offset: nat)
    ensures
        line_at(text, 0) == 1,
        offset < vstd::utf8::encode_utf8(text).len() ==> {
            let bytes = vstd::utf8::encode_utf8(text);
            let feed = bytes[offset as int] == 0x0A;
            let next = offset as int + 1;
            let alone = bytes[offset as int] == 0x0D && (next == bytes.len() || bytes[next]
                != 0x0A);
            line_at(text, offset + 1) == line_at(text, offset) + if feed || alone {
                1int
            } else {
                0
            }
        },
        offset >= vstd::utf8::encode_utf8(text).len() ==> line_at(text, offset + 1) == line_at(
            text,
            offset,
        ),
{
}

/// The exclusions that apply are those of the analysis and those of the project; of the latter
/// `tests` and `**/tests` are left out where usages in tests count and the project has just the
/// default exclusions.
pub proof fn lemma_exclusions(config: ProjectConfig, defaults: Seq<Seq<char>>, path: Seq<char>)
    ensures
        exclusions(config, defaults).contains(path) <==> texts(
            config.deadcode.exclude@,
        ).contains(path) || (texts(config.exclude@).contains(path) && !(
        config.deadcode.include_test_usages && (forall|p: Seq<char>| #[trigger]
            texts(config.exclude@).contains(p) <==> defaults.contains(p)) && (path == "tests"@
            || path == "**/tests"@))),
{
    let base = texts(config.exclude@);
    let own = texts(config.deadcode.exclude@);
    let shown = |p: Seq<char>| !hides_tests(p);
    let all = exclusions(config, defaults);
    let same = forall|p: Seq<char>| #[trigger] base.contains(p) <==> defaults.contains(p);
    assert(same <==> base.to_set() == defaults.to_set()) by {
        if same {
            assert(base.to_set() =~= defaults.to_set());
        }
        if base.to_set() == defaults.to_set() {
            assert forall|p: Seq<char>| #[trigger] base.contains(p) <==> defaults.contains(p) by {
                assert(base.to_set().contains(p) <==> base.contains(p));
                assert(defaults.to_set().contains(p) <==> defaults.contains(p));
            }
        }
    }
    let kept = if config.deadcode.include_test_usages && same {
        base.filter(shown)
    } else {
        base
    };
    assert(all == kept + own);
    crate::check_laws::lemma_concat_contains(kept, own, path);
    if config.deadcode.include_test_usages && same {
        if kept.contains(path) {
            let j = choose|j: int| 0 <= j < kept.len() && kept[j] == path;
            base.lemma_filter_pred(shown, j);
            lemma_filtered(base, shown, j);
        }
        if base.contains(path) && !hides_tests(path) {
            let j = choose|j: int| 0 <= j < base.len() && base[j] == path;
            base.lemma_filter_contains(shown, j);
        }
    }
}

proof fn lemma_filtered(list: Seq<Seq<char>>, pred: spec_fn(Seq<char>) -> bool, i: int)
    requires
        0 <= i < list.filter(pred).len(),
    ensures
        list.contains(list.filter(pred)[i]),
{
    lemma_filter_members(list, pred);
    assert(list.contains(list.filter(pred)[i]));
}

/// A configured path that is not the root covers its own module and those whose path goes on with
/// a dot after it, and no others; the root covers all.
pub proof fn lemma_covers(configured: Seq<char>, module: Seq<char>, rest: Seq<char>)
    ensures
        covers("<root>"@, module),
        covers(configured, configured),
        covers(configured, configured + seq!['.'] + rest),
        covers(configured, module) && configured != "<root>"@ ==> module == configured || (
        module.len() > configured.len() && module.take(configured.len() as int) == configured
            && module[configured.len() as int] == '.'),
{
    let below = configured + seq!['.'] + rest;
    let prefix = configured.push('.');
    assert(prefix =~= below.take(prefix.len() as int));
    if prefix.is_prefix_of(module) {
        assert(module.take(prefix.len() as int)[configured.len() as int] == '.');
        assert(module.take(configured.len() as int) =~= configured) by {
            assert forall|i: int| 0 <= i < configured.len() implies module[i] == configured[i] by {
                assert(module.take(prefix.len() as int)[i] == prefix[i]);
            }
        }
    }
}

/// A configuration for a longer path decides over one for a shorter path, any over the root, and of
/// two for the same path the later one.
pub proof fn lemma_deciding_configuration(
    list: Seq<ModuleConfig>,
    module: Seq<char>,
    i: int,
    j: int,
)
    requires
        decides(list, module, i),
        0 <= j < list.len(),
        covers(list[j].path@, module),
        j != i,
    ensures
        list[i].path@ == "<root>"@ ==> list[j].path@ == "<root>"@ || list[j].path@.len() == 0,
        list[i].path@ != "<root>"@ && list[j].path@ != "<root>"@ ==> list[j].path@.len()
            <= list[i].path@.len(),
        list[i].path@ == list[j].path@ ==> j < i,
        is_unchecked(list, module) <==> list[i].unchecked,
{
    if is_unchecked(list, module) {
        let k = choose|k: int| #[trigger] decides(list, module, k) && list[k].unchecked;
        crate::rule_laws::lemma_one_decides(list, module, i, k);
    }
}

/// An ignore rule with a colon applies to the files whose name stands before the first colon, and
/// to no others.
pub proof fn lemma_colon_rule_ignores(
    subject: Seq<char>,
    rest: Seq<char>,
    root: Seq<char>,
    source_roots: Seq<Seq<char>>,
    file: Seq<char>,
    spelling: Seq<char>,
    module: Option<Seq<char>>,
)
    requires
        !subject.contains(':'),
    ensures
        rule_ignores(
            subject.push(':') + rest,
            root,
            source_roots,
            file,
            spelling,
            module,
        ) <==> trimmed(subject).len() > 0 && file_name(file) == trimmed(subject),
{
    let rule = subject.push(':') + rest;
    lemma_cut_first(subject, ':', rest);
    assert(rule[subject.len() as int] == ':');
    assert(rule.contains(':'));
}

/// An ignore rule without a colon and without outer white space applies where it is the module
/// path, the file's name, or the file's path as it is written or below the project root or a
/// source root, with slashes for backslashes; and nowhere else.
pub proof fn lemma_plain_rule_ignores(
    rule: Seq<char>,
    root: Seq<char>,
    source_roots: Seq<Seq<char>>,
    file: Seq<char>,
    spelling: Seq<char>,
    module: Option<Seq<char>>,
)
    requires
        !rule.contains(':'),
        rule.len() > 0,
        trimmed(rule) == rule,
    ensures
        rule_ignores(rule, root, source_roots, file, spelling, module) <==> {
            ||| module == Some(rule)
            ||| file_name(file) == rule
            ||| file_name(file) == slashed(rule)
            ||| slashed(spelling) == slashed(rule)
            ||| relative(file, root) is Some && slashed(relative(file, root)->0) == slashed(rule)
            ||| exists|j: int|
                0 <= j < source_roots.len() && relative(file, #[trigger] source_roots[j]) is Some
                    && slashed(relative(file, source_roots[j])->0) == slashed(rule)
        },
{
    lemma_cut_first(rule, ':', Seq::empty());
}

/// Turning backslashes into slashes changes each backslash and no other character.
pub proof fn lemma_slashed_at(s: Seq<char>, i: int)
    requires
        0 <= i < s.len(),
    ensures
        slashed(s)[i] == if s[i] == '\\' {
            '/'
        } else {
            s[i]
        },
{
}

/// Whether an entry point, cut at its first colon, names a symbol of the module of a file that the
/// part before the colon resolves to.
pub open spec fn entry_names(
    entry_point: Seq<char>,
    at: int,
    files: Map<Seq<char>, Seq<FilePath>>,
    graph: GraphModel,
    j: int,
    id: (Seq<char>, Seq<char>),
) -> bool {
    let place = trimmed(entry_point.take(at));
    let name = trimmed(entry_point.skip(at + 1));
    &&& 0 <= at < entry_point.len()
    &&& entry_point[at] == ':'
    &&& !entry_point.take(at).contains(':')
    &&& name.len() > 0
    &&& files.contains_key(place)
    &&& 0 <= j < files[place].len()
    &&& graph.files.contains_key(files[place][j]@)
    &&& id == (graph.files[files[place][j]@], name)
}

/// The symbols that entry points name are those, and no others.
pub proof fn lemma_entry_symbols(
    entry_points: Seq<Seq<char>>,
    files: Map<Seq<char>, Seq<FilePath>>,
    graph: GraphModel,
    id: (Seq<char>, Seq<char>),
)
    ensures
        entry_symbols(entry_points, files, graph).contains(id) <==> exists|i: int, at: int, j: int|
            0 <= i < entry_points.len() && #[trigger] entry_names(
                entry_points[i],
                at,
                files,
                graph,
                j,
                id,
            ),
{
    if entry_symbols(entry_points, files, graph).contains(id) {
        let i = choose|i: int|
            0 <= i < entry_points.len() && crate::rules::is_entry_symbol(
                #[trigger] entry_points[i],
                files,
                graph,
                id,
            );
        let entry_point = entry_points[i];
        let at = crate::text::first_index(entry_point, ':');
        lemma_first_index(entry_point, ':');
        let place = trimmed(entry_point.take(at));
        let list = files[place];
        let j = choose|j: int|
            0 <= j < list.len() && graph.files.contains_key((#[trigger] list[j])@) && id == (
                graph.files[list[j]@],
                trimmed(entry_point.skip(at + 1)),
            );
        assert(entry_names(entry_points[i], at, files, graph, j, id));
    }
    if exists|i: int, at: int, j: int|
        0 <= i < entry_points.len() && #[trigger] entry_names(
            entry_points[i],
            at,
            files,
            graph,
            j,
            id,
        ) {
        let (i, at, j) = choose|i: int, at: int, j: int|
            0 <= i < entry_points.len() && #[trigger] entry_names(
                entry_points[i],
                at,
                files,
                graph,
                j,
                id,
            );
        let entry_point = entry_points[i];
        let before = entry_point.take(at);
        let after = entry_point.skip(at + 1);
        lemma_cut_first(before, ':', after);
        assert(before.push(':') + after =~= entry_point);
        let list = files[trimmed(before)];
        assert(graph.files.contains_key(list[j]@));
        assert(crate::rules::is_entry_symbol(entry_points[i], files, graph, id));
    }
}

} // verus!
