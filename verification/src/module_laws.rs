//! What a module defines, imports, exports and refers to, said of its statements.

use crate::ast::{Alias, Expr, ExprContext, Stmt, StmtKind};
use crate::collections::{bound_last, lemma_rebound_concat, rebound};
use crate::collector::{
    alias_bindings, assigned_names, bindings, defined_names, definitions, import_base,
    member_bindings, member_path, module_bindings, module_model, module_scope, stmt_base,
    stmt_bindings, stmt_definitions, SourceModel, SymbolKind,
};
use crate::imports::{
    import_target, member_file, module_file, module_of_expr, text_of, written_path, ImportModel,
    IndexModel, TargetModel,
};
use crate::lines::line_at;
use crate::path::is_init;
use crate::scope::{from_import_binding, import_binding};
use crate::symbol_laws::{is_first_definition, lemma_module_symbols};
use crate::syntax_laws::{from_import_binds, import_binds, lemma_import_binding, lemma_is_star};
use crate::text::{
    dotted, is_dunder, join_segments, lemma_join_split, lemma_split_join, lemma_split_parts,
    split_segments,
};
use vstd::prelude::*;

verus! {

/// The name of the list of exports.
pub open spec fn all_name() -> Seq<char> {
    seq!['_', '_', 'a', 'l', 'l', '_', '_']
}

pub proof fn lemma_all_name()
    ensures
        "__all__"@ == all_name(),
{
    reveal_strlit("__all__");
    assert("__all__"@ =~= all_name());
}

/// Whether a name starts and ends with two underscores.
pub open spec fn has_double_underscores(n: Seq<char>) -> bool {
    n.len() >= 2 && n[0] == '_' && n[1] == '_' && n[n.len() - 2] == '_' && n[n.len() - 1] == '_'
}

proof fn lemma_dunder(n: Seq<char>)
    ensures
        is_dunder(n) <==> has_double_underscores(n),
{
    let two = seq!['_', '_'];
    if n.len() >= 2 {
        let head = n.take(2);
        let tail = n.skip(n.len() - 2);
        assert(head[0] == n[0] && head[1] == n[1]);
        assert(tail[0] == n[n.len() - 2] && tail[1] == n[n.len() - 1]);
        if has_double_underscores(n) {
            assert(head =~= two);
            assert(tail =~= two);
        }
    }
}

pub open spec fn is_bare(expr: Expr, n: Seq<char>) -> bool {
    match expr {
        Expr::Name { id, .. } => id@ == n,
        _ => false,
    }
}

/// Whether a statement at the top level of a module defines `n`: a function, a class, a plain
/// assignment with the bare name among its targets, or a simple annotated one.
pub open spec fn stmt_defines(kind: StmtKind, n: Seq<char>) -> bool {
    match kind {
        StmtKind::FunctionDef { name, .. } => name@ == n,
        StmtKind::ClassDef { name, .. } => name@ == n,
        StmtKind::Assign { targets, .. } => n != all_name() && exists|j: int|
            0 <= j < targets@.len() && is_bare(#[trigger] targets@[j], n),
        StmtKind::AnnAssign { target, simple, .. } => simple && n != all_name() && is_bare(
            target,
            n,
        ),
        _ => false,
    }
}

/// Whether the top level of a module defines `n`.
pub open spec fn body_defines(body: Seq<Stmt>, n: Seq<char>) -> bool {
    exists|i: int| 0 <= i < body.len() && stmt_defines((#[trigger] body[i]).kind, n)
}

pub open spec fn stated_kind(kind: StmtKind) -> SymbolKind {
    match kind {
        StmtKind::FunctionDef { .. } => SymbolKind::Function,
        StmtKind::ClassDef { .. } => SymbolKind::Class,
        _ => SymbolKind::Variable,
    }
}

proof fn lemma_assigned_names(targets: Seq<Expr>, offset: nat, n: Seq<char>)
    ensures
        defined_names(assigned_names(targets, offset)).contains(n) <==> n != all_name() && exists|
            j: int,
        |
            0 <= j < targets.len() && is_bare(#[trigger] targets[j], n),
        forall|d: int|
            0 <= d < assigned_names(targets, offset).len() ==> (#[trigger] assigned_names(
                targets,
                offset,
            )[d]).kind == SymbolKind::Variable && assigned_names(targets, offset)[d].offset
                == offset,
    decreases targets.len(),
{
    lemma_all_name();
    if targets.len() > 0 {
        let shorter = targets.drop_last();
        let last = targets.len() - 1;
        lemma_assigned_names(shorter, offset, n);
        let before = assigned_names(shorter, offset);
        let after = assigned_names(targets, offset);
        assert(targets[last] == targets.last());
        if defined_names(before).contains(n) {
            let d = choose|d: int| 0 <= d < before.len() && (#[trigger] before[d]).name == n;
            assert(after[d].name == n);
        }
        if defined_names(after).contains(n) {
            let d = choose|d: int| 0 <= d < after.len() && (#[trigger] after[d]).name == n;
            if d < before.len() {
                assert(before[d].name == n);
                let j = choose|j: int| 0 <= j < shorter.len() && is_bare(#[trigger] shorter[j], n);
                assert(targets[j] == shorter[j]);
            } else {
                assert(is_bare(targets[last], n));
            }
        }
        if n != all_name() && is_bare(targets.last(), n) {
            assert(after[before.len() as int].name == n);
        }
        if exists|j: int| 0 <= j < targets.len() && is_bare(#[trigger] targets[j], n) {
            let j = choose|j: int| 0 <= j < targets.len() && is_bare(#[trigger] targets[j], n);
            if j < last {
                assert(shorter[j] == targets[j]);
            }
        }
    }
}

proof fn lemma_stmt_definitions(stmt: Stmt, n: Seq<char>)
    ensures
        defined_names(stmt_definitions(stmt)).contains(n) <==> stmt_defines(stmt.kind, n),
        forall|d: int|
            0 <= d < stmt_definitions(stmt).len() ==> (#[trigger] stmt_definitions(stmt)[d]).kind
                == stated_kind(stmt.kind) && stmt_definitions(stmt)[d].offset == stmt.offset,
{
    let offset = stmt.offset as nat;
    let list = stmt_definitions(stmt);
    match stmt.kind {
        StmtKind::FunctionDef { name, .. } => {
            assert(list.len() == 1 && list[0].name == name@);
        },
        StmtKind::ClassDef { name, .. } => {
            assert(list.len() == 1 && list[0].name == name@);
        },
        StmtKind::Assign { targets, .. } => {
            lemma_assigned_names(targets@, offset, n);
        },
        StmtKind::AnnAssign { target, simple, .. } => {
            lemma_assigned_names(seq![target], offset, n);
            assert(seq![target][0] == target);
            if is_bare(target, n) {
                assert(is_bare(seq![target][0], n));
            }
        },
        _ => {
            assert(list.len() == 0);
        },
    }
}

/// The first definition of a name stands in the first statement that defines it.
proof fn lemma_first_definition(body: Seq<Stmt>, n: Seq<char>)
    ensures
        defined_names(definitions(body)).contains(n) <==> body_defines(body, n),
        forall|d: int| #[trigger]
            is_first_definition(definitions(body), n, d) ==> exists|i: int|
                0 <= i < body.len() && stmt_defines((#[trigger] body[i]).kind, n) && (forall|
                    k: int,
                |
                    0 <= k < i ==> !stmt_defines((#[trigger] body[k]).kind, n)) && definitions(
                    body,
                )[d].kind == stated_kind(body[i].kind) && definitions(body)[d].offset
                    == body[i].offset,
    decreases body.len(),
{
    let list = definitions(body);
    if body.len() > 0 {
        let shorter = body.drop_last();
        let last = body.len() - 1;
        let before = definitions(shorter);
        let added = stmt_definitions(body.last());
        lemma_first_definition(shorter, n);
        lemma_stmt_definitions(body.last(), n);
        assert(body[last] == body.last());
        assert(list =~= before + added);
        if defined_names(before).contains(n) {
            let d = choose|d: int| 0 <= d < before.len() && (#[trigger] before[d]).name == n;
            assert(list[d].name == n);
            let i = choose|i: int|
                0 <= i < shorter.len() && stmt_defines((#[trigger] shorter[i]).kind, n);
            assert(body[i] == shorter[i]);
        }
        if defined_names(added).contains(n) {
            let d = choose|d: int| 0 <= d < added.len() && (#[trigger] added[d]).name == n;
            assert(list[before.len() + d].name == n);
        }
        if defined_names(list).contains(n) {
            let d = choose|d: int| 0 <= d < list.len() && (#[trigger] list[d]).name == n;
            if d < before.len() {
                assert(before[d].name == n);
            } else {
                assert(added[d - before.len()].name == n);
            }
        }
        if body_defines(body, n) {
            let i = choose|i: int|
                0 <= i < body.len() && stmt_defines((#[trigger] body[i]).kind, n);
            if i < last {
                assert(shorter[i] == body[i]);
            }
        }
        assert forall|d: int| #[trigger] is_first_definition(list, n, d) implies exists|i: int|
            0 <= i < body.len() && stmt_defines((#[trigger] body[i]).kind, n) && (forall|k: int|
                0 <= k < i ==> !stmt_defines((#[trigger] body[k]).kind, n)) && list[d].kind
                == stated_kind(body[i].kind) && list[d].offset == body[i].offset by {
            if d < before.len() {
                assert(list[d] == before[d]);
                assert forall|e: int| 0 <= e < d implies (#[trigger] before[e]).name != n by {
                    assert(list[e] == before[e]);
                }
                assert(is_first_definition(before, n, d));
                let i = choose|i: int|
                    0 <= i < shorter.len() && stmt_defines((#[trigger] shorter[i]).kind, n) && (
                    forall|k: int|
                        0 <= k < i ==> !stmt_defines((#[trigger] shorter[k]).kind, n))
                        && before[d].kind == stated_kind(shorter[i].kind) && before[d].offset
                        == shorter[i].offset;
                assert(body[i] == shorter[i]);
                assert(forall|k: int| 0 <= k < i ==> #[trigger] body[k] == shorter[k]);
            } else {
                assert(added[d - before.len()] == list[d]);
                assert(stmt_defines(body[last].kind, n));
                assert forall|k: int| 0 <= k < last implies !stmt_defines(
                    (#[trigger] body[k]).kind,
                    n,
                ) by {
                    assert(shorter[k] == body[k]);
                    if stmt_defines(body[k].kind, n) {
                        assert(body_defines(shorter, n));
                        let e = choose|e: int|
                            0 <= e < before.len() && (#[trigger] before[e]).name == n;
                        assert(list[e].name == n);
                    }
                }
            }
        }
    }
}

/// What a statement at the top level defines is a symbol of the module, unless its name has two
/// underscores at both ends. The first statement that defines it gives the kind and the line.
pub proof fn lemma_defined_is_symbol(source: SourceModel, body: Seq<Stmt>, i: int, n: Seq<char>)
    requires
        0 <= i < body.len(),
        stmt_defines(body[i].kind, n),
        forall|k: int| 0 <= k < i ==> !stmt_defines((#[trigger] body[k]).kind, n),
        !has_double_underscores(n),
    ensures
        module_model(source, body).symbols.contains_key(n),
        module_model(source, body).symbols[n].kind == stated_kind(body[i].kind),
        module_model(source, body).symbols[n].line == line_at(source.text, body[i].offset as nat),
        module_model(source, body).symbols[n].file == source.file,
        module_model(source, body).symbols[n].spelling == source.spelling,
{
    lemma_dunder(n);
    lemma_first_definition(body, n);
    lemma_module_symbols(source, body, n);
    let list = definitions(body);
    let symbols = module_model(source, body).symbols;
    let d = choose|d: int| #[trigger]
        is_first_definition(list, n, d) && symbols[n].kind == list[d].kind && symbols[n].line
            == line_at(source.text, list[d].offset);
    let k = choose|k: int|
        0 <= k < body.len() && stmt_defines((#[trigger] body[k]).kind, n) && (forall|m: int|
            0 <= m < k ==> !stmt_defines((#[trigger] body[m]).kind, n)) && list[d].kind
            == stated_kind(body[k].kind) && list[d].offset == body[k].offset;
    assert(k == i) by {
        if k < i {
            assert(!stmt_defines(body[k].kind, n));
        }
        if i < k {
            assert(!stmt_defines(body[i].kind, n));
        }
    }
}

/// A module has no other symbols, and none whose name has two underscores at both ends.
pub proof fn lemma_symbol_is_defined(source: SourceModel, body: Seq<Stmt>, n: Seq<char>)
    ensures
        module_model(source, body).symbols.contains_key(n) <==> body_defines(body, n)
            && !has_double_underscores(n),
{
    lemma_dunder(n);
    lemma_first_definition(body, n);
    lemma_module_symbols(source, body, n);
}

/// A variable with an annotation is a symbol, whether or not it is given a value.
pub proof fn lemma_annotated_variable(
    source: SourceModel,
    body: Seq<Stmt>,
    i: int,
    target: Expr,
    initial: Option<Expr>,
    n: Seq<char>,
)
    requires
        0 <= i < body.len(),
        body[i].kind == (StmtKind::AnnAssign { target, initial, simple: true }),
        target matches Expr::Name { id, .. } && id@ == n,
        n != seq!['_', '_', 'a', 'l', 'l', '_', '_'],
        !(n.len() >= 2 && n[0] == '_' && n[1] == '_' && n[n.len() - 2] == '_' && n[n.len() - 1]
            == '_'),
    ensures
        module_model(source, body).symbols.contains_key(n),
{
    assert(stmt_defines(body[i].kind, n));
    assert(body_defines(body, n));
    lemma_symbol_is_defined(source, body, n);
}

/// Each bare name that a plain assignment assigns to is a symbol.
pub proof fn lemma_assigned_variable(
    source: SourceModel,
    body: Seq<Stmt>,
    i: int,
    targets: Vec<Expr>,
    value: Expr,
    j: int,
    n: Seq<char>,
)
    requires
        0 <= i < body.len(),
        body[i].kind == (StmtKind::Assign { targets, value }),
        0 <= j < targets@.len(),
        targets@[j] matches Expr::Name { id, .. } && id@ == n,
        n != seq!['_', '_', 'a', 'l', 'l', '_', '_'],
        !(n.len() >= 2 && n[0] == '_' && n[1] == '_' && n[n.len() - 2] == '_' && n[n.len() - 1]
            == '_'),
    ensures
        module_model(source, body).symbols.contains_key(n),
{
    assert(is_bare(targets@[j], n));
    assert(n != all_name());
    match body[i].kind {
        StmtKind::Assign { targets: list, .. } => {
            assert(is_bare(list@[j], n));
        },
        _ => {},
    }
    assert(stmt_defines(body[i].kind, n));
    assert(body_defines(body, n));
    lemma_symbol_is_defined(source, body, n);
}

/// Each function and each class at the top level is a symbol.
pub proof fn lemma_definition_is_symbol(source: SourceModel, body: Seq<Stmt>, i: int, n: Seq<char>)
    requires
        0 <= i < body.len(),
        (body[i].kind matches StmtKind::FunctionDef { name, .. } && name@ == n) || (
        body[i].kind matches StmtKind::ClassDef { name, .. } && name@ == n),
        !(n.len() >= 2 && n[0] == '_' && n[1] == '_' && n[n.len() - 2] == '_' && n[n.len() - 1]
            == '_'),
    ensures
        module_model(source, body).symbols.contains_key(n),
{
    assert(stmt_defines(body[i].kind, n));
    assert(body_defines(body, n));
    lemma_symbol_is_defined(source, body, n);
}

/// The names that count as the module's own are those that its top level defines, whether or not
/// they are symbols.
pub proof fn lemma_local_names(source: SourceModel, body: Seq<Stmt>, n: Seq<char>)
    ensures
        module_scope(source, body).locals.contains(n) <==> body_defines(body, n),
{
    lemma_first_definition(body, n);
}

proof fn lemma_split_dotted(m: Seq<char>, s: Seq<char>)
    requires
        !s.contains('.'),
    ensures
        split_segments(dotted(m, s), '.') == split_segments(m, '.').push(s),
        split_segments(m, '.').len() > 0,
        join_segments(split_segments(m, '.'), '.') == m,
{
    lemma_join_split(m, '.');
    lemma_split_parts(m, '.');
    let parts = split_segments(m, '.').push(s);
    assert forall|i: int| 0 <= i < parts.len() implies !(#[trigger] parts[i]).contains('.') by {
        if i < split_segments(m, '.').len() {
            assert(parts[i] == split_segments(m, '.')[i]);
        }
    }
    lemma_split_join(parts, '.');
    assert(parts.drop_last() =~= split_segments(m, '.'));
    assert(join_segments(parts, '.') == dotted(m, s));
}

/// An import without dots starts at the module that it names.
pub proof fn lemma_absolute_import(module: Seq<char>, is_package: bool, from: Seq<char>)
    ensures
        import_base(module, is_package, Some(from), 0) == Some(from),
{
}

/// One dot in a module stands for what the module lies in.
pub proof fn lemma_one_dot(m: Seq<char>, s: Seq<char>, from: Seq<char>)
    requires
        !s.contains('.'),
    ensures
        import_base(dotted(m, s), false, Some(from), 1) == Some(dotted(m, from)),
        import_base(dotted(m, s), false, None, 1) == Some(m),
{
    lemma_split_dotted(m, s);
    let parts = split_segments(dotted(m, s), '.');
    assert(parts.take(parts.len() - 1) =~= split_segments(m, '.'));
}

/// Each further dot goes one level up: it takes away the last segment.
pub proof fn lemma_further_dot(
    m: Seq<char>,
    s: Seq<char>,
    is_package: bool,
    from: Option<Seq<char>>,
    level: nat,
)
    requires
        !s.contains('.'),
        m.len() > 0,
        level >= 1,
    ensures
        import_base(dotted(m, s), is_package, from, level + 1) == import_base(
            m,
            is_package,
            from,
            level,
        ),
{
    lemma_split_dotted(m, s);
    let whole = split_segments(dotted(m, s), '.');
    let parts = split_segments(m, '.');
    let strip: int = if is_package {
        level - 1
    } else {
        level as int
    };
    if strip <= parts.len() {
        assert(whole.take(whole.len() - (strip + 1)) =~= parts.take(parts.len() - strip));
    }
}

/// In a package, one dot stands for the package itself, and each further dot for one level up, as
/// one dot fewer does in a module.
pub proof fn lemma_package_dots(
    module: Seq<char>,
    from: Seq<char>,
    any: Option<Seq<char>>,
    level: nat,
)
    requires
        level >= 1,
    ensures
        module.len() > 0 ==> import_base(module, true, Some(from), 1) == Some(
            dotted(module, from),
        ),
        module.len() > 0 ==> import_base(module, true, None, 1) == Some(module),
        import_base(module, true, any, level + 1) == import_base(module, false, any, level),
{
    lemma_join_split(module, '.');
    let parts = split_segments(module, '.');
    assert(parts.take(parts.len() as int) =~= parts);
}

/// A module at the top lies in nothing: one dot adds nothing to the named module, and more dots
/// lead nowhere.
pub proof fn lemma_top_level_dots(s: Seq<char>, from: Option<Seq<char>>, level: nat)
    requires
        s.len() > 0,
        !s.contains('.'),
        level >= 1,
    ensures
        import_base(s, false, from, 1) == from,
        level >= 2 ==> import_base(s, false, from, level) is None,
{
    crate::text::lemma_first_index(s, '.');
    let parts = split_segments(s, '.');
    assert(parts =~= seq![s]);
    assert(parts.take(0) =~= Seq::empty());
}

/// What is imported with `from` is a module where one has the path; else a member of the module
/// that the path leads to; else, where the path leads nowhere, the symbol that its last segment
/// names in the module before it.
pub proof fn lemma_import_target(index: IndexModel, path: Seq<char>, module: Seq<char>, name: Seq<
    char,
>)
    ensures
        module_file(index, path) is Some ==> import_target(index, path) == TargetModel::Module(
            path,
        ),
        module_file(index, path) is None && member_file(index, path) is Some && member_file(
            index,
            path,
        )->0.member == Some(name) && member_file(index, path)->0.file_module == Some(module)
            ==> import_target(index, path) == TargetModel::Symbol((module, name)),
        module_file(index, path) is None && member_file(index, path) is Some && (member_file(
            index,
            path,
        )->0.member is None || member_file(index, path)->0.file_module is None)
            ==> import_target(index, path) == TargetModel::Module(path),
        !name.contains('.') && module_file(index, dotted(module, name)) is None && member_file(
            index,
            dotted(module, name),
        ) is None ==> import_target(index, dotted(module, name)) == TargetModel::Symbol(
            (module, name),
        ),
        !name.contains('.') && module_file(index, name) is None && member_file(index, name) is None
            ==> import_target(index, name) == TargetModel::Module(name),
{
    let whole = dotted(module, name);
    crate::text::lemma_last_index(name, '.');
    crate::text::lemma_last_index(whole, '.');
    if !name.contains('.') {
        let n = module.len() as int;
        let i = crate::text::last_index(whole, '.');
        assert(whole[n] == '.');
        if i > n {
            assert(name[i - n - 1] == '.');
        }
        assert(i == n);
        assert(whole.take(i) =~= module);
        assert(whole.skip(i + 1) =~= name);
    }
}

/// Whether the alias at position `j` is the last one of `import` that binds `n`.
pub open spec fn last_import_binds(names: Seq<Alias>, j: int, n: Seq<char>) -> bool {
    &&& 0 <= j < names.len()
    &&& import_binds(names[j], n)
    &&& forall|k: int| j < k < names.len() ==> !import_binds(#[trigger] names[k], n)
}

/// Whether the alias at position `j` is the last one of `from ... import` that binds `n`.
pub open spec fn last_from_import_binds(names: Seq<Alias>, j: int, n: Seq<char>) -> bool {
    &&& 0 <= j < names.len()
    &&& from_import_binds(names[j], n)
    &&& forall|k: int| j < k < names.len() ==> !from_import_binds(#[trigger] names[k], n)
}

/// Whether a statement imports something under the name `n`.
pub open spec fn stmt_imports(source: SourceModel, kind: StmtKind, n: Seq<char>) -> bool {
    match kind {
        StmtKind::Import { names } => n.len() > 0 && exists|j: int|
            0 <= j < names@.len() && import_binds(#[trigger] names@[j], n),
        StmtKind::ImportFrom { module, level, names } => n.len() > 0 && import_base(
            source.module,
            is_init(source.file),
            text_of(module),
            level as nat,
        ) is Some && exists|j: int|
            0 <= j < names@.len() && from_import_binds(#[trigger] names@[j], n),
        _ => false,
    }
}

/// What an alias of `import` binds its name to.
pub open spec fn import_meaning(alias: Alias, n: Seq<char>) -> TargetModel {
    match alias.asname {
        Some(_) => TargetModel::Module(alias.name@),
        None => TargetModel::Module(n),
    }
}

/// What an alias of `from base import` binds its name to.
pub open spec fn from_import_meaning(
    index: IndexModel,
    base: Seq<char>,
    alias: Alias,
) -> TargetModel {
    import_target(
        index,
        if base.len() == 0 {
            alias.name@
        } else {
            base.push('.') + alias.name@
        },
    )
}

proof fn lemma_module_bindings(
    map: Map<Seq<char>, TargetModel>,
    names: Seq<Alias>,
    n: Seq<char>,
)
    ensures
        ({
            let after = rebound(map, module_bindings(names));
            &&& (n.len() == 0 || forall|j: int|
                0 <= j < names.len() ==> !import_binds(#[trigger] names[j], n)) ==> (
            after.contains_key(n) == map.contains_key(n) && after[n] == map[n])
            &&& forall|j: int|
                n.len() > 0 && #[trigger] last_import_binds(names, j, n) ==> after.contains_key(n)
                    && after[n] == import_meaning(names[j], n)
        }),
    decreases names.len(),
{
    if names.len() > 0 {
        let shorter = names.drop_last();
        let last = names.len() - 1;
        let alias = names.last();
        lemma_module_bindings(map, shorter, n);
        lemma_import_binding(alias, n);
        let before = rebound(map, module_bindings(shorter));
        let binding = import_binding(alias);
        if binding.len() > 0 {
            lemma_import_binding(alias, binding);
            crate::collections::lemma_rebound_push(
                map,
                module_bindings(shorter),
                (binding, import_meaning(alias, binding)),
            );
        }
        assert forall|j: int| 0 <= j < last implies #[trigger] names[j] == shorter[j] by {}
        if n.len() == 0 || forall|j: int|
            0 <= j < names.len() ==> !import_binds(#[trigger] names[j], n) {
            assert(names[last] == alias);
            assert forall|j: int| n.len() > 0 && 0 <= j < shorter.len() implies !import_binds(
                #[trigger] shorter[j],
                n,
            ) by {
                assert(names[j] == shorter[j]);
            }
        }
        assert forall|j: int| n.len() > 0 && #[trigger] last_import_binds(
            names,
            j,
            n,
        ) implies rebound(map, module_bindings(names)).contains_key(n) && rebound(
            map,
            module_bindings(names),
        )[n] == import_meaning(names[j], n) by {
            if j < last {
                assert(!import_binds(names[last], n));
                assert(last_import_binds(shorter, j, n));
            }
        }
    }
}

proof fn lemma_member_bindings(
    map: Map<Seq<char>, TargetModel>,
    index: IndexModel,
    base: Seq<char>,
    names: Seq<Alias>,
    n: Seq<char>,
)
    ensures
        ({
            let after = rebound(map, member_bindings(index, base, names));
            &&& (n.len() == 0 || forall|j: int|
                0 <= j < names.len() ==> !from_import_binds(#[trigger] names[j], n)) ==> (
            after.contains_key(n) == map.contains_key(n) && after[n] == map[n])
            &&& forall|j: int|
                n.len() > 0 && #[trigger] last_from_import_binds(names, j, n)
                    ==> after.contains_key(n) && after[n] == from_import_meaning(
                    index,
                    base,
                    names[j],
                )
        }),
    decreases names.len(),
{
    if names.len() > 0 {
        let shorter = names.drop_last();
        let last = names.len() - 1;
        let alias = names.last();
        lemma_member_bindings(map, index, base, shorter, n);
        lemma_is_star(alias);
        let before = rebound(map, member_bindings(index, base, shorter));
        let added = alias_bindings(index, base, alias);
        let binding = from_import_binding(alias);
        assert(member_path(base, alias.name@) =~= if base.len() == 0 {
            alias.name@
        } else {
            base.push('.') + alias.name@
        });
        lemma_rebound_concat(map, member_bindings(index, base, shorter), added);
        if added.len() > 0 {
            let pair = (binding, from_import_meaning(index, base, alias));
            crate::collections::lemma_rebound_push(before, Seq::empty(), pair);
            assert(Seq::empty().push(pair) =~= added);
            assert(rebound(before, Seq::empty()) == before);
            assert(rebound(before, added) == before.insert(
                binding,
                from_import_meaning(index, base, alias),
            ));
        }
        assert forall|j: int| 0 <= j < last implies #[trigger] names[j] == shorter[j] by {}
        if n.len() == 0 || forall|j: int|
            0 <= j < names.len() ==> !from_import_binds(#[trigger] names[j], n) {
            assert(names[last] == alias);
            assert forall|j: int|
                n.len() > 0 && 0 <= j < shorter.len() implies !from_import_binds(
                #[trigger] shorter[j],
                n,
            ) by {
                assert(names[j] == shorter[j]);
            }
        }
        let after = rebound(map, member_bindings(index, base, names));
        assert forall|j: int| n.len() > 0 && #[trigger] last_from_import_binds(
            names,
            j,
            n,
        ) implies after.contains_key(n) && after[n] == from_import_meaning(
            index,
            base,
            names[j],
        ) by {
            if j < last {
                assert(!from_import_binds(names[last], n));
                assert(last_from_import_binds(shorter, j, n));
            }
        }
    }
}

/// Whether the alias at position `j` of a statement is the last one in it that imports something
/// under the name `n`, and `meaning` is what it imports.
pub open spec fn alias_imports(
    source: SourceModel,
    kind: StmtKind,
    j: int,
    n: Seq<char>,
    meaning: TargetModel,
) -> bool {
    match kind {
        StmtKind::Import { names } => last_import_binds(names@, j, n) && meaning == import_meaning(
            names@[j],
            n,
        ),
        StmtKind::ImportFrom { module, level, names } => {
            let base = import_base(
                source.module,
                is_init(source.file),
                text_of(module),
                level as nat,
            );
            base is Some && last_from_import_binds(names@, j, n) && meaning == from_import_meaning(
                source.index,
                base->0,
                names@[j],
            )
        },
        _ => false,
    }
}

proof fn lemma_stmt_bindings(
    map: Map<Seq<char>, TargetModel>,
    source: SourceModel,
    kind: StmtKind,
    n: Seq<char>,
)
    ensures
        ({
            let after = rebound(map, stmt_bindings(source, kind));
            &&& !stmt_imports(source, kind, n) ==> (after.contains_key(n) == map.contains_key(n)
                && after[n] == map[n])
            &&& forall|j: int, meaning: TargetModel|
                n.len() > 0 && #[trigger] alias_imports(source, kind, j, n, meaning)
                    ==> after.contains_key(n) && after[n] == meaning
        }),
{
    match kind {
        StmtKind::Import { names } => {
            lemma_module_bindings(map, names@, n);
        },
        StmtKind::ImportFrom { names, .. } => {
            if let Some(base) = stmt_base(source, kind) {
                lemma_member_bindings(map, source.index, base, names@, n);
            }
        },
        _ => {},
    }
}

proof fn lemma_last_alias(names: Seq<Alias>, n: Seq<char>)
    ensures
        (exists|j: int| 0 <= j < names.len() && import_binds(#[trigger] names[j], n))
            ==> exists|j: int| #[trigger] last_import_binds(names, j, n),
        (exists|j: int| 0 <= j < names.len() && from_import_binds(#[trigger] names[j], n))
            ==> exists|j: int| #[trigger] last_from_import_binds(names, j, n),
    decreases names.len(),
{
    if names.len() > 0 {
        let shorter = names.drop_last();
        let last = names.len() - 1;
        lemma_last_alias(shorter, n);
        assert forall|j: int| 0 <= j < last implies #[trigger] names[j] == shorter[j] by {}
        if import_binds(names[last], n) {
            assert(last_import_binds(names, last, n));
        } else if exists|j: int| 0 <= j < names.len() && import_binds(#[trigger] names[j], n) {
            let j = choose|j: int| 0 <= j < names.len() && import_binds(#[trigger] names[j], n);
            assert(import_binds(shorter[j], n));
            let k = choose|k: int| #[trigger] last_import_binds(shorter, k, n);
            assert(names[k] == shorter[k]);
            assert forall|m: int| k < m < names.len() implies !import_binds(
                #[trigger] names[m],
                n,
            ) by {
                if m < last {
                    assert(!import_binds(shorter[m], n));
                }
            }
            assert(last_import_binds(names, k, n));
        }
        if from_import_binds(names[last], n) {
            assert(last_from_import_binds(names, last, n));
        } else if exists|j: int|
            0 <= j < names.len() && from_import_binds(#[trigger] names[j], n) {
            let j = choose|j: int|
                0 <= j < names.len() && from_import_binds(#[trigger] names[j], n);
            assert(from_import_binds(shorter[j], n));
            let k = choose|k: int| #[trigger] last_from_import_binds(shorter, k, n);
            assert(names[k] == shorter[k]);
            assert forall|m: int| k < m < names.len() implies !from_import_binds(
                #[trigger] names[m],
                n,
            ) by {
                if m < last {
                    assert(!from_import_binds(shorter[m], n));
                }
            }
            assert(last_from_import_binds(names, k, n));
        }
    }
}

proof fn lemma_bindings(source: SourceModel, body: Seq<Stmt>, n: Seq<char>)
    ensures
        ({
            let imports = bound_last(bindings(source, body));
            &&& imports.contains_key(n) <==> exists|i: int|
                0 <= i < body.len() && stmt_imports(source, (#[trigger] body[i]).kind, n)
            &&& forall|i: int, j: int, meaning: TargetModel|
                n.len() > 0 && 0 <= i < body.len() && #[trigger] alias_imports(
                    source,
                    body[i].kind,
                    j,
                    n,
                    meaning,
                ) && (forall|k: int|
                    i < k < body.len() ==> !stmt_imports(source, (#[trigger] body[k]).kind, n))
                    ==> imports.contains_key(n) && imports[n] == meaning
        }),
    decreases body.len(),
{
    let imports = bound_last(bindings(source, body));
    if body.len() > 0 {
        let shorter = body.drop_last();
        let last = body.len() - 1;
        let kind = body.last().kind;
        let before = bound_last(bindings(source, shorter));
        lemma_bindings(source, shorter, n);
        lemma_rebound_concat(
            Map::<Seq<char>, TargetModel>::empty(),
            bindings(source, shorter),
            stmt_bindings(source, kind),
        );
        lemma_stmt_bindings(before, source, kind, n);
        assert(imports == rebound(before, stmt_bindings(source, kind)));
        assert(body[last] == body.last());
        assert forall|i: int| 0 <= i < last implies #[trigger] body[i] == shorter[i] by {}
        if stmt_imports(source, kind, n) {
            match kind {
                StmtKind::Import { names } => {
                    lemma_last_alias(names@, n);
                    let j = choose|j: int| #[trigger] last_import_binds(names@, j, n);
                    assert(alias_imports(source, kind, j, n, import_meaning(names@[j], n)));
                },
                StmtKind::ImportFrom { names, .. } => {
                    lemma_last_alias(names@, n);
                    let j = choose|j: int| #[trigger] last_from_import_binds(names@, j, n);
                    let meaning = from_import_meaning(
                        source.index,
                        stmt_base(source, kind)->0,
                        names@[j],
                    );
                    assert(alias_imports(source, kind, j, n, meaning));
                },
                _ => {},
            }
            assert(imports.contains_key(n));
        }
        if exists|i: int| 0 <= i < shorter.len() && stmt_imports(
            source,
            (#[trigger] shorter[i]).kind,
            n,
        ) {
            let i = choose|i: int|
                0 <= i < shorter.len() && stmt_imports(source, (#[trigger] shorter[i]).kind, n);
            assert(body[i] == shorter[i]);
        }
        if exists|i: int| 0 <= i < body.len() && stmt_imports(
            source,
            (#[trigger] body[i]).kind,
            n,
        ) {
            let i = choose|i: int|
                0 <= i < body.len() && stmt_imports(source, (#[trigger] body[i]).kind, n);
            if i < last {
                assert(stmt_imports(source, shorter[i].kind, n));
            }
        }
        assert forall|i: int, j: int, meaning: TargetModel|
            n.len() > 0 && 0 <= i < body.len() && #[trigger] alias_imports(
                source,
                body[i].kind,
                j,
                n,
                meaning,
            ) && (forall|k: int|
                i < k < body.len() ==> !stmt_imports(
                    source,
                    (#[trigger] body[k]).kind,
                    n,
                )) implies imports.contains_key(n) && imports[n] == meaning by {
            if i < last {
                assert(!stmt_imports(source, body[last].kind, n));
                assert(alias_imports(source, shorter[i].kind, j, n, meaning));
                assert forall|k: int| i < k < shorter.len() implies !stmt_imports(
                    source,
                    (#[trigger] shorter[k]).kind,
                    n,
                ) by {
                    assert(body[k] == shorter[k]);
                }
            }
        }
    }
}

/// `import` binds the new name to the whole module path, or, without one, the first segment to
/// itself; the last statement that imports something under a name decides.
pub proof fn lemma_import_statement(
    source: SourceModel,
    body: Seq<Stmt>,
    i: int,
    names: Vec<Alias>,
    j: int,
    n: Seq<char>,
)
    requires
        0 <= i < body.len(),
        body[i].kind == (StmtKind::Import { names }),
        n.len() > 0,
        last_import_binds(names@, j, n),
        forall|k: int|
            i < k < body.len() ==> !stmt_imports(source, (#[trigger] body[k]).kind, n),
    ensures
        module_model(source, body).imports.contains_key(n),
        names@[j].asname is Some ==> module_model(source, body).imports[n] == TargetModel::Module(
            names@[j].name@,
        ),
        names@[j].asname is None ==> module_model(source, body).imports[n] == TargetModel::Module(
            n,
        ),
{
    lemma_bindings(source, body, n);
    assert(alias_imports(source, body[i].kind, j, n, import_meaning(names@[j], n)));
}

/// `from base import name` binds the new name, or the name itself, to what the path
/// `base.name` stands for; the last statement that imports something under a name decides.
pub proof fn lemma_from_import_statement(
    source: SourceModel,
    body: Seq<Stmt>,
    i: int,
    module: Option<String>,
    level: u32,
    names: Vec<Alias>,
    base: Seq<char>,
    j: int,
    n: Seq<char>,
)
    requires
        0 <= i < body.len(),
        body[i].kind == (StmtKind::ImportFrom { module, level, names }),
        import_base(source.module, is_init(source.file), text_of(module), level as nat) == Some(
            base,
        ),
        n.len() > 0,
        last_from_import_binds(names@, j, n),
        forall|k: int|
            i < k < body.len() ==> !stmt_imports(source, (#[trigger] body[k]).kind, n),
    ensures
        module_model(source, body).imports.contains_key(n),
        base.len() > 0 ==> module_model(source, body).imports[n] == import_target(
            source.index,
            dotted(base, names@[j].name@),
        ),
        base.len() == 0 ==> module_model(source, body).imports[n] == import_target(
            source.index,
            names@[j].name@,
        ),
{
    lemma_bindings(source, body, n);
    let meaning = from_import_meaning(source.index, base, names@[j]);
    assert(alias_imports(source, body[i].kind, j, n, meaning));
}

/// A name is imported only where some statement imports it.
pub proof fn lemma_imported_names(source: SourceModel, body: Seq<Stmt>, n: Seq<char>)
    ensures
        module_model(source, body).imports.contains_key(n) <==> exists|i: int|
            0 <= i < body.len() && stmt_imports(source, (#[trigger] body[i]).kind, n),
{
    lemma_bindings(source, body, n);
}

/// A name bound to a module stands for it, and an attribute of what stands for a module extends
/// its path; nothing else stands for a module.
pub proof fn lemma_module_expressions(
    imports: ImportModel,
    id: String,
    ctx: ExprContext,
    value: Expr,
    attr: String,
    module: Seq<char>,
)
    ensures
        module_of_expr(Expr::Name { id, ctx }, imports) == Some(module) <==> imports.contains_key(
            id@,
        ) && imports[id@] == TargetModel::Module(module),
        module_of_expr(value, imports) == Some(module) ==> module_of_expr(
            Expr::Attribute { value: Box::new(value), attr, ctx },
            imports,
        ) == Some(module.push('.') + attr@),
        module_of_expr(value, imports) is None ==> module_of_expr(
            Expr::Attribute { value: Box::new(value), attr, ctx },
            imports,
        ) is None,
        module_of_expr(value, imports) is Some ==> (value is Name || value is Attribute),
        written_path(Expr::Name { id, ctx }) == Some(id@),
        written_path(value) == Some(module) ==> written_path(
            Expr::Attribute { value: Box::new(value), attr, ctx },
        ) == Some(module.push('.') + attr@),
        written_path(value) is None ==> written_path(
            Expr::Attribute { value: Box::new(value), attr, ctx },
        ) is None,
        written_path(value) is Some ==> (value is Name || value is Attribute),
{
    reveal_with_fuel(module_of_expr, 2);
    reveal_with_fuel(written_path, 2);
}

} // verus!
