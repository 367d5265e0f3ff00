//! What is found where in a syntax tree.

use crate::ast::{
    body_nodes, clause_nodes, expr_nodes, keyword_nodes, kind_nodes, list_nodes, option_nodes,
    parameter_nodes, signature_nodes, stmt_nodes, Alias, Clause, Expr, Keyword, Parameter, Stmt,
    StmtKind,
};
use crate::scope::{
    bound_by, bound_names, clause_names, from_import_binding, import_binding, is_star, target_names,
    targets_names,
};
use crate::text::{before_first, first_index, lemma_first_index};
use vstd::prelude::*;

verus! {

/// Whether `x` is `expr` or stands inside it.
pub open spec fn in_expr(x: Expr, expr: Expr) -> bool
    decreases expr,
{
    ||| x == expr
    ||| match expr {
        Expr::Name { .. } => false,
        Expr::Attribute { value, .. } => in_expr(x, *value),
        Expr::Call { func, args, keywords } => in_expr(x, *func) || (exists|i: int|
            0 <= i < args@.len() && in_expr(x, #[trigger] args@[i])) || (exists|i: int|
            0 <= i < keywords@.len() && in_expr(x, (#[trigger] keywords@[i]).value)),
        Expr::StringLiteral { .. } => false,
        Expr::List { elts } => exists|i: int|
            0 <= i < elts@.len() && in_expr(x, #[trigger] elts@[i]),
        Expr::Tuple { elts } => exists|i: int|
            0 <= i < elts@.len() && in_expr(x, #[trigger] elts@[i]),
        Expr::Other { children } => exists|i: int|
            0 <= i < children@.len() && in_expr(x, #[trigger] children@[i]),
    }
}

/// Whether `x` stands inside one of the expressions.
pub open spec fn in_list(x: Expr, list: Seq<Expr>) -> bool {
    exists|i: int| 0 <= i < list.len() && in_expr(x, #[trigger] list[i])
}

pub open spec fn in_option(x: Expr, expr: Option<Expr>) -> bool {
    match expr {
        Some(e) => in_expr(x, e),
        None => false,
    }
}

/// Whether `x` stands in the annotation or the default of a parameter.
pub open spec fn in_parameters(x: Expr, list: Seq<Parameter>) -> bool {
    exists|i: int|
        0 <= i < list.len() && (in_option(x, (#[trigger] list[i]).annotation) || in_option(
            x,
            list[i].default,
        ))
}

/// Whether `x` stands anywhere in a statement.
pub open spec fn in_stmt(x: Expr, stmt: Stmt) -> bool
    decreases stmt,
{
    ||| in_kind(x, stmt.kind)
    ||| in_list(x, stmt.expressions@)
    ||| exists|i: int| 0 <= i < stmt.nested@.len() && in_stmt(x, #[trigger] stmt.nested@[i])
}

pub open spec fn in_kind(x: Expr, kind: StmtKind) -> bool
    decreases kind,
{
    match kind {
        StmtKind::Import { .. } => false,
        StmtKind::ImportFrom { .. } => false,
        StmtKind::FunctionDef { decorators, parameters, return_type, body, .. } => in_list(
            x,
            decorators@,
        ) || in_parameters(x, parameters@) || in_option(x, return_type) || (exists|i: int|
            0 <= i < body@.len() && in_stmt(x, #[trigger] body@[i])),
        StmtKind::ClassDef { decorators, arguments, body, .. } => in_list(x, decorators@)
            || in_list(x, arguments@) || (exists|i: int|
            0 <= i < body@.len() && in_stmt(x, #[trigger] body@[i])),
        StmtKind::Assign { targets, value } => in_list(x, targets@) || in_expr(x, value),
        StmtKind::AnnAssign { target, initial, .. } => in_expr(x, target) || in_option(x, initial),
        StmtKind::AugAssign { target } => in_expr(x, target),
        StmtKind::For { target, body, orelse } => in_expr(x, target) || (exists|i: int|
            0 <= i < body@.len() && in_stmt(x, #[trigger] body@[i])) || (exists|i: int|
            0 <= i < orelse@.len() && in_stmt(x, #[trigger] orelse@[i])),
        StmtKind::With { targets, body } => in_list(x, targets@) || (exists|i: int|
            0 <= i < body@.len() && in_stmt(x, #[trigger] body@[i])),
        StmtKind::If { body, clauses } => (exists|i: int|
            0 <= i < body@.len() && in_stmt(x, #[trigger] body@[i])) || (exists|k: int, i: int|
            0 <= k < clauses@.len() && 0 <= i < clauses@[k].body@.len() && in_stmt(x, #[trigger] clauses@[k].body@[i])),
        StmtKind::Try { body, orelse, finalbody } => (exists|i: int|
            0 <= i < body@.len() && in_stmt(x, #[trigger] body@[i])) || (exists|i: int|
            0 <= i < orelse@.len() && in_stmt(x, #[trigger] orelse@[i])) || (exists|i: int|
            0 <= i < finalbody@.len() && in_stmt(x, #[trigger] finalbody@[i])),
        StmtKind::Expr { value } => in_expr(x, value),
        StmtKind::Other => false,
    }
}

/// Whether `x` stands anywhere in a list of statements.
pub open spec fn in_body(x: Expr, body: Seq<Stmt>) -> bool {
    exists|i: int| 0 <= i < body.len() && in_stmt(x, #[trigger] body[i])
}

proof fn lemma_concat<A>(first: Seq<A>, second: Seq<A>, x: A)
    ensures
        (first + second).contains(x) <==> first.contains(x) || second.contains(x),
{
    let all = first + second;
    if first.contains(x) {
        let j = choose|j: int| 0 <= j < first.len() && first[j] == x;
        assert(all[j] == x);
    }
    if second.contains(x) {
        let j = choose|j: int| 0 <= j < second.len() && second[j] == x;
        assert(all[first.len() + j] == x);
    }
    if all.contains(x) {
        let j = choose|j: int| 0 <= j < all.len() && all[j] == x;
        if j < first.len() {
            assert(first[j] == x);
        } else {
            assert(second[j - first.len()] == x);
        }
    }
}

/// The nodes of an expression are the expressions that stand in it.
pub proof fn lemma_expr_nodes(x: Expr, expr: Expr)
    ensures
        expr_nodes(expr).contains(x) <==> in_expr(x, expr),
    decreases expr,
{
    let rest = match expr {
        Expr::Name { .. } => Seq::<Expr>::empty(),
        Expr::Attribute { value, .. } => expr_nodes(*value),
        Expr::Call { func, args, keywords } => expr_nodes(*func) + list_nodes(args@)
            + keyword_nodes(keywords@),
        Expr::StringLiteral { .. } => Seq::empty(),
        Expr::List { elts } => list_nodes(elts@),
        Expr::Tuple { elts } => list_nodes(elts@),
        Expr::Other { children } => list_nodes(children@),
    };
    assert(expr_nodes(expr) =~= seq![expr] + rest);
    lemma_concat(seq![expr], rest, x);
    assert(seq![expr].contains(x) <==> x == expr) by {
        assert(seq![expr][0] == expr);
    }
    match expr {
        Expr::Name { .. } => {},
        Expr::Attribute { value, .. } => {
            lemma_expr_nodes(x, *value);
        },
        Expr::Call { func, args, keywords } => {
            lemma_expr_nodes(x, *func);
            lemma_list_nodes(x, args@);
            lemma_keyword_nodes(x, keywords@);
            lemma_concat(expr_nodes(*func), list_nodes(args@), x);
            lemma_concat(expr_nodes(*func) + list_nodes(args@), keyword_nodes(keywords@), x);
        },
        Expr::StringLiteral { .. } => {},
        Expr::List { elts } => {
            lemma_list_nodes(x, elts@);
        },
        Expr::Tuple { elts } => {
            lemma_list_nodes(x, elts@);
        },
        Expr::Other { children } => {
            lemma_list_nodes(x, children@);
        },
    }
}

pub proof fn lemma_list_nodes(x: Expr, list: Seq<Expr>)
    ensures
        list_nodes(list).contains(x) <==> in_list(x, list),
    decreases list,
{
    if list.len() > 0 {
        let shorter = list.drop_last();
        let last = list.len() - 1;
        lemma_list_nodes(x, shorter);
        lemma_expr_nodes(x, list.last());
        lemma_concat(list_nodes(shorter), expr_nodes(list.last()), x);
        if in_list(x, shorter) {
            let i = choose|i: int| 0 <= i < shorter.len() && in_expr(x, #[trigger] shorter[i]);
            assert(in_expr(x, list[i]));
        }
        if in_expr(x, list.last()) {
            assert(in_expr(x, list[last]));
        }
        if in_list(x, list) {
            let i = choose|i: int| 0 <= i < list.len() && in_expr(x, #[trigger] list[i]);
            if i < last {
                assert(in_expr(x, shorter[i]));
            }
        }
    }
}

proof fn lemma_keyword_nodes(x: Expr, list: Seq<Keyword>)
    ensures
        keyword_nodes(list).contains(x) <==> exists|i: int|
            0 <= i < list.len() && in_expr(x, (#[trigger] list[i]).value),
    decreases list,
{
    if list.len() > 0 {
        let shorter = list.drop_last();
        let last = list.len() - 1;
        lemma_keyword_nodes(x, shorter);
        lemma_expr_nodes(x, list.last().value);
        lemma_concat(keyword_nodes(shorter), expr_nodes(list.last().value), x);
        if exists|i: int| 0 <= i < shorter.len() && in_expr(x, (#[trigger] shorter[i]).value) {
            let i = choose|i: int|
                0 <= i < shorter.len() && in_expr(x, (#[trigger] shorter[i]).value);
            assert(in_expr(x, list[i].value));
        }
        if in_expr(x, list.last().value) {
            assert(in_expr(x, list[last].value));
        }
        if exists|i: int| 0 <= i < list.len() && in_expr(x, (#[trigger] list[i]).value) {
            let i = choose|i: int| 0 <= i < list.len() && in_expr(x, (#[trigger] list[i]).value);
            if i < last {
                assert(in_expr(x, shorter[i].value));
            }
        }
    }
}

proof fn lemma_option_nodes(x: Expr, expr: Option<Expr>)
    ensures
        option_nodes(expr).contains(x) <==> in_option(x, expr),
{
    if let Some(e) = expr {
        lemma_expr_nodes(x, e);
    }
}

proof fn lemma_parameter_nodes(x: Expr, list: Seq<Parameter>)
    ensures
        parameter_nodes(list).contains(x) <==> in_parameters(x, list),
    decreases list.len(),
{
    if list.len() > 0 {
        let shorter = list.drop_last();
        let end = list.len() - 1;
        let last = list.last();
        lemma_parameter_nodes(x, shorter);
        lemma_option_nodes(x, last.annotation);
        lemma_option_nodes(x, last.default);
        lemma_concat(parameter_nodes(shorter), option_nodes(last.annotation), x);
        lemma_concat(
            parameter_nodes(shorter) + option_nodes(last.annotation),
            option_nodes(last.default),
            x,
        );
        assert(list[end] == last);
        if in_parameters(x, shorter) {
            let i = choose|i: int|
                0 <= i < shorter.len() && (in_option(x, (#[trigger] shorter[i]).annotation)
                    || in_option(x, shorter[i].default));
            assert(list[i] == shorter[i]);
        }
        if in_parameters(x, list) {
            let i = choose|i: int|
                0 <= i < list.len() && (in_option(x, (#[trigger] list[i]).annotation) || in_option(
                    x,
                    list[i].default,
                ));
            if i < end {
                assert(list[i] == shorter[i]);
            }
        }
    }
}

/// The nodes of a signature are the expressions in the decorators, the annotations and defaults
/// of the parameters, and the return annotation.
pub proof fn lemma_signature_nodes(
    x: Expr,
    decorators: Seq<Expr>,
    parameters: Seq<Parameter>,
    return_type: Option<Expr>,
)
    ensures
        signature_nodes(decorators, parameters, return_type).contains(x) <==> in_list(x, decorators)
            || in_parameters(x, parameters) || in_option(x, return_type),
{
    lemma_list_nodes(x, decorators);
    lemma_parameter_nodes(x, parameters);
    lemma_option_nodes(x, return_type);
    lemma_concat(list_nodes(decorators), parameter_nodes(parameters), x);
    lemma_concat(
        list_nodes(decorators) + parameter_nodes(parameters),
        option_nodes(return_type),
        x,
    );
}

/// The nodes of a statement are the expressions that stand in it, however deep.
pub proof fn lemma_stmt_nodes(x: Expr, stmt: Stmt)
    ensures
        stmt_nodes(stmt).contains(x) <==> in_stmt(x, stmt),
    decreases stmt,
{
    lemma_kind_nodes(x, stmt.kind);
    lemma_list_nodes(x, stmt.expressions@);
    lemma_body_nodes(x, stmt.nested@);
    lemma_concat(kind_nodes(stmt.kind), list_nodes(stmt.expressions@), x);
    lemma_concat(
        kind_nodes(stmt.kind) + list_nodes(stmt.expressions@),
        body_nodes(stmt.nested@),
        x,
    );
}

proof fn lemma_kind_nodes(x: Expr, kind: StmtKind)
    ensures
        kind_nodes(kind).contains(x) <==> in_kind(x, kind),
    decreases kind,
{
    match kind {
        StmtKind::Import { .. } => {},
        StmtKind::ImportFrom { .. } => {},
        StmtKind::FunctionDef { decorators, parameters, return_type, body, .. } => {
            lemma_signature_nodes(x, decorators@, parameters@, return_type);
            lemma_body_nodes(x, body@);
            lemma_concat(
                signature_nodes(decorators@, parameters@, return_type),
                body_nodes(body@),
                x,
            );
        },
        StmtKind::ClassDef { decorators, arguments, body, .. } => {
            lemma_list_nodes(x, decorators@);
            lemma_list_nodes(x, arguments@);
            lemma_body_nodes(x, body@);
            lemma_concat(list_nodes(decorators@), list_nodes(arguments@), x);
            lemma_concat(
                list_nodes(decorators@) + list_nodes(arguments@),
                body_nodes(body@),
                x,
            );
        },
        StmtKind::Assign { targets, value } => {
            lemma_list_nodes(x, targets@);
            lemma_expr_nodes(x, value);
            lemma_concat(list_nodes(targets@), expr_nodes(value), x);
        },
        StmtKind::AnnAssign { target, initial, .. } => {
            lemma_expr_nodes(x, target);
            lemma_option_nodes(x, initial);
            lemma_concat(expr_nodes(target), option_nodes(initial), x);
        },
        StmtKind::AugAssign { target } => {
            lemma_expr_nodes(x, target);
        },
        StmtKind::For { target, body, orelse } => {
            lemma_expr_nodes(x, target);
            lemma_body_nodes(x, body@);
            lemma_body_nodes(x, orelse@);
            lemma_concat(expr_nodes(target), body_nodes(body@), x);
            lemma_concat(expr_nodes(target) + body_nodes(body@), body_nodes(orelse@), x);
        },
        StmtKind::With { targets, body } => {
            lemma_list_nodes(x, targets@);
            lemma_body_nodes(x, body@);
            lemma_concat(list_nodes(targets@), body_nodes(body@), x);
        },
        StmtKind::If { body, clauses } => {
            lemma_body_nodes(x, body@);
            lemma_clause_nodes(x, clauses@);
            lemma_concat(body_nodes(body@), clause_nodes(clauses@), x);
        },
        StmtKind::Try { body, orelse, finalbody } => {
            lemma_body_nodes(x, body@);
            lemma_body_nodes(x, orelse@);
            lemma_body_nodes(x, finalbody@);
            lemma_concat(body_nodes(body@), body_nodes(orelse@), x);
            lemma_concat(body_nodes(body@) + body_nodes(orelse@), body_nodes(finalbody@), x);
        },
        StmtKind::Expr { value } => {
            lemma_expr_nodes(x, value);
        },
        StmtKind::Other => {},
    }
}

pub proof fn lemma_body_nodes(x: Expr, body: Seq<Stmt>)
    ensures
        body_nodes(body).contains(x) <==> in_body(x, body),
    decreases body,
{
    if body.len() > 0 {
        let shorter = body.drop_last();
        let last = body.len() - 1;
        lemma_body_nodes(x, shorter);
        lemma_stmt_nodes(x, body.last());
        lemma_concat(body_nodes(shorter), stmt_nodes(body.last()), x);
        if in_body(x, shorter) {
            let i = choose|i: int| 0 <= i < shorter.len() && in_stmt(x, #[trigger] shorter[i]);
            assert(in_stmt(x, body[i]));
        }
        if in_stmt(x, body.last()) {
            assert(in_stmt(x, body[last]));
        }
        if in_body(x, body) {
            let i = choose|i: int| 0 <= i < body.len() && in_stmt(x, #[trigger] body[i]);
            if i < last {
                assert(in_stmt(x, shorter[i]));
            }
        }
    }
}

proof fn lemma_clause_nodes(x: Expr, list: Seq<Clause>)
    ensures
        clause_nodes(list).contains(x) <==> exists|k: int, i: int|
            0 <= k < list.len() && 0 <= i < list[k].body@.len() && in_stmt(x, #[trigger] list[k].body@[i]),
    decreases list,
{
    if list.len() > 0 {
        let shorter = list.drop_last();
        let last = list.len() - 1;
        lemma_clause_nodes(x, shorter);
        lemma_body_nodes(x, list.last().body@);
        lemma_concat(clause_nodes(shorter), body_nodes(list.last().body@), x);
        if clause_nodes(shorter).contains(x) {
            let (k, i) = choose|k: int, i: int|
                0 <= k < shorter.len() && 0 <= i < shorter[k].body@.len() && in_stmt(x, #[trigger] shorter[k].body@[i]);
            assert(in_stmt(x, list[k].body@[i]));
        }
        if in_body(x, list.last().body@) {
            let i = choose|i: int|
                0 <= i < list.last().body@.len() && in_stmt(x, #[trigger] list.last().body@[i]);
            assert(in_stmt(x, list[last].body@[i]));
        }
        if exists|k: int, i: int|
            0 <= k < list.len() && 0 <= i < list[k].body@.len() && in_stmt(x, #[trigger] list[k].body@[i]) {
            let (k, i) = choose|k: int, i: int|
                0 <= k < list.len() && 0 <= i < list[k].body@.len() && in_stmt(x, #[trigger] list[k].body@[i]);
            if k < last {
                assert(in_stmt(x, shorter[k].body@[i]));
            } else {
                assert(in_stmt(x, list.last().body@[i]));
            }
        }
    }
}

/// Whether assigning to `target` binds the name `n`.
pub open spec fn target_binds(target: Expr, n: Seq<char>) -> bool
    decreases target,
{
    match target {
        Expr::Name { id, .. } => id@ == n,
        Expr::Tuple { elts } => exists|i: int|
            0 <= i < elts@.len() && target_binds(#[trigger] elts@[i], n),
        Expr::List { elts } => exists|i: int|
            0 <= i < elts@.len() && target_binds(#[trigger] elts@[i], n),
        _ => false,
    }
}

pub open spec fn some_target_binds(targets: Seq<Expr>, n: Seq<char>) -> bool {
    exists|i: int| 0 <= i < targets.len() && target_binds(#[trigger] targets[i], n)
}

/// Whether an alias of `import` binds `n`: as its new name, or as what stands before the first
/// dot of the module path.
pub open spec fn import_binds(alias: Alias, n: Seq<char>) -> bool {
    match alias.asname {
        Some(asname) => asname@ == n,
        None => !n.contains('.') && (alias.name@ == n || n.push('.').is_prefix_of(alias.name@)),
    }
}

/// Whether an alias of `from ... import` binds `n`: as its new name, or as it is.
pub open spec fn from_import_binds(alias: Alias, n: Seq<char>) -> bool {
    alias.name@ != seq!['*'] && match alias.asname {
        Some(asname) => asname@ == n,
        None => alias.name@ == n,
    }
}

/// Whether a statement binds the name `n` in the scope that it stands in.
pub open spec fn stmt_binds(kind: StmtKind, n: Seq<char>) -> bool
    decreases kind,
{
    match kind {
        StmtKind::Assign { targets, .. } => some_target_binds(targets@, n),
        StmtKind::AnnAssign { target, .. } => target_binds(target, n),
        StmtKind::AugAssign { target } => target_binds(target, n),
        StmtKind::For { target, body, orelse } => target_binds(target, n) || (exists|i: int|
            0 <= i < body@.len() && stmt_binds((#[trigger] body@[i]).kind, n)) || (exists|i: int|
            0 <= i < orelse@.len() && stmt_binds((#[trigger] orelse@[i]).kind, n)),
        StmtKind::With { targets, body } => some_target_binds(targets@, n) || (exists|i: int|
            0 <= i < body@.len() && stmt_binds((#[trigger] body@[i]).kind, n)),
        StmtKind::FunctionDef { name, .. } => name@ == n,
        StmtKind::ClassDef { name, .. } => name@ == n,
        StmtKind::Import { names } => exists|i: int|
            0 <= i < names@.len() && #[trigger] import_binds(names@[i], n),
        StmtKind::ImportFrom { names, .. } => exists|i: int|
            0 <= i < names@.len() && #[trigger] from_import_binds(names@[i], n),
        StmtKind::If { body, clauses } => (exists|i: int|
            0 <= i < body@.len() && stmt_binds((#[trigger] body@[i]).kind, n)) || (exists|
            k: int,
            i: int,
        |
            0 <= k < clauses@.len() && 0 <= i < clauses@[k].body@.len() && stmt_binds((#[trigger] clauses@[k].body@[i]).kind, n)),
        StmtKind::Try { body, orelse, finalbody } => (exists|i: int|
            0 <= i < body@.len() && stmt_binds((#[trigger] body@[i]).kind, n)) || (exists|i: int|
            0 <= i < orelse@.len() && stmt_binds((#[trigger] orelse@[i]).kind, n)) || (exists|
            i: int,
        |
            0 <= i < finalbody@.len() && stmt_binds((#[trigger] finalbody@[i]).kind, n)),
        StmtKind::Expr { .. } => false,
        StmtKind::Other => false,
    }
}

/// Whether some statement of a body binds `n`.
pub open spec fn body_binds(body: Seq<Stmt>, n: Seq<char>) -> bool {
    exists|i: int| 0 <= i < body.len() && stmt_binds((#[trigger] body[i]).kind, n)
}

proof fn lemma_target_names(target: Expr, n: Seq<char>)
    ensures
        target_names(target).contains(n) <==> target_binds(target, n),
    decreases target,
{
    match target {
        Expr::Tuple { elts } => {
            lemma_targets_names(elts@, n);
        },
        Expr::List { elts } => {
            lemma_targets_names(elts@, n);
        },
        _ => {},
    }
}

proof fn lemma_targets_names(list: Seq<Expr>, n: Seq<char>)
    ensures
        targets_names(list).contains(n) <==> some_target_binds(list, n),
    decreases list,
{
    if list.len() > 0 {
        let shorter = list.drop_last();
        let last = list.len() - 1;
        lemma_targets_names(shorter, n);
        lemma_target_names(list.last(), n);
        if some_target_binds(shorter, n) {
            let i = choose|i: int|
                0 <= i < shorter.len() && target_binds(#[trigger] shorter[i], n);
            assert(target_binds(list[i], n));
        }
        if target_binds(list.last(), n) {
            assert(target_binds(list[last], n));
        }
        if some_target_binds(list, n) {
            let i = choose|i: int| 0 <= i < list.len() && target_binds(#[trigger] list[i], n);
            if i < last {
                assert(target_binds(shorter[i], n));
            }
        }
    }
}

/// What stands before the first dot of a path is the path itself where there is none, and is
/// otherwise followed by a dot in it.
pub proof fn lemma_import_binding(alias: Alias, n: Seq<char>)
    ensures
        import_binding(alias) == n <==> import_binds(alias, n),
{
    let path = alias.name@;
    lemma_first_index(path, '.');
    let i = first_index(path, '.');
    let head = before_first(path, '.');
    assert(!head.contains('.'));
    if alias.asname is None {
        if head == n {
            if i < path.len() {
                assert(n.push('.') =~= path.take(i + 1));
            } else {
                assert(head =~= path);
            }
        }
        if import_binds(alias, n) {
            if path == n {
                assert(i == path.len());
                assert(head =~= n);
            } else {
                let m = n.len() as int;
                assert(n.push('.')[m] == path[m]);
                assert(path[m] == '.');
                assert(i <= m);
                if i < m {
                    assert(n.push('.')[i] == path[i]);
                    assert(n[i] == '.');
                    assert(n.contains('.'));
                }
                assert(head =~= n);
            }
        }
    }
}

pub proof fn lemma_is_star(alias: Alias)
    ensures
        is_star(alias) <==> alias.name@ == seq!['*'],
{
    reveal_strlit("*");
    assert("*"@ =~= seq!['*']);
}

/// The names that a body binds are those that its statements bind: by assignments, loops, `with`,
/// definitions and imports, also inside conditionals, loops and `try`, but not inside other
/// scopes.
pub proof fn lemma_bound_names(body: Seq<Stmt>, n: Seq<char>)
    ensures
        bound_names(body).contains(n) <==> body_binds(body, n),
    decreases body,
{
    if body.len() > 0 {
        let shorter = body.drop_last();
        let last = body.len() - 1;
        lemma_bound_names(shorter, n);
        lemma_bound_by(body.last().kind, n);
        if body_binds(shorter, n) {
            let i = choose|i: int|
                0 <= i < shorter.len() && stmt_binds((#[trigger] shorter[i]).kind, n);
            assert(stmt_binds(body[i].kind, n));
        }
        if stmt_binds(body.last().kind, n) {
            assert(stmt_binds(body[last].kind, n));
        }
        if body_binds(body, n) {
            let i = choose|i: int| 0 <= i < body.len() && stmt_binds((#[trigger] body[i]).kind, n);
            if i < last {
                assert(stmt_binds(shorter[i].kind, n));
            }
        }
    }
}

proof fn lemma_bound_by(kind: StmtKind, n: Seq<char>)
    ensures
        bound_by(kind).contains(n) <==> stmt_binds(kind, n),
    decreases kind,
{
    match kind {
        StmtKind::Assign { targets, .. } => {
            lemma_targets_names(targets@, n);
        },
        StmtKind::AnnAssign { target, .. } => {
            lemma_target_names(target, n);
        },
        StmtKind::AugAssign { target } => {
            lemma_target_names(target, n);
        },
        StmtKind::For { target, body, orelse } => {
            lemma_target_names(target, n);
            lemma_bound_names(body@, n);
            lemma_bound_names(orelse@, n);
        },
        StmtKind::With { targets, body } => {
            lemma_targets_names(targets@, n);
            lemma_bound_names(body@, n);
        },
        StmtKind::Import { names } => {
            assert forall|i: int| 0 <= i < names@.len() implies (import_binding(
                #[trigger] names@[i],
            ) == n <==> import_binds(names@[i], n)) by {
                lemma_import_binding(names@[i], n);
            }
            if bound_by(kind).contains(n) {
                let i = choose|i: int|
                    0 <= i < names@.len() && import_binding(#[trigger] names@[i]) == n;
                assert(import_binds(names@[i], n));
            }
        },
        StmtKind::ImportFrom { names, .. } => {
            assert forall|i: int| 0 <= i < names@.len() implies (is_star(#[trigger] names@[i])
                <==> names@[i].name@ == seq!['*']) by {
                lemma_is_star(names@[i]);
            }
            if bound_by(kind).contains(n) {
                let i = choose|i: int|
                    0 <= i < names@.len() && !is_star(#[trigger] names@[i]) && from_import_binding(
                        names@[i],
                    ) == n;
                assert(from_import_binds(names@[i], n));
            }
            if stmt_binds(kind, n) {
                let i = choose|i: int|
                    0 <= i < names@.len() && #[trigger] from_import_binds(names@[i], n);
                assert(!is_star(names@[i]));
                assert(from_import_binding(names@[i]) == n);
            }
        },
        StmtKind::If { body, clauses } => {
            lemma_bound_names(body@, n);
            lemma_clause_names(clauses@, n);
        },
        StmtKind::Try { body, orelse, finalbody } => {
            lemma_bound_names(body@, n);
            lemma_bound_names(orelse@, n);
            lemma_bound_names(finalbody@, n);
        },
        _ => {},
    }
}

proof fn lemma_clause_names(list: Seq<Clause>, n: Seq<char>)
    ensures
        clause_names(list).contains(n) <==> exists|k: int, i: int|
            0 <= k < list.len() && 0 <= i < list[k].body@.len() && stmt_binds((#[trigger] list[k].body@[i]).kind, n),
    decreases list,
{
    if list.len() > 0 {
        let shorter = list.drop_last();
        let last = list.len() - 1;
        lemma_clause_names(shorter, n);
        lemma_bound_names(list.last().body@, n);
        if clause_names(shorter).contains(n) {
            let (k, i) = choose|k: int, i: int|
                0 <= k < shorter.len() && 0 <= i < shorter[k].body@.len() && stmt_binds((#[trigger] shorter[k].body@[i]).kind, n);
            assert(stmt_binds(list[k].body@[i].kind, n));
        }
        if body_binds(list.last().body@, n) {
            let i = choose|i: int|
                0 <= i < list.last().body@.len() && stmt_binds((#[trigger] list.last().body@[i]).kind, n);
            assert(stmt_binds(list[last].body@[i].kind, n));
        }
        if exists|k: int, i: int|
            0 <= k < list.len() && 0 <= i < list[k].body@.len() && stmt_binds((#[trigger] list[k].body@[i]).kind, n) {
            let (k, i) = choose|k: int, i: int|
                0 <= k < list.len() && 0 <= i < list[k].body@.len() && stmt_binds((#[trigger] list[k].body@[i]).kind, n);
            if k < last {
                assert(stmt_binds(shorter[k].body@[i].kind, n));
            } else {
                assert(stmt_binds(list.last().body@[i].kind, n));
            }
        }
    }
}

} // verus!
