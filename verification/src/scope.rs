//! The names that a function or class body binds for itself.

use crate::ast::{Alias, Clause, Expr, Parameter, Stmt, StmtKind};
use crate::collections::SortedSet;
use crate::text::{before_first, leading_part, same_text};
use vstd::prelude::*;

verus! {

/// The names that an assignment to `expr` binds.
pub open spec fn target_names(expr: Expr) -> Set<Seq<char>>
    decreases expr,
{
    match expr {
        Expr::Name { id, .. } => set![id@],
        Expr::Tuple { elts } => targets_names(elts@),
        Expr::List { elts } => targets_names(elts@),
        _ => Set::empty(),
    }
}

pub open spec fn targets_names(list: Seq<Expr>) -> Set<Seq<char>>
    decreases list,
{
    if list.len() == 0 {
        Set::empty()
    } else {
        targets_names(list.drop_last()).union(target_names(list.last()))
    }
}

/// The name that `import` binds: the alias, or the first segment of the module path.
pub open spec fn import_binding(alias: Alias) -> Seq<char> {
    match alias.asname {
        Some(asname) => asname@,
        None => before_first(alias.name@, '.'),
    }
}

/// The name that `from ... import` binds: the alias, or the imported name.
pub open spec fn from_import_binding(alias: Alias) -> Seq<char> {
    match alias.asname {
        Some(asname) => asname@,
        None => alias.name@,
    }
}

pub open spec fn is_star(alias: Alias) -> bool {
    alias.name@ == "*"@
}

pub open spec fn import_bindings(names: Seq<Alias>) -> Set<Seq<char>> {
    Set::new(|n: Seq<char>| exists|i: int| 0 <= i < names.len() && import_binding(#[trigger] names[i]) == n)
}

pub open spec fn from_import_bindings(names: Seq<Alias>) -> Set<Seq<char>> {
    Set::new(
        |n: Seq<char>|
            exists|i: int|
                0 <= i < names.len() && !is_star(#[trigger] names[i]) && from_import_binding(names[i])
                    == n,
    )
}

/// The names that a list of statements binds. Function and class bodies, exception handlers and
/// other nested statements are not looked into.
pub open spec fn bound_names(body: Seq<Stmt>) -> Set<Seq<char>>
    decreases body,
{
    if body.len() == 0 {
        Set::empty()
    } else {
        bound_names(body.drop_last()).union(bound_by(body.last().kind))
    }
}

pub open spec fn bound_by(kind: StmtKind) -> Set<Seq<char>>
    decreases kind,
{
    match kind {
        StmtKind::Assign { targets, .. } => targets_names(targets@),
        StmtKind::AnnAssign { target, .. } => target_names(target),
        StmtKind::AugAssign { target } => target_names(target),
        StmtKind::For { target, body, orelse } => target_names(target).union(
            bound_names(body@),
        ).union(bound_names(orelse@)),
        StmtKind::With { targets, body } => targets_names(targets@).union(bound_names(body@)),
        StmtKind::FunctionDef { name, .. } => set![name@],
        StmtKind::ClassDef { name, .. } => set![name@],
        StmtKind::Import { names } => import_bindings(names@),
        StmtKind::ImportFrom { names, .. } => from_import_bindings(names@),
        StmtKind::If { body, clauses } => bound_names(body@).union(clause_names(clauses@)),
        StmtKind::Try { body, orelse, finalbody } => bound_names(body@).union(
            bound_names(orelse@),
        ).union(bound_names(finalbody@)),
        StmtKind::Expr { .. } => Set::empty(),
        StmtKind::Other => Set::empty(),
    }
}

pub open spec fn clause_names(list: Seq<Clause>) -> Set<Seq<char>>
    decreases list,
{
    if list.len() == 0 {
        Set::empty()
    } else {
        clause_names(list.drop_last()).union(bound_names(list.last().body@))
    }
}

pub open spec fn parameter_names(list: Seq<Parameter>) -> Set<Seq<char>> {
    Set::new(|n: Seq<char>| exists|i: int| 0 <= i < list.len() && (#[trigger] list[i]).name@ == n)
}

/// The name that `import` binds for `alias`.
pub fn bound_module_name(alias: &Alias) -> (name: String)
    ensures
        name@ == import_binding(*alias),
{
    match &alias.asname {
        Some(asname) => asname.clone(),
        None => leading_part(alias.name.as_str(), '.').to_string(),
    }
}

/// The name that `from ... import` binds for `alias`.
pub fn bound_member_name(alias: &Alias) -> (name: String)
    ensures
        name@ == from_import_binding(*alias),
{
    match &alias.asname {
        Some(asname) => asname.clone(),
        None => alias.name.clone(),
    }
}

pub fn collect_expr_bound_names(expr: &Expr, names: &mut SortedSet<String>)
    ensures
        final(names)@ == old(names)@.union(target_names(*expr)),
    decreases *expr,
{
    let ghost start = names@;
    match expr {
        Expr::Name { id, .. } => {
            names.insert(id.clone());
        },
        Expr::Tuple { elts } => {
            collect_target_names(elts, names);
        },
        Expr::List { elts } => {
            collect_target_names(elts, names);
        },
        _ => {},
    }
    assert(names@ =~= start.union(target_names(*expr)));
}

fn collect_target_names(list: &Vec<Expr>, names: &mut SortedSet<String>)
    ensures
        final(names)@ == old(names)@.union(targets_names(list@)),
    decreases list@,
{
    let ghost start = names@;
    let mut i: usize = 0;
    assert(names@ =~= start.union(targets_names(list@.take(0))));
    while i < list.len()
        invariant
            i <= list@.len(),
            names@ == start.union(targets_names(list@.take(i as int))),
        decreases list@.len() - i,
    {
        collect_expr_bound_names(&list[i], names);
        assert(list@.take(i + 1).drop_last() =~= list@.take(i as int));
        assert(names@ =~= start.union(targets_names(list@.take(i + 1))));
        i += 1;
    }
    assert(list@.take(i as int) =~= list@);
}

pub fn collect_statement_bound_names(body: &Vec<Stmt>, names: &mut SortedSet<String>)
    ensures
        final(names)@ == old(names)@.union(bound_names(body@)),
    decreases body@,
{
    let ghost start = names@;
    let mut i: usize = 0;
    assert(names@ =~= start.union(bound_names(body@.take(0))));
    while i < body.len()
        invariant
            i <= body@.len(),
            names@ == start.union(bound_names(body@.take(i as int))),
        decreases body@.len() - i,
    {
        collect_kind_bound_names(&body[i].kind, names);
        assert(body@.take(i + 1).drop_last() =~= body@.take(i as int));
        assert(names@ =~= start.union(bound_names(body@.take(i + 1))));
        i += 1;
    }
    assert(body@.take(i as int) =~= body@);
}

fn collect_kind_bound_names(kind: &StmtKind, names: &mut SortedSet<String>)
    ensures
        final(names)@ == old(names)@.union(bound_by(*kind)),
    decreases *kind,
{
    let ghost start = names@;
    match kind {
        StmtKind::Assign { targets, .. } => {
            collect_target_names(targets, names);
        },
        StmtKind::AnnAssign { target, .. } => {
            collect_expr_bound_names(target, names);
        },
        StmtKind::AugAssign { target } => {
            collect_expr_bound_names(target, names);
        },
        StmtKind::For { target, body, orelse } => {
            collect_expr_bound_names(target, names);
            collect_statement_bound_names(body, names);
            collect_statement_bound_names(orelse, names);
        },
        StmtKind::With { targets, body } => {
            collect_target_names(targets, names);
            collect_statement_bound_names(body, names);
        },
        StmtKind::FunctionDef { name, .. } => {
            names.insert(name.clone());
        },
        StmtKind::ClassDef { name, .. } => {
            names.insert(name.clone());
        },
        StmtKind::Import { names: aliases } => {
            collect_import_names(aliases, names);
        },
        StmtKind::ImportFrom { names: aliases, .. } => {
            collect_from_import_names(aliases, names);
        },
        StmtKind::If { body, clauses } => {
            collect_statement_bound_names(body, names);
            collect_clause_names(clauses, names);
        },
        StmtKind::Try { body, orelse, finalbody } => {
            collect_statement_bound_names(body, names);
            collect_statement_bound_names(orelse, names);
            collect_statement_bound_names(finalbody, names);
        },
        StmtKind::Expr { .. } => {},
        StmtKind::Other => {},
    }
    assert(names@ =~= start.union(bound_by(*kind)));
}

fn collect_clause_names(list: &Vec<Clause>, names: &mut SortedSet<String>)
    ensures
        final(names)@ == old(names)@.union(clause_names(list@)),
    decreases list@,
{
    let ghost start = names@;
    let mut i: usize = 0;
    assert(names@ =~= start.union(clause_names(list@.take(0))));
    while i < list.len()
        invariant
            i <= list@.len(),
            names@ == start.union(clause_names(list@.take(i as int))),
        decreases list@.len() - i,
    {
        collect_statement_bound_names(&list[i].body, names);
        assert(list@.take(i + 1).drop_last() =~= list@.take(i as int));
        assert(names@ =~= start.union(clause_names(list@.take(i + 1))));
        i += 1;
    }
    assert(list@.take(i as int) =~= list@);
}

fn collect_import_names(aliases: &Vec<Alias>, names: &mut SortedSet<String>)
    ensures
        final(names)@ == old(names)@.union(import_bindings(aliases@)),
{
    let ghost start = names@;
    let mut i: usize = 0;
    assert(names@ =~= start.union(import_bindings(aliases@.take(0))));
    while i < aliases.len()
        invariant
            i <= aliases@.len(),
            names@ == start.union(import_bindings(aliases@.take(i as int))),
        decreases aliases@.len() - i,
    {
        names.insert(bound_module_name(&aliases[i]));
        proof {
            let shorter = aliases@.take(i as int);
            let longer = aliases@.take(i + 1);
            assert(longer =~= shorter.push(aliases@[i as int]));
            assert forall|n: Seq<char>|
                import_bindings(longer).contains(n) == (import_bindings(shorter).contains(n) || n
                    == import_binding(aliases@[i as int])) by {
                if import_bindings(shorter).contains(n) {
                    let j = choose|j: int|
                        0 <= j < shorter.len() && import_binding(#[trigger] shorter[j]) == n;
                    assert(longer[j] == shorter[j]);
                }
                assert(longer[i as int] == aliases@[i as int]);
            }
            assert(names@ =~= start.union(import_bindings(longer)));
        }
        i += 1;
    }
    assert(aliases@.take(i as int) =~= aliases@);
}

fn collect_from_import_names(aliases: &Vec<Alias>, names: &mut SortedSet<String>)
    ensures
        final(names)@ == old(names)@.union(from_import_bindings(aliases@)),
{
    let ghost start = names@;
    let mut i: usize = 0;
    assert(names@ =~= start.union(from_import_bindings(aliases@.take(0))));
    while i < aliases.len()
        invariant
            i <= aliases@.len(),
            names@ == start.union(from_import_bindings(aliases@.take(i as int))),
        decreases aliases@.len() - i,
    {
        if !same_text(aliases[i].name.as_str(), "*") {
            names.insert(bound_member_name(&aliases[i]));
        }
        proof {
            let shorter = aliases@.take(i as int);
            let longer = aliases@.take(i + 1);
            assert(longer =~= shorter.push(aliases@[i as int]));
            assert forall|n: Seq<char>|
                from_import_bindings(longer).contains(n) == (from_import_bindings(shorter).contains(
                    n,
                ) || (!is_star(aliases@[i as int]) && n == from_import_binding(
                    aliases@[i as int],
                ))) by {
                if from_import_bindings(shorter).contains(n) {
                    let j = choose|j: int|
                        0 <= j < shorter.len() && !is_star(#[trigger] shorter[j])
                            && from_import_binding(shorter[j]) == n;
                    assert(longer[j] == shorter[j]);
                }
                assert(longer[i as int] == aliases@[i as int]);
            }
            assert(names@ =~= start.union(from_import_bindings(longer)));
        }
        i += 1;
    }
    assert(aliases@.take(i as int) =~= aliases@);
}

/// The names that hide module-level names inside a function.
pub fn collect_function_shadowed_names(parameters: &Vec<Parameter>, body: &Vec<Stmt>) -> (names:
    SortedSet<String>)
    ensures
        names@ == parameter_names(parameters@).union(bound_names(body@)),
{
    let mut names: SortedSet<String> = SortedSet::new();
    let mut i: usize = 0;
    assert(names@ =~= parameter_names(parameters@.take(0)));
    while i < parameters.len()
        invariant
            i <= parameters@.len(),
            names@ == parameter_names(parameters@.take(i as int)),
        decreases parameters@.len() - i,
    {
        names.insert(parameters[i].name.clone());
        proof {
            let shorter = parameters@.take(i as int);
            let longer = parameters@.take(i + 1);
            assert(longer =~= shorter.push(parameters@[i as int]));
            assert forall|n: Seq<char>|
                parameter_names(longer).contains(n) == (parameter_names(shorter).contains(n) || n
                    == parameters@[i as int].name@) by {
                if parameter_names(shorter).contains(n) {
                    let j = choose|j: int|
                        0 <= j < shorter.len() && (#[trigger] shorter[j]).name@ == n;
                    assert(longer[j] == shorter[j]);
                }
                assert(longer[i as int] == parameters@[i as int]);
            }
            assert(names@ =~= parameter_names(longer));
        }
        i += 1;
    }
    assert(parameters@.take(i as int) =~= parameters@);
    collect_statement_bound_names(body, &mut names);
    names
}

/// The names that hide module-level names inside a class body.
pub fn collect_class_shadowed_names(body: &Vec<Stmt>) -> (names: SortedSet<String>)
    ensures
        names@ == bound_names(body@),
{
    let mut names: SortedSet<String> = SortedSet::new();
    collect_statement_bound_names(body, &mut names);
    assert(names@ =~= bound_names(body@));
    names
}

} // verus!
