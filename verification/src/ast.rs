//! The parts of a Python syntax tree that the analysis reads.

use vstd::prelude::*;

verus! {

/// How an expression is used where it occurs.
#[derive(Clone, Copy, Debug, PartialEq, Eq, Structural)]
pub enum ExprContext {
    Load,
    Store,
    Del,
    Invalid,
}

/// An argument passed by keyword; `arg` is absent for `**` arguments.
#[derive(Debug)]
pub struct Keyword {
    pub arg: Option<String>,
    pub value: Expr,
}

/// An expression.
#[derive(Debug)]
pub enum Expr {
    Name { id: String, ctx: ExprContext },
    Attribute { value: Box<Expr>, attr: String, ctx: ExprContext },
    Call { func: Box<Expr>, args: Vec<Expr>, keywords: Vec<Keyword> },
    StringLiteral { text: String },
    List { elts: Vec<Expr> },
    Tuple { elts: Vec<Expr> },
    /// Any other expression, with the expressions directly inside it.
    Other { children: Vec<Expr> },
}

/// A name in an import statement.
#[derive(Debug)]
pub struct Alias {
    pub name: String,
    pub asname: Option<String>,
}

/// A parameter of a function.
#[derive(Debug)]
pub struct Parameter {
    pub name: String,
    pub annotation: Option<Expr>,
    pub default: Option<Expr>,
}

/// What a statement does, as far as the analysis looks into it.
#[derive(Debug)]
pub enum StmtKind {
    Import { names: Vec<Alias> },
    ImportFrom { module: Option<String>, level: u32, names: Vec<Alias> },
    FunctionDef {
        name: String,
        decorators: Vec<Expr>,
        parameters: Vec<Parameter>,
        return_type: Option<Expr>,
        body: Vec<Stmt>,
    },
    ClassDef { name: String, decorators: Vec<Expr>, arguments: Vec<Expr>, body: Vec<Stmt> },
    Assign { targets: Vec<Expr>, value: Expr },
    AnnAssign { target: Expr, initial: Option<Expr>, simple: bool },
    AugAssign { target: Expr },
    For { target: Expr, body: Vec<Stmt>, orelse: Vec<Stmt> },
    With { targets: Vec<Expr>, body: Vec<Stmt> },
    If { body: Vec<Stmt>, clauses: Vec<Clause> },
    Try { body: Vec<Stmt>, orelse: Vec<Stmt>, finalbody: Vec<Stmt> },
    Expr { value: Expr },
    Other,
}

/// The body of an `elif` or `else` clause.
#[derive(Debug)]
pub struct Clause {
    pub body: Vec<Stmt>,
}

/// A statement.
#[derive(Debug)]
pub struct Stmt {
    /// The byte offset at which the statement starts.
    pub offset: u32,
    pub kind: StmtKind,
    /// The expressions directly inside the statement that `kind` does not hold.
    pub expressions: Vec<Expr>,
    /// The statements directly inside the statement that `kind` does not hold.
    pub nested: Vec<Stmt>,
}

/// An expression and all expressions inside it.
pub open spec fn expr_nodes(expr: Expr) -> Seq<Expr>
    decreases expr,
{
    seq![expr] + match expr {
        Expr::Name { .. } => Seq::empty(),
        Expr::Attribute { value, .. } => expr_nodes(*value),
        Expr::Call { func, args, keywords } => expr_nodes(*func) + list_nodes(args@)
            + keyword_nodes(keywords@),
        Expr::StringLiteral { .. } => Seq::empty(),
        Expr::List { elts } => list_nodes(elts@),
        Expr::Tuple { elts } => list_nodes(elts@),
        Expr::Other { children } => list_nodes(children@),
    }
}

/// The expressions of a list and all expressions inside them.
pub open spec fn list_nodes(list: Seq<Expr>) -> Seq<Expr>
    decreases list,
{
    if list.len() == 0 {
        Seq::empty()
    } else {
        list_nodes(list.drop_last()) + expr_nodes(list.last())
    }
}

pub open spec fn keyword_nodes(list: Seq<Keyword>) -> Seq<Expr>
    decreases list,
{
    if list.len() == 0 {
        Seq::empty()
    } else {
        keyword_nodes(list.drop_last()) + expr_nodes(list.last().value)
    }
}

pub open spec fn option_nodes(expr: Option<Expr>) -> Seq<Expr>
    decreases expr,
{
    match expr {
        Some(e) => expr_nodes(e),
        None => Seq::empty(),
    }
}

pub open spec fn parameter_nodes(list: Seq<Parameter>) -> Seq<Expr>
    decreases list,
{
    if list.len() == 0 {
        Seq::empty()
    } else {
        parameter_nodes(list.drop_last()) + option_nodes(list.last().annotation) + option_nodes(
            list.last().default,
        )
    }
}

/// The expressions in a function's decorators, parameters and return annotation.
pub open spec fn signature_nodes(
    decorators: Seq<Expr>,
    parameters: Seq<Parameter>,
    return_type: Option<Expr>,
) -> Seq<Expr> {
    list_nodes(decorators) + parameter_nodes(parameters) + option_nodes(return_type)
}

/// All expressions in a statement.
pub open spec fn stmt_nodes(stmt: Stmt) -> Seq<Expr>
    decreases stmt,
{
    kind_nodes(stmt.kind) + list_nodes(stmt.expressions@) + body_nodes(stmt.nested@)
}

pub open spec fn kind_nodes(kind: StmtKind) -> Seq<Expr>
    decreases kind,
{
    match kind {
        StmtKind::Import { .. } => Seq::empty(),
        StmtKind::ImportFrom { .. } => Seq::empty(),
        StmtKind::FunctionDef { decorators, parameters, return_type, body, .. } => signature_nodes(
            decorators@,
            parameters@,
            return_type,
        ) + body_nodes(body@),
        StmtKind::ClassDef { decorators, arguments, body, .. } => list_nodes(decorators@)
            + list_nodes(arguments@) + body_nodes(body@),
        StmtKind::Assign { targets, value } => list_nodes(targets@) + expr_nodes(value),
        StmtKind::AnnAssign { target, initial, .. } => expr_nodes(target) + option_nodes(initial),
        StmtKind::AugAssign { target } => expr_nodes(target),
        StmtKind::For { target, body, orelse } => expr_nodes(target) + body_nodes(body@)
            + body_nodes(orelse@),
        StmtKind::With { targets, body } => list_nodes(targets@) + body_nodes(body@),
        StmtKind::If { body, clauses } => body_nodes(body@) + clause_nodes(clauses@),
        StmtKind::Try { body, orelse, finalbody } => body_nodes(body@) + body_nodes(orelse@)
            + body_nodes(finalbody@),
        StmtKind::Expr { value } => expr_nodes(value),
        StmtKind::Other => Seq::empty(),
    }
}

/// All expressions in a list of statements.
pub open spec fn body_nodes(body: Seq<Stmt>) -> Seq<Expr>
    decreases body,
{
    if body.len() == 0 {
        Seq::empty()
    } else {
        body_nodes(body.drop_last()) + stmt_nodes(body.last())
    }
}

pub open spec fn clause_nodes(list: Seq<Clause>) -> Seq<Expr>
    decreases list,
{
    if list.len() == 0 {
        Seq::empty()
    } else {
        clause_nodes(list.drop_last()) + body_nodes(list.last().body@)
    }
}

/// The expressions behind a list of references.
pub open spec fn targets_of(list: Seq<&Expr>) -> Seq<Expr> {
    list.map_values(|e: &Expr| *e)
}

pub fn push_expr_nodes<'a>(expr: &'a Expr, out: &mut Vec<&'a Expr>)
    ensures
        targets_of(final(out)@) == targets_of(old(out)@) + expr_nodes(*expr),
    decreases *expr,
{
    let ghost start = targets_of(out@);
    out.push(expr);
    assert(targets_of(out@) =~= start + seq![*expr]);
    match expr {
        Expr::Name { .. } => {},
        Expr::Attribute { value, .. } => {
            push_expr_nodes(value, out);
        },
        Expr::Call { func, args, keywords } => {
            push_expr_nodes(func, out);
            push_list_nodes(args, out);
            push_keyword_nodes(keywords, out);
        },
        Expr::StringLiteral { .. } => {},
        Expr::List { elts } => {
            push_list_nodes(elts, out);
        },
        Expr::Tuple { elts } => {
            push_list_nodes(elts, out);
        },
        Expr::Other { children } => {
            push_list_nodes(children, out);
        },
    }
    assert(targets_of(out@) =~= start + expr_nodes(*expr));
}

pub fn push_list_nodes<'a>(list: &'a Vec<Expr>, out: &mut Vec<&'a Expr>)
    ensures
        targets_of(final(out)@) == targets_of(old(out)@) + list_nodes(list@),
    decreases list@,
{
    let ghost start = targets_of(out@);
    let mut i: usize = 0;
    assert(targets_of(out@) =~= start + list_nodes(list@.take(0)));
    while i < list.len()
        invariant
            i <= list@.len(),
            targets_of(out@) == start + list_nodes(list@.take(i as int)),
        decreases list@.len() - i,
    {
        push_expr_nodes(&list[i], out);
        assert(list@.take(i + 1).drop_last() =~= list@.take(i as int));
        assert(targets_of(out@) =~= start + list_nodes(list@.take(i + 1)));
        i += 1;
    }
    assert(list@.take(i as int) =~= list@);
}

fn push_keyword_nodes<'a>(list: &'a Vec<Keyword>, out: &mut Vec<&'a Expr>)
    ensures
        targets_of(final(out)@) == targets_of(old(out)@) + keyword_nodes(list@),
    decreases list@,
{
    let ghost start = targets_of(out@);
    let mut i: usize = 0;
    assert(targets_of(out@) =~= start + keyword_nodes(list@.take(0)));
    while i < list.len()
        invariant
            i <= list@.len(),
            targets_of(out@) == start + keyword_nodes(list@.take(i as int)),
        decreases list@.len() - i,
    {
        push_expr_nodes(&list[i].value, out);
        assert(list@.take(i + 1).drop_last() =~= list@.take(i as int));
        assert(targets_of(out@) =~= start + keyword_nodes(list@.take(i + 1)));
        i += 1;
    }
    assert(list@.take(i as int) =~= list@);
}

fn push_option_nodes<'a>(expr: &'a Option<Expr>, out: &mut Vec<&'a Expr>)
    ensures
        targets_of(final(out)@) == targets_of(old(out)@) + option_nodes(*expr),
{
    let ghost start = targets_of(out@);
    match expr {
        Some(e) => {
            push_expr_nodes(e, out);
        },
        None => {
            assert(start + Seq::<Expr>::empty() =~= start);
        },
    }
}

fn push_parameter_nodes<'a>(list: &'a Vec<Parameter>, out: &mut Vec<&'a Expr>)
    ensures
        targets_of(final(out)@) == targets_of(old(out)@) + parameter_nodes(list@),
    decreases list@,
{
    let ghost start = targets_of(out@);
    let mut i: usize = 0;
    assert(targets_of(out@) =~= start + parameter_nodes(list@.take(0)));
    while i < list.len()
        invariant
            i <= list@.len(),
            targets_of(out@) == start + parameter_nodes(list@.take(i as int)),
        decreases list@.len() - i,
    {
        push_option_nodes(&list[i].annotation, out);
        push_option_nodes(&list[i].default, out);
        assert(list@.take(i + 1).drop_last() =~= list@.take(i as int));
        assert(targets_of(out@) =~= start + parameter_nodes(list@.take(i + 1)));
        i += 1;
    }
    assert(list@.take(i as int) =~= list@);
}

pub fn push_signature_nodes<'a>(
    decorators: &'a Vec<Expr>,
    parameters: &'a Vec<Parameter>,
    return_type: &'a Option<Expr>,
    out: &mut Vec<&'a Expr>,
)
    ensures
        targets_of(final(out)@) == targets_of(old(out)@) + signature_nodes(
            decorators@,
            parameters@,
            *return_type,
        ),
{
    let ghost start = targets_of(out@);
    push_list_nodes(decorators, out);
    push_parameter_nodes(parameters, out);
    push_option_nodes(return_type, out);
    assert(targets_of(out@) =~= start + signature_nodes(decorators@, parameters@, *return_type));
}

pub fn push_stmt_nodes<'a>(stmt: &'a Stmt, out: &mut Vec<&'a Expr>)
    ensures
        targets_of(final(out)@) == targets_of(old(out)@) + stmt_nodes(*stmt),
    decreases *stmt,
{
    let ghost start = targets_of(out@);
    push_kind_nodes(&stmt.kind, out);
    push_list_nodes(&stmt.expressions, out);
    push_body_nodes(&stmt.nested, out);
    assert(targets_of(out@) =~= start + stmt_nodes(*stmt));
}

fn push_kind_nodes<'a>(kind: &'a StmtKind, out: &mut Vec<&'a Expr>)
    ensures
        targets_of(final(out)@) == targets_of(old(out)@) + kind_nodes(*kind),
    decreases *kind,
{
    let ghost start = targets_of(out@);
    match kind {
        StmtKind::Import { .. } => {},
        StmtKind::ImportFrom { .. } => {},
        StmtKind::FunctionDef { decorators, parameters, return_type, body, .. } => {
            push_signature_nodes(decorators, parameters, return_type, out);
            push_body_nodes(body, out);
        },
        StmtKind::ClassDef { decorators, arguments, body, .. } => {
            push_list_nodes(decorators, out);
            push_list_nodes(arguments, out);
            push_body_nodes(body, out);
        },
        StmtKind::Assign { targets, value } => {
            push_list_nodes(targets, out);
            push_expr_nodes(value, out);
        },
        StmtKind::AnnAssign { target, initial, .. } => {
            push_expr_nodes(target, out);
            push_option_nodes(initial, out);
        },
        StmtKind::AugAssign { target } => {
            push_expr_nodes(target, out);
        },
        StmtKind::For { target, body, orelse } => {
            push_expr_nodes(target, out);
            push_body_nodes(body, out);
            push_body_nodes(orelse, out);
        },
        StmtKind::With { targets, body } => {
            push_list_nodes(targets, out);
            push_body_nodes(body, out);
        },
        StmtKind::If { body, clauses } => {
            push_body_nodes(body, out);
            push_clause_nodes(clauses, out);
        },
        StmtKind::Try { body, orelse, finalbody } => {
            push_body_nodes(body, out);
            push_body_nodes(orelse, out);
            push_body_nodes(finalbody, out);
        },
        StmtKind::Expr { value } => {
            push_expr_nodes(value, out);
        },
        StmtKind::Other => {},
    }
    assert(targets_of(out@) =~= start + kind_nodes(*kind));
}

pub fn push_body_nodes<'a>(list: &'a Vec<Stmt>, out: &mut Vec<&'a Expr>)
    ensures
        targets_of(final(out)@) == targets_of(old(out)@) + body_nodes(list@),
    decreases list@,
{
    let ghost start = targets_of(out@);
    let mut i: usize = 0;
    assert(targets_of(out@) =~= start + body_nodes(list@.take(0)));
    while i < list.len()
        invariant
            i <= list@.len(),
            targets_of(out@) == start + body_nodes(list@.take(i as int)),
        decreases list@.len() - i,
    {
        push_stmt_nodes(&list[i], out);
        assert(list@.take(i + 1).drop_last() =~= list@.take(i as int));
        assert(targets_of(out@) =~= start + body_nodes(list@.take(i + 1)));
        i += 1;
    }
    assert(list@.take(i as int) =~= list@);
}

fn push_clause_nodes<'a>(list: &'a Vec<Clause>, out: &mut Vec<&'a Expr>)
    ensures
        targets_of(final(out)@) == targets_of(old(out)@) + clause_nodes(list@),
    decreases list@,
{
    let ghost start = targets_of(out@);
    let mut i: usize = 0;
    assert(targets_of(out@) =~= start + clause_nodes(list@.take(0)));
    while i < list.len()
        invariant
            i <= list@.len(),
            targets_of(out@) == start + clause_nodes(list@.take(i as int)),
        decreases list@.len() - i,
    {
        push_body_nodes(&list[i].body, out);
        assert(list@.take(i + 1).drop_last() =~= list@.take(i as int));
        assert(targets_of(out@) =~= start + clause_nodes(list@.take(i + 1)));
        i += 1;
    }
    assert(list@.take(i as int) =~= list@);
}

} // verus!
