//! What a module exports, marks as public and refers to, said of its statements.

use crate::ast::{
    body_nodes, list_nodes, signature_nodes, stmt_nodes, Alias, Expr, ExprContext, Parameter, Stmt,
    StmtKind,
};
use crate::collector::{
    contribution, credited_all, decorator_names, definitions, has_public, import_base, inner_scope,
    is_dynamic_stmt, is_string, lists_name, module_code_references, module_model, module_scope,
    registered_all, star_bases, stars, stmt_base, stmt_stars, Contribution, SourceModel,
    SymbolModel,
};
use crate::imports::{module_of_expr, text_of, written_path, ImportModel, TargetModel};
use crate::keys::SymbolId;
use crate::module_laws::{all_name, body_defines, is_bare, lemma_all_name, lemma_local_names};
use crate::path::is_init;
use crate::references::{direct_reference, has_dynamic_call, is_dynamic_call, references_in, Scope};
use crate::scope::{bound_names, parameter_names};
use crate::symbol_laws::lemma_registered_all;
use crate::syntax_laws::{
    body_binds, in_body, in_list, in_option, in_parameters, in_stmt, lemma_body_nodes,
    lemma_bound_names, lemma_is_star, lemma_list_nodes, lemma_signature_nodes, lemma_stmt_nodes,
};
use crate::text::dotted;
use vstd::prelude::*;

verus! {

pub open spec fn is_text(expr: Expr, n: Seq<char>) -> bool {
    match expr {
        Expr::StringLiteral { text } => text@ == n,
        _ => false,
    }
}

/// Whether a list or a tuple holds the string `n`.
pub open spec fn displays(value: Expr, n: Seq<char>) -> bool {
    match value {
        Expr::List { elts } => exists|i: int| 0 <= i < elts@.len() && is_text(
            #[trigger] elts@[i],
            n,
        ),
        Expr::Tuple { elts } => exists|i: int| 0 <= i < elts@.len() && is_text(
            #[trigger] elts@[i],
            n,
        ),
        _ => false,
    }
}

/// Whether a statement assigns to `__all__` a list or a tuple that holds the string `n`.
pub open spec fn stmt_exports(kind: StmtKind, n: Seq<char>) -> bool {
    match kind {
        StmtKind::Assign { targets, value } => displays(value, n) && exists|j: int|
            0 <= j < targets@.len() && is_bare(#[trigger] targets@[j], all_name()),
        StmtKind::AnnAssign { target, initial: Some(value), simple } => simple && is_bare(
            target,
            all_name(),
        ) && displays(value, n),
        _ => false,
    }
}

/// What a module exports is what the lists and tuples hold that it assigns to `__all__`.
pub proof fn lemma_exports(source: SourceModel, body: Seq<Stmt>, n: Seq<char>)
    ensures
        module_model(source, body).exports.contains(n) <==> exists|i: int|
            0 <= i < body.len() && stmt_exports((#[trigger] body[i]).kind, n),
{
    lemma_all_name();
    assert forall|value: Expr| #[trigger] lists_name(value, n) == displays(value, n) by {
        match value {
            Expr::List { elts } => {
                assert(forall|i: int|
                    0 <= i < elts@.len() ==> is_string(#[trigger] elts@[i], n) == is_text(
                        elts@[i],
                        n,
                    ));
            },
            Expr::Tuple { elts } => {
                assert(forall|i: int|
                    0 <= i < elts@.len() ==> is_string(#[trigger] elts@[i], n) == is_text(
                        elts@[i],
                        n,
                    ));
            },
            _ => {},
        }
    }
    assert forall|i: int| 0 <= i < body.len() implies (crate::collector::exports_name(
        (#[trigger] body[i]).kind,
        n,
    ) <==> stmt_exports(body[i].kind, n)) by {
        match body[i].kind {
            StmtKind::Assign { targets, value } => {
                assert(lists_name(value, n) == displays(value, n));
                if crate::collector::names_all(targets@) {
                    let j = choose|j: int|
                        0 <= j < targets@.len() && crate::imports::bare_name(#[trigger] targets@[j])
                            == Some("__all__"@);
                    assert(is_bare(targets@[j], all_name()));
                }
                if stmt_exports(body[i].kind, n) {
                    let j = choose|j: int|
                        0 <= j < targets@.len() && is_bare(#[trigger] targets@[j], all_name());
                    assert(crate::imports::bare_name(targets@[j]) == Some("__all__"@));
                }
            },
            StmtKind::AnnAssign { target, initial: Some(value), simple } => {
                assert(lists_name(value, n) == displays(value, n));
            },
            _ => {},
        }
    }
}

/// Whether the module that is imported from starts at `base` and everything is imported from it.
pub open spec fn stmt_imports_all(source: SourceModel, kind: StmtKind, base: Seq<char>) -> bool {
    match kind {
        StmtKind::ImportFrom { module, level, names } => import_base(
            source.module,
            is_init(source.file),
            text_of(module),
            level as nat,
        ) == Some(base) && exists|j: int|
            0 <= j < names@.len() && (#[trigger] names@[j]).name@ == seq!['*'],
        _ => false,
    }
}

proof fn lemma_star_bases(base: Seq<char>, names: Seq<Alias>)
    ensures
        star_bases(base, names).len() > 0 <==> exists|j: int|
            0 <= j < names.len() && (#[trigger] names[j]).name@ == seq!['*'],
        forall|i: int|
            0 <= i < star_bases(base, names).len() ==> #[trigger] star_bases(base, names)[i]
                == base,
    decreases names.len(),
{
    if names.len() > 0 {
        let shorter = names.drop_last();
        let last = names.len() - 1;
        lemma_star_bases(base, shorter);
        lemma_is_star(names.last());
        assert(names[last] == names.last());
        if exists|j: int| 0 <= j < shorter.len() && (#[trigger] shorter[j]).name@ == seq!['*'] {
            let j = choose|j: int|
                0 <= j < shorter.len() && (#[trigger] shorter[j]).name@ == seq!['*'];
            assert(names[j] == shorter[j]);
        }
        if exists|j: int| 0 <= j < names.len() && (#[trigger] names[j]).name@ == seq!['*'] {
            let j = choose|j: int|
                0 <= j < names.len() && (#[trigger] names[j]).name@ == seq!['*'];
            if j < last {
                assert(shorter[j] == names[j]);
            }
        }
    }
}

proof fn lemma_stmt_stars(source: SourceModel, kind: StmtKind, base: Seq<char>)
    ensures
        stmt_stars(source, kind).contains(base) <==> stmt_imports_all(source, kind, base),
        stmt_stars(source, kind).len() > 0 <==> exists|b: Seq<char>| #[trigger]
            stmt_imports_all(source, kind, b),
{
    let list = stmt_stars(source, kind);
    if let StmtKind::ImportFrom { names, .. } = kind {
        if let Some(b) = stmt_base(source, kind) {
            lemma_star_bases(b, names@);
            if list.len() > 0 {
                assert(list[0] == b);
                assert(list.contains(b));
                assert(stmt_imports_all(source, kind, b));
            }
            if list.contains(base) {
                let j = choose|j: int| 0 <= j < list.len() && list[j] == base;
                assert(list[j] == b);
            }
            if stmt_imports_all(source, kind, base) {
                assert(list[0] == base);
            }
        }
    }
}

/// The modules that everything is imported from are those that some star import starts at.
pub proof fn lemma_star_imports(source: SourceModel, body: Seq<Stmt>, base: Seq<char>)
    ensures
        module_model(source, body).stars.contains(base) <==> exists|i: int|
            0 <= i < body.len() && stmt_imports_all(source, (#[trigger] body[i]).kind, base),
    decreases body.len(),
{
    let list = stars(source, body);
    if body.len() > 0 {
        let shorter = body.drop_last();
        let last = body.len() - 1;
        let before = stars(source, shorter);
        let added = stmt_stars(source, body.last().kind);
        lemma_star_imports(source, shorter, base);
        lemma_stmt_stars(source, body.last().kind, base);
        assert(body[last] == body.last());
        assert(list =~= before + added);
        if before.contains(base) {
            let k = choose|k: int| 0 <= k < before.len() && before[k] == base;
            assert(list[k] == base);
            let i = choose|i: int|
                0 <= i < shorter.len() && stmt_imports_all(
                    source,
                    (#[trigger] shorter[i]).kind,
                    base,
                );
            assert(body[i] == shorter[i]);
        }
        if added.contains(base) {
            let k = choose|k: int| 0 <= k < added.len() && added[k] == base;
            assert(list[before.len() + k] == base);
        }
        if list.contains(base) {
            let k = choose|k: int| 0 <= k < list.len() && list[k] == base;
            if k < before.len() {
                assert(before[k] == base);
            } else {
                assert(added[k - before.len()] == base);
            }
        }
        if exists|i: int| 0 <= i < body.len() && stmt_imports_all(
            source,
            (#[trigger] body[i]).kind,
            base,
        ) {
            let i = choose|i: int|
                0 <= i < body.len() && stmt_imports_all(source, (#[trigger] body[i]).kind, base);
            if i < last {
                assert(stmt_imports_all(source, shorter[i].kind, base));
            }
        }
    } else {
        assert(list.len() == 0);
    }
}

/// Whether an expression calls one of the functions that make names depend on run time.
pub open spec fn calls_dynamically(x: Expr) -> bool {
    match x {
        Expr::Call { func, .. } => match *func {
            Expr::Name { id, .. } => id@ == "globals"@ || id@ == "locals"@ || id@ == "getattr"@
                || id@ == "setattr"@ || id@ == "__import__"@,
            Expr::Attribute { value, attr, .. } => attr@ == "import_module"@ && match *value {
                Expr::Name { id, .. } => id@ == "importlib"@,
                _ => false,
            },
            _ => false,
        },
        _ => false,
    }
}

proof fn lemma_calls_dynamically(x: Expr)
    ensures
        is_dynamic_call(x) <==> calls_dynamically(x),
{
    if let Expr::Call { func, .. } = x {
        if let Expr::Attribute { value, .. } = *func {
            if let Expr::Attribute { value: inner, attr, .. } = *value {
                if written_path(*value) == Some("importlib"@) {
                    let prefix = written_path(*inner)->0;
                    let whole = dotted(prefix, attr@);
                    reveal_strlit("importlib");
                    assert(whole[prefix.len() as int] == '.');
                    assert(!"importlib"@.contains('.'));
                }
            }
        }
    }
}

/// Whether a statement makes a module dynamic: it holds such a call, however deep, imports
/// everything from a module, or defines `__getattr__`.
pub open spec fn stmt_is_dynamic(source: SourceModel, stmt: Stmt) -> bool {
    ||| exists|x: Expr| #[trigger] in_stmt(x, stmt) && calls_dynamically(x)
    ||| exists|base: Seq<char>| #[trigger] stmt_imports_all(source, stmt.kind, base)
    ||| match stmt.kind {
        StmtKind::FunctionDef { name, .. } => name@ == "__getattr__"@,
        _ => false,
    }
}

/// A module is dynamic where one of its statements makes it so.
pub proof fn lemma_dynamic(source: SourceModel, body: Seq<Stmt>)
    ensures
        module_model(source, body).dynamic <==> exists|i: int|
            0 <= i < body.len() && stmt_is_dynamic(source, #[trigger] body[i]),
{
    assert forall|i: int| 0 <= i < body.len() implies (is_dynamic_stmt(source, #[trigger] body[i])
        <==> stmt_is_dynamic(source, body[i])) by {
        let nodes = stmt_nodes(body[i]);
        lemma_stmt_stars(source, body[i].kind, Seq::empty());
        if has_dynamic_call(nodes) {
            let k = choose|k: int| 0 <= k < nodes.len() && is_dynamic_call(#[trigger] nodes[k]);
            lemma_calls_dynamically(nodes[k]);
            lemma_stmt_nodes(nodes[k], body[i]);
            assert(nodes.contains(nodes[k]));
            assert(in_stmt(nodes[k], body[i]));
        }
        if exists|x: Expr| #[trigger] in_stmt(x, body[i]) && calls_dynamically(x) {
            let x = choose|x: Expr| #[trigger] in_stmt(x, body[i]) && calls_dynamically(x);
            lemma_calls_dynamically(x);
            lemma_stmt_nodes(x, body[i]);
            let k = choose|k: int| 0 <= k < nodes.len() && nodes[k] == x;
            assert(is_dynamic_call(nodes[k]));
        }
    }
}

/// Whether a decorator, or what a decorator calls, is known as `p`: as it is written, or by the
/// full path of what it names.
pub open spec fn known_as(
    module: Seq<char>,
    body: Seq<Stmt>,
    imports: ImportModel,
    decorator: Expr,
    p: Seq<char>,
) -> bool
    decreases decorator,
{
    match decorator {
        Expr::Call { func, .. } => known_as(module, body, imports, *func, p),
        Expr::Name { id, .. } => p == id@ || (body_defines(body, id@) && p == module.push('.')
            + id@) || (imports.contains_key(id@) && match imports[id@] {
            TargetModel::Symbol(symbol) => p == symbol.0.push('.') + symbol.1,
            TargetModel::Module(_) => false,
        }),
        Expr::Attribute { value, attr, .. } => written_path(decorator) == Some(p)
            || match module_of_expr(*value, imports) {
            Some(owner) => p == owner.push('.') + attr@,
            None => false,
        },
        _ => false,
    }
}

proof fn lemma_known_as(
    source: SourceModel,
    body: Seq<Stmt>,
    decorator: Expr,
    p: Seq<char>,
)
    ensures
        decorator_names(module_scope(source, body), decorator).contains(p) <==> known_as(
            source.module,
            body,
            module_scope(source, body).imports,
            decorator,
            p,
        ),
    decreases decorator,
{
    let scope = module_scope(source, body);
    match decorator {
        Expr::Call { func, .. } => {
            lemma_known_as(source, body, *func, p);
        },
        Expr::Name { id, .. } => {
            lemma_local_names(source, body, id@);
        },
        _ => {},
    }
}

/// Whether a statement defines `n` with a decorator that is known by a public name.
pub open spec fn stmt_publishes(
    source: SourceModel,
    body: Seq<Stmt>,
    kind: StmtKind,
    n: Seq<char>,
) -> bool {
    match kind {
        StmtKind::FunctionDef { name, decorators, .. } => name@ == n && exists|
            j: int,
            p: Seq<char>,
        |
            0 <= j < decorators@.len() && source.public_decorators.contains(p)
                && #[trigger] known_as(
                source.module,
                body,
                module_model(source, body).imports,
                decorators@[j],
                p,
            ),
        StmtKind::ClassDef { name, decorators, .. } => name@ == n && exists|j: int, p: Seq<char>|
            0 <= j < decorators@.len() && source.public_decorators.contains(p)
                && #[trigger] known_as(
                source.module,
                body,
                module_model(source, body).imports,
                decorators@[j],
                p,
            ),
        _ => false,
    }
}

#[verifier::spinoff_prover]
proof fn lemma_has_public(source: SourceModel, body: Seq<Stmt>, decorators: Seq<Expr>)
    ensures
        has_public(module_scope(source, body), source.public_decorators, decorators) <==> exists|
            j: int,
            p: Seq<char>,
        |
            0 <= j < decorators.len() && source.public_decorators.contains(p)
                && #[trigger] known_as(
                source.module,
                body,
                module_model(source, body).imports,
                decorators[j],
                p,
            ),
{
    let scope = module_scope(source, body);
    if has_public(scope, source.public_decorators, decorators) {
        let j = choose|j: int|
            0 <= j < decorators.len() && !decorator_names(
                scope,
                #[trigger] decorators[j],
            ).disjoint(source.public_decorators);
        let names = decorator_names(scope, decorators[j]);
        let p = choose|p: Seq<char>| names.contains(p) && source.public_decorators.contains(p);
        assert(names.contains(p) && source.public_decorators.contains(p));
        lemma_known_as(source, body, decorators[j], p);
        assert(module_model(source, body).imports == scope.imports);
        assert(known_as(
            source.module,
            body,
            module_model(source, body).imports,
            decorators[j],
            p,
        ));
    }
    if exists|j: int, p: Seq<char>|
        0 <= j < decorators.len() && source.public_decorators.contains(p) && #[trigger] known_as(
            source.module,
            body,
            module_model(source, body).imports,
            decorators[j],
            p,
        ) {
        let (j, p) = choose|j: int, p: Seq<char>|
            0 <= j < decorators.len() && source.public_decorators.contains(p)
                && #[trigger] known_as(
                source.module,
                body,
                module_model(source, body).imports,
                decorators[j],
                p,
            );
        lemma_known_as(source, body, decorators[j], p);
        let names = decorator_names(scope, decorators[j]);
        assert(module_model(source, body).imports == scope.imports);
        assert(names.contains(p));
        assert(!names.disjoint(source.public_decorators));
        assert(has_public(scope, source.public_decorators, decorators));
    }
}

/// Whether an expression, by itself, refers to the symbol `id`: a name that is read, is not hidden,
/// and is defined by the module or else imported as a symbol; or an attribute that is read of what
/// stands for a module.
pub open spec fn refers(
    module: Seq<char>,
    body: Seq<Stmt>,
    imports: ImportModel,
    hidden: spec_fn(Seq<char>) -> bool,
    x: Expr,
    id: SymbolId,
) -> bool {
    match x {
        Expr::Name { id: n, ctx } => ctx == ExprContext::Load && !hidden(n@) && if body_defines(
            body,
            n@,
        ) {
            id == (module, n@)
        } else {
            imports.contains_key(n@) && imports[n@] == TargetModel::Symbol(id)
        },
        Expr::Attribute { value, attr, ctx } => ctx == ExprContext::Load && module_of_expr(
            *value,
            imports,
        ) == Some(id.0) && id.1 == attr@,
        _ => false,
    }
}

pub open spec fn nothing_hidden() -> spec_fn(Seq<char>) -> bool {
    |n: Seq<char>| false
}

/// The names that are hidden in the body of a function: its parameters and what the body binds.
pub open spec fn hidden_in_function(parameters: Seq<Parameter>, inner: Seq<Stmt>) -> spec_fn(
    Seq<char>,
) -> bool {
    |n: Seq<char>|
        body_binds(inner, n) || exists|i: int|
            0 <= i < parameters.len() && (#[trigger] parameters[i]).name@ == n
}

/// The names that are hidden in a class: what its body binds.
pub open spec fn hidden_in_class(inner: Seq<Stmt>) -> spec_fn(Seq<char>) -> bool {
    |n: Seq<char>| body_binds(inner, n)
}

proof fn lemma_direct_reference(
    source: SourceModel,
    body: Seq<Stmt>,
    shadowed: Set<Seq<char>>,
    hidden: spec_fn(Seq<char>) -> bool,
    x: Expr,
    id: SymbolId,
)
    requires
        forall|n: Seq<char>| #[trigger] shadowed.contains(n) <==> hidden(n),
    ensures
        direct_reference(inner_scope(module_scope(source, body), shadowed), x) == Some(id)
            <==> refers(
            source.module,
            body,
            module_model(source, body).imports,
            hidden,
            x,
            id,
        ),
{
    match x {
        Expr::Name { id: n, ctx } => {
            lemma_local_names(source, body, n@);
            assert(shadowed.contains(n@) <==> hidden(n@));
        },
        Expr::Attribute { value, attr, ctx } => {},
        _ => {},
    }
}

/// Whether a statement that defines `n` as a function or a class refers to `id`: in the signature
/// of a function; in its body, outside the names of the function; or anywhere in a class, outside
/// the names that the class binds.
pub open spec fn stmt_refers(
    source: SourceModel,
    body: Seq<Stmt>,
    kind: StmtKind,
    n: Seq<char>,
    id: SymbolId,
) -> bool {
    let imports = module_model(source, body).imports;
    match kind {
        StmtKind::FunctionDef { name, decorators, parameters, return_type, body: inner } => name@
            == n && ((exists|x: Expr|
            (in_list(x, decorators@) || in_parameters(x, parameters@) || in_option(x, return_type))
                && #[trigger] refers(source.module, body, imports, nothing_hidden(), x, id)) || (
        exists|x: Expr|
            in_body(x, inner@) && #[trigger] refers(
                source.module,
                body,
                imports,
                hidden_in_function(parameters@, inner@),
                x,
                id,
            ))),
        StmtKind::ClassDef { name, decorators, arguments, body: inner } => name@ == n && exists|
            x: Expr,
        |
            (in_list(x, decorators@) || in_list(x, arguments@) || in_body(x, inner@))
                && #[trigger] refers(
                source.module,
                body,
                imports,
                hidden_in_class(inner@),
                x,
                id,
            ),
        _ => false,
    }
}

proof fn lemma_references_in(
    source: SourceModel,
    body: Seq<Stmt>,
    shadowed: Set<Seq<char>>,
    hidden: spec_fn(Seq<char>) -> bool,
    nodes: Seq<Expr>,
    id: SymbolId,
)
    requires
        forall|n: Seq<char>| #[trigger] shadowed.contains(n) <==> hidden(n),
    ensures
        references_in(inner_scope(module_scope(source, body), shadowed), nodes).contains(id)
            <==> exists|x: Expr|
            nodes.contains(x) && #[trigger] refers(
                source.module,
                body,
                module_model(source, body).imports,
                hidden,
                x,
                id,
            ),
{
    let scope = inner_scope(module_scope(source, body), shadowed);
    let imports = module_model(source, body).imports;
    if references_in(scope, nodes).contains(id) {
        let i = choose|i: int|
            0 <= i < nodes.len() && direct_reference(scope, #[trigger] nodes[i]) == Some(id);
        lemma_direct_reference(source, body, shadowed, hidden, nodes[i], id);
        assert(nodes.contains(nodes[i]));
        assert(refers(source.module, body, imports, hidden, nodes[i], id));
    }
    if exists|x: Expr|
        nodes.contains(x) && #[trigger] refers(source.module, body, imports, hidden, x, id) {
        let x = choose|x: Expr|
            nodes.contains(x) && #[trigger] refers(source.module, body, imports, hidden, x, id);
        lemma_direct_reference(source, body, shadowed, hidden, x, id);
        let i = choose|i: int| 0 <= i < nodes.len() && nodes[i] == x;
        assert(direct_reference(scope, nodes[i]) == Some(id));
    }
}

proof fn lemma_contribution(
    source: SourceModel,
    body: Seq<Stmt>,
    kind: StmtKind,
    n: Seq<char>,
    id: SymbolId,
)
    ensures
        ({
            let extra = contribution(module_scope(source, body), source.public_decorators, kind);
            let adds = extra is Some && extra->0.name == n;
            &&& adds && extra->0.references.contains(id) <==> stmt_refers(
                source,
                body,
                kind,
                n,
                id,
            )
            &&& adds && extra->0.public <==> stmt_publishes(source, body, kind, n)
        }),
{
    let scope = module_scope(source, body);
    let imports = module_model(source, body).imports;
    assert(scope == inner_scope(scope, Set::empty()));
    match kind {
        StmtKind::FunctionDef { name, decorators, parameters, return_type, body: inner } => {
            lemma_has_public(source, body, decorators@);
            let nodes = signature_nodes(decorators@, parameters@, return_type);
            let none = Set::<Seq<char>>::empty();
            lemma_references_in(source, body, none, nothing_hidden(), nodes, id);
            assert forall|x: Expr| nodes.contains(x) <==> (in_list(x, decorators@)
                || in_parameters(x, parameters@) || in_option(x, return_type)) by {
                lemma_signature_nodes(x, decorators@, parameters@, return_type);
            }
            let shadowed = parameter_names(parameters@).union(bound_names(inner@));
            let hidden = hidden_in_function(parameters@, inner@);
            assert forall|m: Seq<char>| #[trigger] shadowed.contains(m) <==> hidden(m) by {
                lemma_bound_names(inner@, m);
            }
            lemma_references_in(source, body, shadowed, hidden, body_nodes(inner@), id);
            assert forall|x: Expr| body_nodes(inner@).contains(x) <==> in_body(x, inner@) by {
                lemma_body_nodes(x, inner@);
            }
            if exists|x: Expr|
                (in_list(x, decorators@) || in_parameters(x, parameters@) || in_option(
                    x,
                    return_type,
                )) && #[trigger] refers(
                    source.module,
                    body,
                    imports,
                    nothing_hidden(),
                    x,
                    id,
                ) {
                let x = choose|x: Expr|
                    (in_list(x, decorators@) || in_parameters(x, parameters@) || in_option(
                        x,
                        return_type,
                    )) && #[trigger] refers(
                        source.module,
                        body,
                        imports,
                        nothing_hidden(),
                        x,
                        id,
                    );
                assert(nodes.contains(x));
            }
            if exists|x: Expr|
                in_body(x, inner@) && #[trigger] refers(
                    source.module,
                    body,
                    imports,
                    hidden,
                    x,
                    id,
                ) {
                let x = choose|x: Expr|
                    in_body(x, inner@) && #[trigger] refers(
                        source.module,
                        body,
                        imports,
                        hidden,
                        x,
                        id,
                    );
                assert(body_nodes(inner@).contains(x));
            }
        },
        StmtKind::ClassDef { name, decorators, arguments, body: inner } => {
            lemma_has_public(source, body, decorators@);
            let shadowed = bound_names(inner@);
            let hidden = hidden_in_class(inner@);
            assert forall|m: Seq<char>| #[trigger] shadowed.contains(m) <==> hidden(m) by {
                lemma_bound_names(inner@, m);
            }
            lemma_references_in(source, body, shadowed, hidden, list_nodes(decorators@), id);
            lemma_references_in(source, body, shadowed, hidden, list_nodes(arguments@), id);
            lemma_references_in(source, body, shadowed, hidden, body_nodes(inner@), id);
            assert forall|x: Expr| list_nodes(decorators@).contains(x) <==> in_list(
                x,
                decorators@,
            ) by {
                lemma_list_nodes(x, decorators@);
            }
            assert forall|x: Expr| list_nodes(arguments@).contains(x) <==> in_list(
                x,
                arguments@,
            ) by {
                lemma_list_nodes(x, arguments@);
            }
            assert forall|x: Expr| body_nodes(inner@).contains(x) <==> in_body(x, inner@) by {
                lemma_body_nodes(x, inner@);
            }
        },
        _ => {},
    }
}

proof fn lemma_credited(
    symbols: Map<Seq<char>, SymbolModel>,
    scope: Scope,
    public_decorators: Set<Seq<char>>,
    body: Seq<Stmt>,
    n: Seq<char>,
    id: SymbolId,
)
    requires
        symbols.contains_key(n),
    ensures
        ({
            let after = credited_all(symbols, scope, public_decorators, body);
            &&& after.contains_key(n)
            &&& after[n].references.contains(id) <==> symbols[n].references.contains(id) || exists|
                i: int,
            |
                0 <= i < body.len() && adds_reference(
                    contribution(scope, public_decorators, (#[trigger] body[i]).kind),
                    n,
                    id,
                )
            &&& after[n].public <==> symbols[n].public || exists|i: int|
                0 <= i < body.len() && adds_public(
                    contribution(scope, public_decorators, (#[trigger] body[i]).kind),
                    n,
                )
        }),
    decreases body.len(),
{
    if body.len() > 0 {
        let shorter = body.drop_last();
        let last = body.len() - 1;
        lemma_credited(symbols, scope, public_decorators, shorter, n, id);
        assert(body[last] == body.last());
        assert forall|i: int| 0 <= i < last implies #[trigger] body[i] == shorter[i] by {}
        let before = credited_all(symbols, scope, public_decorators, shorter);
        let after = credited_all(symbols, scope, public_decorators, body);
        let extra = contribution(scope, public_decorators, body.last().kind);
        assert(after[n].references.contains(id) <==> before[n].references.contains(id)
            || adds_reference(extra, n, id));
        assert(after[n].public <==> before[n].public || adds_public(extra, n));
        if exists|i: int|
            0 <= i < shorter.len() && adds_reference(
                contribution(scope, public_decorators, (#[trigger] shorter[i]).kind),
                n,
                id,
            ) {
            let i = choose|i: int|
                0 <= i < shorter.len() && adds_reference(
                    contribution(scope, public_decorators, (#[trigger] shorter[i]).kind),
                    n,
                    id,
                );
            assert(body[i] == shorter[i]);
        }
        if exists|i: int|
            0 <= i < shorter.len() && adds_public(
                contribution(scope, public_decorators, (#[trigger] shorter[i]).kind),
                n,
            ) {
            let i = choose|i: int|
                0 <= i < shorter.len() && adds_public(
                    contribution(scope, public_decorators, (#[trigger] shorter[i]).kind),
                    n,
                );
            assert(body[i] == shorter[i]);
        }
        if exists|i: int|
            0 <= i < body.len() && adds_reference(
                contribution(scope, public_decorators, (#[trigger] body[i]).kind),
                n,
                id,
            ) {
            let i = choose|i: int|
                0 <= i < body.len() && adds_reference(
                    contribution(scope, public_decorators, (#[trigger] body[i]).kind),
                    n,
                    id,
                );
            if i < last {
                assert(shorter[i] == body[i]);
            }
        }
        if exists|i: int|
            0 <= i < body.len() && adds_public(
                contribution(scope, public_decorators, (#[trigger] body[i]).kind),
                n,
            ) {
            let i = choose|i: int|
                0 <= i < body.len() && adds_public(
                    contribution(scope, public_decorators, (#[trigger] body[i]).kind),
                    n,
                );
            if i < last {
                assert(shorter[i] == body[i]);
            }
        }
    }
}

spec fn adds_reference(extra: Option<Contribution>, n: Seq<char>, id: SymbolId) -> bool {
    extra is Some && extra->0.name == n && extra->0.references.contains(id)
}

spec fn adds_public(extra: Option<Contribution>, n: Seq<char>) -> bool {
    extra is Some && extra->0.name == n && extra->0.public
}

/// A symbol refers to what the functions and classes of its name refer to, and has a public
/// decorator where one of them has.
pub proof fn lemma_symbol_references(
    source: SourceModel,
    body: Seq<Stmt>,
    n: Seq<char>,
    id: SymbolId,
)
    requires
        module_model(source, body).symbols.contains_key(n),
    ensures
        module_model(source, body).symbols[n].references.contains(id) <==> exists|i: int|
            0 <= i < body.len() && stmt_refers(source, body, (#[trigger] body[i]).kind, n, id),
        module_model(source, body).symbols[n].public <==> exists|i: int|
            0 <= i < body.len() && stmt_publishes(source, body, (#[trigger] body[i]).kind, n),
{
    let scope = module_scope(source, body);
    let first = registered_all(Map::empty(), source, definitions(body));
    lemma_registered_all(source, definitions(body), n);
    crate::symbol_laws::lemma_module_symbols(source, body, n);
    lemma_credited(first, scope, source.public_decorators, body, n, id);
    assert forall|i: int| 0 <= i < body.len() implies adds_reference(
        contribution(scope, source.public_decorators, (#[trigger] body[i]).kind),
        n,
        id,
    ) == stmt_refers(source, body, body[i].kind, n, id) && adds_public(
        contribution(scope, source.public_decorators, body[i].kind),
        n,
    ) == stmt_publishes(source, body, body[i].kind, n) by {
        lemma_contribution(source, body, body[i].kind, n, id);
    }
}

/// The top-level code of a module refers to what any expression in its statements refers to,
/// other than those of imports, functions and classes.
pub proof fn lemma_module_references(source: SourceModel, body: Seq<Stmt>, id: SymbolId)
    ensures
        module_model(source, body).references.contains(id) <==> exists|i: int, x: Expr|
            0 <= i < body.len() && !(body[i].kind is Import) && !(body[i].kind is ImportFrom) && !(
            body[i].kind is FunctionDef) && !(body[i].kind is ClassDef) && #[trigger] in_stmt(
                x,
                body[i],
            ) && refers(
                source.module,
                body,
                module_model(source, body).imports,
                nothing_hidden(),
                x,
                id,
            ),
{
    let scope = module_scope(source, body);
    let none = Set::<Seq<char>>::empty();
    let imports = module_model(source, body).imports;
    assert(scope == inner_scope(scope, none));
    if module_code_references(scope, body).contains(id) {
        let i = choose|i: int|
            0 <= i < body.len() && crate::collector::is_module_code((#[trigger] body[i]).kind)
                && references_in(scope, stmt_nodes(body[i])).contains(id);
        lemma_references_in(source, body, none, nothing_hidden(), stmt_nodes(body[i]), id);
        let x = choose|x: Expr|
            stmt_nodes(body[i]).contains(x) && #[trigger] refers(
                source.module,
                body,
                imports,
                nothing_hidden(),
                x,
                id,
            );
        lemma_stmt_nodes(x, body[i]);
        assert(in_stmt(x, body[i]));
    }
    if exists|i: int, x: Expr|
        0 <= i < body.len() && !(body[i].kind is Import) && !(body[i].kind is ImportFrom) && !(
        body[i].kind is FunctionDef) && !(body[i].kind is ClassDef) && #[trigger] in_stmt(
            x,
            body[i],
        ) && refers(source.module, body, imports, nothing_hidden(), x, id) {
        let (i, x) = choose|i: int, x: Expr|
            0 <= i < body.len() && !(body[i].kind is Import) && !(body[i].kind is ImportFrom) && !(
            body[i].kind is FunctionDef) && !(body[i].kind is ClassDef) && #[trigger] in_stmt(
                x,
                body[i],
            ) && refers(source.module, body, imports, nothing_hidden(), x, id);
        lemma_references_in(source, body, none, nothing_hidden(), stmt_nodes(body[i]), id);
        lemma_stmt_nodes(x, body[i]);
        assert(references_in(scope, stmt_nodes(body[i])).contains(id));
    }
}

} // verus!
