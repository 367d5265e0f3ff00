//! What FastAPI serves, said of the statements of modules.

use crate::ast::{Expr, ExprContext, Keyword, Stmt, StmtKind};
use crate::collections::{bound_last, union_over};
use crate::collector::{module_model, module_scope, SourceModel};
use crate::fastapi::{
    all_objects, assigned_objects, constructed, full_path, holds_object, live_objects,
    module_objects, mount_step, mounting, mounts_object, object_bindings, registers, routed_object,
    router_argument, router_keyword, routes_of, served_symbols, serves_handler, stmt_mounting,
    symbol_of_expr, Edge, ObjectKind,
};
use crate::imports::{module_of_expr, text_of, ImportModel, TargetModel};
use crate::keys::SymbolId;
use crate::liveness::TableModel;
use crate::module_laws::{body_defines, is_bare, lemma_local_names};
use crate::reach::lemma_reachable_least;
use crate::symbol_laws::{is_reported, lemma_served_not_reported};
use crate::symbols::{live_modules, AnalysisModel};
use crate::usage_laws::{holds_module, lemma_live_module, source_of};
use vstd::prelude::*;

verus! {

/// The path of a name is that of what it is bound to, or the name itself; the path of an attribute
/// is that of its value, extended.
pub proof fn lemma_full_path(
    imports: ImportModel,
    id: String,
    ctx: ExprContext,
    value: Expr,
    attr: String,
    path: Seq<char>,
    symbol: SymbolId,
)
    ensures
        !imports.contains_key(id@) ==> full_path(Expr::Name { id, ctx }, imports) == Some(id@),
        imports.contains_key(id@) && imports[id@] == TargetModel::Module(path) ==> full_path(
            Expr::Name { id, ctx },
            imports,
        ) == Some(path),
        imports.contains_key(id@) && imports[id@] == TargetModel::Symbol(symbol) ==> full_path(
            Expr::Name { id, ctx },
            imports,
        ) == Some(symbol.0.push('.') + symbol.1),
        full_path(value, imports) == Some(path) ==> full_path(
            Expr::Attribute { value: Box::new(value), attr, ctx },
            imports,
        ) == Some(path.push('.') + attr@),
        full_path(value, imports) is None ==> full_path(
            Expr::Attribute { value: Box::new(value), attr, ctx },
            imports,
        ) is None,
        full_path(value, imports) is Some ==> (value is Name || value is Attribute),
{
    reveal_with_fuel(full_path, 2);
    lemma_module_path(imports, value);
}

proof fn lemma_module_path(imports: ImportModel, value: Expr)
    ensures
        module_of_expr(value, imports) is Some ==> full_path(value, imports) == module_of_expr(
            value,
            imports,
        ),
    decreases value,
{
    if let Expr::Attribute { value: inner, .. } = value {
        lemma_module_path(imports, *inner);
    }
}

/// Whether an expression calls the constructor of an application or of a router.
pub open spec fn constructs(imports: ImportModel, value: Expr) -> bool {
    match value {
        Expr::Call { func, .. } => full_path(*func, imports) == Some("fastapi.FastAPI"@)
            || full_path(*func, imports) == Some("fastapi.APIRouter"@),
        _ => false,
    }
}

/// Whether a statement assigns such a call to the name `n`.
pub open spec fn stmt_constructs(imports: ImportModel, kind: StmtKind, n: Seq<char>) -> bool {
    match kind {
        StmtKind::Assign { targets, value } => constructs(imports, value) && exists|j: int|
            0 <= j < targets@.len() && is_bare(#[trigger] targets@[j], n),
        StmtKind::AnnAssign { target, initial: Some(value), simple } => simple && constructs(
            imports,
            value,
        ) && is_bare(target, n),
        _ => false,
    }
}

spec fn has_key(list: Seq<(SymbolId, ObjectKind)>, id: SymbolId) -> bool {
    exists|i: int| 0 <= i < list.len() && (#[trigger] list[i]).0 == id
}

proof fn lemma_bound_keys(list: Seq<(SymbolId, ObjectKind)>, id: SymbolId)
    ensures
        bound_last(list).contains_key(id) <==> has_key(list, id),
    decreases list.len(),
{
    if list.len() > 0 {
        let shorter = list.drop_last();
        let last = list.len() - 1;
        lemma_bound_keys(shorter, id);
        assert(list[last] == list.last());
        if has_key(shorter, id) {
            let i = choose|i: int| 0 <= i < shorter.len() && (#[trigger] shorter[i]).0 == id;
            assert(list[i] == shorter[i]);
        }
        if has_key(list, id) {
            let i = choose|i: int| 0 <= i < list.len() && (#[trigger] list[i]).0 == id;
            if i < last {
                assert(shorter[i] == list[i]);
            }
        }
    }
}

proof fn lemma_key_concat(
    first: Seq<(SymbolId, ObjectKind)>,
    second: Seq<(SymbolId, ObjectKind)>,
    id: SymbolId,
)
    ensures
        has_key(first + second, id) <==> has_key(first, id) || has_key(second, id),
{
    let all = first + second;
    if has_key(first, id) {
        let i = choose|i: int| 0 <= i < first.len() && (#[trigger] first[i]).0 == id;
        assert(all[i] == first[i]);
    }
    if has_key(second, id) {
        let i = choose|i: int| 0 <= i < second.len() && (#[trigger] second[i]).0 == id;
        assert(all[first.len() + i] == second[i]);
    }
    if has_key(all, id) {
        let i = choose|i: int| 0 <= i < all.len() && (#[trigger] all[i]).0 == id;
        if i < first.len() {
            assert(first[i] == all[i]);
        } else {
            assert(second[i - first.len()] == all[i]);
        }
    }
}

proof fn lemma_object_bindings(
    module: Seq<char>,
    targets: Seq<Expr>,
    kind: ObjectKind,
    id: SymbolId,
)
    ensures
        has_key(object_bindings(module, targets, kind), id) <==> id.0 == module && exists|j: int|
            0 <= j < targets.len() && is_bare(#[trigger] targets[j], id.1),
    decreases targets.len(),
{
    let list = object_bindings(module, targets, kind);
    if targets.len() > 0 {
        let shorter = targets.drop_last();
        let last = targets.len() - 1;
        let before = object_bindings(module, shorter, kind);
        lemma_object_bindings(module, shorter, kind, id);
        assert(targets[last] == targets.last());
        if let Expr::Name { id: n, .. } = targets.last() {
            let one = seq![((module, n@), kind)];
            assert(list =~= before + one);
            lemma_key_concat(before, one, id);
            assert(has_key(one, id) <==> id == (module, n@)) by {
                assert(one[0].0 == (module, n@));
            }
        }
        if exists|j: int| 0 <= j < shorter.len() && is_bare(#[trigger] shorter[j], id.1) {
            let j = choose|j: int| 0 <= j < shorter.len() && is_bare(#[trigger] shorter[j], id.1);
            assert(targets[j] == shorter[j]);
        }
        if exists|j: int| 0 <= j < targets.len() && is_bare(#[trigger] targets[j], id.1) {
            let j = choose|j: int| 0 <= j < targets.len() && is_bare(#[trigger] targets[j], id.1);
            if j < last {
                assert(shorter[j] == targets[j]);
            }
        }
    } else {
        assert(list.len() == 0);
    }
}

proof fn lemma_module_objects(
    module: Seq<char>,
    imports: ImportModel,
    body: Seq<Stmt>,
    id: SymbolId,
)
    ensures
        has_key(module_objects(module, imports, body), id) <==> id.0 == module && exists|i: int|
            0 <= i < body.len() && stmt_constructs(imports, (#[trigger] body[i]).kind, id.1),
    decreases body.len(),
{
    let list = module_objects(module, imports, body);
    if body.len() > 0 {
        let shorter = body.drop_last();
        let last = body.len() - 1;
        let before = module_objects(module, imports, shorter);
        let kind = body.last().kind;
        let added = assigned_objects(module, imports, kind);
        lemma_module_objects(module, imports, shorter, id);
        lemma_key_concat(before, added, id);
        assert(body[last] == body.last());
        assert(has_key(added, id) <==> id.0 == module && stmt_constructs(imports, kind, id.1)) by {
            match kind {
                StmtKind::Assign { targets, value } => {
                    if let Some(object) = constructed(value, imports) {
                        lemma_object_bindings(module, targets@, object, id);
                    }
                },
                StmtKind::AnnAssign { target, initial: Some(value), simple } => {
                    if let Some(object) = constructed(value, imports) {
                        lemma_object_bindings(module, seq![target], object, id);
                        assert(seq![target][0] == target);
                        if is_bare(target, id.1) {
                            assert(is_bare(seq![target][0], id.1));
                        }
                    }
                },
                _ => {},
            }
        }
        if exists|i: int| 0 <= i < shorter.len() && stmt_constructs(
            imports,
            (#[trigger] shorter[i]).kind,
            id.1,
        ) {
            let i = choose|i: int|
                0 <= i < shorter.len() && stmt_constructs(
                    imports,
                    (#[trigger] shorter[i]).kind,
                    id.1,
                );
            assert(body[i] == shorter[i]);
        }
        if exists|i: int| 0 <= i < body.len() && stmt_constructs(
            imports,
            (#[trigger] body[i]).kind,
            id.1,
        ) {
            let i = choose|i: int|
                0 <= i < body.len() && stmt_constructs(imports, (#[trigger] body[i]).kind, id.1);
            if i < last {
                assert(shorter[i] == body[i]);
            }
        }
    } else {
        assert(list.len() == 0);
    }
}

/// The FastAPI objects of a module are the names to which its top level assigns a call of one of
/// the two constructors.
pub proof fn lemma_objects(source: SourceModel, body: Seq<Stmt>, id: SymbolId)
    ensures
        module_model(source, body).fastapi.objects.contains_key(id) <==> id.0 == source.module
            && exists|i: int|
            0 <= i < body.len() && stmt_constructs(
                module_model(source, body).imports,
                (#[trigger] body[i]).kind,
                id.1,
            ),
{
    let imports = module_model(source, body).imports;
    lemma_module_objects(source.module, imports, body, id);
    lemma_bound_keys(module_objects(source.module, imports, body), id);
}

/// Whether an expression at the top level stands for the symbol `id`: a name that the module
/// defines, or else imports as a symbol; or an attribute of what stands for a module.
pub open spec fn stands_for(
    module: Seq<char>,
    body: Seq<Stmt>,
    imports: ImportModel,
    expr: Expr,
    id: SymbolId,
) -> bool {
    match expr {
        Expr::Name { id: n, .. } => if body_defines(body, n@) {
            id == (module, n@)
        } else {
            imports.contains_key(n@) && imports[n@] == TargetModel::Symbol(id)
        },
        Expr::Attribute { value, attr, .. } => module_of_expr(*value, imports) == Some(id.0)
            && id.1 == attr@,
        _ => false,
    }
}

proof fn lemma_stands_for(source: SourceModel, body: Seq<Stmt>, expr: Expr, id: SymbolId)
    ensures
        symbol_of_expr(module_scope(source, body), expr) == Some(id) <==> stands_for(
            source.module,
            body,
            module_model(source, body).imports,
            expr,
            id,
        ),
{
    if let Expr::Name { id: n, .. } = expr {
        lemma_local_names(source, body, n@);
    }
}

/// Whether `argument` is the router that a call passes: its first positional argument, or, without
/// one, its first keyword argument `router`.
pub open spec fn passes_router(args: Seq<Expr>, keywords: Seq<Keyword>, argument: Expr) -> bool {
    if args.len() > 0 {
        argument == args[0]
    } else {
        exists|j: int|
            0 <= j < keywords.len() && text_of((#[trigger] keywords[j]).arg) == Some("router"@)
                && keywords[j].value == argument && forall|k: int|
                0 <= k < j ==> text_of((#[trigger] keywords[k]).arg) != Some("router"@)
    }
}

proof fn lemma_router_keyword(keywords: Seq<Keyword>, argument: Expr)
    ensures
        router_keyword(keywords) == Some(argument) <==> exists|j: int|
            0 <= j < keywords.len() && text_of((#[trigger] keywords[j]).arg) == Some("router"@)
                && keywords[j].value == argument && forall|k: int|
                0 <= k < j ==> text_of((#[trigger] keywords[k]).arg) != Some("router"@),
    decreases keywords.len(),
{
    if keywords.len() > 0 {
        let rest = keywords.drop_first();
        lemma_router_keyword(rest, argument);
        let first = text_of(keywords[0].arg) == Some("router"@);
        if !first && router_keyword(rest) == Some(argument) {
            let j = choose|j: int|
                0 <= j < rest.len() && text_of((#[trigger] rest[j]).arg) == Some("router"@)
                    && rest[j].value == argument && forall|k: int|
                    0 <= k < j ==> text_of((#[trigger] rest[k]).arg) != Some("router"@);
            assert(keywords[j + 1] == rest[j]);
            assert forall|k: int| 0 <= k < j + 1 implies text_of((#[trigger] keywords[k]).arg)
                != Some("router"@) by {
                if k > 0 {
                    assert(rest[k - 1] == keywords[k]);
                }
            }
        }
        if !first && exists|j: int|
            0 <= j < keywords.len() && text_of((#[trigger] keywords[j]).arg) == Some("router"@)
                && keywords[j].value == argument && forall|k: int|
                0 <= k < j ==> text_of((#[trigger] keywords[k]).arg) != Some("router"@) {
            let j = choose|j: int|
                0 <= j < keywords.len() && text_of((#[trigger] keywords[j]).arg) == Some("router"@)
                    && keywords[j].value == argument && forall|k: int|
                    0 <= k < j ==> text_of((#[trigger] keywords[k]).arg) != Some("router"@);
            assert(rest[j - 1] == keywords[j]);
            assert forall|k: int| 0 <= k < j - 1 implies text_of((#[trigger] rest[k]).arg) != Some(
                "router"@,
            ) by {
                assert(keywords[k + 1] == rest[k]);
            }
        }
        if first {
            assert(text_of(keywords[0].arg) == Some("router"@));
        }
    }
}

/// Whether an expression mounts the router `edge.1` on the object `edge.0`.
pub open spec fn mounts(
    module: Seq<char>,
    body: Seq<Stmt>,
    imports: ImportModel,
    expr: Expr,
    edge: Edge,
) -> bool {
    match expr {
        Expr::Call { func, args, keywords } => match *func {
            Expr::Attribute { value, attr, .. } => attr@ == "include_router"@ && stands_for(
                module,
                body,
                imports,
                *value,
                edge.0,
            ) && exists|argument: Expr|
                passes_router(args@, keywords@, argument) && #[trigger] stands_for(
                    module,
                    body,
                    imports,
                    argument,
                    edge.1,
                ),
            _ => false,
        },
        _ => false,
    }
}

/// Whether a statement evaluates an expression that does so: by itself, or to assign its value.
pub open spec fn stmt_mounts(
    module: Seq<char>,
    body: Seq<Stmt>,
    imports: ImportModel,
    kind: StmtKind,
    edge: Edge,
) -> bool {
    match kind {
        StmtKind::Expr { value } => mounts(module, body, imports, value, edge),
        StmtKind::Assign { value, .. } => mounts(module, body, imports, value, edge),
        StmtKind::AnnAssign { initial: Some(value), .. } => mounts(
            module,
            body,
            imports,
            value,
            edge,
        ),
        _ => false,
    }
}

proof fn lemma_mounts(source: SourceModel, body: Seq<Stmt>, expr: Expr, edge: Edge)
    ensures
        mounting(module_scope(source, body), expr) == Some(edge) <==> mounts(
            source.module,
            body,
            module_model(source, body).imports,
            expr,
            edge,
        ),
{
    let scope = module_scope(source, body);
    let imports = module_model(source, body).imports;
    if let Expr::Call { func, args, keywords } = expr {
        if let Expr::Attribute { value, attr, .. } = *func {
            lemma_stands_for(source, body, *value, edge.0);
            if let Some(argument) = router_argument(args@, keywords@) {
                lemma_stands_for(source, body, argument, edge.1);
                lemma_router_keyword(keywords@, argument);
                assert(passes_router(args@, keywords@, argument));
            }
            if mounts(source.module, body, imports, expr, edge) {
                let argument = choose|argument: Expr|
                    passes_router(args@, keywords@, argument) && #[trigger] stands_for(
                        source.module,
                        body,
                        imports,
                        argument,
                        edge.1,
                    );
                lemma_router_keyword(keywords@, argument);
                assert(router_argument(args@, keywords@) == Some(argument));
                lemma_stands_for(source, body, argument, edge.1);
            }
        }
    }
}

/// The mountings of a module are those that some statement of its top level performs.
pub proof fn lemma_includes(source: SourceModel, body: Seq<Stmt>, edge: Edge)
    ensures
        module_model(source, body).fastapi.includes.contains(edge) <==> exists|i: int|
            0 <= i < body.len() && stmt_mounts(
                source.module,
                body,
                module_model(source, body).imports,
                (#[trigger] body[i]).kind,
                edge,
            ),
{
    let scope = module_scope(source, body);
    let imports = module_model(source, body).imports;
    assert forall|i: int| 0 <= i < body.len() implies (stmt_mounting(
        scope,
        (#[trigger] body[i]).kind,
    ) == Some(edge) <==> stmt_mounts(source.module, body, imports, body[i].kind, edge)) by {
        match body[i].kind {
            StmtKind::Expr { value } => {
                lemma_mounts(source, body, value, edge);
            },
            StmtKind::Assign { value, .. } => {
                lemma_mounts(source, body, value, edge);
            },
            StmtKind::AnnAssign { initial: Some(value), .. } => {
                lemma_mounts(source, body, value, edge);
            },
            _ => {},
        }
    }
}

/// Whether an attribute of an object registers a route.
pub open spec fn registers_route(attr: Seq<char>) -> bool {
    ||| attr == "get"@
    ||| attr == "post"@
    ||| attr == "put"@
    ||| attr == "patch"@
    ||| attr == "delete"@
    ||| attr == "options"@
    ||| attr == "head"@
    ||| attr == "api_route"@
    ||| attr == "websocket"@
}

/// Whether a decorator, called or not, registers a route with `object`.
pub open spec fn decorates_route(
    module: Seq<char>,
    body: Seq<Stmt>,
    imports: ImportModel,
    decorator: Expr,
    object: SymbolId,
) -> bool {
    match decorator {
        Expr::Attribute { value, attr, .. } => registers_route(attr@) && stands_for(
            module,
            body,
            imports,
            *value,
            object,
        ),
        Expr::Call { func, .. } => match *func {
            Expr::Attribute { value, attr, .. } => registers_route(attr@) && stands_for(
                module,
                body,
                imports,
                *value,
                object,
            ),
            _ => false,
        },
        _ => false,
    }
}

/// The routes of a module are those that the decorators of its functions register.
pub proof fn lemma_routes(source: SourceModel, body: Seq<Stmt>, edge: Edge)
    ensures
        module_model(source, body).fastapi.routes.contains(edge) <==> edge.1.0 == source.module
            && exists|i: int|
            0 <= i < body.len() && stmt_routes(
                source.module,
                body,
                module_model(source, body).imports,
                (#[trigger] body[i]).kind,
                edge,
            ),
{
    let scope = module_scope(source, body);
    let imports = module_model(source, body).imports;
    assert forall|i: int| 0 <= i < body.len() implies (routes_of(
        scope,
        (#[trigger] body[i]).kind,
        edge,
    ) <==> edge.1.0 == source.module && stmt_routes(
        source.module,
        body,
        imports,
        body[i].kind,
        edge,
    )) by {
        if let StmtKind::FunctionDef { name, decorators, .. } = body[i].kind {
            assert forall|j: int| 0 <= j < decorators@.len() implies (routed_object(
                scope,
                #[trigger] decorators@[j],
            ) == Some(edge.0) <==> decorates_route(
                source.module,
                body,
                imports,
                decorators@[j],
                edge.0,
            )) by {
                match decorators@[j] {
                    Expr::Attribute { value, .. } => {
                        lemma_stands_for(source, body, *value, edge.0);
                    },
                    Expr::Call { func, .. } => {
                        if let Expr::Attribute { value, .. } = *func {
                            lemma_stands_for(source, body, *value, edge.0);
                        }
                    },
                    _ => {},
                }
            }
        }
    }
}

/// Whether a statement defines the function `edge.1` with a decorator that registers it with
/// `edge.0`.
pub open spec fn stmt_routes(
    module: Seq<char>,
    body: Seq<Stmt>,
    imports: ImportModel,
    kind: StmtKind,
    edge: Edge,
) -> bool {
    match kind {
        StmtKind::FunctionDef { name, decorators, .. } => edge.1.1 == name@ && exists|j: int|
            0 <= j < decorators@.len() && decorates_route(
                module,
                body,
                imports,
                #[trigger] decorators@[j],
                edge.0,
            ),
        _ => false,
    }
}

/// The FastAPI objects of a project are those of its modules.
pub proof fn lemma_all_objects(modules: TableModel, id: SymbolId)
    ensures
        all_objects(modules).contains(id) <==> exists|m: Seq<char>| #[trigger]
            modules.contains_key(m) && modules[m].fastapi.objects.contains_key(id),
{
    let gives = holds_object(modules);
    if all_objects(modules).contains(id) {
        let m = choose|m: Seq<char>| #[trigger] modules.dom().contains(m) && gives(m, id);
        assert(modules.contains_key(m));
    }
    if exists|m: Seq<char>| #[trigger]
        modules.contains_key(m) && modules[m].fastapi.objects.contains_key(id) {
        let m = choose|m: Seq<char>| #[trigger]
            modules.contains_key(m) && modules[m].fastapi.objects.contains_key(id);
        assert(modules.dom().contains(m) && gives(m, id));
    }
}

/// Only the objects that are entry points, and those that are mounted on live ones, are live:
/// every set that holds the former, and with an object those that are mounted on it, holds all.
pub proof fn lemma_live_objects_least(modules: TableModel, roots: Set<SymbolId>, set: Set<SymbolId>)
    requires
        forall|id: SymbolId| #[trigger]
            roots.contains(id) && all_objects(modules).contains(id) ==> set.contains(id),
        forall|m: Seq<char>, parent: SymbolId, child: SymbolId|
            set.contains(parent) && modules.contains_key(m)
                && #[trigger] modules[m].fastapi.includes.contains((parent, child)) && all_objects(
                modules,
            ).contains(child) ==> set.contains(child),
    ensures
        live_objects(modules, roots).subset_of(set),
{
    let step = mount_step(modules);
    let gives = mounts_object(modules);
    assert forall|a: SymbolId, b: SymbolId| set.contains(a) && #[trigger] step(
        a,
        b,
    ) implies set.contains(b) by {
        let m = choose|m: Seq<char>| #[trigger] modules.dom().contains(m) && gives(m, (a, b));
        assert(modules[m].fastapi.includes.contains((a, b)));
    }
    lemma_reachable_least(roots.intersect(all_objects(modules)), step, set);
}

/// What is served is the live objects and the functions that are registered with them.
pub proof fn lemma_served_exact(modules: TableModel, roots: Set<SymbolId>, id: SymbolId)
    ensures
        served_symbols(modules, roots).contains(id) <==> live_objects(modules, roots).contains(id)
            || exists|m: Seq<char>, router: SymbolId|
            modules.contains_key(m) && live_objects(modules, roots).contains(router)
                && #[trigger] modules[m].fastapi.routes.contains((router, id)),
{
    let live = live_objects(modules, roots);
    let gives = serves_handler(modules, live);
    if union_over(modules.dom(), gives).contains(id) {
        let m = choose|m: Seq<char>| #[trigger] modules.dom().contains(m) && gives(m, id);
        let router = choose|router: SymbolId| #[trigger]
            live.contains(router) && modules[m].fastapi.routes.contains((router, id));
        assert(modules[m].fastapi.routes.contains((router, id)));
    }
    if exists|m: Seq<char>, router: SymbolId|
        modules.contains_key(m) && live.contains(router)
            && #[trigger] modules[m].fastapi.routes.contains((router, id)) {
        let (m, router) = choose|m: Seq<char>, router: SymbolId|
            modules.contains_key(m) && live.contains(router)
                && #[trigger] modules[m].fastapi.routes.contains((router, id));
        assert(live.contains(router));
        assert(registers(modules[m], live, id));
        assert(modules.dom().contains(m) && gives(m, id));
    }
}

/// A name that is bound to an imported module, followed by an attribute, stands for the symbol of
/// that module: where a live module mounts it on a served object with `include_router`, and it is
/// a FastAPI object, it is served and so is every function that a live module registers with it.
pub proof fn lemma_router_of_module_served(
    input: AnalysisModel,
    file: Seq<char>,
    i: int,
    on: Expr,
    on_ctx: ExprContext,
    method: String,
    args: Vec<Expr>,
    keywords: Vec<Keyword>,
    name: String,
    name_ctx: ExprContext,
    attr: String,
    attr_ctx: ExprContext,
    parent: SymbolId,
    owner: Seq<char>,
    handler: SymbolId,
)
    requires
        holds_module(input, file),
        0 <= i < input.sources[file].body.len(),
        input.sources[file].body[i].kind == (StmtKind::Expr {
            value: Expr::Call {
                func: Box::new(
                    Expr::Attribute { value: Box::new(on), attr: method, ctx: on_ctx },
                ),
                args,
                keywords,
            },
        }),
        method@ == "include_router"@,
        args@.len() > 0,
        args@[0] == (Expr::Attribute {
            value: Box::new(Expr::Name { id: name, ctx: name_ctx }),
            attr,
            ctx: attr_ctx,
        }),
        ({
            let imports = module_model(
                source_of(input, file),
                input.sources[file].body,
            ).imports;
            &&& imports.contains_key(name@)
            &&& imports[name@] == TargetModel::Module(owner)
            &&& stands_for(
                input.graph.files[file],
                input.sources[file].body,
                imports,
                on,
                parent,
            )
        }),
        live_objects(live_modules(input), input.entries).contains(parent),
        all_objects(live_modules(input)).contains((owner, attr@)),
    ensures
        live_objects(live_modules(input), input.entries).contains((owner, attr@)),
        !is_reported(input, (owner, attr@)),
        (exists|m: Seq<char>| #[trigger]
            live_modules(input).contains_key(m) && live_modules(
                input,
            )[m].fastapi.routes.contains(((owner, attr@), handler))) ==> !is_reported(
            input,
            handler,
        ),
{
    let body = input.sources[file].body;
    let source = source_of(input, file);
    let modules = live_modules(input);
    let module = input.graph.files[file];
    let imports = module_model(source, body).imports;
    let child = (owner, attr@);
    let edge = (parent, child);
    lemma_live_module(input, file);
    reveal_with_fuel(module_of_expr, 2);
    assert(stands_for(module, body, imports, args@[0], child));
    assert(passes_router(args@, keywords@, args@[0]));
    if let StmtKind::Expr { value } = body[i].kind {
        if let Expr::Call { func, args: given, keywords: named } = value {
            assert(given == args && named == keywords);
            assert(*func == (Expr::Attribute { value: Box::new(on), attr: method, ctx: on_ctx }));
            assert(stands_for(module, body, imports, on, parent));
            let argument = args@[0];
            assert(edge.0 == parent);
            assert(edge.1 == child);
            assert(passes_router(given@, named@, argument));
            assert(stands_for(module, body, imports, argument, edge.1));
            match *func {
                Expr::Attribute { value: object, attr: called, .. } => {
                    assert(called@ == "include_router"@);
                    assert(stands_for(module, body, imports, *object, edge.0));
                },
                _ => {
                    assert(false);
                },
            }
            assert(mounts(module, body, imports, value, edge));
        }
    }
    assert(stmt_mounts(module, body, imports, body[i].kind, edge));
    lemma_includes(source, body, edge);
    crate::symbol_laws::lemma_mounted_object_served(
        modules,
        input.entries,
        module,
        parent,
        child,
    );
    lemma_served_not_reported(input, child);
    if exists|m: Seq<char>| #[trigger]
        modules.contains_key(m) && modules[m].fastapi.routes.contains((child, handler)) {
        let m = choose|m: Seq<char>| #[trigger]
            modules.contains_key(m) && modules[m].fastapi.routes.contains((child, handler));
        crate::symbol_laws::lemma_handler_served(modules, input.entries, m, child, handler);
        lemma_served_not_reported(input, handler);
    }
}

/// A function that a decorator of a live module registers with a served object, named or reached
/// through a module, is not reported.
pub proof fn lemma_route_handler_not_reported(
    input: AnalysisModel,
    file: Seq<char>,
    i: int,
    n: Seq<char>,
    object: SymbolId,
)
    requires
        holds_module(input, file),
        0 <= i < input.sources[file].body.len(),
        stmt_routes(
            input.graph.files[file],
            input.sources[file].body,
            module_model(source_of(input, file), input.sources[file].body).imports,
            input.sources[file].body[i].kind,
            (object, (input.graph.files[file], n)),
        ),
        live_objects(live_modules(input), input.entries).contains(object),
    ensures
        !is_reported(input, (input.graph.files[file], n)),
{
    let source = source_of(input, file);
    let handler = (input.graph.files[file], n);
    lemma_live_module(input, file);
    lemma_routes(source, input.sources[file].body, (object, handler));
    crate::symbol_laws::lemma_handler_served(
        live_modules(input),
        input.entries,
        input.graph.files[file],
        object,
        handler,
    );
    lemma_served_not_reported(input, handler);
}

} // verus!
