//! FastAPI applications, the routers they mount and the handlers those serve.

use crate::ast::{Expr, Keyword, Stmt, StmtKind};
use crate::collections::{
    bound_last, gathered, in_order, lemma_gathered_empty, lemma_gathered_push, lemma_gathered_set,
    lemma_rebound_concat, lemma_rebound_push, lemma_to_set_push, rebound, union_over, SortedMap, SortedSet,
};
use crate::collector::{extend_keys, ModuleModel, ModuleSymbols};
use crate::imports::{
    bare_name, id_of, module_of_expr, resolve_module_expression, simple_name, text_of, ImportMap,
    ImportModel, ImportTarget, TargetModel,
};
use crate::keys::{SymbolId, SymbolKey};
use crate::order::{
    lemma_pair_irreflexive, lemma_pair_total, lemma_pair_transitive, pair_precedes, place_pair,
    Ordered, Placement,
};
use crate::liveness::{ModuleTable, TableModel};
use crate::reach::{add_edge, edges, explore, reachable, steps};
use crate::references::{named_symbol, Scope};
use crate::text::{dotted, join_dotted, same_text};
use vstd::prelude::*;

verus! {

#[derive(Clone, Copy, Debug, PartialEq, Eq, Structural)]
pub enum ObjectKind {
    App,
    Router,
}

impl View for ObjectKind {
    type V = ObjectKind;

    open spec fn view(&self) -> ObjectKind {
        *self
    }
}

/// An ordered pair of symbols.
pub type Edge = (SymbolId, SymbolId);

/// `parent` mounts the router `child`.
#[derive(Debug)]
pub struct IncludeEdge {
    pub parent: SymbolKey,
    pub child: SymbolKey,
}

impl View for IncludeEdge {
    type V = Edge;

    open spec fn view(&self) -> Edge {
        (self.parent@, self.child@)
    }
}

/// `router` serves the function `handler`.
#[derive(Debug)]
pub struct RouteEdge {
    pub router: SymbolKey,
    pub handler: SymbolKey,
}

impl View for RouteEdge {
    type V = Edge;

    open spec fn view(&self) -> Edge {
        (self.router@, self.handler@)
    }
}

impl Ordered for IncludeEdge {
    open spec fn precedes(a: Edge, b: Edge) -> bool {
        pair_precedes::<SymbolKey, SymbolKey>(a, b)
    }

    proof fn precedes_irreflexive(a: Edge) {
        lemma_pair_irreflexive::<SymbolKey, SymbolKey>(a);
    }

    proof fn precedes_transitive(a: Edge, b: Edge, c: Edge) {
        lemma_pair_transitive::<SymbolKey, SymbolKey>(a, b, c);
    }

    proof fn precedes_total(a: Edge, b: Edge) {
        lemma_pair_total::<SymbolKey, SymbolKey>(a, b);
    }

    fn place(&self, other: &Self) -> (placement: Placement) {
        place_pair(&self.parent, &self.child, &other.parent, &other.child)
    }

    fn duplicate(&self) -> (copy: Self) {
        IncludeEdge { parent: self.parent.duplicate(), child: self.child.duplicate() }
    }
}

impl Ordered for RouteEdge {
    open spec fn precedes(a: Edge, b: Edge) -> bool {
        pair_precedes::<SymbolKey, SymbolKey>(a, b)
    }

    proof fn precedes_irreflexive(a: Edge) {
        lemma_pair_irreflexive::<SymbolKey, SymbolKey>(a);
    }

    proof fn precedes_transitive(a: Edge, b: Edge, c: Edge) {
        lemma_pair_transitive::<SymbolKey, SymbolKey>(a, b, c);
    }

    proof fn precedes_total(a: Edge, b: Edge) {
        lemma_pair_total::<SymbolKey, SymbolKey>(a, b);
    }

    fn place(&self, other: &Self) -> (placement: Placement) {
        place_pair(&self.router, &self.handler, &other.router, &other.handler)
    }

    fn duplicate(&self) -> (copy: Self) {
        RouteEdge { router: self.router.duplicate(), handler: self.handler.duplicate() }
    }
}

/// The FastAPI objects of a module, and how they are wired.
pub struct ModuleInfo {
    pub objects: SortedMap<SymbolKey, ObjectKind>,
    pub includes: SortedSet<IncludeEdge>,
    pub routes: SortedSet<RouteEdge>,
}

pub struct InfoModel {
    pub objects: Map<SymbolId, ObjectKind>,
    pub includes: Set<Edge>,
    pub routes: Set<Edge>,
}

impl View for ModuleInfo {
    type V = InfoModel;

    open spec fn view(&self) -> InfoModel {
        InfoModel { objects: self.objects@, includes: self.includes@, routes: self.routes@ }
    }
}

/// The meaning of names at the top level of a module.
pub open spec fn top_level(
    module: Seq<char>,
    locals: Set<Seq<char>>,
    imports: ImportModel,
) -> Scope {
    Scope { module, locals, imports, shadowed: Set::empty() }
}

/// The full path of a dotted expression; a name that is not imported stands for itself.
pub open spec fn full_path(expr: Expr, imports: ImportModel) -> Option<Seq<char>>
    decreases expr,
{
    match expr {
        Expr::Name { id, .. } => if imports.contains_key(id@) {
            match imports[id@] {
                TargetModel::Module(module) => Some(module),
                TargetModel::Symbol(symbol) => Some(dotted(symbol.0, symbol.1)),
            }
        } else {
            Some(id@)
        },
        Expr::Attribute { value, attr, .. } => match module_of_expr(*value, imports) {
            Some(module) => Some(dotted(module, attr@)),
            None => match full_path(*value, imports) {
                Some(prefix) => Some(dotted(prefix, attr@)),
                None => None,
            },
        },
        _ => None,
    }
}

pub fn expression_path(expr: &Expr, imports: &ImportMap) -> (path: Option<String>)
    ensures
        text_of(path) == full_path(*expr, imports@),
    decreases *expr,
{
    match expr {
        Expr::Name { id, .. } => match imports.get(id) {
            Some(ImportTarget::Module(module)) => Some(module.clone()),
            Some(ImportTarget::Symbol(symbol)) => Some(
                join_dotted(symbol.module.as_str(), symbol.symbol_name.as_str()),
            ),
            None => Some(id.clone()),
        },
        Expr::Attribute { value, attr, .. } => match resolve_module_expression(value, imports) {
            Some(module) => Some(join_dotted(module.as_str(), attr.as_str())),
            None => match expression_path(value, imports) {
                Some(prefix) => Some(join_dotted(prefix.as_str(), attr.as_str())),
                None => None,
            },
        },
        _ => None,
    }
}

/// The FastAPI object that an expression constructs.
pub open spec fn constructed(expr: Expr, imports: ImportModel) -> Option<ObjectKind> {
    match expr {
        Expr::Call { func, .. } => {
            let path = full_path(*func, imports);
            if path == Some("fastapi.FastAPI"@) {
                Some(ObjectKind::App)
            } else if path == Some("fastapi.APIRouter"@) {
                Some(ObjectKind::Router)
            } else {
                None
            }
        },
        _ => None,
    }
}

pub fn fastapi_constructor_kind(expr: &Expr, imports: &ImportMap) -> (kind: Option<ObjectKind>)
    ensures
        kind == constructed(*expr, imports@),
{
    match expr {
        Expr::Call { func, .. } => match expression_path(func, imports) {
            Some(path) => if same_text(path.as_str(), "fastapi.FastAPI") {
                Some(ObjectKind::App)
            } else if same_text(path.as_str(), "fastapi.APIRouter") {
                Some(ObjectKind::Router)
            } else {
                None
            },
            None => None,
        },
        _ => None,
    }
}

/// The symbol that an expression stands for at the top level of a module.
pub open spec fn symbol_of_expr(scope: Scope, expr: Expr) -> Option<SymbolId> {
    match expr {
        Expr::Name { id, .. } => named_symbol(scope, id@),
        Expr::Attribute { value, attr, .. } => match module_of_expr(*value, scope.imports) {
            Some(module) => Some((module, attr@)),
            None => None,
        },
        _ => None,
    }
}

pub fn resolve_symbol_expression(
    expr: &Expr,
    module: &String,
    imports: &ImportMap,
    local_symbols: &SortedSet<String>,
) -> (symbol: Option<SymbolKey>)
    ensures
        id_of(symbol) == symbol_of_expr(top_level(module@, local_symbols@, imports@), *expr),
{
    match expr {
        Expr::Name { id, .. } => {
            if local_symbols.contains(id) {
                return Some(SymbolKey::new(module.clone(), id.clone()));
            }
            match imports.get(id) {
                Some(ImportTarget::Symbol(symbol)) => Some(symbol.duplicate()),
                _ => None,
            }
        },
        Expr::Attribute { value, attr, .. } => match resolve_module_expression(value, imports) {
            Some(owner) => Some(SymbolKey::new(owner, attr.clone())),
            None => None,
        },
        _ => None,
    }
}

/// The value that a statement evaluates or assigns.
pub open spec fn stated_value(kind: StmtKind) -> Option<Expr> {
    match kind {
        StmtKind::Expr { value } => Some(value),
        StmtKind::Assign { value, .. } => Some(value),
        StmtKind::AnnAssign { initial, .. } => initial,
        _ => None,
    }
}

pub fn statement_expression(kind: &StmtKind) -> (value: Option<&Expr>)
    ensures
        match value {
            Some(v) => stated_value(*kind) == Some(*v),
            None => stated_value(*kind) is None,
        },
{
    match kind {
        StmtKind::Expr { value } => Some(value),
        StmtKind::Assign { value, .. } => Some(value),
        StmtKind::AnnAssign { initial, .. } => initial.as_ref(),
        _ => None,
    }
}

/// The value of the first keyword argument named `router`.
pub open spec fn router_keyword(keywords: Seq<Keyword>) -> Option<Expr>
    decreases keywords.len(),
{
    if keywords.len() == 0 {
        None
    } else if text_of(keywords[0].arg) == Some("router"@) {
        Some(keywords[0].value)
    } else {
        router_keyword(keywords.drop_first())
    }
}

/// The router passed to `include_router`: the first positional argument, else `router=`.
pub open spec fn router_argument(args: Seq<Expr>, keywords: Seq<Keyword>) -> Option<Expr> {
    if args.len() > 0 {
        Some(args[0])
    } else {
        router_keyword(keywords)
    }
}

/// The mounting that an expression performs: the object that `include_router` is called on, and
/// the router passed to it.
pub open spec fn mounting(scope: Scope, expr: Expr) -> Option<Edge> {
    match expr {
        Expr::Call { func, args, keywords } => match *func {
            Expr::Attribute { value, attr, .. } => if attr@ == "include_router"@ {
                match (symbol_of_expr(scope, *value), router_argument(args@, keywords@)) {
                    (Some(parent), Some(argument)) => match symbol_of_expr(scope, argument) {
                        Some(child) => Some((parent, child)),
                        None => None,
                    },
                    _ => None,
                }
            } else {
                None
            },
            _ => None,
        },
        _ => None,
    }
}

fn find_router_keyword<'a>(keywords: &'a Vec<Keyword>) -> (value: Option<&'a Expr>)
    ensures
        match value {
            Some(v) => router_keyword(keywords@) == Some(*v),
            None => router_keyword(keywords@) is None,
        },
{
    let mut i: usize = 0;
    assert(keywords@.skip(0) =~= keywords@);
    while i < keywords.len()
        invariant
            i <= keywords@.len(),
            router_keyword(keywords@) == router_keyword(keywords@.skip(i as int)),
        decreases keywords@.len() - i,
    {
        if let Some(arg) = &keywords[i].arg {
            if same_text(arg.as_str(), "router") {
                return Some(&keywords[i].value);
            }
        }
        assert(keywords@.skip(i as int).drop_first() =~= keywords@.skip(i + 1));
        i += 1;
    }
    None
}

pub fn include_router_edge(
    expr: &Expr,
    module: &String,
    imports: &ImportMap,
    local_symbols: &SortedSet<String>,
) -> (edge: Option<IncludeEdge>)
    ensures
        match edge {
            Some(e) => mounting(top_level(module@, local_symbols@, imports@), *expr) == Some(e@),
            None => mounting(top_level(module@, local_symbols@, imports@), *expr) is None,
        },
{
    if let Expr::Call { func, args, keywords } = expr {
        if let Expr::Attribute { value, attr, .. } = &**func {
            if !same_text(attr.as_str(), "include_router") {
                return None;
            }
            let parent = match resolve_symbol_expression(value, module, imports, local_symbols) {
                Some(parent) => parent,
                None => {
                    return None;
                },
            };
            let argument = if args.len() > 0 {
                &args[0]
            } else {
                match find_router_keyword(keywords) {
                    Some(argument) => argument,
                    None => {
                        return None;
                    },
                }
            };
            return match resolve_symbol_expression(argument, module, imports, local_symbols) {
                Some(child) => Some(IncludeEdge { parent, child }),
                None => None,
            };
        }
    }
    None
}

/// The decorators that register a handler.
pub open spec fn is_route_name(name: Seq<char>) -> bool {
    ||| name == "get"@
    ||| name == "post"@
    ||| name == "put"@
    ||| name == "patch"@
    ||| name == "delete"@
    ||| name == "options"@
    ||| name == "head"@
    ||| name == "api_route"@
    ||| name == "websocket"@
}

fn route_name(name: &str) -> (yes: bool)
    ensures
        yes == is_route_name(name@),
{
    same_text(name, "get") || same_text(name, "post") || same_text(name, "put") || same_text(
        name,
        "patch",
    ) || same_text(name, "delete") || same_text(name, "options") || same_text(name, "head")
        || same_text(name, "api_route") || same_text(name, "websocket")
}

/// What is called, where an expression is a call; else the expression itself.
pub open spec fn callee(expr: Expr) -> Expr {
    match expr {
        Expr::Call { func, .. } => *func,
        _ => expr,
    }
}

/// The object whose route a decorator registers.
pub open spec fn routed_object(scope: Scope, decorator: Expr) -> Option<SymbolId> {
    match callee(decorator) {
        Expr::Attribute { value, attr, .. } => if is_route_name(attr@) {
            symbol_of_expr(scope, *value)
        } else {
            None
        },
        _ => None,
    }
}

pub fn route_decorator_object(
    expr: &Expr,
    module: &String,
    imports: &ImportMap,
    local_symbols: &SortedSet<String>,
) -> (object: Option<SymbolKey>)
    ensures
        id_of(object) == routed_object(top_level(module@, local_symbols@, imports@), *expr),
{
    let func = match expr {
        Expr::Call { func, .. } => &**func,
        other => other,
    };
    if let Expr::Attribute { value, attr, .. } = func {
        if route_name(attr.as_str()) {
            return resolve_symbol_expression(value, module, imports, local_symbols);
        }
    }
    None
}

/// The names that an assignment's targets bind to an object of kind `kind`.
pub open spec fn object_bindings(
    module: Seq<char>,
    targets: Seq<Expr>,
    kind: ObjectKind,
) -> Seq<(SymbolId, ObjectKind)>
    decreases targets.len(),
{
    if targets.len() == 0 {
        Seq::empty()
    } else {
        let earlier = object_bindings(module, targets.drop_last(), kind);
        match bare_name(targets.last()) {
            Some(name) => earlier.push(((module, name), kind)),
            None => earlier,
        }
    }
}

/// The FastAPI objects that a statement assigns to names.
pub open spec fn assigned_objects(
    module: Seq<char>,
    imports: ImportModel,
    kind: StmtKind,
) -> Seq<(SymbolId, ObjectKind)> {
    match kind {
        StmtKind::Assign { targets, value } => match constructed(value, imports) {
            Some(object) => object_bindings(module, targets@, object),
            None => Seq::empty(),
        },
        StmtKind::AnnAssign { target, initial: Some(value), simple: true } => match constructed(
            value,
            imports,
        ) {
            Some(object) => object_bindings(module, seq![target], object),
            None => Seq::empty(),
        },
        _ => Seq::empty(),
    }
}

/// The FastAPI objects that a module's statements assign to names.
pub open spec fn module_objects(
    module: Seq<char>,
    imports: ImportModel,
    body: Seq<Stmt>,
) -> Seq<(SymbolId, ObjectKind)>
    decreases body.len(),
{
    if body.len() == 0 {
        Seq::empty()
    } else {
        module_objects(module, imports, body.drop_last()) + assigned_objects(
            module,
            imports,
            body.last().kind,
        )
    }
}

/// The mounting that a statement performs.
pub open spec fn stmt_mounting(scope: Scope, kind: StmtKind) -> Option<Edge> {
    match stated_value(kind) {
        Some(value) => mounting(scope, value),
        None => None,
    }
}

pub open spec fn module_includes(scope: Scope, body: Seq<Stmt>) -> Set<Edge> {
    Set::new(
        |e: Edge|
            exists|i: int|
                0 <= i < body.len() && stmt_mounting(scope, (#[trigger] body[i]).kind) == Some(e),
    )
}

/// Whether `kind` defines the handler `edge.1` with a decorator that registers it with `edge.0`.
pub open spec fn routes_of(scope: Scope, kind: StmtKind, edge: Edge) -> bool {
    match kind {
        StmtKind::FunctionDef { name, decorators, .. } => edge.1 == (scope.module, name@)
            && exists|j: int|
            0 <= j < decorators@.len() && routed_object(scope, #[trigger] decorators@[j]) == Some(
                edge.0,
            ),
        _ => false,
    }
}

pub open spec fn module_routes(scope: Scope, body: Seq<Stmt>) -> Set<Edge> {
    Set::new(
        |e: Edge|
            exists|i: int| 0 <= i < body.len() && routes_of(scope, (#[trigger] body[i]).kind, e),
    )
}

/// The FastAPI objects, mountings and routes of a module.
pub open spec fn module_info(scope: Scope, body: Seq<Stmt>) -> InfoModel {
    InfoModel {
        objects: bound_last(module_objects(scope.module, scope.imports, body)),
        includes: module_includes(scope, body),
        routes: module_routes(scope, body),
    }
}

fn bind_objects(
    module: &String,
    targets: &Vec<Expr>,
    kind: ObjectKind,
    objects: &mut SortedMap<SymbolKey, ObjectKind>,
)
    ensures
        final(objects)@ == rebound(old(objects)@, object_bindings(module@, targets@, kind)),
{
    let ghost start = objects@;
    let mut i: usize = 0;
    assert(object_bindings(module@, targets@.take(0), kind) =~= Seq::empty());
    while i < targets.len()
        invariant
            i <= targets@.len(),
            objects@ == rebound(start, object_bindings(module@, targets@.take(i as int), kind)),
        decreases targets@.len() - i,
    {
        let ghost earlier = object_bindings(module@, targets@.take(i as int), kind);
        assert(targets@.take(i + 1).drop_last() =~= targets@.take(i as int));
        if let Some(name) = simple_name(&targets[i]) {
            objects.insert(SymbolKey::new(module.clone(), name.clone()), kind);
            proof {
                lemma_rebound_push(start, earlier, ((module@, name@), kind));
            }
        }
        i += 1;
    }
    assert(targets@.take(i as int) =~= targets@);
}

pub fn collect_object_assignment(
    module: &String,
    kind: &StmtKind,
    imports: &ImportMap,
    info: &mut ModuleInfo,
)
    ensures
        final(info)@ == (InfoModel {
            objects: rebound(old(info)@.objects, assigned_objects(module@, imports@, *kind)),
            includes: old(info)@.includes,
            routes: old(info)@.routes,
        }),
{
    match kind {
        StmtKind::Assign { targets, value } => {
            if let Some(object) = fastapi_constructor_kind(value, imports) {
                bind_objects(module, targets, object, &mut info.objects);
            }
        },
        StmtKind::AnnAssign { target, initial: Some(value), simple: true } => {
            if let Some(object) = fastapi_constructor_kind(value, imports) {
                proof {
                    let list = seq![*target];
                    assert(list.drop_last() =~= Seq::empty());
                    assert(object_bindings(module@, list.drop_last(), object) =~= Seq::empty());
                }
                if let Some(name) = simple_name(target) {
                    proof {
                        lemma_rebound_push(
                            info.objects@,
                            Seq::empty(),
                            ((module@, name@), object),
                        );
                        assert(Seq::<(SymbolId, ObjectKind)>::empty().push(
                            ((module@, name@), object),
                        ) =~= object_bindings(module@, seq![*target], object));
                    }
                    info.objects.insert(SymbolKey::new(module.clone(), name.clone()), object);
                }
            }
        },
        _ => {},
    }
}

pub fn collect_include_edge(
    module: &String,
    kind: &StmtKind,
    imports: &ImportMap,
    local_symbols: &SortedSet<String>,
    info: &mut ModuleInfo,
)
    ensures
        final(info)@ == (InfoModel {
            includes: match stmt_mounting(top_level(module@, local_symbols@, imports@), *kind) {
                Some(edge) => old(info)@.includes.insert(edge),
                None => old(info)@.includes,
            },
            objects: old(info)@.objects,
            routes: old(info)@.routes,
        }),
{
    if let Some(value) = statement_expression(kind) {
        if let Some(edge) = include_router_edge(value, module, imports, local_symbols) {
            info.includes.insert(edge);
        }
    }
}

pub fn collect_route_edge(
    module: &String,
    kind: &StmtKind,
    imports: &ImportMap,
    local_symbols: &SortedSet<String>,
    info: &mut ModuleInfo,
)
    ensures
        final(info)@ == (InfoModel {
            routes: old(info)@.routes.union(
                Set::new(
                    |e: Edge| routes_of(top_level(module@, local_symbols@, imports@), *kind, e),
                ),
            ),
            objects: old(info)@.objects,
            includes: old(info)@.includes,
        }),
{
    let ghost scope = top_level(module@, local_symbols@, imports@);
    let ghost start = info@;
    let ghost added = Set::new(|e: Edge| routes_of(scope, *kind, e));
    match kind {
        StmtKind::FunctionDef { name, decorators, .. } => {
            let mut i: usize = 0;
            while i < decorators.len()
                invariant
                    i <= decorators@.len(),
                    scope == top_level(module@, local_symbols@, imports@),
                    info@.objects == start.objects,
                    info@.includes == start.includes,
                    forall|e: Edge| #[trigger]
                        info@.routes.contains(e) <==> start.routes.contains(e) || (e.1 == (
                            module@,
                            name@,
                        ) && exists|j: int|
                            0 <= j < i && routed_object(scope, #[trigger] decorators@[j]) == Some(
                                e.0,
                            )),
                decreases decorators@.len() - i,
            {
                let ghost before = info@.routes;
                let object = route_decorator_object(&decorators[i], module, imports, local_symbols);
                let ghost found = id_of(object);
                if let Some(router) = object {
                    let handler = SymbolKey::new(module.clone(), name.clone());
                    info.routes.insert(RouteEdge { router, handler });
                }
                proof {
                    assert forall|e: Edge| #[trigger]
                        info@.routes.contains(e) <==> start.routes.contains(e) || (e.1 == (
                            module@,
                            name@,
                        ) && exists|j: int|
                            0 <= j < i + 1 && routed_object(scope, #[trigger] decorators@[j])
                                == Some(e.0)) by {
                        assert(info@.routes.contains(e) <==> before.contains(e) || (e.1 == (
                            module@,
                            name@,
                        ) && found == Some(e.0)));
                        assert(routed_object(scope, decorators@[i as int]) == found);
                    }
                }
                i += 1;
            }
            assert(info@.routes =~= start.routes.union(added));
        },
        _ => {
            assert(start.routes.union(added) =~= start.routes);
        },
    }
}

pub fn collect_module_info(
    module: &String,
    body: &Vec<Stmt>,
    imports: &ImportMap,
    local_symbols: &SortedSet<String>,
) -> (info: ModuleInfo)
    ensures
        info@ == module_info(top_level(module@, local_symbols@, imports@), body@),
{
    let ghost scope = top_level(module@, local_symbols@, imports@);
    let mut info = ModuleInfo {
        objects: SortedMap::new(),
        includes: SortedSet::new(),
        routes: SortedSet::new(),
    };
    let mut i: usize = 0;
    proof {
        assert(module_objects(module@, imports@, body@.take(0)) =~= Seq::empty());
        assert(info@.includes =~= module_includes(scope, body@.take(0)));
        assert(info@.routes =~= module_routes(scope, body@.take(0)));
    }
    while i < body.len()
        invariant
            i <= body@.len(),
            scope == top_level(module@, local_symbols@, imports@),
            info@ == module_info(scope, body@.take(i as int)),
        decreases body@.len() - i,
    {
        let ghost shorter = body@.take(i as int);
        let ghost longer = body@.take(i + 1);
        let ghost kind = body@[i as int].kind;
        collect_object_assignment(module, &body[i].kind, imports, &mut info);
        collect_include_edge(module, &body[i].kind, imports, local_symbols, &mut info);
        collect_route_edge(module, &body[i].kind, imports, local_symbols, &mut info);
        proof {
            assert(longer =~= shorter.push(body@[i as int]));
            assert(longer.drop_last() =~= shorter);
            lemma_rebound_concat(
                Map::empty(),
                module_objects(module@, imports@, shorter),
                assigned_objects(module@, imports@, kind),
            );
            assert forall|e: Edge|
                module_includes(scope, longer).contains(e) == (module_includes(
                    scope,
                    shorter,
                ).contains(e) || stmt_mounting(scope, kind) == Some(e)) by {
                if module_includes(scope, shorter).contains(e) {
                    let j = choose|j: int|
                        0 <= j < shorter.len() && stmt_mounting(scope, (#[trigger] shorter[j]).kind)
                            == Some(e);
                    assert(longer[j] == shorter[j]);
                }
                if stmt_mounting(scope, kind) == Some(e) {
                    assert(longer[i as int].kind == kind);
                }
                if module_includes(scope, longer).contains(e) {
                    let j = choose|j: int|
                        0 <= j < longer.len() && stmt_mounting(scope, (#[trigger] longer[j]).kind)
                            == Some(e);
                    if j < i {
                        assert(longer[j] == shorter[j]);
                    }
                }
            }
            assert forall|e: Edge|
                module_routes(scope, longer).contains(e) == (module_routes(scope, shorter).contains(
                    e,
                ) || routes_of(scope, kind, e)) by {
                if module_routes(scope, shorter).contains(e) {
                    let j = choose|j: int|
                        0 <= j < shorter.len() && routes_of(scope, (#[trigger] shorter[j]).kind, e);
                    assert(longer[j] == shorter[j]);
                }
                if routes_of(scope, kind, e) {
                    assert(longer[i as int].kind == kind);
                }
                if module_routes(scope, longer).contains(e) {
                    let j = choose|j: int|
                        0 <= j < longer.len() && routes_of(scope, (#[trigger] longer[j]).kind, e);
                    if j < i {
                        assert(longer[j] == shorter[j]);
                    }
                }
            }
            assert(info@.includes =~= module_includes(scope, longer));
            assert(info@.routes =~= module_routes(scope, longer));
        }
        i += 1;
    }
    assert(body@.take(i as int) =~= body@);
    info
}

/// Which FastAPI objects a module holds.
pub open spec fn holds_object(modules: TableModel) -> spec_fn(Seq<char>, SymbolId) -> bool {
    |m: Seq<char>, id: SymbolId| modules[m].fastapi.objects.contains_key(id)
}

/// The FastAPI objects of all modules.
pub open spec fn all_objects(modules: TableModel) -> Set<SymbolId> {
    union_over(modules.dom(), holds_object(modules))
}

/// Which mountings of FastAPI objects a module performs.
pub open spec fn mounts_object(modules: TableModel) -> spec_fn(Seq<char>, Edge) -> bool {
    |m: Seq<char>, e: Edge|
        modules[m].fastapi.includes.contains(e) && all_objects(modules).contains(e.1)
}

/// The mountings of FastAPI objects, as pairs of a parent and a child.
pub open spec fn all_mountings(modules: TableModel) -> Set<Edge> {
    union_over(modules.dom(), mounts_object(modules))
}

/// The step from an object to a FastAPI object mounted on it.
pub open spec fn mount_step(modules: TableModel) -> spec_fn(SymbolId, SymbolId) -> bool {
    |a: SymbolId, b: SymbolId| all_mountings(modules).contains((a, b))
}

/// The FastAPI objects among the roots, and those mounted on them, directly or not.
pub open spec fn live_objects(modules: TableModel, roots: Set<SymbolId>) -> Set<SymbolId> {
    reachable(roots.intersect(all_objects(modules)), mount_step(modules))
}

/// Which handlers a module registers with one of the given objects.
pub open spec fn serves_handler(modules: TableModel, objects: Set<SymbolId>) -> spec_fn(
    Seq<char>,
    SymbolId,
) -> bool {
    |m: Seq<char>, handler: SymbolId| registers(modules[m], objects, handler)
}

/// Whether a module registers a handler with one of the given objects.
pub open spec fn registers(
    module: ModuleModel,
    objects: Set<SymbolId>,
    handler: SymbolId,
) -> bool {
    exists|router: SymbolId| #[trigger]
        objects.contains(router) && module.fastapi.routes.contains((router, handler))
}

/// The live FastAPI objects and the handlers they serve.
pub open spec fn served_symbols(modules: TableModel, roots: Set<SymbolId>) -> Set<SymbolId> {
    let live = live_objects(modules, roots);
    live.union(union_over(modules.dom(), serves_handler(modules, live)))
}

fn add_object_keys(
    objects: &mut SortedSet<SymbolKey>,
    more: &SortedMap<SymbolKey, ObjectKind>,
)
    ensures
        final(objects)@ == old(objects)@.union(more@.dom()),
{
    let ghost start = objects@;
    let n = more.len();
    let ghost list = in_order::<SymbolKey>(more@.dom());
    let mut i: usize = 0;
    assert(objects@ =~= start.union(list.take(0).to_set()));
    while i < n
        invariant
            i <= n,
            n == list.len(),
            list == in_order::<SymbolKey>(more@.dom()),
            objects@ == start.union(list.take(i as int).to_set()),
        decreases n - i,
    {
        objects.insert(more.key_at(i).duplicate());
        proof {
            assert(list.take(i + 1) =~= list.take(i as int).push(list[i as int]));
            lemma_to_set_push(list.take(i as int), list[i as int]);
            assert(objects@ =~= start.union(list.take(i + 1).to_set()));
        }
        i += 1;
    }
    assert(list.take(i as int) =~= list);
}

fn collect_objects(modules: &ModuleTable) -> (objects: SortedSet<SymbolKey>)
    ensures
        objects@ == all_objects(modules@),
{
    let mut objects: SortedSet<SymbolKey> = SortedSet::new();
    let n = modules.len();
    let ghost list = in_order::<String>(modules@.dom());
    let ghost gives = holds_object(modules@);
    let mut i: usize = 0;
    proof {
        lemma_gathered_empty(gives);
        assert(list.take(0) =~= Seq::empty());
    }
    while i < n
        invariant
            i <= n,
            n == list.len(),
            list == in_order::<String>(modules@.dom()),
            gives == holds_object(modules@),
            objects@ == gathered(list.take(i as int), gives),
        decreases n - i,
    {
        add_object_keys(&mut objects, &modules.value_at(i).fastapi.objects);
        proof {
            let m = list[i as int];
            assert(list.take(i + 1) =~= list.take(i as int).push(m));
            lemma_gathered_push(list.take(i as int), m, gives);
            assert(Set::new(|id: SymbolId| gives(m, id))
                =~= modules@[m].fastapi.objects.dom());
        }
        i += 1;
    }
    proof {
        assert(list.take(i as int) =~= list);
        lemma_gathered_set(list, gives);
    }
    objects
}

fn add_mountings(
    includes: &SortedSet<IncludeEdge>,
    objects: &SortedSet<SymbolKey>,
    next: &mut SortedMap<SymbolKey, SortedSet<SymbolKey>>,
)
    ensures
        edges(final(next)@) == edges(old(next)@).union(
            Set::new(|e: Edge| includes@.contains(e) && objects@.contains(e.1)),
        ),
{
    let ghost start = edges(next@);
    let n = includes.len();
    let ghost list = in_order::<IncludeEdge>(includes@);
    let mut i: usize = 0;
    assert(edges(next@) =~= start.union(
        Set::new(|e: Edge| list.take(0).to_set().contains(e) && objects@.contains(e.1)),
    ));
    while i < n
        invariant
            i <= n,
            n == list.len(),
            list == in_order::<IncludeEdge>(includes@),
            edges(next@) == start.union(
                Set::new(
                    |e: Edge| list.take(i as int).to_set().contains(e) && objects@.contains(e.1),
                ),
            ),
        decreases n - i,
    {
        let edge = includes.at(i);
        if objects.contains(&edge.child) {
            add_edge(next, &edge.parent, &edge.child);
        }
        proof {
            assert(list.take(i + 1) =~= list.take(i as int).push(list[i as int]));
            lemma_to_set_push(list.take(i as int), list[i as int]);
            assert(edges(next@) =~= start.union(
                Set::new(|e: Edge| list.take(i + 1).to_set().contains(e) && objects@.contains(e.1)),
            ));
        }
        i += 1;
    }
    assert(list.take(i as int) =~= list);
}

fn collect_mountings(modules: &ModuleTable, objects: &SortedSet<SymbolKey>) -> (next: SortedMap<
    SymbolKey,
    SortedSet<SymbolKey>,
>)
    requires
        objects@ == all_objects(modules@),
    ensures
        edges(next@) == all_mountings(modules@),
{
    let mut next: SortedMap<SymbolKey, SortedSet<SymbolKey>> = SortedMap::new();
    let n = modules.len();
    let ghost list = in_order::<String>(modules@.dom());
    let ghost gives = mounts_object(modules@);
    let mut i: usize = 0;
    proof {
        lemma_gathered_empty(gives);
        assert(list.take(0) =~= Seq::empty());
        assert(edges(next@) =~= gathered(list.take(0), gives));
    }
    while i < n
        invariant
            i <= n,
            n == list.len(),
            list == in_order::<String>(modules@.dom()),
            gives == mounts_object(modules@),
            objects@ == all_objects(modules@),
            edges(next@) == gathered(list.take(i as int), gives),
        decreases n - i,
    {
        let module = modules.value_at(i);
        add_mountings(&module.fastapi.includes, objects, &mut next);
        proof {
            let m = list[i as int];
            assert(list.take(i + 1) =~= list.take(i as int).push(m));
            lemma_gathered_push(list.take(i as int), m, gives);
            assert(Set::new(|e: Edge| gives(m, e)) =~= Set::new(
                |e: Edge| module.fastapi.includes@.contains(e) && objects@.contains(e.1),
            ));
        }
        i += 1;
    }
    proof {
        assert(list.take(i as int) =~= list);
        lemma_gathered_set(list, gives);
    }
    next
}

fn add_handlers(
    module: &ModuleSymbols,
    objects: &SortedSet<SymbolKey>,
    live: &mut SortedSet<SymbolKey>,
)
    ensures
        final(live)@ == old(live)@.union(
            Set::new(|h: SymbolId| registers(module@, objects@, h)),
        ),
{
    let ghost start = live@;
    let routes = &module.fastapi.routes;
    let n = routes.len();
    let ghost list = in_order::<RouteEdge>(routes@);
    let ghost gives = |e: Edge, h: SymbolId| objects@.contains(e.0) && e.1 == h;
    let mut i: usize = 0;
    proof {
        lemma_gathered_empty(gives);
        assert(list.take(0) =~= Seq::empty());
        assert(live@ =~= start.union(gathered(list.take(0), gives)));
    }
    while i < n
        invariant
            i <= n,
            n == list.len(),
            list == in_order::<RouteEdge>(routes@),
            gives == (|e: Edge, h: SymbolId| objects@.contains(e.0) && e.1 == h),
            live@ == start.union(gathered(list.take(i as int), gives)),
        decreases n - i,
    {
        let edge = routes.at(i);
        if objects.contains(&edge.router) {
            live.insert(edge.handler.duplicate());
        }
        proof {
            assert(list.take(i + 1) =~= list.take(i as int).push(list[i as int]));
            lemma_gathered_push(list.take(i as int), list[i as int], gives);
            assert(live@ =~= start.union(gathered(list.take(i + 1), gives)));
        }
        i += 1;
    }
    proof {
        assert(list.take(i as int) =~= list);
        lemma_gathered_set(list, gives);
        assert forall|h: SymbolId|
            union_over(routes@, gives).contains(h) == registers(module@, objects@, h) by {
            if registers(module@, objects@, h) {
                let router = choose|router: SymbolId| #[trigger]
                    objects@.contains(router) && module@.fastapi.routes.contains((router, h));
                assert(routes@.contains((router, h)));
            }
        }
        assert(live@ =~= start.union(Set::new(|h: SymbolId| registers(module@, objects@, h))));
    }
}

/// The FastAPI objects in use from the given symbols, and the handlers they serve.
pub fn live_symbols(modules: &ModuleTable, root_symbols: &SortedSet<SymbolKey>) -> (live: SortedSet<
    SymbolKey,
>)
    ensures
        live@ == served_symbols(modules@, root_symbols@),
{
    let objects = collect_objects(modules);
    let next = collect_mountings(modules, &objects);
    let mut start: SortedSet<SymbolKey> = SortedSet::new();
    let count = root_symbols.len();
    let ghost roots = in_order::<SymbolKey>(root_symbols@);
    let mut k: usize = 0;
    assert(start@ =~= roots.take(0).to_set().intersect(objects@));
    while k < count
        invariant
            k <= count,
            count == roots.len(),
            roots == in_order::<SymbolKey>(root_symbols@),
            start@ == roots.take(k as int).to_set().intersect(objects@),
        decreases count - k,
    {
        let root = root_symbols.at(k);
        if objects.contains(root) {
            start.insert(root.duplicate());
        }
        proof {
            assert(roots.take(k + 1) =~= roots.take(k as int).push(roots[k as int]));
            lemma_to_set_push(roots.take(k as int), roots[k as int]);
            assert(start@ =~= roots.take(k + 1).to_set().intersect(objects@));
        }
        k += 1;
    }
    assert(roots.take(k as int) =~= roots);
    let found = explore(&start, &next);
    proof {
        let taken = steps(next@);
        let expected = mount_step(modules@);
        assert forall|a: SymbolId, b: SymbolId| #[trigger] taken(a, b) == expected(a, b) by {
            assert(edges(next@).contains((a, b)) == all_mountings(modules@).contains((a, b)));
        }
        assert(taken =~= expected);
    }
    let mut live: SortedSet<SymbolKey> = SortedSet::new();
    extend_keys(&mut live, &found);
    assert(live@ =~= found@);
    let n = modules.len();
    let ghost list = in_order::<String>(modules@.dom());
    let ghost gives = serves_handler(modules@, found@);
    let mut i: usize = 0;
    proof {
        lemma_gathered_empty(gives);
        assert(list.take(0) =~= Seq::empty());
        assert(live@ =~= found@.union(gathered(list.take(0), gives)));
    }
    while i < n
        invariant
            i <= n,
            n == list.len(),
            list == in_order::<String>(modules@.dom()),
            gives == serves_handler(modules@, found@),
            live@ == found@.union(gathered(list.take(i as int), gives)),
        decreases n - i,
    {
        add_handlers(modules.value_at(i), &found, &mut live);
        proof {
            let m = list[i as int];
            assert(list.take(i + 1) =~= list.take(i as int).push(m));
            lemma_gathered_push(list.take(i as int), m, gives);
            assert(Set::new(|h: SymbolId| gives(m, h)) =~= Set::new(
                |h: SymbolId| registers(modules@[m], found@, h),
            ));
            assert(live@ =~= found@.union(gathered(list.take(i + 1), gives)));
        }
        i += 1;
    }
    proof {
        assert(list.take(i as int) =~= list);
        lemma_gathered_set(list, gives);
    }
    live
}

} // verus!
