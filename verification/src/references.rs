//! References from expressions to symbols, and calls that defeat static analysis.

use crate::ast::{
    expr_nodes, list_nodes, push_body_nodes, push_expr_nodes, push_list_nodes, push_signature_nodes,
    push_stmt_nodes, signature_nodes, body_nodes, stmt_nodes, targets_of, Expr, ExprContext,
    Parameter, Stmt,
};
use crate::collections::SortedSet;
use crate::imports::{
    id_of, module_of_expr, raw_expression_path, resolve_module_expression, written_path, ImportMap,
    ImportModel, ImportTarget, TargetModel,
};
use crate::keys::{SymbolId, SymbolKey};
use crate::order::Ordered;
use crate::text::same_text;
use vstd::prelude::*;

verus! {

/// What names mean at some place in a module.
pub struct Scope {
    pub module: Seq<char>,
    /// The names that the module defines at its top level.
    pub locals: Set<Seq<char>>,
    pub imports: ImportModel,
    /// The names that are hidden at this place.
    pub shadowed: Set<Seq<char>>,
}

/// The symbol that a bare name refers to.
pub open spec fn named_symbol(scope: Scope, name: Seq<char>) -> Option<SymbolId> {
    if scope.shadowed.contains(name) {
        None
    } else if scope.locals.contains(name) {
        Some((scope.module, name))
    } else if scope.imports.contains_key(name) {
        match scope.imports[name] {
            TargetModel::Symbol(id) => Some(id),
            TargetModel::Module(_) => None,
        }
    } else {
        None
    }
}

/// The symbol that an expression refers to by itself, leaving aside the expressions inside it.
pub open spec fn direct_reference(scope: Scope, expr: Expr) -> Option<SymbolId> {
    match expr {
        Expr::Name { id, ctx } => if ctx == ExprContext::Load {
            named_symbol(scope, id@)
        } else {
            None
        },
        Expr::Attribute { value, attr, ctx } => if ctx == ExprContext::Load {
            match module_of_expr(*value, scope.imports) {
                Some(module) => Some((module, attr@)),
                None => None,
            }
        } else {
            None
        },
        _ => None,
    }
}

/// The symbols that some expression of a list refers to.
pub open spec fn references_in(scope: Scope, nodes: Seq<Expr>) -> Set<SymbolId> {
    Set::new(
        |id: SymbolId|
            exists|i: int|
                0 <= i < nodes.len() && direct_reference(scope, #[trigger] nodes[i]) == Some(id),
    )
}

pub proof fn lemma_references_push(scope: Scope, nodes: Seq<Expr>, expr: Expr)
    ensures
        references_in(scope, nodes.push(expr)) == (match direct_reference(scope, expr) {
            Some(id) => references_in(scope, nodes).insert(id),
            None => references_in(scope, nodes),
        }),
{
    let longer = nodes.push(expr);
    assert forall|id: SymbolId|
        references_in(scope, longer).contains(id) == (references_in(scope, nodes).contains(id)
            || direct_reference(scope, expr) == Some(id)) by {
        if references_in(scope, nodes).contains(id) {
            let i = choose|i: int|
                0 <= i < nodes.len() && direct_reference(scope, #[trigger] nodes[i]) == Some(id);
            assert(longer[i] == nodes[i]);
        }
        if direct_reference(scope, expr) == Some(id) {
            assert(longer[nodes.len() as int] == expr);
        }
        if references_in(scope, longer).contains(id) {
            let i = choose|i: int|
                0 <= i < longer.len() && direct_reference(scope, #[trigger] longer[i]) == Some(id);
            if i < nodes.len() {
                assert(nodes[i] == longer[i]);
            }
        }
    }
    assert(references_in(scope, longer) =~= (match direct_reference(scope, expr) {
        Some(id) => references_in(scope, nodes).insert(id),
        None => references_in(scope, nodes),
    }));
}

/// Gathers the symbols that expressions refer to.
pub struct ReferenceCollector<'a> {
    pub module: &'a String,
    pub local_symbols: &'a SortedSet<String>,
    pub imports: &'a ImportMap,
    pub shadowed: SortedSet<String>,
    pub references: SortedSet<SymbolKey>,
}

impl<'a> ReferenceCollector<'a> {
    pub open spec fn scope(self) -> Scope {
        Scope {
            module: self.module@,
            locals: self.local_symbols@,
            imports: self.imports@,
            shadowed: self.shadowed@,
        }
    }

    pub fn new(
        module: &'a String,
        local_symbols: &'a SortedSet<String>,
        imports: &'a ImportMap,
        shadowed: SortedSet<String>,
    ) -> (collector: ReferenceCollector<'a>)
        ensures
            collector.scope() == (Scope {
                module: module@,
                locals: local_symbols@,
                imports: imports@,
                shadowed: shadowed@,
            }),
            collector.references@ == Set::<SymbolId>::empty(),
    {
        ReferenceCollector {
            module,
            local_symbols,
            imports,
            shadowed,
            references: SortedSet::new(),
        }
    }

    pub fn resolve_name(&self, name: &String) -> (symbol: Option<SymbolKey>)
        ensures
            id_of(symbol) == named_symbol(self.scope(), name@),
    {
        if self.shadowed.contains(name) {
            return None;
        }
        if self.local_symbols.contains(name) {
            return Some(SymbolKey::new(self.module.clone(), name.clone()));
        }
        match self.imports.get(name) {
            Some(ImportTarget::Symbol(symbol)) => Some(symbol.duplicate()),
            _ => None,
        }
    }

    /// Records what a single expression refers to by itself.
    fn visit_node(&mut self, expr: &Expr)
        ensures
            final(self).scope() == old(self).scope(),
            final(self).references@ == (match direct_reference(old(self).scope(), *expr) {
                Some(id) => old(self).references@.insert(id),
                None => old(self).references@,
            }),
    {
        match expr {
            Expr::Name { id, ctx } => {
                if *ctx == ExprContext::Load {
                    if let Some(symbol) = self.resolve_name(id) {
                        self.references.insert(symbol);
                    }
                }
            },
            Expr::Attribute { value, attr, ctx } => {
                if *ctx == ExprContext::Load {
                    if let Some(module) = resolve_module_expression(value, self.imports) {
                        self.references.insert(SymbolKey::new(module, attr.clone()));
                    }
                }
            },
            _ => {},
        }
    }

    fn visit_nodes(&mut self, nodes: &Vec<&Expr>)
        ensures
            final(self).scope() == old(self).scope(),
            final(self).references@ == old(self).references@.union(
                references_in(old(self).scope(), targets_of(nodes@)),
            ),
    {
        let ghost scope = self.scope();
        let ghost start = self.references@;
        let ghost list = targets_of(nodes@);
        let mut i: usize = 0;
        assert(self.references@ =~= start.union(references_in(scope, list.take(0))));
        while i < nodes.len()
            invariant
                i <= nodes@.len(),
                list == targets_of(nodes@),
                self.scope() == scope,
                self.references@ == start.union(references_in(scope, list.take(i as int))),
            decreases nodes@.len() - i,
        {
            self.visit_node(nodes[i]);
            proof {
                assert(list.take(i + 1) =~= list.take(i as int).push(list[i as int]));
                lemma_references_push(scope, list.take(i as int), list[i as int]);
                assert(self.references@ =~= start.union(references_in(scope, list.take(i + 1))));
            }
            i += 1;
        }
        assert(list.take(i as int) =~= list);
    }

    /// Records what an expression and the expressions inside it refer to.
    pub fn visit_expr(&mut self, expr: &Expr)
        ensures
            final(self).scope() == old(self).scope(),
            final(self).references@ == old(self).references@.union(
                references_in(old(self).scope(), expr_nodes(*expr)),
            ),
    {
        let mut nodes: Vec<&Expr> = Vec::new();
        assert(targets_of(nodes@) + expr_nodes(*expr) =~= expr_nodes(*expr));
        push_expr_nodes(expr, &mut nodes);
        self.visit_nodes(&nodes);
    }

    pub fn visit_list(&mut self, list: &Vec<Expr>)
        ensures
            final(self).scope() == old(self).scope(),
            final(self).references@ == old(self).references@.union(
                references_in(old(self).scope(), list_nodes(list@)),
            ),
    {
        let mut nodes: Vec<&Expr> = Vec::new();
        assert(targets_of(nodes@) + list_nodes(list@) =~= list_nodes(list@));
        push_list_nodes(list, &mut nodes);
        self.visit_nodes(&nodes);
    }

    pub fn visit_signature(
        &mut self,
        decorators: &Vec<Expr>,
        parameters: &Vec<Parameter>,
        return_type: &Option<Expr>,
    )
        ensures
            final(self).scope() == old(self).scope(),
            final(self).references@ == old(self).references@.union(
                references_in(
                    old(self).scope(),
                    signature_nodes(decorators@, parameters@, *return_type),
                ),
            ),
    {
        let mut nodes: Vec<&Expr> = Vec::new();
        assert(targets_of(nodes@) + signature_nodes(decorators@, parameters@, *return_type)
            =~= signature_nodes(decorators@, parameters@, *return_type));
        push_signature_nodes(decorators, parameters, return_type, &mut nodes);
        self.visit_nodes(&nodes);
    }

    /// Records what the expressions of a statement refer to.
    pub fn visit_stmt(&mut self, stmt: &Stmt)
        ensures
            final(self).scope() == old(self).scope(),
            final(self).references@ == old(self).references@.union(
                references_in(old(self).scope(), stmt_nodes(*stmt)),
            ),
    {
        let mut nodes: Vec<&Expr> = Vec::new();
        assert(targets_of(nodes@) + stmt_nodes(*stmt) =~= stmt_nodes(*stmt));
        push_stmt_nodes(stmt, &mut nodes);
        self.visit_nodes(&nodes);
    }

    pub fn visit_body(&mut self, body: &Vec<Stmt>)
        ensures
            final(self).scope() == old(self).scope(),
            final(self).references@ == old(self).references@.union(
                references_in(old(self).scope(), body_nodes(body@)),
            ),
    {
        let mut nodes: Vec<&Expr> = Vec::new();
        assert(targets_of(nodes@) + body_nodes(body@) =~= body_nodes(body@));
        push_body_nodes(body, &mut nodes);
        self.visit_nodes(&nodes);
    }
}

/// Whether calling `func` reads or writes names that are only known at run time.
pub open spec fn is_dynamic_callee(func: Expr) -> bool {
    match func {
        Expr::Name { id, .. } => {
            ||| id@ == "globals"@
            ||| id@ == "locals"@
            ||| id@ == "getattr"@
            ||| id@ == "setattr"@
            ||| id@ == "__import__"@
        },
        Expr::Attribute { value, attr, .. } => attr@ == "import_module"@ && written_path(*value)
            == Some("importlib"@),
        _ => false,
    }
}

pub open spec fn is_dynamic_call(expr: Expr) -> bool {
    match expr {
        Expr::Call { func, .. } => is_dynamic_callee(*func),
        _ => false,
    }
}

pub open spec fn has_dynamic_call(nodes: Seq<Expr>) -> bool {
    exists|i: int| 0 <= i < nodes.len() && is_dynamic_call(#[trigger] nodes[i])
}

pub fn expression_is_dynamic_call(func: &Expr) -> (yes: bool)
    ensures
        yes == is_dynamic_callee(*func),
{
    match func {
        Expr::Name { id, .. } => {
            let name = id.as_str();
            same_text(name, "globals") || same_text(name, "locals") || same_text(name, "getattr")
                || same_text(name, "setattr") || same_text(name, "__import__")
        },
        Expr::Attribute { value, attr, .. } => {
            if !same_text(attr.as_str(), "import_module") {
                return false;
            }
            match raw_expression_path(value) {
                Some(path) => same_text(path.as_str(), "importlib"),
                None => false,
            }
        },
        _ => false,
    }
}

pub fn statement_contains_dynamic_call(stmt: &Stmt) -> (found: bool)
    ensures
        found == has_dynamic_call(stmt_nodes(*stmt)),
{
    let mut nodes: Vec<&Expr> = Vec::new();
    assert(targets_of(nodes@) + stmt_nodes(*stmt) =~= stmt_nodes(*stmt));
    push_stmt_nodes(stmt, &mut nodes);
    let ghost list = stmt_nodes(*stmt);
    let mut i: usize = 0;
    while i < nodes.len()
        invariant
            i <= nodes@.len(),
            list == targets_of(nodes@),
            list == stmt_nodes(*stmt),
            forall|j: int| 0 <= j < i ==> !is_dynamic_call(#[trigger] list[j]),
        decreases nodes@.len() - i,
    {
        assert(list[i as int] == *nodes@[i as int]);
        if let Expr::Call { func, .. } = nodes[i] {
            if expression_is_dynamic_call(func) {
                return true;
            }
        }
        i += 1;
    }
    false
}

} // verus!
