//! What a module defines, imports, exports and refers to.

use crate::ast::{body_nodes, list_nodes, signature_nodes, stmt_nodes, Alias, Expr, Stmt, StmtKind};
use crate::collections::{
    bound_last, in_order, lemma_rebound_concat, lemma_rebound_push, rebound, SortedMap, SortedSet,
};
use crate::fastapi::{collect_module_info, module_info, top_level, InfoModel, ModuleInfo};
use crate::imports::{
    bare_name, import_target, import_target_from_path, module_of_expr, raw_expression_path,
    resolve_module_expression, simple_name, text_of, written_path, ImportMap, ImportModel,
    ImportTarget, IndexModel, ModuleIndex, TargetModel,
};
use crate::keys::{SymbolId, SymbolKey};
use crate::lines::{has_offsets, line_at, line_number};
use crate::order::Ordered;
use crate::path::{is_init, is_init_file, FilePath};
use crate::references::{
    has_dynamic_call, references_in, statement_contains_dynamic_call, ReferenceCollector, Scope,
};
use crate::scope::{
    bound_member_name, bound_module_name, bound_names, collect_class_shadowed_names,
    collect_function_shadowed_names, from_import_binding, import_binding, is_star, parameter_names,
};
use crate::text::{
    dotted, dunder, is_dunder, join_dotted, join_segments, join_text, same_text, split_segments,
    split_text, texts,
};
use vstd::prelude::*;

verus! {

#[derive(Clone, Copy, Debug, PartialEq, Eq, Structural)]
pub enum SymbolKind {
    Function,
    Class,
    Variable,
}

impl SymbolKind {
    pub fn as_str(self) -> (text: &'static str)
        ensures
            text@ == (match self {
                SymbolKind::Function => "function"@,
                SymbolKind::Class => "class"@,
                SymbolKind::Variable => "variable"@,
            }),
    {
        match self {
            SymbolKind::Function => "function",
            SymbolKind::Class => "class",
            SymbolKind::Variable => "variable",
        }
    }
}

/// A symbol that a module defines at its top level.
pub struct SymbolDefinition {
    pub kind: SymbolKind,
    pub file_path: FilePath,
    pub line_number: usize,
    pub references: SortedSet<SymbolKey>,
    pub has_public_decorator: bool,
}

pub struct SymbolModel {
    pub kind: SymbolKind,
    pub file: Seq<char>,
    /// How the path of the file is written.
    pub spelling: Seq<char>,
    pub line: nat,
    pub references: Set<SymbolId>,
    pub public: bool,
}

impl View for SymbolDefinition {
    type V = SymbolModel;

    open spec fn view(&self) -> SymbolModel {
        SymbolModel {
            kind: self.kind,
            file: self.file_path@,
            spelling: self.file_path.spelling(),
            line: self.line_number as nat,
            references: self.references@,
            public: self.has_public_decorator,
        }
    }
}

/// What the analysis knows of a module.
pub struct ModuleSymbols {
    pub symbols: SortedMap<String, SymbolDefinition>,
    pub module_references: SortedSet<SymbolKey>,
    pub imports: ImportMap,
    pub exports: SortedSet<String>,
    pub star_imports: Vec<String>,
    pub is_dynamic: bool,
    pub fastapi: ModuleInfo,
}

pub struct ModuleModel {
    pub symbols: Map<Seq<char>, SymbolModel>,
    /// The symbols that the module's own top-level code refers to.
    pub references: Set<SymbolId>,
    pub imports: ImportModel,
    pub exports: Set<Seq<char>>,
    pub stars: Seq<Seq<char>>,
    pub dynamic: bool,
    pub fastapi: InfoModel,
}

impl View for ModuleSymbols {
    type V = ModuleModel;

    open spec fn view(&self) -> ModuleModel {
        ModuleModel {
            symbols: self.symbols@,
            references: self.module_references@,
            imports: self.imports@,
            exports: self.exports@,
            stars: texts(self.star_imports@),
            dynamic: self.is_dynamic,
            fastapi: self.fastapi@,
        }
    }
}

/// A module's source and what is known about its surroundings.
pub struct SourceModel {
    pub module: Seq<char>,
    pub file: Seq<char>,
    /// How the path of the file is written.
    pub spelling: Seq<char>,
    pub text: Seq<char>,
    pub public_decorators: Set<Seq<char>>,
    pub index: IndexModel,
}

/// A name that a statement defines at the top level of a module.
pub struct Definition {
    pub name: Seq<char>,
    pub kind: SymbolKind,
    pub offset: nat,
}

/// The variables that an assignment to `targets` defines.
pub open spec fn assigned_names(targets: Seq<Expr>, offset: nat) -> Seq<Definition>
    decreases targets.len(),
{
    if targets.len() == 0 {
        Seq::empty()
    } else {
        let earlier = assigned_names(targets.drop_last(), offset);
        match bare_name(targets.last()) {
            Some(name) => if name == "__all__"@ {
                earlier
            } else {
                earlier.push(Definition { name, kind: SymbolKind::Variable, offset })
            },
            None => earlier,
        }
    }
}

/// The names that a statement defines.
pub open spec fn stmt_definitions(stmt: Stmt) -> Seq<Definition> {
    let offset = stmt.offset as nat;
    match stmt.kind {
        StmtKind::FunctionDef { name, .. } => seq![
            Definition { name: name@, kind: SymbolKind::Function, offset },
        ],
        StmtKind::ClassDef { name, .. } => seq![
            Definition { name: name@, kind: SymbolKind::Class, offset },
        ],
        StmtKind::Assign { targets, .. } => assigned_names(targets@, offset),
        StmtKind::AnnAssign { target, simple: true, .. } => assigned_names(seq![target], offset),
        _ => Seq::empty(),
    }
}

pub open spec fn definitions(body: Seq<Stmt>) -> Seq<Definition>
    decreases body.len(),
{
    if body.len() == 0 {
        Seq::empty()
    } else {
        definitions(body.drop_last()) + stmt_definitions(body.last())
    }
}

/// The symbol that a definition introduces, before anything is known of its references.
pub open spec fn fresh_symbol(source: SourceModel, definition: Definition) -> SymbolModel {
    SymbolModel {
        kind: definition.kind,
        file: source.file,
        spelling: source.spelling,
        line: line_at(source.text, definition.offset),
        references: Set::empty(),
        public: false,
    }
}

/// A module's symbols after one more definition. Names with two underscores at both ends are left
/// out, and the first definition of a name is the one that counts.
pub open spec fn registered(
    symbols: Map<Seq<char>, SymbolModel>,
    source: SourceModel,
    definition: Definition,
) -> Map<Seq<char>, SymbolModel> {
    if is_dunder(definition.name) || symbols.contains_key(definition.name) {
        symbols
    } else {
        symbols.insert(definition.name, fresh_symbol(source, definition))
    }
}

pub open spec fn registered_all(
    symbols: Map<Seq<char>, SymbolModel>,
    source: SourceModel,
    list: Seq<Definition>,
) -> Map<Seq<char>, SymbolModel>
    decreases list.len(),
{
    if list.len() == 0 {
        symbols
    } else {
        registered(registered_all(symbols, source, list.drop_last()), source, list.last())
    }
}

pub open spec fn defined_names(list: Seq<Definition>) -> Set<Seq<char>> {
    Set::new(|n: Seq<char>| exists|i: int| 0 <= i < list.len() && (#[trigger] list[i]).name == n)
}

/// The module that a `from` import starts at: the module named after `from`, taken relative to
/// the importing module's package where the import has leading dots.
pub open spec fn import_base(
    module: Seq<char>,
    is_package: bool,
    from: Option<Seq<char>>,
    level: nat,
) -> Option<Seq<char>> {
    let strip: int = if is_package && level > 0 {
        level - 1
    } else {
        level as int
    };
    let parts = if module.len() == 0 {
        Seq::empty()
    } else {
        split_segments(module, '.')
    };
    if strip > parts.len() {
        None
    } else {
        let base = parts.take(parts.len() - strip);
        match from {
            Some(name) => if level > 0 && base.len() > 0 {
                Some(dotted(join_segments(base, '.'), name))
            } else {
                Some(name)
            },
            None => if base.len() > 0 {
                Some(join_segments(base, '.'))
            } else {
                None
            },
        }
    }
}

/// The path of `name` in the module `base`.
pub open spec fn member_path(base: Seq<char>, name: Seq<char>) -> Seq<char> {
    if base.len() == 0 {
        name
    } else {
        dotted(base, name)
    }
}

/// The bindings that the names after `import` make.
pub open spec fn module_bindings(names: Seq<Alias>) -> Seq<(Seq<char>, TargetModel)>
    decreases names.len(),
{
    if names.len() == 0 {
        Seq::empty()
    } else {
        let earlier = module_bindings(names.drop_last());
        let alias = names.last();
        let binding = import_binding(alias);
        if binding.len() == 0 {
            earlier
        } else if alias.asname is Some {
            earlier.push((binding, TargetModel::Module(alias.name@)))
        } else {
            earlier.push((binding, TargetModel::Module(binding)))
        }
    }
}

/// The binding that a name after `from base import` makes, if it binds a name at all.
pub open spec fn alias_bindings(index: IndexModel, base: Seq<char>, alias: Alias) -> Seq<
    (Seq<char>, TargetModel),
> {
    let binding = from_import_binding(alias);
    if binding.len() == 0 {
        Seq::empty()
    } else {
        seq![(binding, import_target(index, member_path(base, alias.name@)))]
    }
}

/// The bindings that the names after `from base import` make.
pub open spec fn member_bindings(
    index: IndexModel,
    base: Seq<char>,
    names: Seq<Alias>,
) -> Seq<(Seq<char>, TargetModel)>
    decreases names.len(),
{
    if names.len() == 0 {
        Seq::empty()
    } else {
        let earlier = member_bindings(index, base, names.drop_last());
        let alias = names.last();
        if is_star(alias) {
            earlier
        } else {
            earlier + alias_bindings(index, base, alias)
        }
    }
}

pub open spec fn stmt_base(source: SourceModel, kind: StmtKind) -> Option<Seq<char>> {
    match kind {
        StmtKind::ImportFrom { module, level, .. } => import_base(
            source.module,
            is_init(source.file),
            text_of(module),
            level as nat,
        ),
        _ => None,
    }
}

/// The bindings that a statement's imports make.
pub open spec fn stmt_bindings(source: SourceModel, kind: StmtKind) -> Seq<
    (Seq<char>, TargetModel),
> {
    match kind {
        StmtKind::Import { names } => module_bindings(names@),
        StmtKind::ImportFrom { names, .. } => match stmt_base(source, kind) {
            Some(base) => member_bindings(source.index, base, names@),
            None => Seq::empty(),
        },
        _ => Seq::empty(),
    }
}

pub open spec fn bindings(source: SourceModel, body: Seq<Stmt>) -> Seq<(Seq<char>, TargetModel)>
    decreases body.len(),
{
    if body.len() == 0 {
        Seq::empty()
    } else {
        bindings(source, body.drop_last()) + stmt_bindings(source, body.last().kind)
    }
}

/// The dotted paths that the names after `from base import` lead to.
pub open spec fn member_paths(base: Seq<char>, names: Seq<Alias>) -> Seq<Seq<char>>
    decreases names.len(),
{
    if names.len() == 0 {
        Seq::empty()
    } else {
        let earlier = member_paths(base, names.drop_last());
        let alias = names.last();
        if is_star(alias) || from_import_binding(alias).len() == 0 {
            earlier
        } else {
            earlier.push(member_path(base, alias.name@))
        }
    }
}

pub open spec fn stmt_paths(source: SourceModel, kind: StmtKind) -> Seq<Seq<char>> {
    match kind {
        StmtKind::ImportFrom { names, .. } => match stmt_base(source, kind) {
            Some(base) => member_paths(base, names@),
            None => Seq::empty(),
        },
        _ => Seq::empty(),
    }
}

/// The dotted paths that the `from` imports of a body lead to.
pub open spec fn imported_paths(source: SourceModel, body: Seq<Stmt>) -> Seq<Seq<char>>
    decreases body.len(),
{
    if body.len() == 0 {
        Seq::empty()
    } else {
        imported_paths(source, body.drop_last()) + stmt_paths(source, body.last().kind)
    }
}

/// The modules that a statement imports everything from.
pub open spec fn star_bases(base: Seq<char>, names: Seq<Alias>) -> Seq<Seq<char>>
    decreases names.len(),
{
    if names.len() == 0 {
        Seq::empty()
    } else if is_star(names.last()) {
        star_bases(base, names.drop_last()).push(base)
    } else {
        star_bases(base, names.drop_last())
    }
}

pub open spec fn stmt_stars(source: SourceModel, kind: StmtKind) -> Seq<Seq<char>> {
    match kind {
        StmtKind::ImportFrom { names, .. } => match stmt_base(source, kind) {
            Some(base) => star_bases(base, names@),
            None => Seq::empty(),
        },
        _ => Seq::empty(),
    }
}

pub open spec fn stars(source: SourceModel, body: Seq<Stmt>) -> Seq<Seq<char>>
    decreases body.len(),
{
    if body.len() == 0 {
        Seq::empty()
    } else {
        stars(source, body.drop_last()) + stmt_stars(source, body.last().kind)
    }
}

/// Whether a statement makes the module's names depend on run time: a dynamic call, a star
/// import, or a module-level `__getattr__`.
pub open spec fn is_dynamic_stmt(source: SourceModel, stmt: Stmt) -> bool {
    ||| has_dynamic_call(stmt_nodes(stmt))
    ||| stmt_stars(source, stmt.kind).len() > 0
    ||| match stmt.kind {
        StmtKind::FunctionDef { name, .. } => name@ == "__getattr__"@,
        _ => false,
    }
}

pub open spec fn is_dynamic_body(source: SourceModel, body: Seq<Stmt>) -> bool {
    exists|i: int| 0 <= i < body.len() && is_dynamic_stmt(source, #[trigger] body[i])
}

/// Whether a list or tuple display holds the string `name`.
pub open spec fn lists_name(value: Expr, name: Seq<char>) -> bool {
    match value {
        Expr::List { elts } => holds_string(elts@, name),
        Expr::Tuple { elts } => holds_string(elts@, name),
        _ => false,
    }
}

pub open spec fn holds_string(list: Seq<Expr>, name: Seq<char>) -> bool {
    exists|i: int| 0 <= i < list.len() && is_string(#[trigger] list[i], name)
}

pub open spec fn is_string(expr: Expr, name: Seq<char>) -> bool {
    match expr {
        Expr::StringLiteral { text } => text@ == name,
        _ => false,
    }
}

pub open spec fn names_all(targets: Seq<Expr>) -> bool {
    exists|i: int| 0 <= i < targets.len() && bare_name(#[trigger] targets[i]) == Some("__all__"@)
}

/// Whether a statement puts `name` into `__all__`.
pub open spec fn exports_name(kind: StmtKind, name: Seq<char>) -> bool {
    match kind {
        StmtKind::Assign { targets, value } => names_all(targets@) && lists_name(value, name),
        StmtKind::AnnAssign { target, initial: Some(value), simple: true } => bare_name(target)
            == Some("__all__"@) && lists_name(value, name),
        _ => false,
    }
}

pub open spec fn exported_names(body: Seq<Stmt>) -> Set<Seq<char>> {
    Set::new(
        |n: Seq<char>| exists|i: int| 0 <= i < body.len() && exports_name((#[trigger] body[i]).kind, n),
    )
}

/// The paths by which a decorator may be configured as public.
pub open spec fn decorator_names(scope: Scope, expr: Expr) -> Set<Seq<char>>
    decreases expr,
{
    match expr {
        Expr::Call { func, .. } => decorator_names(scope, *func),
        Expr::Name { id, .. } => set![id@].union(
            if scope.locals.contains(id@) {
                set![dotted(scope.module, id@)]
            } else {
                Set::empty()
            },
        ).union(
            if scope.imports.contains_key(id@) {
                match scope.imports[id@] {
                    TargetModel::Symbol(symbol) => set![dotted(symbol.0, symbol.1)],
                    TargetModel::Module(_) => Set::empty(),
                }
            } else {
                Set::empty()
            },
        ),
        Expr::Attribute { value, attr, .. } => match module_of_expr(*value, scope.imports) {
            Some(module) => set![dotted(module, attr@)],
            None => Set::empty(),
        }.union(
            match written_path(expr) {
                Some(path) => set![path],
                None => Set::empty(),
            },
        ),
        _ => Set::empty(),
    }
}

/// Whether one of the decorators is configured as public.
pub open spec fn has_public(
    scope: Scope,
    public_decorators: Set<Seq<char>>,
    decorators: Seq<Expr>,
) -> bool {
    exists|i: int|
        0 <= i < decorators.len() && !decorator_names(scope, #[trigger] decorators[i]).disjoint(
            public_decorators,
        )
}

/// The scope inside a function or class whose body binds `names`.
pub open spec fn inner_scope(scope: Scope, names: Set<Seq<char>>) -> Scope {
    Scope { shadowed: names, ..scope }
}

/// What the definition of a function or class contributes to the symbol of that name.
pub struct Contribution {
    pub name: Seq<char>,
    pub references: Set<SymbolId>,
    pub public: bool,
}

/// What a statement contributes to a symbol: a function refers to what its signature mentions and
/// to what its body mentions outside its own names; a class to what its decorators, bases and body
/// mention outside the names bound in its body.
pub open spec fn contribution(
    scope: Scope,
    public_decorators: Set<Seq<char>>,
    kind: StmtKind,
) -> Option<Contribution> {
    match kind {
        StmtKind::FunctionDef { name, decorators, parameters, return_type, body } => {
            let inner = inner_scope(scope, parameter_names(parameters@).union(bound_names(body@)));
            Some(
                Contribution {
                    name: name@,
                    references: references_in(
                        scope,
                        signature_nodes(decorators@, parameters@, return_type),
                    ).union(references_in(inner, body_nodes(body@))),
                    public: has_public(scope, public_decorators, decorators@),
                },
            )
        },
        StmtKind::ClassDef { name, decorators, arguments, body } => {
            let inner = inner_scope(scope, bound_names(body@));
            Some(
                Contribution {
                    name: name@,
                    references: references_in(inner, list_nodes(decorators@)).union(
                        references_in(inner, list_nodes(arguments@)),
                    ).union(references_in(inner, body_nodes(body@))),
                    public: has_public(scope, public_decorators, decorators@),
                },
            )
        },
        _ => None,
    }
}

/// A symbol together with what one statement contributes to it.
pub open spec fn enriched(symbol: SymbolModel, extra: Contribution) -> SymbolModel {
    SymbolModel {
        references: symbol.references.union(extra.references),
        public: symbol.public || extra.public,
        ..symbol
    }
}

/// A module's symbols after what one statement contributes.
pub open spec fn credited(
    symbols: Map<Seq<char>, SymbolModel>,
    extra: Option<Contribution>,
) -> Map<Seq<char>, SymbolModel> {
    match extra {
        Some(c) => if symbols.contains_key(c.name) {
            symbols.insert(c.name, enriched(symbols[c.name], c))
        } else {
            symbols
        },
        None => symbols,
    }
}

/// A module's symbols after what all its statements contribute.
pub open spec fn credited_all(
    symbols: Map<Seq<char>, SymbolModel>,
    scope: Scope,
    public_decorators: Set<Seq<char>>,
    body: Seq<Stmt>,
) -> Map<Seq<char>, SymbolModel>
    decreases body.len(),
{
    if body.len() == 0 {
        symbols
    } else {
        credited(
            credited_all(symbols, scope, public_decorators, body.drop_last()),
            contribution(scope, public_decorators, body.last().kind),
        )
    }
}

/// Whether a statement belongs to the module's own top-level code.
pub open spec fn is_module_code(kind: StmtKind) -> bool {
    match kind {
        StmtKind::Import { .. } => false,
        StmtKind::ImportFrom { .. } => false,
        StmtKind::FunctionDef { .. } => false,
        StmtKind::ClassDef { .. } => false,
        _ => true,
    }
}

/// The symbols that a module's own top-level code refers to.
pub open spec fn module_code_references(scope: Scope, body: Seq<Stmt>) -> Set<SymbolId> {
    Set::new(
        |id: SymbolId|
            exists|i: int|
                0 <= i < body.len() && is_module_code((#[trigger] body[i]).kind) && references_in(
                    scope,
                    stmt_nodes(body[i]),
                ).contains(id),
    )
}

/// The meaning of names at the top level of a module with the given body.
pub open spec fn module_scope(source: SourceModel, body: Seq<Stmt>) -> Scope {
    top_level(
        source.module,
        defined_names(definitions(body)),
        bound_last(bindings(source, body)),
    )
}

/// What the analysis knows of a module with the given source and body.
pub open spec fn module_model(source: SourceModel, body: Seq<Stmt>) -> ModuleModel {
    let scope = module_scope(source, body);
    ModuleModel {
        symbols: credited_all(
            registered_all(Map::empty(), source, definitions(body)),
            scope,
            source.public_decorators,
            body,
        ),
        references: module_code_references(scope, body),
        imports: scope.imports,
        exports: exported_names(body),
        stars: stars(source, body),
        dynamic: is_dynamic_body(source, body),
        fastapi: module_info(scope, body),
    }
}

pub proof fn lemma_registered_concat(
    symbols: Map<Seq<char>, SymbolModel>,
    source: SourceModel,
    first: Seq<Definition>,
    second: Seq<Definition>,
)
    ensures
        registered_all(symbols, source, first + second) == registered_all(
            registered_all(symbols, source, first),
            source,
            second,
        ),
    decreases second.len(),
{
    if second.len() == 0 {
        assert(first + second =~= first);
    } else {
        lemma_registered_concat(symbols, source, first, second.drop_last());
        assert((first + second).drop_last() =~= first + second.drop_last());
    }
}

pub proof fn lemma_defined_names_concat(first: Seq<Definition>, second: Seq<Definition>)
    ensures
        defined_names(first + second) == defined_names(first).union(defined_names(second)),
{
    let whole = first + second;
    assert forall|n: Seq<char>|
        defined_names(whole).contains(n) == (defined_names(first).contains(n) || defined_names(
            second,
        ).contains(n)) by {
        if defined_names(first).contains(n) {
            let i = choose|i: int| 0 <= i < first.len() && (#[trigger] first[i]).name == n;
            assert(whole[i] == first[i]);
        }
        if defined_names(second).contains(n) {
            let i = choose|i: int| 0 <= i < second.len() && (#[trigger] second[i]).name == n;
            assert(whole[first.len() + i] == second[i]);
        }
        if defined_names(whole).contains(n) {
            let i = choose|i: int| 0 <= i < whole.len() && (#[trigger] whole[i]).name == n;
            if i < first.len() {
                assert(first[i] == whole[i]);
            } else {
                assert(second[i - first.len()] == whole[i]);
            }
        }
    }
    assert(defined_names(whole) =~= defined_names(first).union(defined_names(second)));
}

/// The path of `name` in the module `base`.
fn join_member(base: &String, name: &String) -> (path: String)
    ensures
        path@ == member_path(base@, name@),
{
    if base.as_str().is_empty() {
        name.clone()
    } else {
        join_dotted(base.as_str(), name.as_str())
    }
}

/// Appends the dotted paths that the names after `from base import` lead to.
fn push_member_paths(base: &String, names: &Vec<Alias>, paths: &mut Vec<String>)
    ensures
        texts(final(paths)@) == texts(old(paths)@) + member_paths(base@, names@),
{
    let ghost start = texts(paths@);
    let mut i: usize = 0;
    assert(texts(paths@) =~= start + member_paths(base@, names@.take(0)));
    while i < names.len()
        invariant
            i <= names@.len(),
            texts(paths@) == start + member_paths(base@, names@.take(i as int)),
        decreases names@.len() - i,
    {
        let ghost before = texts(paths@);
        let alias = &names[i];
        assert(names@.take(i + 1).drop_last() =~= names@.take(i as int));
        let is_star_import = same_text(alias.name.as_str(), "*");
        let binding = bound_member_name(alias);
        if !is_star_import && !binding.as_str().is_empty() {
            let path = join_member(base, &alias.name);
            let ghost added = path@;
            paths.push(path);
            assert(texts(paths@) =~= before.push(added));
        }
        assert(texts(paths@) =~= start + member_paths(base@, names@.take(i + 1)));
        i += 1;
    }
    assert(names@.take(i as int) =~= names@);
}

/// Gathers what a module defines, imports, exports and refers to.
pub struct ModuleCollector<'a> {
    pub index: &'a ModuleIndex,
    pub module: String,
    pub file_path: FilePath,
    pub contents: &'a str,
    pub imports: ImportMap,
    pub local_symbols: SortedSet<String>,
    pub public_decorators: &'a SortedSet<String>,
    pub symbols: SortedMap<String, SymbolDefinition>,
    pub module_references: SortedSet<SymbolKey>,
    pub exports: SortedSet<String>,
    pub star_imports: Vec<String>,
    pub is_package: bool,
    pub is_dynamic: bool,
}

impl<'a> ModuleCollector<'a> {
    pub open spec fn source(self) -> SourceModel {
        SourceModel {
            module: self.module@,
            file: self.file_path@,
            spelling: self.file_path.spelling(),
            text: self.contents@,
            public_decorators: self.public_decorators@,
            index: self.index@,
        }
    }

    pub open spec fn well_formed(self) -> bool {
        self.is_package == is_init(self.file_path@)
    }

    /// Whether the collector holds what `body` imports, defines and exports.
    pub open spec fn covers(self, body: Seq<Stmt>) -> bool {
        &&& self.imports@ == bound_last(bindings(self.source(), body))
        &&& self.local_symbols@ == defined_names(definitions(body))
        &&& self.symbols@ == registered_all(Map::empty(), self.source(), definitions(body))
        &&& self.exports@ == exported_names(body)
        &&& texts(self.star_imports@) == stars(self.source(), body)
        &&& self.is_dynamic == is_dynamic_body(self.source(), body)
    }

    pub fn new(
        index: &'a ModuleIndex,
        module: String,
        file_path: FilePath,
        contents: &'a str,
        public_decorators: &'a SortedSet<String>,
    ) -> (collector: ModuleCollector<'a>)
        ensures
            collector.well_formed(),
            collector.source() == (SourceModel {
                module: module@,
                file: file_path@,
                spelling: file_path.spelling(),
                text: contents@,
                public_decorators: public_decorators@,
                index: index@,
            }),
            collector.covers(Seq::empty()),
            collector.module_references@ == Set::<SymbolId>::empty(),
    {
        let is_package = is_init_file(&file_path);
        let collector = ModuleCollector {
            index,
            module,
            file_path,
            contents,
            imports: SortedMap::new(),
            local_symbols: SortedSet::new(),
            public_decorators,
            symbols: SortedMap::new(),
            module_references: SortedSet::new(),
            exports: SortedSet::new(),
            star_imports: Vec::new(),
            is_package,
            is_dynamic: false,
        };
        proof {
            let none = Seq::<Stmt>::empty();
            assert(collector.local_symbols@ =~= defined_names(definitions(none)));
            assert(collector.exports@ =~= exported_names(none));
            assert(texts(collector.star_imports@) =~= stars(collector.source(), none));
        }
        collector
    }

    /// Adds a name to those the module defines; the first definition of a name is kept.
    pub fn register_symbol(&mut self, name: &String, kind: SymbolKind, offset: u32)
        requires
            has_offsets(old(self).contents@),
        ensures
            final(self).local_symbols@ == old(self).local_symbols@.insert(name@),
            final(self).symbols@ == registered(
                old(self).symbols@,
                old(self).source(),
                (Definition { name: name@, kind, offset: offset as nat }),
            ),
            final(self).same_but_definitions(*old(self)),
    {
        self.local_symbols.insert(name.clone());
        if should_skip_symbol_candidate(name) || self.symbols.contains_key(name) {
            return;
        }
        let line = line_number(self.contents, offset);
        let definition = SymbolDefinition {
            kind,
            file_path: self.file_path.duplicate(),
            line_number: line,
            references: SortedSet::new(),
            has_public_decorator: false,
        };
        self.symbols.insert(name.clone(), definition);
    }

    /// Whether two collectors differ at most in the names that the module defines.
    pub open spec fn same_but_definitions(self, other: Self) -> bool {
        self == (ModuleCollector {
            local_symbols: self.local_symbols,
            symbols: self.symbols,
            ..other
        })
    }

    fn register_targets(&mut self, targets: &Vec<Expr>, value: Option<&Expr>, offset: u32)
        requires
            has_offsets(old(self).contents@),
        ensures
            final(self).local_symbols@ == old(self).local_symbols@.union(
                defined_names(assigned_names(targets@, offset as nat)),
            ),
            final(self).symbols@ == registered_all(
                old(self).symbols@,
                old(self).source(),
                assigned_names(targets@, offset as nat),
            ),
            final(self).exports@ == old(self).exports@.union(
                if names_all(targets@) {
                    match value {
                        Some(v) => Set::new(|n: Seq<char>| lists_name(*v, n)),
                        None => Set::empty(),
                    }
                } else {
                    Set::empty()
                },
            ),
            *final(self) == (ModuleCollector {
                local_symbols: final(self).local_symbols,
                symbols: final(self).symbols,
                exports: final(self).exports,
                ..*old(self)
            }),
    {
        let ghost start = *self;
        let ghost listed = match value {
            Some(v) => Set::new(|n: Seq<char>| lists_name(*v, n)),
            None => Set::empty(),
        };
        let mut i: usize = 0;
        proof {
            let none = targets@.take(0);
            assert(self.local_symbols@ =~= start.local_symbols@.union(
                defined_names(assigned_names(none, offset as nat)),
            ));
            assert(!names_all(none));
            assert(self.exports@ =~= start.exports@.union(Set::empty()));
        }
        while i < targets.len()
            invariant
                i <= targets@.len(),
                has_offsets(self.contents@),
                listed == (match value {
                    Some(v) => Set::new(|n: Seq<char>| lists_name(*v, n)),
                    None => Set::empty(),
                }),
                self.local_symbols@ == start.local_symbols@.union(
                    defined_names(assigned_names(targets@.take(i as int), offset as nat)),
                ),
                self.symbols@ == registered_all(
                    start.symbols@,
                    start.source(),
                    assigned_names(targets@.take(i as int), offset as nat),
                ),
                self.exports@ == start.exports@.union(
                    if names_all(targets@.take(i as int)) {
                        listed
                    } else {
                        Set::empty()
                    },
                ),
                *self == (ModuleCollector {
                    local_symbols: self.local_symbols,
                    symbols: self.symbols,
                    exports: self.exports,
                    ..start
                }),
            decreases targets@.len() - i,
        {
            let ghost shorter = targets@.take(i as int);
            let ghost longer = targets@.take(i + 1);
            let ghost earlier = assigned_names(shorter, offset as nat);
            proof {
                assert(longer.drop_last() =~= shorter);
                assert(longer =~= shorter.push(targets@[i as int]));
                assert(names_all(longer) == (names_all(shorter) || bare_name(targets@[i as int])
                    == Some("__all__"@))) by {
                    if names_all(shorter) {
                        let j = choose|j: int|
                            0 <= j < shorter.len() && bare_name(#[trigger] shorter[j]) == Some(
                                "__all__"@,
                            );
                        assert(longer[j] == shorter[j]);
                    }
                    if names_all(longer) {
                        let j = choose|j: int|
                            0 <= j < longer.len() && bare_name(#[trigger] longer[j]) == Some(
                                "__all__"@,
                            );
                        if j < i {
                            assert(shorter[j] == longer[j]);
                        }
                    }
                    assert(longer[i as int] == targets@[i as int]);
                }
            }
            if let Some(name) = simple_name(&targets[i]) {
                if same_text(name.as_str(), "__all__") {
                    if let Some(v) = value {
                        self.collect_exports(v);
                    }
                    assert(self.exports@ =~= start.exports@.union(listed));
                } else {
                    self.register_symbol(name, SymbolKind::Variable, offset);
                    proof {
                        let added = Definition {
                            name: name@,
                            kind: SymbolKind::Variable,
                            offset: offset as nat,
                        };
                        assert(earlier.push(added).drop_last() =~= earlier);
                        assert(earlier.push(added) =~= earlier + seq![added]);
                        lemma_defined_names_concat(earlier, seq![added]);
                        assert(defined_names(seq![added]) =~= set![name@]) by {
                            assert(seq![added][0] == added);
                        }
                        assert(self.local_symbols@ =~= start.local_symbols@.union(
                            defined_names(assigned_names(longer, offset as nat)),
                        ));
                    }
                }
            }
            i += 1;
        }
        assert(targets@.take(i as int) =~= targets@);
    }

    /// Adds the strings of a list or tuple display to the exported names.
    pub fn collect_exports(&mut self, value: &Expr)
        ensures
            final(self).exports@ == old(self).exports@.union(
                Set::new(|n: Seq<char>| lists_name(*value, n)),
            ),
            *final(self) == (ModuleCollector { exports: final(self).exports, ..*old(self) }),
    {
        let ghost start = self.exports@;
        match value {
            Expr::List { elts } => {
                self.collect_export_values(elts);
            },
            Expr::Tuple { elts } => {
                self.collect_export_values(elts);
            },
            _ => {},
        }
        assert(self.exports@ =~= start.union(Set::new(|n: Seq<char>| lists_name(*value, n))));
    }

    fn collect_export_values(&mut self, elts: &Vec<Expr>)
        ensures
            final(self).exports@ == old(self).exports@.union(
                Set::new(|n: Seq<char>| holds_string(elts@, n)),
            ),
            *final(self) == (ModuleCollector { exports: final(self).exports, ..*old(self) }),
    {
        let ghost start = *self;
        let mut i: usize = 0;
        assert(self.exports@ =~= start.exports@.union(
            Set::new(|n: Seq<char>| holds_string(elts@.take(0), n)),
        ));
        while i < elts.len()
            invariant
                i <= elts@.len(),
                self.exports@ == start.exports@.union(
                    Set::new(|n: Seq<char>| holds_string(elts@.take(i as int), n)),
                ),
                *self == (ModuleCollector { exports: self.exports, ..start }),
            decreases elts@.len() - i,
        {
            self.collect_export_value(&elts[i]);
            proof {
                let shorter = elts@.take(i as int);
                let longer = elts@.take(i + 1);
                assert forall|n: Seq<char>|
                    holds_string(longer, n) == (holds_string(shorter, n) || is_string(
                        elts@[i as int],
                        n,
                    )) by {
                    if holds_string(shorter, n) {
                        let j = choose|j: int|
                            0 <= j < shorter.len() && is_string(#[trigger] shorter[j], n);
                        assert(longer[j] == shorter[j]);
                    }
                    if holds_string(longer, n) {
                        let j = choose|j: int|
                            0 <= j < longer.len() && is_string(#[trigger] longer[j], n);
                        if j < i {
                            assert(longer[j] == shorter[j]);
                        }
                    }
                    assert(longer[i as int] == elts@[i as int]);
                }
                assert(self.exports@ =~= start.exports@.union(
                    Set::new(|n: Seq<char>| holds_string(longer, n)),
                ));
            }
            i += 1;
        }
        assert(elts@.take(i as int) =~= elts@);
    }

    pub fn collect_export_value(&mut self, value: &Expr)
        ensures
            final(self).exports@ == old(self).exports@.union(
                Set::new(|n: Seq<char>| is_string(*value, n)),
            ),
            *final(self) == (ModuleCollector { exports: final(self).exports, ..*old(self) }),
    {
        let ghost start = self.exports@;
        if let Expr::StringLiteral { text } = value {
            self.exports.insert(text.clone());
        }
        assert(self.exports@ =~= start.union(Set::new(|n: Seq<char>| is_string(*value, n))));
    }

    pub fn register_import(&mut self, alias: &Alias)
        ensures
            final(self).imports@ == rebound(old(self).imports@, module_bindings(seq![*alias])),
            *final(self) == (ModuleCollector { imports: final(self).imports, ..*old(self) }),
    {
        proof {
            let one = seq![*alias];
            assert(one.drop_last() =~= Seq::empty());
            assert(module_bindings(one.drop_last()) =~= Seq::empty());
        }
        let binding = bound_module_name(alias);
        if binding.as_str().is_empty() {
            return;
        }
        let target = match &alias.asname {
            Some(_) => alias.name.clone(),
            None => binding.clone(),
        };
        proof {
            lemma_rebound_push(
                self.imports@,
                Seq::empty(),
                (binding@, TargetModel::Module(target@)),
            );
        }
        self.imports.insert(binding, ImportTarget::Module(target));
    }

    fn register_imports(&mut self, names: &Vec<Alias>)
        ensures
            final(self).imports@ == rebound(old(self).imports@, module_bindings(names@)),
            *final(self) == (ModuleCollector { imports: final(self).imports, ..*old(self) }),
    {
        let ghost start = *self;
        let mut i: usize = 0;
        assert(module_bindings(names@.take(0)) =~= Seq::empty());
        while i < names.len()
            invariant
                i <= names@.len(),
                self.imports@ == rebound(start.imports@, module_bindings(names@.take(i as int))),
                *self == (ModuleCollector { imports: self.imports, ..start }),
            decreases names@.len() - i,
        {
            self.register_import(&names[i]);
            proof {
                let shorter = names@.take(i as int);
                let longer = names@.take(i + 1);
                let one = seq![names@[i as int]];
                assert(longer.drop_last() =~= shorter);
                assert(one.drop_last() =~= Seq::empty());
                assert(module_bindings(one.drop_last()) =~= Seq::empty());
                assert(module_bindings(longer) =~= module_bindings(shorter) + module_bindings(one));
                lemma_rebound_concat(start.imports@, module_bindings(shorter), module_bindings(one));
            }
            i += 1;
        }
        assert(names@.take(i as int) =~= names@);
    }

    pub fn register_import_from(&mut self, alias: &Alias, base_module: &String)
        ensures
            final(self).imports@ == rebound(
                old(self).imports@,
                alias_bindings(old(self).index@, base_module@, *alias),
            ),
            *final(self) == (ModuleCollector { imports: final(self).imports, ..*old(self) }),
    {
        let binding = bound_member_name(alias);
        if binding.as_str().is_empty() {
            return;
        }
        let full_import = join_member(base_module, &alias.name);
        let target = import_target_from_path(self.index, &full_import);
        proof {
            lemma_rebound_push(self.imports@, Seq::empty(), (binding@, target@));
            assert(Seq::empty().push((binding@, target@)) =~= seq![(binding@, target@)]);
        }
        self.imports.insert(binding, target);
    }

    fn register_imports_from(&mut self, names: &Vec<Alias>, base_module: &String)
        ensures
            final(self).imports@ == rebound(
                old(self).imports@,
                member_bindings(old(self).index@, base_module@, names@),
            ),
            texts(final(self).star_imports@) == texts(old(self).star_imports@) + star_bases(
                base_module@,
                names@,
            ),
            final(self).is_dynamic == (old(self).is_dynamic || star_bases(
                base_module@,
                names@,
            ).len() > 0),
            *final(self) == (ModuleCollector {
                imports: final(self).imports,
                star_imports: final(self).star_imports,
                is_dynamic: final(self).is_dynamic,
                ..*old(self)
            }),
    {
        let ghost start = *self;
        let ghost base = base_module@;
        let mut i: usize = 0;
        proof {
            assert(member_bindings(self.index@, base, names@.take(0)) =~= Seq::empty());
            assert(star_bases(base, names@.take(0)) =~= Seq::empty());
            assert(texts(self.star_imports@) =~= texts(start.star_imports@) + Seq::<
                Seq<char>,
            >::empty());
        }
        while i < names.len()
            invariant
                i <= names@.len(),
                base == base_module@,
                self.imports@ == rebound(
                    start.imports@,
                    member_bindings(start.index@, base, names@.take(i as int)),
                ),
                texts(self.star_imports@) == texts(start.star_imports@) + star_bases(
                    base,
                    names@.take(i as int),
                ),
                self.is_dynamic == (start.is_dynamic || star_bases(
                    base,
                    names@.take(i as int),
                ).len() > 0),
                *self == (ModuleCollector {
                    imports: self.imports,
                    star_imports: self.star_imports,
                    is_dynamic: self.is_dynamic,
                    ..start
                }),
            decreases names@.len() - i,
        {
            let ghost shorter = names@.take(i as int);
            let ghost longer = names@.take(i + 1);
            let ghost before = texts(self.star_imports@);
            assert(longer.drop_last() =~= shorter);
            if same_text(names[i].name.as_str(), "*") {
                self.is_dynamic = true;
                self.star_imports.push(base_module.clone());
                proof {
                    assert(texts(self.star_imports@) =~= before.push(base));
                    assert(texts(self.star_imports@) =~= texts(start.star_imports@) + star_bases(
                        base,
                        longer,
                    ));
                }
            } else {
                self.register_import_from(&names[i], base_module);
                proof {
                    let one = seq![names@[i as int]];
                    assert(one.drop_last() =~= Seq::empty());
                    assert(member_bindings(start.index@, base, one.drop_last()) =~= Seq::empty());
                    assert(member_bindings(start.index@, base, longer) =~= member_bindings(
                        start.index@,
                        base,
                        shorter,
                    ) + member_bindings(start.index@, base, one));
                    lemma_rebound_concat(
                        start.imports@,
                        member_bindings(start.index@, base, shorter),
                        member_bindings(start.index@, base, one),
                    );
                }
            }
            i += 1;
        }
        assert(names@.take(i as int) =~= names@);
    }

    /// The module that a `from` import starts at.
    pub fn resolve_import_from_base(&self, from: &Option<String>, level: u32) -> (base: Option<
        String,
    >)
        ensures
            text_of(base) == import_base(
                self.module@,
                self.is_package,
                text_of(*from),
                level as nat,
            ),
    {
        let depth = level as usize;
        let strip: usize = if self.is_package && depth > 0 {
            depth - 1
        } else {
            depth
        };
        let mut parts: Vec<String> = if self.module.as_str().is_empty() {
            Vec::new()
        } else {
            split_text(self.module.as_str(), '.')
        };
        let ghost all = texts(parts@);
        proof {
            reveal_strlit(".");
        }
        assert(self.module@.len() == 0 ==> all =~= Seq::empty());
        if strip > parts.len() {
            return None;
        }
        let keep = parts.len() - strip;
        parts.truncate(keep);
        assert(texts(parts@) =~= all.take(keep as int));
        match from {
            Some(name) => if level > 0 && parts.len() > 0 {
                Some(join_dotted(join_text(&parts, ".").as_str(), name.as_str()))
            } else {
                Some(name.clone())
            },
            None => if parts.len() > 0 {
                Some(join_text(&parts, "."))
            } else {
                None
            },
        }
    }

    /// The dotted paths that the `from` imports of a body lead to.
    pub fn from_import_paths(&self, body: &Vec<Stmt>) -> (paths: Vec<String>)
        requires
            self.well_formed(),
        ensures
            texts(paths@) == imported_paths(self.source(), body@),
    {
        let mut paths: Vec<String> = Vec::new();
        let mut i: usize = 0;
        assert(texts(paths@) =~= imported_paths(self.source(), body@.take(0)));
        while i < body.len()
            invariant
                i <= body@.len(),
                self.well_formed(),
                texts(paths@) == imported_paths(self.source(), body@.take(i as int)),
            decreases body@.len() - i,
        {
            let ghost before = texts(paths@);
            assert(body@.take(i + 1).drop_last() =~= body@.take(i as int));
            if let StmtKind::ImportFrom { module, level, names } = &body[i].kind {
                if let Some(base) = self.resolve_import_from_base(module, *level) {
                    push_member_paths(&base, names, &mut paths);
                }
            }
            assert(texts(paths@) =~= before + stmt_paths(self.source(), body@[i as int].kind));
            i += 1;
        }
        assert(body@.take(i as int) =~= body@);
        paths
    }

    /// Takes in what a statement imports, defines and exports.
    pub fn collect_statement_imports_and_definitions(&mut self, stmt: &Stmt)
        requires
            old(self).well_formed(),
            has_offsets(old(self).contents@),
        ensures
            final(self).imports@ == rebound(
                old(self).imports@,
                stmt_bindings(old(self).source(), stmt.kind),
            ),
            final(self).local_symbols@ == old(self).local_symbols@.union(
                defined_names(stmt_definitions(*stmt)),
            ),
            final(self).symbols@ == registered_all(
                old(self).symbols@,
                old(self).source(),
                stmt_definitions(*stmt),
            ),
            final(self).exports@ == old(self).exports@.union(
                Set::new(|n: Seq<char>| exports_name(stmt.kind, n)),
            ),
            texts(final(self).star_imports@) == texts(old(self).star_imports@) + stmt_stars(
                old(self).source(),
                stmt.kind,
            ),
            final(self).is_dynamic == (old(self).is_dynamic || is_dynamic_stmt(
                old(self).source(),
                *stmt,
            )),
            *final(self) == (ModuleCollector {
                imports: final(self).imports,
                local_symbols: final(self).local_symbols,
                symbols: final(self).symbols,
                exports: final(self).exports,
                star_imports: final(self).star_imports,
                is_dynamic: final(self).is_dynamic,
                ..*old(self)
            }),
    {
        let ghost start = *self;
        if statement_contains_dynamic_call(stmt) {
            self.is_dynamic = true;
        }
        match &stmt.kind {
            StmtKind::Import { names } => {
                self.register_imports(names);
            },
            StmtKind::ImportFrom { module, level, names } => {
                if let Some(base_module) = self.resolve_import_from_base(module, *level) {
                    self.register_imports_from(names, &base_module);
                }
            },
            StmtKind::FunctionDef { name, .. } => {
                if same_text(name.as_str(), "__getattr__") {
                    self.is_dynamic = true;
                }
                self.register_symbol(name, SymbolKind::Function, stmt.offset);
                proof {
                    lemma_single_definition(
                        start.symbols@,
                        start.source(),
                        stmt_definitions(*stmt)[0],
                    );
                }
            },
            StmtKind::ClassDef { name, .. } => {
                self.register_symbol(name, SymbolKind::Class, stmt.offset);
                proof {
                    lemma_single_definition(
                        start.symbols@,
                        start.source(),
                        stmt_definitions(*stmt)[0],
                    );
                }
            },
            StmtKind::Assign { targets, value } => {
                self.register_targets(targets, Some(value), stmt.offset);
            },
            StmtKind::AnnAssign { target, initial, simple } => {
                if *simple {
                    self.register_annotated(target, initial, stmt.offset);
                }
            },
            _ => {},
        }
        proof {
            assert(self.local_symbols@ =~= start.local_symbols@.union(
                defined_names(stmt_definitions(*stmt)),
            ));
            assert(self.exports@ =~= start.exports@.union(
                Set::new(|n: Seq<char>| exports_name(stmt.kind, n)),
            ));
            assert(texts(self.star_imports@) =~= texts(start.star_imports@) + stmt_stars(
                start.source(),
                stmt.kind,
            ));
        }
    }

    fn register_annotated(&mut self, target: &Expr, initial: &Option<Expr>, offset: u32)
        requires
            has_offsets(old(self).contents@),
        ensures
            final(self).local_symbols@ == old(self).local_symbols@.union(
                defined_names(assigned_names(seq![*target], offset as nat)),
            ),
            final(self).symbols@ == registered_all(
                old(self).symbols@,
                old(self).source(),
                assigned_names(seq![*target], offset as nat),
            ),
            final(self).exports@ == old(self).exports@.union(
                match *initial {
                    Some(v) => if bare_name(*target) == Some("__all__"@) {
                        Set::new(|n: Seq<char>| lists_name(v, n))
                    } else {
                        Set::empty()
                    },
                    None => Set::empty(),
                },
            ),
            *final(self) == (ModuleCollector {
                local_symbols: final(self).local_symbols,
                symbols: final(self).symbols,
                exports: final(self).exports,
                ..*old(self)
            }),
    {
        let ghost start = *self;
        proof {
            let one = seq![*target];
            assert(one.drop_last() =~= Seq::empty());
            assert(assigned_names(one.drop_last(), offset as nat) =~= Seq::empty());
            assert(defined_names(Seq::empty()) =~= Set::empty());
        }
        if let Some(name) = simple_name(target) {
            if same_text(name.as_str(), "__all__") {
                if let Some(value) = initial {
                    self.collect_exports(value);
                }
            } else {
                self.register_symbol(name, SymbolKind::Variable, offset);
                proof {
                    let added = Definition {
                        name: name@,
                        kind: SymbolKind::Variable,
                        offset: offset as nat,
                    };
                    assert(Seq::<Definition>::empty().push(added) =~= seq![added]);
                    lemma_single_definition(start.symbols@, start.source(), added);
                }
            }
        }
        assert(self.local_symbols@ =~= start.local_symbols@.union(
            defined_names(assigned_names(seq![*target], offset as nat)),
        ));
        assert(self.exports@ =~= start.exports@.union(
            match *initial {
                Some(v) => if bare_name(*target) == Some("__all__"@) {
                    Set::new(|n: Seq<char>| lists_name(v, n))
                } else {
                    Set::empty()
                },
                None => Set::empty(),
            },
        ));
    }

    /// Takes in what all statements of a module import, define and export.
    pub fn collect_imports_and_definitions(&mut self, body: &Vec<Stmt>)
        requires
            old(self).well_formed(),
            has_offsets(old(self).contents@),
            old(self).covers(Seq::empty()),
        ensures
            final(self).well_formed(),
            final(self).source() == old(self).source(),
            final(self).covers(body@),
            final(self).module_references == old(self).module_references,
    {
        let ghost start = *self;
        let ghost source = self.source();
        let mut i: usize = 0;
        assert(body@.take(0) =~= Seq::empty());
        while i < body.len()
            invariant
                i <= body@.len(),
                self.well_formed(),
                has_offsets(self.contents@),
                self.source() == source,
                self.covers(body@.take(i as int)),
                self.module_references == start.module_references,
            decreases body@.len() - i,
        {
            self.collect_statement_imports_and_definitions(&body[i]);
            proof {
                let shorter = body@.take(i as int);
                let longer = body@.take(i + 1);
                let stmt = body@[i as int];
                assert(longer.drop_last() =~= shorter);
                assert(longer =~= shorter.push(stmt));
                lemma_rebound_concat(
                    Map::empty(),
                    bindings(source, shorter),
                    stmt_bindings(source, stmt.kind),
                );
                lemma_defined_names_concat(definitions(shorter), stmt_definitions(stmt));
                lemma_registered_concat(
                    Map::empty(),
                    source,
                    definitions(shorter),
                    stmt_definitions(stmt),
                );
                assert forall|n: Seq<char>|
                    exported_names(longer).contains(n) == (exported_names(shorter).contains(n)
                        || exports_name(stmt.kind, n)) by {
                    if exported_names(shorter).contains(n) {
                        let j = choose|j: int|
                            0 <= j < shorter.len() && exports_name((#[trigger] shorter[j]).kind, n);
                        assert(longer[j] == shorter[j]);
                    }
                    if exported_names(longer).contains(n) {
                        let j = choose|j: int|
                            0 <= j < longer.len() && exports_name((#[trigger] longer[j]).kind, n);
                        if j < i {
                            assert(longer[j] == shorter[j]);
                        }
                    }
                    assert(longer[i as int] == stmt);
                }
                assert(self.exports@ =~= exported_names(longer));
                assert(is_dynamic_body(source, longer) == (is_dynamic_body(source, shorter)
                    || is_dynamic_stmt(source, stmt))) by {
                    if is_dynamic_body(source, shorter) {
                        let j = choose|j: int|
                            0 <= j < shorter.len() && is_dynamic_stmt(source, #[trigger] shorter[j]);
                        assert(longer[j] == shorter[j]);
                    }
                    if is_dynamic_body(source, longer) {
                        let j = choose|j: int|
                            0 <= j < longer.len() && is_dynamic_stmt(source, #[trigger] longer[j]);
                        if j < i {
                            assert(longer[j] == shorter[j]);
                        }
                    }
                    assert(longer[i as int] == stmt);
                }
            }
            i += 1;
        }
        assert(body@.take(i as int) =~= body@);
    }

    /// The meaning of names at the top level of the module, as collected so far.
    pub open spec fn scope(self) -> Scope {
        top_level(self.module@, self.local_symbols@, self.imports@)
    }

    /// The paths by which a decorator may be configured as public.
    pub fn decorator_paths(&self, expr: &Expr) -> (paths: SortedSet<String>)
        ensures
            paths@ == decorator_names(self.scope(), *expr),
        decreases *expr,
    {
        let mut paths: SortedSet<String> = SortedSet::new();
        match expr {
            Expr::Call { func, .. } => {
                paths = self.decorator_paths(func);
            },
            Expr::Name { id, .. } => {
                paths.insert(id.clone());
                if self.local_symbols.contains(id) {
                    paths.insert(join_dotted(self.module.as_str(), id.as_str()));
                }
                if let Some(ImportTarget::Symbol(symbol)) = self.imports.get(id) {
                    paths.insert(
                        join_dotted(symbol.module.as_str(), symbol.symbol_name.as_str()),
                    );
                }
            },
            Expr::Attribute { value, attr, .. } => {
                if let Some(module) = resolve_module_expression(value, &self.imports) {
                    paths.insert(join_dotted(module.as_str(), attr.as_str()));
                }
                if let Some(path) = raw_expression_path(expr) {
                    paths.insert(path);
                }
            },
            _ => {},
        }
        assert(paths@ =~= decorator_names(self.scope(), *expr));
        paths
    }

    fn is_public_decorator(&self, expr: &Expr) -> (yes: bool)
        ensures
            yes == !decorator_names(self.scope(), *expr).disjoint(self.public_decorators@),
    {
        let paths = self.decorator_paths(expr);
        let n = paths.len();
        let ghost list = in_order::<String>(paths@);
        let mut i: usize = 0;
        while i < n
            invariant
                i <= n,
                n == list.len(),
                list == in_order::<String>(paths@),
                list.to_set() == paths@,
                paths@ == decorator_names(self.scope(), *expr),
                forall|j: int| 0 <= j < i ==> !self.public_decorators@.contains(#[trigger] list[j]),
            decreases n - i,
        {
            if self.public_decorators.contains(paths.at(i)) {
                assert(list.to_set().contains(list[i as int]));
                return true;
            }
            i += 1;
        }
        assert forall|p: Seq<char>| paths@.contains(p) implies !self.public_decorators@.contains(p) by {
            assert(list.to_set().contains(p));
        }
        false
    }

    fn has_public_decorator(&self, decorators: &Vec<Expr>) -> (yes: bool)
        ensures
            yes == has_public(self.scope(), self.public_decorators@, decorators@),
    {
        let mut i: usize = 0;
        while i < decorators.len()
            invariant
                i <= decorators@.len(),
                forall|j: int|
                    0 <= j < i ==> decorator_names(
                        self.scope(),
                        #[trigger] decorators@[j],
                    ).disjoint(self.public_decorators@),
            decreases decorators@.len() - i,
        {
            if self.is_public_decorator(&decorators[i]) {
                return true;
            }
            i += 1;
        }
        false
    }

    /// Credits a symbol of the module with references and, where `public` holds, as public.
    fn credit(&mut self, name: &String, references: SortedSet<SymbolKey>, public: bool)
        ensures
            final(self).symbols@ == credited(
                old(self).symbols@,
                Some(Contribution { name: name@, references: references@, public }),
            ),
            *final(self) == (ModuleCollector { symbols: final(self).symbols, ..*old(self) }),
    {
        let ghost start = self.symbols@;
        if let Some(definition) = self.symbols.remove(name) {
            let SymbolDefinition {
                kind,
                file_path,
                line_number,
                references: known,
                has_public_decorator,
            } = definition;
            let merged = merge_keys(known, &references);
            let updated = SymbolDefinition {
                kind,
                file_path,
                line_number,
                references: merged,
                has_public_decorator: has_public_decorator || public,
            };
            let ghost model = updated@;
            self.symbols.insert(name.clone(), updated);
            proof {
                let extra = Contribution { name: name@, references: references@, public };
                assert(model == enriched(start[name@], extra));
                assert(self.symbols@ =~= start.insert(name@, model));
            }
        } else {
            assert(self.symbols@ =~= start);
        }
    }

    /// Takes in what a statement refers to.
    pub fn collect_statement_references(&mut self, stmt: &Stmt)
        ensures
            final(self).symbols@ == credited(
                old(self).symbols@,
                contribution(old(self).scope(), old(self).public_decorators@, stmt.kind),
            ),
            final(self).module_references@ == (if is_module_code(stmt.kind) {
                old(self).module_references@.union(
                    references_in(old(self).scope(), stmt_nodes(*stmt)),
                )
            } else {
                old(self).module_references@
            }),
            *final(self) == (ModuleCollector {
                symbols: final(self).symbols,
                module_references: final(self).module_references,
                ..*old(self)
            }),
    {
        let ghost start = *self;
        match &stmt.kind {
            StmtKind::Import { .. } => {},
            StmtKind::ImportFrom { .. } => {},
            StmtKind::FunctionDef { name, decorators, parameters, return_type, body } => {
                if !self.symbols.contains_key(name) {
                    return;
                }
                let public = self.has_public_decorator(decorators);
                let mut signature = ReferenceCollector::new(
                    &self.module,
                    &self.local_symbols,
                    &self.imports,
                    SortedSet::new(),
                );
                signature.visit_signature(decorators, parameters, return_type);
                let shadowed = collect_function_shadowed_names(parameters, body);
                let mut inner = ReferenceCollector::new(
                    &self.module,
                    &self.local_symbols,
                    &self.imports,
                    shadowed,
                );
                inner.visit_body(body);
                let references = merge_keys(signature.references, &inner.references);
                proof {
                    let extra = contribution(start.scope(), start.public_decorators@, stmt.kind)->0;
                    assert(references@ =~= extra.references);
                }
                self.credit(name, references, public);
            },
            StmtKind::ClassDef { name, decorators, arguments, body } => {
                if !self.symbols.contains_key(name) {
                    return;
                }
                let public = self.has_public_decorator(decorators);
                let shadowed = collect_class_shadowed_names(body);
                let mut inner = ReferenceCollector::new(
                    &self.module,
                    &self.local_symbols,
                    &self.imports,
                    shadowed,
                );
                inner.visit_list(decorators);
                inner.visit_list(arguments);
                inner.visit_body(body);
                let references = inner.references;
                proof {
                    let extra = contribution(start.scope(), start.public_decorators@, stmt.kind)->0;
                    assert(references@ =~= extra.references);
                }
                self.credit(name, references, public);
            },
            _ => {
                let mut collector = ReferenceCollector::new(
                    &self.module,
                    &self.local_symbols,
                    &self.imports,
                    SortedSet::new(),
                );
                collector.visit_stmt(stmt);
                let references = collector.references;
                assert(references@ =~= references_in(start.scope(), stmt_nodes(*stmt)));
                extend_keys(&mut self.module_references, &references);
            },
        }
    }

    /// Takes in what all statements of a module refer to.
    pub fn collect_references(&mut self, body: &Vec<Stmt>)
        ensures
            final(self).symbols@ == credited_all(
                old(self).symbols@,
                old(self).scope(),
                old(self).public_decorators@,
                body@,
            ),
            final(self).module_references@ == old(self).module_references@.union(
                module_code_references(old(self).scope(), body@),
            ),
            *final(self) == (ModuleCollector {
                symbols: final(self).symbols,
                module_references: final(self).module_references,
                ..*old(self)
            }),
    {
        let ghost start = *self;
        let ghost scope = self.scope();
        let mut i: usize = 0;
        assert(self.module_references@ =~= start.module_references@.union(
            module_code_references(scope, body@.take(0)),
        ));
        while i < body.len()
            invariant
                i <= body@.len(),
                scope == start.scope(),
                self.symbols@ == credited_all(
                    start.symbols@,
                    scope,
                    start.public_decorators@,
                    body@.take(i as int),
                ),
                self.module_references@ == start.module_references@.union(
                    module_code_references(scope, body@.take(i as int)),
                ),
                *self == (ModuleCollector {
                    symbols: self.symbols,
                    module_references: self.module_references,
                    ..start
                }),
            decreases body@.len() - i,
        {
            assert(self.scope() == scope);
            self.collect_statement_references(&body[i]);
            proof {
                let shorter = body@.take(i as int);
                let longer = body@.take(i + 1);
                let stmt = body@[i as int];
                assert(longer.drop_last() =~= shorter);
                assert(longer =~= shorter.push(stmt));
                assert forall|id: SymbolId|
                    module_code_references(scope, longer).contains(id) == (module_code_references(
                        scope,
                        shorter,
                    ).contains(id) || (is_module_code(stmt.kind) && references_in(
                        scope,
                        stmt_nodes(stmt),
                    ).contains(id))) by {
                    if module_code_references(scope, shorter).contains(id) {
                        let j = choose|j: int|
                            0 <= j < shorter.len() && is_module_code((#[trigger] shorter[j]).kind)
                                && references_in(scope, stmt_nodes(shorter[j])).contains(id);
                        assert(longer[j] == shorter[j]);
                    }
                    if module_code_references(scope, longer).contains(id) {
                        let j = choose|j: int|
                            0 <= j < longer.len() && is_module_code((#[trigger] longer[j]).kind)
                                && references_in(scope, stmt_nodes(longer[j])).contains(id);
                        if j < i {
                            assert(longer[j] == shorter[j]);
                        }
                    }
                    assert(longer[i as int] == stmt);
                }
                assert(self.module_references@ =~= start.module_references@.union(
                    module_code_references(scope, longer),
                ));
            }
            i += 1;
        }
        assert(body@.take(i as int) =~= body@);
    }

    /// Hands over what was collected, together with the module's FastAPI wiring.
    pub fn finish(self, fastapi: ModuleInfo) -> (module: ModuleSymbols)
        ensures
            module@ == (ModuleModel {
                symbols: self.symbols@,
                references: self.module_references@,
                imports: self.imports@,
                exports: self.exports@,
                stars: texts(self.star_imports@),
                dynamic: self.is_dynamic,
                fastapi: fastapi@,
            }),
    {
        ModuleSymbols {
            symbols: self.symbols,
            module_references: self.module_references,
            imports: self.imports,
            exports: self.exports,
            star_imports: self.star_imports,
            is_dynamic: self.is_dynamic,
            fastapi,
        }
    }

    /// Collects everything the analysis needs from a module's body.
    pub fn collect(self, body: &Vec<Stmt>) -> (module: ModuleSymbols)
        requires
            self.well_formed(),
            has_offsets(self.contents@),
            self.covers(Seq::empty()),
            self.module_references@ == Set::<SymbolId>::empty(),
        ensures
            module@ == module_model(self.source(), body@),
    {
        let mut collector = self;
        collector.collect_imports_and_definitions(body);
        let fastapi = collect_module_info(
            &collector.module,
            body,
            &collector.imports,
            &collector.local_symbols,
        );
        collector.collect_references(body);
        assert(collector.module_references@ =~= module_code_references(
            module_scope(self.source(), body@),
            body@,
        ));
        collector.finish(fastapi)
    }
}

/// Adds every key of `more` to `keys`.
pub fn extend_keys(keys: &mut SortedSet<SymbolKey>, more: &SortedSet<SymbolKey>)
    ensures
        final(keys)@ == old(keys)@.union(more@),
{
    let ghost start = keys@;
    let n = more.len();
    let ghost list = in_order::<SymbolKey>(more@);
    let mut i: usize = 0;
    assert(keys@ =~= start.union(list.take(0).to_set()));
    while i < n
        invariant
            i <= n,
            n == list.len(),
            list == in_order::<SymbolKey>(more@),
            keys@ == start.union(list.take(i as int).to_set()),
        decreases n - i,
    {
        keys.insert(more.at(i).duplicate());
        proof {
            let shorter = list.take(i as int);
            let longer = list.take(i + 1);
            assert(longer =~= shorter.push(list[i as int]));
            assert forall|k: SymbolId|
                longer.to_set().contains(k) == (shorter.to_set().contains(k) || k == list[i as int]) by {
                if shorter.contains(k) {
                    let j = shorter.index_of(k);
                    assert(longer[j] == k);
                }
                assert(longer[i as int] == list[i as int]);
            }
            assert(keys@ =~= start.union(longer.to_set()));
        }
        i += 1;
    }
    assert(list.take(i as int) =~= list);
}

fn merge_keys(keys: SortedSet<SymbolKey>, more: &SortedSet<SymbolKey>) -> (all: SortedSet<SymbolKey>)
    ensures
        all@ == keys@.union(more@),
{
    let mut all = keys;
    extend_keys(&mut all, more);
    all
}

/// Collects the symbols of a module from its text and its parsed body.
pub fn collect_module_symbols(
    index: &ModuleIndex,
    file_path: &FilePath,
    module: &String,
    contents: &str,
    body: &Vec<Stmt>,
    public_decorators: &SortedSet<String>,
) -> (symbols: ModuleSymbols)
    requires
        has_offsets(contents@),
    ensures
        symbols@ == module_model(
            (SourceModel {
                module: module@,
                file: file_path@,
                spelling: file_path.spelling(),
                text: contents@,
                public_decorators: public_decorators@,
                index: index@,
            }),
            body@,
        ),
{
    ModuleCollector::new(
        index,
        module.clone(),
        file_path.duplicate(),
        contents,
        public_decorators,
    ).collect(body)
}

proof fn lemma_single_definition(
    symbols: Map<Seq<char>, SymbolModel>,
    source: SourceModel,
    definition: Definition,
)
    ensures
        registered_all(symbols, source, seq![definition]) == registered(symbols, source, definition),
        defined_names(seq![definition]) == set![definition.name],
{
    let one = seq![definition];
    assert(one.drop_last() =~= Seq::empty());
    assert(registered_all(symbols, source, one.drop_last()) == symbols);
    assert(one[0] == definition);
    assert(defined_names(one) =~= set![definition.name]);
}

pub fn should_skip_symbol_candidate(name: &String) -> (skip: bool)
    ensures
        skip == is_dunder(name@),
{
    dunder(name.as_str())
}

} // verus!
