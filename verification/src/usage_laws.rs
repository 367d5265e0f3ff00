//! Which symbols of a project are in use, said of the statements of its files.

use crate::ast::{Expr, ExprContext, Parameter, Stmt, StmtKind};
use crate::collections::{gathered, in_order, is_listed, strictly_sorted, union_over};
use crate::collector::{module_model, SourceModel};
use crate::config::DeadcodeConfig;
use crate::fastapi::served_symbols;
use crate::graph::live_files;
use crate::imports::TargetModel;
use crate::keys::SymbolId;
use crate::liveness::{
    declares_symbol, decorates_symbol, defines, exported_symbol, exports_symbol, opens_module,
    reference_step, seeds, star_expanded, star_gives, uses_symbol, TableModel,
};
use crate::module_laws::{
    body_defines, has_double_underscores, lemma_symbol_is_defined, stmt_defines,
};
use crate::order::{lemma_text_precedes_irreflexive, text_precedes, Ordered};
use crate::path::{path_precedes, FilePath};
use crate::reference_laws::{
    hidden_in_class, hidden_in_function, lemma_module_references, lemma_symbol_references,
    nothing_hidden, refers, stmt_refers,
};
use crate::rules::rule_symbol;
use crate::symbol_laws::{
    input_seeds, is_reported, lemma_collected_from, lemma_live_or_reported, lemma_references_live,
    lemma_seeds_live,
};
use crate::symbols::{
    collected, dead_symbols, file_model, finding_id, finding_ids, has_live_failure, live_ids,
    live_modules, AnalysisModel, FindingKey, FindingModel,
};
use crate::syntax_laws::{body_binds, in_body, in_list, in_option, in_parameters, in_stmt};
use crate::text::texts;
use vstd::prelude::*;

verus! {

/// Whether some module defines a symbol.
pub open spec fn is_defined(modules: TableModel, id: SymbolId) -> bool {
    modules.contains_key(id.0) && modules[id.0].symbols.contains_key(id.1)
}

/// Whether a file is live and was read, and no other such file holds the same module.
pub open spec fn holds_module(input: AnalysisModel, file: Seq<char>) -> bool {
    &&& is_listed::<FilePath>(live_files(input.graph, input.roots))
    &&& live_files(input.graph, input.roots).contains(file)
    &&& input.graph.files.contains_key(file)
    &&& input.sources.contains_key(file)
    &&& forall|other: Seq<char>|
        live_files(input.graph, input.roots).contains(other) && input.graph.files.contains_key(
            other,
        ) && #[trigger] input.sources.contains_key(other) && input.graph.files[other]
            == input.graph.files[file] ==> other == file
}

/// A file and its surroundings.
pub open spec fn source_of(input: AnalysisModel, file: Seq<char>) -> SourceModel {
    SourceModel {
        module: input.graph.files[file],
        file,
        spelling: input.graph.spellings[file],
        text: input.sources[file].text,
        public_decorators: texts(input.config.public_decorators@).to_set(),
        index: input.index,
    }
}

proof fn lemma_collected_key(input: AnalysisModel, files: Seq<Seq<char>>, file: Seq<char>)
    requires
        files.contains(file),
        input.graph.files.contains_key(file),
        input.sources.contains_key(file),
    ensures
        collected(input, files).contains_key(input.graph.files[file]),
    decreases files.len(),
{
    let shorter = files.drop_last();
    if files.last() != file {
        let j = choose|j: int| 0 <= j < files.len() && files[j] == file;
        assert(shorter[j] == file);
        lemma_collected_key(input, shorter, file);
    }
}

/// The module of a live file is analysed as the file has it; its star imports only add to what its
/// top-level code refers to.
pub proof fn lemma_live_module(input: AnalysisModel, file: Seq<char>)
    requires
        holds_module(input, file),
    ensures
        ({
            let module = input.graph.files[file];
            let read = module_model(source_of(input, file), input.sources[file].body);
            let seen = live_modules(input)[module];
            &&& live_modules(input).contains_key(module)
            &&& seen.symbols == read.symbols
            &&& seen.imports == read.imports
            &&& seen.exports == read.exports
            &&& seen.stars == read.stars
            &&& seen.dynamic == read.dynamic
            &&& seen.fastapi == read.fastapi
            &&& read.references.subset_of(seen.references)
        }),
{
    let live = live_files(input.graph, input.roots);
    let files = in_order::<FilePath>(live);
    let module = input.graph.files[file];
    assert(files.to_set().contains(file));
    lemma_collected_key(input, files, file);
    lemma_collected_from(input, files, module);
    let other = choose|other: Seq<char>| #[trigger]
        files.contains(other) && input.graph.files.contains_key(other)
            && input.sources.contains_key(other) && input.graph.files[other] == module
            && collected(input, files)[module] == file_model(input, other);
    assert(files.to_set().contains(other));
    assert(other == file);
}

/// What a live file defines at its top level is in use or reported, and never both.
pub proof fn lemma_defined_in_use_or_reported(
    input: AnalysisModel,
    file: Seq<char>,
    i: int,
    n: Seq<char>,
)
    requires
        holds_module(input, file),
        !has_live_failure(input.graph, input.roots, input.failures),
        !input.config.ignore_dynamic_modules,
        0 <= i < input.sources[file].body.len(),
        stmt_defines(input.sources[file].body[i].kind, n),
        !has_double_underscores(n),
    ensures
        live_ids(input).contains((input.graph.files[file], n)) != is_reported(
            input,
            (input.graph.files[file], n),
        ),
{
    let body = input.sources[file].body;
    lemma_live_module(input, file);
    assert(body_defines(body, n));
    lemma_symbol_is_defined(source_of(input, file), body, n);
    lemma_live_or_reported(input, (input.graph.files[file], n));
}

/// What a live function or class refers to is live, if some module defines it.
pub proof fn lemma_use_in_definition(
    input: AnalysisModel,
    file: Seq<char>,
    i: int,
    n: Seq<char>,
    id: SymbolId,
)
    requires
        holds_module(input, file),
        0 <= i < input.sources[file].body.len(),
        stmt_refers(
            source_of(input, file),
            input.sources[file].body,
            input.sources[file].body[i].kind,
            n,
            id,
        ),
        !has_double_underscores(n),
        live_ids(input).contains((input.graph.files[file], n)),
        is_defined(live_modules(input), id),
    ensures
        live_ids(input).contains(id),
{
    let body = input.sources[file].body;
    let source = source_of(input, file);
    lemma_live_module(input, file);
    assert(stmt_defines(body[i].kind, n));
    assert(body_defines(body, n));
    lemma_symbol_is_defined(source, body, n);
    lemma_symbol_references(source, body, n, id);
    lemma_references_live(input, (input.graph.files[file], n), id);
}

/// A name that is read anywhere in the body of a live class, that the class body does not bind and
/// that the module defines, is live.
pub proof fn lemma_name_in_class_live(
    input: AnalysisModel,
    file: Seq<char>,
    i: int,
    name: String,
    decorators: Vec<Expr>,
    arguments: Vec<Expr>,
    inner: Vec<Stmt>,
    used: String,
)
    requires
        holds_module(input, file),
        0 <= i < input.sources[file].body.len(),
        input.sources[file].body[i].kind == (StmtKind::ClassDef {
            name,
            decorators,
            arguments,
            body: inner,
        }),
        !has_double_underscores(name@),
        live_ids(input).contains((input.graph.files[file], name@)),
        in_body(Expr::Name { id: used, ctx: ExprContext::Load }, inner@),
        !body_binds(inner@, used@),
        body_defines(input.sources[file].body, used@),
        !has_double_underscores(used@),
    ensures
        live_ids(input).contains((input.graph.files[file], used@)),
{
    let body = input.sources[file].body;
    let source = source_of(input, file);
    let x = Expr::Name { id: used, ctx: ExprContext::Load };
    let id = (input.graph.files[file], used@);
    lemma_live_module(input, file);
    lemma_symbol_is_defined(source, body, used@);
    assert(refers(
        source.module,
        body,
        module_model(source, body).imports,
        hidden_in_class(inner@),
        x,
        id,
    ));
    lemma_use_in_definition(input, file, i, name@, id);
}

/// A name that is read anywhere in the body of a live function, that is no parameter, that the
/// body does not bind and that the module defines, is live.
pub proof fn lemma_name_in_function_live(
    input: AnalysisModel,
    file: Seq<char>,
    i: int,
    name: String,
    decorators: Vec<Expr>,
    parameters: Vec<Parameter>,
    return_type: Option<Expr>,
    inner: Vec<Stmt>,
    used: String,
)
    requires
        holds_module(input, file),
        0 <= i < input.sources[file].body.len(),
        input.sources[file].body[i].kind == (StmtKind::FunctionDef {
            name,
            decorators,
            parameters,
            return_type,
            body: inner,
        }),
        !has_double_underscores(name@),
        live_ids(input).contains((input.graph.files[file], name@)),
        in_body(Expr::Name { id: used, ctx: ExprContext::Load }, inner@),
        !body_binds(inner@, used@),
        forall|k: int| 0 <= k < parameters@.len() ==> (#[trigger] parameters@[k]).name@ != used@,
        body_defines(input.sources[file].body, used@),
        !has_double_underscores(used@),
    ensures
        live_ids(input).contains((input.graph.files[file], used@)),
{
    let body = input.sources[file].body;
    let source = source_of(input, file);
    let x = Expr::Name { id: used, ctx: ExprContext::Load };
    let id = (input.graph.files[file], used@);
    lemma_live_module(input, file);
    lemma_symbol_is_defined(source, body, used@);
    assert(refers(
        source.module,
        body,
        module_model(source, body).imports,
        hidden_in_function(parameters@, inner@),
        x,
        id,
    ));
    lemma_use_in_definition(input, file, i, name@, id);
}

/// A name that is read in a decorator, in the annotation or the default of a parameter, or in the
/// return annotation of a live function, and that the module defines, is live.
pub proof fn lemma_name_in_signature_live(
    input: AnalysisModel,
    file: Seq<char>,
    i: int,
    name: String,
    decorators: Vec<Expr>,
    parameters: Vec<Parameter>,
    return_type: Option<Expr>,
    inner: Vec<Stmt>,
    used: String,
)
    requires
        holds_module(input, file),
        0 <= i < input.sources[file].body.len(),
        input.sources[file].body[i].kind == (StmtKind::FunctionDef {
            name,
            decorators,
            parameters,
            return_type,
            body: inner,
        }),
        !has_double_underscores(name@),
        live_ids(input).contains((input.graph.files[file], name@)),
        ({
            let x = Expr::Name { id: used, ctx: ExprContext::Load };
            in_list(x, decorators@) || in_parameters(x, parameters@) || in_option(x, return_type)
        }),
        body_defines(input.sources[file].body, used@),
        !has_double_underscores(used@),
    ensures
        live_ids(input).contains((input.graph.files[file], used@)),
{
    let body = input.sources[file].body;
    let source = source_of(input, file);
    let x = Expr::Name { id: used, ctx: ExprContext::Load };
    let id = (input.graph.files[file], used@);
    lemma_live_module(input, file);
    lemma_symbol_is_defined(source, body, used@);
    assert(refers(
        source.module,
        body,
        module_model(source, body).imports,
        nothing_hidden(),
        x,
        id,
    ));
    lemma_use_in_definition(input, file, i, name@, id);
}

/// What an expression anywhere in the top-level code of a live module refers to is live, if some
/// module defines it.
pub proof fn lemma_use_at_top_level(
    input: AnalysisModel,
    file: Seq<char>,
    i: int,
    x: Expr,
    id: SymbolId,
)
    requires
        holds_module(input, file),
        0 <= i < input.sources[file].body.len(),
        !(input.sources[file].body[i].kind is Import),
        !(input.sources[file].body[i].kind is ImportFrom),
        !(input.sources[file].body[i].kind is FunctionDef),
        !(input.sources[file].body[i].kind is ClassDef),
        in_stmt(x, input.sources[file].body[i]),
        refers(
            input.graph.files[file],
            input.sources[file].body,
            module_model(source_of(input, file), input.sources[file].body).imports,
            nothing_hidden(),
            x,
            id,
        ),
        is_defined(live_modules(input), id),
    ensures
        live_ids(input).contains(id),
        !is_reported(input, id),
{
    lemma_live_module(input, file);
    lemma_module_references(source_of(input, file), input.sources[file].body, id);
    let modules = live_modules(input);
    let gives = uses_symbol(modules);
    let module = input.graph.files[file];
    assert(modules[module].references.contains(id));
    assert(modules.dom().contains(module) && gives(module, id));
    assert(union_over(modules.dom(), gives).contains(id));
    lemma_seeds_live(input);
    assert(input_seeds(input).contains(id));
}

/// Why a symbol is live by itself: the code of a module uses it; a respected `__all__` lists it, as
/// a symbol of its own or an imported one; a public symbol or module, a decorator or an entry
/// point makes it so; or FastAPI serves it.
pub proof fn lemma_seed_reasons(
    config: DeadcodeConfig,
    modules: TableModel,
    entries: Set<SymbolId>,
    id: SymbolId,
)
    ensures
        seeds(config, modules, entries).contains(id) <==> {
            ||| is_defined(modules, id) && exists|m: Seq<char>| #[trigger]
                modules.contains_key(m) && modules[m].references.contains(id)
            ||| config.respect_all && exists|m: Seq<char>, name: Seq<char>|
                modules.contains_key(m) && #[trigger] modules[m].exports.contains(name)
                    && is_defined(modules, id) && (id == (m, name) || (!is_defined(
                    modules,
                    (m, name),
                ) && modules[m].imports.contains_key(name) && modules[m].imports[name]
                    == TargetModel::Symbol(id)))
            ||| is_defined(modules, id) && exists|i: int|
                0 <= i < config.public_symbols@.len() && rule_symbol(
                    (#[trigger] config.public_symbols@[i])@,
                ) == Some(id)
            ||| is_defined(modules, id) && !(id.1.len() > 0 && id.1[0] == '_') && exists|i: int|
                0 <= i < config.public_modules@.len() && (#[trigger] config.public_modules@[i])@
                    == id.0
            ||| is_defined(modules, id) && modules[id.0].symbols[id.1].public
            ||| is_defined(modules, id) && entries.contains(id)
            ||| served_symbols(modules, entries).contains(id)
        },
{
    let used = uses_symbol(modules);
    let exported = exports_symbol(modules);
    let declared = declares_symbol(modules);
    let opened = opens_module(modules);
    let decorated = decorates_symbol(modules);
    let rules = texts(config.public_symbols@);
    let publics = texts(config.public_modules@);
    if union_over(modules.dom(), used).contains(id) {
        let m = choose|m: Seq<char>| #[trigger] modules.dom().contains(m) && used(m, id);
        assert(modules.contains_key(m) && modules[m].references.contains(id));
    }
    if is_defined(modules, id) && exists|m: Seq<char>| #[trigger]
        modules.contains_key(m) && modules[m].references.contains(id) {
        let m = choose|m: Seq<char>| #[trigger]
            modules.contains_key(m) && modules[m].references.contains(id);
        assert(modules.dom().contains(m) && used(m, id));
    }
    if union_over(modules.dom(), exported).contains(id) {
        let m = choose|m: Seq<char>| #[trigger] modules.dom().contains(m) && exported(m, id);
        let names = |n: Seq<char>, s: SymbolId| exported_symbol(modules, m, n) == Some(s);
        let name = choose|name: Seq<char>| #[trigger]
            modules[m].exports.contains(name) && names(name, id);
        assert(modules.contains_key(m) && modules[m].exports.contains(name));
    }
    if exists|m: Seq<char>, name: Seq<char>|
        modules.contains_key(m) && #[trigger] modules[m].exports.contains(name) && is_defined(
            modules,
            id,
        ) && (id == (m, name) || (!is_defined(modules, (m, name))
            && modules[m].imports.contains_key(name) && modules[m].imports[name]
            == TargetModel::Symbol(id))) {
        let (m, name) = choose|m: Seq<char>, name: Seq<char>|
            modules.contains_key(m) && #[trigger] modules[m].exports.contains(name) && is_defined(
                modules,
                id,
            ) && (id == (m, name) || (!is_defined(modules, (m, name))
                && modules[m].imports.contains_key(name) && modules[m].imports[name]
                == TargetModel::Symbol(id)));
        let names = |n: Seq<char>, s: SymbolId| exported_symbol(modules, m, n) == Some(s);
        assert(modules[m].exports.contains(name) && names(name, id));
        assert(modules.dom().contains(m) && exported(m, id));
    }
    if gathered(rules, declared).contains(id) {
        let i = choose|i: int| 0 <= i < rules.len() && declared(#[trigger] rules[i], id);
        assert(rules[i] == config.public_symbols@[i]@);
    }
    if is_defined(modules, id) && exists|i: int|
        0 <= i < config.public_symbols@.len() && rule_symbol(
            (#[trigger] config.public_symbols@[i])@,
        ) == Some(id) {
        let i = choose|i: int|
            0 <= i < config.public_symbols@.len() && rule_symbol(
                (#[trigger] config.public_symbols@[i])@,
            ) == Some(id);
        assert(declared(rules[i], id));
    }
    if gathered(publics, opened).contains(id) {
        let i = choose|i: int| 0 <= i < publics.len() && opened(#[trigger] publics[i], id);
        assert(publics[i] == config.public_modules@[i]@);
    }
    if is_defined(modules, id) && !(id.1.len() > 0 && id.1[0] == '_') && exists|i: int|
        0 <= i < config.public_modules@.len() && (#[trigger] config.public_modules@[i])@ == id.0 {
        let i = choose|i: int|
            0 <= i < config.public_modules@.len() && (#[trigger] config.public_modules@[i])@
                == id.0;
        assert(opened(publics[i], id));
    }
    if is_defined(modules, id) && modules[id.0].symbols[id.1].public {
        assert(modules.dom().contains(id.0) && decorated(id.0, id));
    }
}

/// What the star imports of a module add to what its code refers to: of each module that is
/// imported from, the symbols that a respected `__all__` lists, where it lists any; else those
/// that are not private by their name or are public by a decorator.
pub proof fn lemma_star_references(
    modules: TableModel,
    respect_all: bool,
    m: Seq<char>,
    id: SymbolId,
)
    requires
        modules.contains_key(m),
    ensures
        star_expanded(modules, respect_all)[m].references.contains(id)
            <==> modules[m].references.contains(id) || (modules[m].stars.contains(id.0)
            && is_defined(modules, id) && if respect_all && (exists|e: Seq<char>| #[trigger]
            modules[id.0].exports.contains(e)) {
            modules[id.0].exports.contains(id.1)
        } else {
            !(id.1.len() > 0 && id.1[0] == '_') || modules[id.0].symbols[id.1].public
        }),
        star_expanded(modules, respect_all)[m].symbols == modules[m].symbols,
        star_expanded(modules, respect_all)[m].exports == modules[m].exports,
        star_expanded(modules, respect_all)[m].imports == modules[m].imports,
        star_expanded(modules, respect_all)[m].fastapi == modules[m].fastapi,
        star_expanded(modules, respect_all)[m].dynamic == modules[m].dynamic,
{
    let gives = star_gives(modules, respect_all);
    let list = modules[m].stars;
    let exports = modules[id.0].exports;
    if exports != Set::<Seq<char>>::empty() {
        if !(exists|e: Seq<char>| #[trigger] exports.contains(e)) {
            assert(exports =~= Set::empty());
        }
    }
    if gathered(list, gives).contains(id) {
        let i = choose|i: int| 0 <= i < list.len() && gives(#[trigger] list[i], id);
        assert(list.contains(id.0));
    }
    if list.contains(id.0) && gives(id.0, id) {
        let i = choose|i: int| 0 <= i < list.len() && list[i] == id.0;
        assert(gives(list[i], id));
    }
}

/// Liveness spreads from a symbol to those that it refers to, where modules define both.
pub proof fn lemma_reference_step(modules: TableModel, a: SymbolId, b: SymbolId)
    ensures
        reference_step(modules)(a, b) <==> is_defined(modules, a) && is_defined(modules, b)
            && modules[a.0].symbols[a.1].references.contains(b),
{
}

/// A finding is exactly a symbol of a live module that is not live, with its kind, file and line,
/// where no live file failed and its module is not left out as dynamic.
pub proof fn lemma_findings_exact(input: AnalysisModel, finding: FindingModel)
    ensures
        dead_symbols(input).contains(finding) <==> {
            let id = (finding.module, finding.name);
            let modules = live_modules(input);
            let symbol = modules[finding.module].symbols[finding.name];
            &&& !exists|file: Seq<char>| #[trigger]
                input.failures.contains(file) && live_files(input.graph, input.roots).contains(file)
            &&& is_defined(modules, id)
            &&& !live_ids(input).contains(id)
            &&& !(input.config.ignore_dynamic_modules && modules[finding.module].dynamic)
            &&& finding.kind == symbol.kind
            &&& finding.file == symbol.file
            &&& finding.spelling == symbol.spelling
            &&& finding.line == symbol.line
        },
{
}

/// Findings are listed by file, then by line, then by module, and then by name; none is listed
/// twice.
pub proof fn lemma_finding_order(list: Seq<FindingModel>, i: int, j: int)
    requires
        strictly_sorted::<FindingKey>(finding_ids(list)),
        0 <= i < j < list.len(),
    ensures
        list[i].file != list[j].file ==> path_precedes(list[i].file, list[j].file),
        list[i].file == list[j].file ==> list[i].line <= list[j].line,
        list[i].file == list[j].file && list[i].line == list[j].line && list[i].module
            != list[j].module ==> text_precedes(list[i].module, list[j].module),
        list[i].file == list[j].file && list[i].line == list[j].line && list[i].module
            == list[j].module ==> text_precedes(list[i].name, list[j].name),
{
    let ids = finding_ids(list);
    assert(ids[i] == finding_id(list[i]));
    assert(ids[j] == finding_id(list[j]));
    assert(FindingKey::precedes(ids[i], ids[j]));
    FilePath::precedes_irreflexive(list[i].file);
    lemma_text_precedes_irreflexive(list[i].module);
}

} // verus!
