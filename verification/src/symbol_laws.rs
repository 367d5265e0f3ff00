//! What holds of the search for dead symbols as a whole.

use crate::ast::{Alias, Stmt, StmtKind};
use crate::collections::{
    gathered, in_order, is_listed, lemma_sorted_unique, strictly_sorted, union_over,
};
use crate::collector::{
    bindings, credited_all, defined_names, definitions, fresh_symbol, imported_paths,
    is_dynamic_body, is_dynamic_stmt, member_bindings, member_path, member_paths, module_model,
    module_scope, registered_all, stars, stmt_base, stmt_bindings, stmt_paths, stmt_stars,
    Definition, SourceModel, SymbolModel,
};
use crate::fastapi::{
    all_objects, live_objects, mount_step, mounts_object, registers, served_symbols, serves_handler,
};
use crate::graph::live_files;
use crate::imports::{member_file, module_file, IndexModel};
use crate::keys::SymbolId;
use crate::lines::line_at;
use crate::liveness::{
    declares_symbol, decorates_symbol, defines, existing, exported_symbol, exports_symbol,
    is_star_imported, opens_module, reference_step, seeds, star_gives, uses_symbol, TableModel,
};
use crate::order::Ordered;
use crate::path::FilePath;
use crate::reach::{
    closed_under, lemma_reachable_least, lemma_reachable_monotone, lemma_start_reachable,
    lemma_step_reachable,
};
use crate::references::Scope;
use crate::rules::rule_symbol;
use crate::scope::{from_import_binding, is_star};
use crate::symbols::{
    collected, dead_symbols, file_model, finding_ids, has_live_failure, live_ids, live_modules,
    AnalysisModel, FindingId, FindingKey, FindingModel,
};
use crate::text::{is_dunder, starts_with_underscore, texts};
use vstd::prelude::*;

verus! {

/// The symbols that are live by themselves.
pub open spec fn input_seeds(input: AnalysisModel) -> Set<SymbolId> {
    seeds(input.config, live_modules(input), input.entries)
}

/// Whether a symbol is among the findings.
pub open spec fn is_reported(input: AnalysisModel, id: SymbolId) -> bool {
    exists|finding: FindingModel| #[trigger]
        dead_symbols(input).contains(finding) && (finding.module, finding.name) == id
}

/// What is live by itself is live.
pub proof fn lemma_seeds_live(input: AnalysisModel)
    ensures
        input_seeds(input).subset_of(live_ids(input)),
{
    lemma_start_reachable(input_seeds(input), reference_step(live_modules(input)));
}

/// A symbol that a live one refers to is live, if some module defines both.
pub proof fn lemma_references_live(input: AnalysisModel, user: SymbolId, used: SymbolId)
    requires
        live_ids(input).contains(user),
        defines(live_modules(input), user),
        live_modules(input)[user.0].symbols[user.1].references.contains(used),
        defines(live_modules(input), used),
    ensures
        live_ids(input).contains(used),
{
    let step = reference_step(live_modules(input));
    assert(step(user, used));
    lemma_step_reachable(input_seeds(input), step, user, used);
}

/// Nothing else is live: every set that holds what is live by itself, and with a symbol all that
/// it refers to, holds all live symbols.
pub proof fn lemma_live_least(input: AnalysisModel, set: Set<SymbolId>)
    requires
        input_seeds(input).subset_of(set),
        closed_under(set, reference_step(live_modules(input))),
    ensures
        live_ids(input).subset_of(set),
{
    lemma_reachable_least(input_seeds(input), reference_step(live_modules(input)), set);
}

/// Where no live file failed, a symbol of a module that is not left out as dynamic is either live
/// or reported, and never both.
pub proof fn lemma_live_or_reported(input: AnalysisModel, id: SymbolId)
    requires
        !has_live_failure(input.graph, input.roots, input.failures),
        defines(live_modules(input), id),
        !(input.config.ignore_dynamic_modules && live_modules(input)[id.0].dynamic),
    ensures
        live_ids(input).contains(id) != is_reported(input, id),
{
    let symbol = live_modules(input)[id.0].symbols[id.1];
    let finding = FindingModel {
        module: id.0,
        name: id.1,
        kind: symbol.kind,
        file: symbol.file,
        spelling: symbol.spelling,
        line: symbol.line,
    };
    if !live_ids(input).contains(id) {
        assert(dead_symbols(input).contains(finding));
    }
}

/// What is reported is a symbol of a live module, and is not live.
pub proof fn lemma_reported(input: AnalysisModel, id: SymbolId)
    requires
        is_reported(input, id),
    ensures
        defines(live_modules(input), id),
        !live_ids(input).contains(id),
{
}

/// A live symbol is not reported.
pub proof fn lemma_live_not_reported(input: AnalysisModel, id: SymbolId)
    requires
        live_ids(input).contains(id),
    ensures
        !is_reported(input, id),
{
}

/// Nothing is reported where a live file could not be read and parsed.
pub proof fn lemma_failure_reports_nothing(input: AnalysisModel)
    requires
        has_live_failure(input.graph, input.roots, input.failures),
    ensures
        dead_symbols(input) == Set::<FindingModel>::empty(),
{
}

/// Nothing is reported of a dynamic module where these are to be left out.
pub proof fn lemma_dynamic_not_reported(input: AnalysisModel, id: SymbolId)
    requires
        input.config.ignore_dynamic_modules,
        live_modules(input)[id.0].dynamic,
    ensures
        !is_reported(input, id),
{
}

/// A symbol that a `public_symbols` entry names is not reported.
pub proof fn lemma_public_symbol_not_reported(input: AnalysisModel, id: SymbolId, i: int)
    requires
        0 <= i < input.config.public_symbols@.len(),
        rule_symbol(input.config.public_symbols@[i]@) == Some(id),
    ensures
        !is_reported(input, id),
{
    let modules = live_modules(input);
    if defines(modules, id) {
        let list = texts(input.config.public_symbols@);
        let gives = declares_symbol(modules);
        assert(gives(list[i], id));
        assert(gathered(list, gives).contains(id));
        lemma_seeds_live(input);
        assert(input_seeds(input).contains(id));
    }
}

/// A symbol of a module in `public_modules` is not reported, unless its name starts with an
/// underscore.
pub proof fn lemma_public_module_not_reported(input: AnalysisModel, id: SymbolId, i: int)
    requires
        0 <= i < input.config.public_modules@.len(),
        input.config.public_modules@[i]@ == id.0,
        !starts_with_underscore(id.1),
    ensures
        !is_reported(input, id),
{
    let modules = live_modules(input);
    if defines(modules, id) {
        let list = texts(input.config.public_modules@);
        let gives = opens_module(modules);
        assert(gives(list[i], id));
        assert(gathered(list, gives).contains(id));
        lemma_seeds_live(input);
        assert(input_seeds(input).contains(id));
    }
}

/// A symbol with a public decorator is not reported.
pub proof fn lemma_decorated_not_reported(input: AnalysisModel, id: SymbolId)
    requires
        live_modules(input)[id.0].symbols[id.1].public,
    ensures
        !is_reported(input, id),
{
    let modules = live_modules(input);
    if defines(modules, id) {
        let gives = decorates_symbol(modules);
        assert(modules.dom().contains(id.0) && gives(id.0, id));
        assert(union_over(modules.dom(), gives).contains(id));
        lemma_seeds_live(input);
        assert(input_seeds(input).contains(id));
    }
}

/// What a module lists in `__all__` is not reported where that is respected, be it a symbol of its
/// own or one that it imports.
pub proof fn lemma_exported_not_reported(
    input: AnalysisModel,
    module: Seq<char>,
    name: Seq<char>,
    id: SymbolId,
)
    requires
        input.config.respect_all,
        live_modules(input).contains_key(module),
        live_modules(input)[module].exports.contains(name),
        exported_symbol(live_modules(input), module, name) == Some(id),
    ensures
        !is_reported(input, id),
{
    let modules = live_modules(input);
    let names = |n: Seq<char>, s: SymbolId| exported_symbol(modules, module, n) == Some(s);
    let gives = exports_symbol(modules);
    assert(modules[module].exports.contains(name) && names(name, id));
    assert(union_over(modules[module].exports, names).contains(id));
    assert(modules.dom().contains(module) && gives(module, id));
    assert(union_over(modules.dom(), gives).contains(id));
    lemma_seeds_live(input);
    assert(input_seeds(input).contains(id));
}

/// A symbol that an entry point names is not reported.
pub proof fn lemma_entry_not_reported(input: AnalysisModel, id: SymbolId)
    requires
        input.entries.contains(id),
    ensures
        !is_reported(input, id),
{
    let modules = live_modules(input);
    if defines(modules, id) {
        assert(existing(modules, input.entries).contains(id));
        lemma_seeds_live(input);
        assert(input_seeds(input).contains(id));
    }
}

/// A FastAPI object that is served from an entry point, or a handler of one, is not reported.
pub proof fn lemma_served_not_reported(input: AnalysisModel, id: SymbolId)
    requires
        served_symbols(live_modules(input), input.entries).contains(id),
    ensures
        !is_reported(input, id),
{
    lemma_seeds_live(input);
    assert(input_seeds(input).contains(id));
}

/// A symbol that the top-level code of a live module refers to is not reported.
pub proof fn lemma_used_not_reported(input: AnalysisModel, module: Seq<char>, id: SymbolId)
    requires
        live_modules(input).contains_key(module),
        live_modules(input)[module].references.contains(id),
    ensures
        !is_reported(input, id),
{
    let modules = live_modules(input);
    if defines(modules, id) {
        let gives = uses_symbol(modules);
        assert(modules.dom().contains(module) && gives(module, id));
        assert(union_over(modules.dom(), gives).contains(id));
        lemma_seeds_live(input);
        assert(input_seeds(input).contains(id));
    }
}

/// A symbol that a star import in a live module brings in is not reported.
pub proof fn lemma_star_imported_not_reported(
    input: AnalysisModel,
    module: Seq<char>,
    i: int,
    id: SymbolId,
)
    requires
        live_modules(input).contains_key(module),
        0 <= i < live_modules(input)[module].stars.len(),
        live_modules(input)[module].stars[i] == id.0,
        live_modules(input).contains_key(id.0),
        is_star_imported(live_modules(input)[id.0], id.1, input.config.respect_all),
    ensures
        !is_reported(input, id),
{
    let before = collected(
        input,
        in_order::<FilePath>(
            live_files(input.graph, input.roots),
        ),
    );
    let gives = star_gives(before, input.config.respect_all);
    let stars = before[module].stars;
    assert(gives(stars[i], id));
    assert(gathered(stars, gives).contains(id));
    lemma_used_not_reported(input, module, id);
}

/// What FastAPI serves grows with its roots.
pub proof fn lemma_served_monotone(
    modules: TableModel,
    roots: Set<SymbolId>,
    more: Set<SymbolId>,
)
    requires
        roots.subset_of(more),
    ensures
        served_symbols(modules, roots).subset_of(served_symbols(modules, more)),
{
    let objects = all_objects(modules);
    lemma_reachable_monotone(
        roots.intersect(objects),
        more.intersect(objects),
        mount_step(modules),
    );
    let live = live_objects(modules, roots);
    let wider = live_objects(modules, more);
    assert forall|id: SymbolId|
        served_symbols(modules, roots).contains(id) implies served_symbols(modules, more).contains(
        id,
    ) by {
        let gives = serves_handler(modules, live);
        let wide = serves_handler(modules, wider);
        if union_over(modules.dom(), gives).contains(id) {
            let m = choose|m: Seq<char>| #[trigger] modules.dom().contains(m) && gives(m, id);
            let router = choose|router: SymbolId| #[trigger]
                live.contains(router) && modules[m].fastapi.routes.contains((router, id));
            assert(wider.contains(router));
            assert(registers(modules[m], wider, id));
            assert(wide(m, id));
            assert(union_over(modules.dom(), wide).contains(id));
        }
    }
}

/// Naming more entry points, public symbols or public modules only takes findings away.
pub proof fn lemma_more_seeds_fewer_findings(input: AnalysisModel, more: AnalysisModel)
    requires
        more.graph == input.graph,
        more.roots == input.roots,
        more.failures == input.failures,
        more.sources == input.sources,
        more.index == input.index,
        more.config.public_decorators == input.config.public_decorators,
        more.config.respect_all == input.config.respect_all,
        more.config.ignore_dynamic_modules == input.config.ignore_dynamic_modules,
        input.entries.subset_of(more.entries),
        texts(input.config.public_symbols@).to_set().subset_of(
            texts(more.config.public_symbols@).to_set(),
        ),
        texts(input.config.public_modules@).to_set().subset_of(
            texts(more.config.public_modules@).to_set(),
        ),
    ensures
        dead_symbols(more).subset_of(dead_symbols(input)),
{
    let files = in_order::<FilePath>(
        live_files(input.graph, input.roots),
    );
    lemma_collected_same(input, more, files);
    let modules = live_modules(input);
    assert(live_modules(more) == modules);
    lemma_gathered_monotone(
        texts(input.config.public_symbols@),
        texts(more.config.public_symbols@),
        declares_symbol(modules),
    );
    lemma_gathered_monotone(
        texts(input.config.public_modules@),
        texts(more.config.public_modules@),
        opens_module(modules),
    );
    lemma_served_monotone(modules, input.entries, more.entries);
    assert(input_seeds(input).subset_of(input_seeds(more)));
    lemma_reachable_monotone(input_seeds(input), input_seeds(more), reference_step(modules));
}

proof fn lemma_gathered_monotone<A, B>(list: Seq<A>, more: Seq<A>, gives: spec_fn(A, B) -> bool)
    requires
        list.to_set().subset_of(more.to_set()),
    ensures
        gathered(list, gives).subset_of(gathered(more, gives)),
{
    assert forall|b: B| gathered(list, gives).contains(b) implies gathered(more, gives).contains(
        b,
    ) by {
        let i = choose|i: int| 0 <= i < list.len() && gives(#[trigger] list[i], b);
        assert(list.to_set().contains(list[i]));
        assert(more.to_set().contains(list[i]));
        let j = choose|j: int| 0 <= j < more.len() && more[j] == list[i];
        assert(gives(more[j], b));
    }
}

proof fn lemma_collected_same(
    input: AnalysisModel,
    other: AnalysisModel,
    files: Seq<Seq<char>>,
)
    requires
        other.graph == input.graph,
        other.sources == input.sources,
        other.index == input.index,
        other.config.public_decorators == input.config.public_decorators,
    ensures
        collected(other, files) == collected(input, files),
    decreases files.len(),
{
    if files.len() > 0 {
        lemma_collected_same(input, other, files.drop_last());
    }
}

/// Whether the definition at position `i` is the first one of `name`.
pub open spec fn is_first_definition(list: Seq<Definition>, name: Seq<char>, i: int) -> bool {
    &&& 0 <= i < list.len()
    &&& list[i].name == name
    &&& forall|j: int| 0 <= j < i ==> (#[trigger] list[j]).name != name
}

pub proof fn lemma_registered_all(source: SourceModel, list: Seq<Definition>, name: Seq<char>)
    ensures
        registered_all(Map::empty(), source, list).contains_key(name) <==> !is_dunder(name)
            && defined_names(list).contains(name),
        registered_all(Map::empty(), source, list).contains_key(name) ==> exists|i: int| #[trigger]
            is_first_definition(list, name, i) && registered_all(Map::empty(), source, list)[name]
                == fresh_symbol(source, list[i]),
    decreases list.len(),
{
    if list.len() > 0 {
        let shorter = list.drop_last();
        let last = list.last();
        let before = registered_all(Map::empty(), source, shorter);
        lemma_registered_all(source, shorter, name);
        if defined_names(shorter).contains(name) {
            let j = choose|j: int| 0 <= j < shorter.len() && (#[trigger] shorter[j]).name == name;
            assert(list[j].name == name);
        }
        if last.name == name {
            assert(list[list.len() - 1].name == name);
        }
        assert(defined_names(list).contains(name) ==> defined_names(shorter).contains(name)
            || last.name == name) by {
            if defined_names(list).contains(name) {
                let j = choose|j: int| 0 <= j < list.len() && (#[trigger] list[j]).name == name;
                if j < shorter.len() {
                    assert(shorter[j].name == name);
                }
            }
        }
        if before.contains_key(name) {
            let i = choose|i: int| #[trigger]
                is_first_definition(shorter, name, i) && before[name] == fresh_symbol(
                    source,
                    shorter[i],
                );
            assert(list[i] == shorter[i]);
            assert(forall|j: int| 0 <= j < i ==> #[trigger] list[j] == shorter[j]);
            assert(is_first_definition(list, name, i));
        } else if !is_dunder(name) && last.name == name {
            let i = list.len() - 1;
            assert forall|j: int| 0 <= j < i implies (#[trigger] list[j]).name != name by {
                assert(shorter[j] == list[j]);
            }
            assert(is_first_definition(list, name, i));
        }
    }
}

proof fn lemma_credited_all(
    symbols: Map<Seq<char>, SymbolModel>,
    scope: Scope,
    public_decorators: Set<Seq<char>>,
    body: Seq<Stmt>,
    name: Seq<char>,
)
    ensures
        ({
            let after = credited_all(symbols, scope, public_decorators, body);
            &&& after.contains_key(name) <==> symbols.contains_key(name)
            &&& symbols.contains_key(name) ==> after[name].kind == symbols[name].kind
                && after[name].file == symbols[name].file && after[name].spelling
                == symbols[name].spelling && after[name].line
                == symbols[name].line
        }),
    decreases body.len(),
{
    if body.len() > 0 {
        lemma_credited_all(symbols, scope, public_decorators, body.drop_last(), name);
    }
}

/// The symbols of a module are the names that it defines at its top level, but for those with two
/// underscores at both ends. Each has the kind and the line of its first definition.
pub proof fn lemma_module_symbols(source: SourceModel, body: Seq<Stmt>, name: Seq<char>)
    ensures
        ({
            let symbols = module_model(source, body).symbols;
            let list = definitions(body);
            &&& symbols.contains_key(name) <==> !is_dunder(name) && defined_names(list).contains(
                name,
            )
            &&& symbols.contains_key(name) ==> symbols[name].file == source.file
                && symbols[name].spelling == source.spelling
            &&& symbols.contains_key(name) ==> exists|i: int| #[trigger]
                is_first_definition(list, name, i) && symbols[name].kind == list[i].kind
                    && symbols[name].line == line_at(source.text, list[i].offset)
        }),
{
    let list = definitions(body);
    let first = registered_all(Map::empty(), source, list);
    lemma_registered_all(source, list, name);
    lemma_credited_all(
        first,
        module_scope(source, body),
        source.public_decorators,
        body,
        name,
    );
    if first.contains_key(name) {
        let i = choose|i: int| #[trigger]
            is_first_definition(list, name, i) && first[name] == fresh_symbol(source, list[i]);
        assert(is_first_definition(list, name, i));
    }
}

pub proof fn lemma_collected_from(input: AnalysisModel, files: Seq<Seq<char>>, module: Seq<char>)
    ensures
        collected(input, files).contains_key(module) ==> exists|file: Seq<char>| #[trigger]
            files.contains(file) && input.graph.files.contains_key(file)
                && input.sources.contains_key(file) && input.graph.files[file] == module
                && collected(input, files)[module] == file_model(input, file),
    decreases files.len(),
{
    if files.len() > 0 {
        let shorter = files.drop_last();
        lemma_collected_from(input, shorter, module);
        assert(files[files.len() - 1] == files.last());
        if collected(input, files).contains_key(module) {
            let last = files.last();
            if input.graph.files.contains_key(last) && input.sources.contains_key(last)
                && input.graph.files[last] == module {
                assert(files.contains(last));
            } else {
                let file = choose|file: Seq<char>| #[trigger]
                    shorter.contains(file) && input.graph.files.contains_key(file)
                        && input.sources.contains_key(file) && input.graph.files[file] == module
                        && collected(input, shorter)[module] == file_model(input, file);
                let j = choose|j: int| 0 <= j < shorter.len() && shorter[j] == file;
                assert(files[j] == file);
                assert(files.contains(file));
            }
        }
    }
}

/// A finding is about a symbol of a live file: the file is the one that holds the module, and the
/// line is that of the symbol's first definition there.
pub proof fn lemma_finding_in_live_file(input: AnalysisModel, finding: FindingModel)
    requires
        is_listed::<FilePath>(live_files(input.graph, input.roots)),
        dead_symbols(input).contains(finding),
    ensures
        live_files(input.graph, input.roots).contains(finding.file),
        input.graph.files.contains_key(finding.file),
        input.graph.files[finding.file] == finding.module,
        input.graph.spellings[finding.file] == finding.spelling,
        input.sources.contains_key(finding.file),
        !is_dunder(finding.name),
        ({
            let source = input.sources[finding.file];
            let list = definitions(source.body);
            exists|i: int| #[trigger]
                is_first_definition(list, finding.name, i) && finding.kind == list[i].kind
                    && finding.line == line_at(source.text, list[i].offset)
        }),
{
    let live = live_files(input.graph, input.roots);
    let files = in_order::<FilePath>(live);
    lemma_collected_from(input, files, finding.module);
    let file = choose|file: Seq<char>| #[trigger]
        files.contains(file) && input.graph.files.contains_key(file)
            && input.sources.contains_key(file) && input.graph.files[file] == finding.module
            && collected(input, files)[finding.module] == file_model(input, file);
    assert(files.to_set().contains(file));
    let source = SourceModel {
        module: input.graph.files[file],
        file,
        spelling: input.graph.spellings[file],
        text: input.sources[file].text,
        public_decorators: texts(input.config.public_decorators@).to_set(),
        index: input.index,
    };
    lemma_module_symbols(source, input.sources[file].body, finding.name);
}

/// A FastAPI object that is an entry point is served.
pub proof fn lemma_root_object_served(modules: TableModel, roots: Set<SymbolId>, id: SymbolId)
    requires
        roots.contains(id),
        all_objects(modules).contains(id),
    ensures
        live_objects(modules, roots).contains(id),
        served_symbols(modules, roots).contains(id),
{
    lemma_start_reachable(roots.intersect(all_objects(modules)), mount_step(modules));
}

/// What is mounted on a served FastAPI object is served, if it is one itself.
pub proof fn lemma_mounted_object_served(
    modules: TableModel,
    roots: Set<SymbolId>,
    module: Seq<char>,
    parent: SymbolId,
    child: SymbolId,
)
    requires
        live_objects(modules, roots).contains(parent),
        modules.contains_key(module),
        modules[module].fastapi.includes.contains((parent, child)),
        all_objects(modules).contains(child),
    ensures
        live_objects(modules, roots).contains(child),
        served_symbols(modules, roots).contains(child),
{
    let gives = mounts_object(modules);
    let step = mount_step(modules);
    assert(modules.dom().contains(module) && gives(module, (parent, child)));
    assert(step(parent, child));
    lemma_step_reachable(roots.intersect(all_objects(modules)), step, parent, child);
}

/// A handler that is registered with a served FastAPI object is served.
pub proof fn lemma_handler_served(
    modules: TableModel,
    roots: Set<SymbolId>,
    module: Seq<char>,
    router: SymbolId,
    handler: SymbolId,
)
    requires
        live_objects(modules, roots).contains(router),
        modules.contains_key(module),
        modules[module].fastapi.routes.contains((router, handler)),
    ensures
        served_symbols(modules, roots).contains(handler),
{
    let live = live_objects(modules, roots);
    let gives = serves_handler(modules, live);
    assert(live.contains(router));
    assert(modules.dom().contains(module) && gives(module, handler));
    assert(union_over(modules.dom(), gives).contains(handler));
}

/// A set of findings can be listed in one order only.
pub proof fn lemma_findings_unique(a: Seq<FindingModel>, b: Seq<FindingModel>)
    requires
        a.to_set() == b.to_set(),
        strictly_sorted::<FindingKey>(finding_ids(a)),
        strictly_sorted::<FindingKey>(finding_ids(b)),
    ensures
        a == b,
{
    let left = finding_ids(a);
    let right = finding_ids(b);
    lemma_ids_contained(a, b);
    lemma_ids_contained(b, a);
    assert(left.to_set() =~= right.to_set());
    lemma_sorted_unique::<FindingKey>(left, right);
    assert forall|i: int| 0 <= i < a.len() implies a[i] == b[i] by {
        assert(b.to_set().contains(b[i]));
        assert(a.to_set().contains(b[i]));
        let j = choose|j: int| 0 <= j < a.len() && a[j] == b[i];
        assert(left[j] == right[i]);
        FindingKey::precedes_irreflexive(left[i]);
        if i < j {
            assert(FindingKey::precedes(left[i], left[j]));
        }
        if j < i {
            assert(FindingKey::precedes(left[j], left[i]));
        }
    }
    assert(a =~= b);
}

proof fn lemma_ids_contained(a: Seq<FindingModel>, b: Seq<FindingModel>)
    requires
        a.to_set() == b.to_set(),
    ensures
        forall|id: FindingId|
            finding_ids(a).to_set().contains(id) ==> #[trigger] finding_ids(b).to_set().contains(id),
{
    assert forall|id: FindingId|
        finding_ids(a).to_set().contains(id) implies #[trigger] finding_ids(b).to_set().contains(
        id,
    ) by {
        let i = choose|i: int| 0 <= i < finding_ids(a).len() && finding_ids(a)[i] == id;
        assert(a.to_set().contains(a[i]));
        assert(b.to_set().contains(a[i]));
        let j = choose|j: int| 0 <= j < b.len() && b[j] == a[i];
        assert(finding_ids(b)[j] == id);
    }
}

/// Whether two indexes answer alike for the given dotted paths.
pub open spec fn answers_alike(index: IndexModel, other: IndexModel, paths: Seq<Seq<char>>) -> bool {
    forall|i: int|
        0 <= i < paths.len() ==> module_file(index, #[trigger] paths[i]) == module_file(
            other,
            paths[i],
        ) && member_file(index, paths[i]) == member_file(other, paths[i])
}

proof fn lemma_member_bindings_alike(
    index: IndexModel,
    other: IndexModel,
    base: Seq<char>,
    names: Seq<Alias>,
)
    requires
        answers_alike(index, other, member_paths(base, names)),
    ensures
        member_bindings(index, base, names) == member_bindings(other, base, names),
    decreases names.len(),
{
    if names.len() > 0 {
        let shorter = member_paths(base, names.drop_last());
        let paths = member_paths(base, names);
        assert forall|i: int| 0 <= i < shorter.len() implies #[trigger] shorter[i] == paths[i] by {}
        assert(answers_alike(index, other, shorter)) by {
            assert forall|i: int| 0 <= i < shorter.len() implies module_file(
                index,
                #[trigger] shorter[i],
            ) == module_file(other, shorter[i]) && member_file(index, shorter[i]) == member_file(
                other,
                shorter[i],
            ) by {
                assert(paths[i] == shorter[i]);
            }
        }
        lemma_member_bindings_alike(index, other, base, names.drop_last());
        let alias = names.last();
        if !(is_star(alias) || from_import_binding(alias).len() == 0) {
            assert(paths[shorter.len() as int] == member_path(base, alias.name@));
        }
    }
}

proof fn lemma_bindings_alike(source: SourceModel, other: SourceModel, body: Seq<Stmt>)
    requires
        other == (SourceModel { index: other.index, ..source }),
        answers_alike(source.index, other.index, imported_paths(source, body)),
    ensures
        bindings(source, body) == bindings(other, body),
        stars(source, body) == stars(other, body),
        is_dynamic_body(source, body) == is_dynamic_body(other, body),
    decreases body.len(),
{
    assert forall|kind: StmtKind| #[trigger] stmt_stars(source, kind) == stmt_stars(
        other,
        kind,
    ) by {
        assert(stmt_base(source, kind) == stmt_base(other, kind));
    }
    assert forall|i: int| 0 <= i < body.len() implies is_dynamic_stmt(source, #[trigger] body[i])
        == is_dynamic_stmt(other, body[i]) by {
        assert(stmt_stars(source, body[i].kind) == stmt_stars(other, body[i].kind));
    }
    if body.len() > 0 {
        let shorter = imported_paths(source, body.drop_last());
        let last = stmt_paths(source, body.last().kind);
        let paths = imported_paths(source, body);
        assert forall|i: int| 0 <= i < shorter.len() implies module_file(
            source.index,
            #[trigger] shorter[i],
        ) == module_file(other.index, shorter[i]) && member_file(source.index, shorter[i])
            == member_file(other.index, shorter[i]) by {
            assert(paths[i] == shorter[i]);
        }
        assert forall|i: int| 0 <= i < last.len() implies module_file(
            source.index,
            #[trigger] last[i],
        ) == module_file(other.index, last[i]) && member_file(source.index, last[i])
            == member_file(other.index, last[i]) by {
            assert(paths[shorter.len() + i] == last[i]);
        }
        lemma_bindings_alike(source, other, body.drop_last());
        let kind = body.last().kind;
        assert(stmt_base(source, kind) == stmt_base(other, kind));
        assert(stmt_stars(source, kind) == stmt_stars(other, kind));
        if let StmtKind::ImportFrom { names, .. } = kind {
            if let Some(base) = stmt_base(source, kind) {
                lemma_member_bindings_alike(source.index, other.index, base, names@);
            }
        }
        assert(stmt_bindings(source, kind) == stmt_bindings(other, kind));
    }
}

proof fn lemma_registered_alike(source: SourceModel, other: SourceModel, list: Seq<Definition>)
    requires
        other == (SourceModel { index: other.index, ..source }),
    ensures
        registered_all(Map::empty(), source, list) == registered_all(Map::empty(), other, list),
    decreases list.len(),
{
    if list.len() > 0 {
        lemma_registered_alike(source, other, list.drop_last());
    }
}

/// What is known of a module depends on its surroundings only through the answers for the dotted
/// paths that its `from` imports lead to.
pub proof fn lemma_answers_suffice(source: SourceModel, other: SourceModel, body: Seq<Stmt>)
    requires
        other == (SourceModel { index: other.index, ..source }),
        answers_alike(source.index, other.index, imported_paths(source, body)),
    ensures
        module_model(source, body) == module_model(other, body),
{
    lemma_bindings_alike(source, other, body);
    lemma_registered_alike(source, other, definitions(body));
}

} // verus!
