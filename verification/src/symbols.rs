//! Symbols that nothing uses.

use crate::ast::Stmt;
use crate::collections::{
    in_order, is_listed, lemma_push_contains, strictly_sorted, views, SortedMap, SortedSet,
};
use crate::collector::{
    collect_module_symbols, module_model, ModuleModel, ModuleSymbols, SourceModel, SymbolKind,
};
use crate::config::{DeadcodeConfig, ProjectConfig};
use crate::graph::{live_files, FileImportGraph, GraphModel};
use crate::imports::{IndexModel, ModuleIndex};
use crate::keys::{SymbolId, SymbolKey};
use crate::lines::has_offsets;
use crate::liveness::{
    add_star_import_references, defines, propagate_liveness, reference_step, seed_live_symbols,
    seeds, star_expanded, ModuleTable, TableModel,
};
use crate::order::{
    lemma_pair_irreflexive, lemma_pair_total, lemma_pair_transitive, pair_precedes, place_pair,
    Ordered, Placement,
};
use crate::path::FilePath;
use crate::reach::reachable;
use crate::rules::{entry_symbols, EntryFiles};
use crate::text::texts;
use vstd::prelude::*;

verus! {

/// A symbol that nothing uses.
#[derive(Debug)]
pub struct DeadSymbolFinding {
    pub module: String,
    pub symbol_name: String,
    pub symbol_kind: SymbolKind,
    pub file_path: FilePath,
    pub line_number: usize,
}

pub struct FindingModel {
    pub module: Seq<char>,
    pub name: Seq<char>,
    pub kind: SymbolKind,
    pub file: Seq<char>,
    /// How the path of the file is written.
    pub spelling: Seq<char>,
    pub line: nat,
}

impl View for DeadSymbolFinding {
    type V = FindingModel;

    open spec fn view(&self) -> FindingModel {
        FindingModel {
            module: self.module@,
            name: self.symbol_name@,
            kind: self.symbol_kind,
            file: self.file_path@,
            spelling: self.file_path.spelling(),
            line: self.line_number as nat,
        }
    }
}

impl DeadSymbolFinding {
    pub fn duplicate(&self) -> (copy: DeadSymbolFinding)
        ensures
            copy@ == self@,
    {
        DeadSymbolFinding {
            module: self.module.clone(),
            symbol_name: self.symbol_name.clone(),
            symbol_kind: self.symbol_kind,
            file_path: self.file_path.duplicate(),
            line_number: self.line_number,
        }
    }
}

/// A line of a file. Places are ordered by file, then by line.
pub struct Place {
    pub file_path: FilePath,
    pub line_number: usize,
}

impl View for Place {
    type V = (Seq<char>, nat);

    open spec fn view(&self) -> (Seq<char>, nat) {
        (self.file_path@, self.line_number as nat)
    }
}

impl Ordered for Place {
    open spec fn precedes(a: (Seq<char>, nat), b: (Seq<char>, nat)) -> bool {
        FilePath::precedes(a.0, b.0) || (a.0 == b.0 && a.1 < b.1)
    }

    proof fn precedes_irreflexive(a: (Seq<char>, nat)) {
        FilePath::precedes_irreflexive(a.0);
    }

    proof fn precedes_transitive(a: (Seq<char>, nat), b: (Seq<char>, nat), c: (Seq<char>, nat)) {
        if FilePath::precedes(a.0, b.0) && FilePath::precedes(b.0, c.0) {
            FilePath::precedes_transitive(a.0, b.0, c.0);
        }
    }

    proof fn precedes_total(a: (Seq<char>, nat), b: (Seq<char>, nat)) {
        FilePath::precedes_total(a.0, b.0);
    }

    fn place(&self, other: &Self) -> (placement: Placement) {
        match self.file_path.place(&other.file_path) {
            Placement::Same => if self.line_number < other.line_number {
                Placement::Before
            } else if other.line_number < self.line_number {
                Placement::After
            } else {
                Placement::Same
            },
            other => other,
        }
    }

    fn duplicate(&self) -> (copy: Self) {
        Place { file_path: self.file_path.duplicate(), line_number: self.line_number }
    }
}

/// What findings are ordered by: the place, then the module path, then the symbol's name.
pub struct FindingKey {
    pub place: Place,
    pub symbol: SymbolKey,
}

pub type FindingId = ((Seq<char>, nat), SymbolId);

impl View for FindingKey {
    type V = FindingId;

    open spec fn view(&self) -> FindingId {
        (self.place@, self.symbol@)
    }
}

impl Ordered for FindingKey {
    open spec fn precedes(a: FindingId, b: FindingId) -> bool {
        pair_precedes::<Place, SymbolKey>(a, b)
    }

    proof fn precedes_irreflexive(a: FindingId) {
        lemma_pair_irreflexive::<Place, SymbolKey>(a);
    }

    proof fn precedes_transitive(a: FindingId, b: FindingId, c: FindingId) {
        lemma_pair_transitive::<Place, SymbolKey>(a, b, c);
    }

    proof fn precedes_total(a: FindingId, b: FindingId) {
        lemma_pair_total::<Place, SymbolKey>(a, b);
    }

    fn place(&self, other: &Self) -> (placement: Placement) {
        place_pair(&self.place, &self.symbol, &other.place, &other.symbol)
    }

    fn duplicate(&self) -> (copy: Self) {
        FindingKey { place: self.place.duplicate(), symbol: self.symbol.duplicate() }
    }
}

pub open spec fn finding_id(finding: FindingModel) -> FindingId {
    ((finding.file, finding.line), (finding.module, finding.name))
}

pub open spec fn finding_models(findings: Seq<DeadSymbolFinding>) -> Seq<FindingModel> {
    findings.map_values(|f: DeadSymbolFinding| f@)
}

pub open spec fn finding_ids(findings: Seq<FindingModel>) -> Seq<FindingId> {
    findings.map_values(|f: FindingModel| finding_id(f))
}

/// The text of a file and its top-level statements.
pub struct ParsedFile {
    pub contents: String,
    pub body: Vec<Stmt>,
}

pub struct ParsedModel {
    pub text: Seq<char>,
    pub body: Seq<Stmt>,
}

impl View for ParsedFile {
    type V = ParsedModel;

    open spec fn view(&self) -> ParsedModel {
        ParsedModel { text: self.contents@, body: self.body@ }
    }
}

/// What the search for dead symbols reads.
pub struct DeadSymbolAnalysisInput<'a> {
    pub project_config: &'a ProjectConfig,
    pub graph: &'a FileImportGraph,
    pub entry_file_roots: &'a Vec<FilePath>,
    pub parse_failures: &'a SortedSet<FilePath>,
    pub entry_points: &'a Vec<String>,
    /// The files that each entry point stands for.
    pub entry_files: &'a EntryFiles,
    /// The files that could be read and parsed.
    pub sources: &'a SortedMap<FilePath, ParsedFile>,
    pub index: &'a ModuleIndex,
}

pub struct AnalysisModel {
    pub config: DeadcodeConfig,
    pub graph: GraphModel,
    pub roots: Set<Seq<char>>,
    pub failures: Set<Seq<char>>,
    /// The symbols that the entry points name.
    pub entries: Set<SymbolId>,
    pub sources: Map<Seq<char>, ParsedModel>,
    pub index: IndexModel,
}

impl<'a> View for DeadSymbolAnalysisInput<'a> {
    type V = AnalysisModel;

    open spec fn view(&self) -> AnalysisModel {
        AnalysisModel {
            config: self.project_config.deadcode,
            graph: self.graph@,
            roots: views(self.entry_file_roots@).to_set(),
            failures: self.parse_failures@,
            entries: entry_symbols(texts(self.entry_points@), self.entry_files@, self.graph@),
            sources: self.sources@,
            index: self.index@,
        }
    }
}

/// The model of the module in a file.
pub open spec fn file_model(input: AnalysisModel, file: Seq<char>) -> ModuleModel {
    module_model(
        SourceModel {
            module: input.graph.files[file],
            file,
            spelling: input.graph.spellings[file],
            text: input.sources[file].text,
            public_decorators: texts(input.config.public_decorators@).to_set(),
            index: input.index,
        },
        input.sources[file].body,
    )
}

/// The modules in the given files. Where two files hold one module, the later file decides; a
/// file outside the graph, or one that could not be read and parsed, holds none.
pub open spec fn collected(input: AnalysisModel, files: Seq<Seq<char>>) -> TableModel
    decreases files.len(),
{
    if files.len() == 0 {
        Map::empty()
    } else {
        let file = files.last();
        let before = collected(input, files.drop_last());
        if input.graph.files.contains_key(file) && input.sources.contains_key(file) {
            before.insert(input.graph.files[file], file_model(input, file))
        } else {
            before
        }
    }
}

/// The modules of the live files, each referring to what its star imports bring in.
pub open spec fn live_modules(input: AnalysisModel) -> TableModel {
    star_expanded(
        collected(input, in_order::<FilePath>(live_files(input.graph, input.roots))),
        input.config.respect_all,
    )
}

/// The symbols in use.
pub open spec fn live_ids(input: AnalysisModel) -> Set<SymbolId> {
    let modules = live_modules(input);
    reachable(seeds(input.config, modules, input.entries), reference_step(modules))
}

/// Whether a finding describes a symbol of `modules`.
pub open spec fn describes(modules: TableModel, finding: FindingModel) -> bool {
    &&& defines(modules, (finding.module, finding.name))
    &&& {
        let symbol = modules[finding.module].symbols[finding.name];
        finding.kind == symbol.kind && finding.file == symbol.file && finding.spelling
            == symbol.spelling && finding.line == symbol.line
    }
}

/// Whether a finding describes a symbol that is not live and that is not left out as part of a
/// dynamic module.
pub open spec fn is_dead(
    modules: TableModel,
    live: Set<SymbolId>,
    ignore_dynamic: bool,
    finding: FindingModel,
) -> bool {
    &&& describes(modules, finding)
    &&& !live.contains((finding.module, finding.name))
    &&& !(ignore_dynamic && modules[finding.module].dynamic)
}

/// Whether some live file could not be read and parsed.
pub open spec fn has_live_failure(
    graph: GraphModel,
    roots: Set<Seq<char>>,
    failures: Set<Seq<char>>,
) -> bool {
    exists|file: Seq<char>| #[trigger]
        failures.contains(file) && live_files(graph, roots).contains(file)
}

/// The findings: none where a live file could not be read and parsed, as what it uses is unknown.
pub open spec fn dead_symbols(input: AnalysisModel) -> Set<FindingModel> {
    if has_live_failure(input.graph, input.roots, input.failures) {
        Set::empty()
    } else {
        Set::new(
            |finding: FindingModel|
                is_dead(
                    live_modules(input),
                    live_ids(input),
                    input.config.ignore_dynamic_modules,
                    finding,
                ),
        )
    }
}

/// Whether one of the failed files is among the live ones.
pub fn any_failed(failures: &SortedSet<FilePath>, live: &SortedSet<FilePath>) -> (yes: bool)
    ensures
        yes == exists|file: Seq<char>| #[trigger]
            failures@.contains(file) && live@.contains(file),
{
    let n = failures.len();
    let ghost list = in_order::<FilePath>(failures@);
    let mut i: usize = 0;
    while i < n
        invariant
            i <= n,
            n == list.len(),
            list == in_order::<FilePath>(failures@),
            list.to_set() == failures@,
            forall|j: int| 0 <= j < i ==> !live@.contains(#[trigger] list[j]),
        decreases n - i,
    {
        if live.contains(failures.at(i)) {
            assert(list.to_set().contains(list[i as int]));
            return true;
        }
        i += 1;
    }
    assert forall|file: Seq<char>| #[trigger] failures@.contains(file) implies !live@.contains(
        file,
    ) by {
        assert(list.to_set().contains(file));
        let j = choose|j: int| 0 <= j < list.len() && list[j] == file;
        assert(!live@.contains(list[j]));
    }
    false
}

/// Collects the modules of the given files.
fn collect_modules(
    input: &DeadSymbolAnalysisInput<'_>,
    live: &SortedSet<FilePath>,
) -> (modules: ModuleTable)
    requires
        forall|file: Seq<char>|
            live@.contains(file) && #[trigger] input@.sources.contains_key(file) ==> has_offsets(
                input@.sources[file].text,
            ),
    ensures
        modules@ == collected(input@, in_order::<FilePath>(live@)),
{
    let public_decorators = SortedSet::from_list(&input.project_config.deadcode.public_decorators);
    assert(public_decorators@ == texts(input@.config.public_decorators@).to_set()) by {
        assert(views(input@.config.public_decorators@) =~= texts(
            input@.config.public_decorators@,
        ));
    }
    let mut modules: ModuleTable = SortedMap::new();
    let n = live.len();
    let ghost list = in_order::<FilePath>(live@);
    let mut i: usize = 0;
    while i < n
        invariant
            i <= n,
            n == list.len(),
            list == in_order::<FilePath>(live@),
            public_decorators@ == texts(input@.config.public_decorators@).to_set(),
            list.to_set() == live@,
            forall|file: Seq<char>|
                live@.contains(file) && #[trigger] input@.sources.contains_key(file)
                    ==> has_offsets(input@.sources[file].text),
            modules@ == collected(input@, list.take(i as int)),
        decreases n - i,
    {
        let file_path = live.at(i);
        assert(list.take(i + 1).drop_last() =~= list.take(i as int));
        assert(list.to_set().contains(list[i as int]));
        if let Some(entry) = input.graph.entry_of(file_path) {
            if let Some(source) = input.sources.get(file_path) {
                let written_path = FilePath::new(entry.spelling.clone());
                let symbols = collect_module_symbols(
                    input.index,
                    &written_path,
                    &entry.module,
                    source.contents.as_str(),
                    &source.body,
                    &public_decorators,
                );
                modules.insert(entry.module.clone(), symbols);
            }
        }
        i += 1;
    }
    assert(list.take(i as int) =~= list);
    modules
}

/// Whether a table holds a finding under its position in the order.
pub open spec fn holds_finding(table: Map<FindingId, FindingModel>, finding: FindingModel) -> bool {
    table.contains_key(finding_id(finding)) && table[finding_id(finding)] == finding
}

/// Adds the findings of one module.
fn add_dead_symbols(
    name: &String,
    module: &ModuleSymbols,
    live: &SortedSet<SymbolKey>,
    table: &mut SortedMap<FindingKey, DeadSymbolFinding>,
    modules: Ghost<TableModel>,
)
    requires
        modules@.contains_key(name@),
        modules@[name@] == module@,
        forall|id: FindingId| #[trigger]
            old(table)@.contains_key(id) ==> finding_id(old(table)@[id]) == id && old(
                table,
            )@[id].module != name@,
    ensures
        forall|id: FindingId| #[trigger]
            final(table)@.contains_key(id) ==> finding_id(final(table)@[id]) == id && (old(
                table,
            )@.contains_key(id) || final(table)@[id].module == name@),
        forall|x: FindingModel|
            #[trigger] holds_finding(final(table)@, x) <==> holds_finding(old(table)@, x) || (
            x.module == name@ && is_dead(modules@, live@, false, x)),
{
    let ghost start = table@;
    let n = module.symbols.len();
    let ghost list = in_order::<String>(module.symbols@.dom());
    let mut i: usize = 0;
    while i < n
        invariant
            i <= n,
            n == list.len(),
            list == in_order::<String>(module.symbols@.dom()),
            list.to_set() == module.symbols@.dom(),
            strictly_sorted::<String>(list),
            modules@.contains_key(name@),
            modules@[name@] == module@,
            forall|id: FindingId| #[trigger]
                start.contains_key(id) ==> finding_id(start[id]) == id && start[id].module != name@,
            forall|id: FindingId| #[trigger]
                table@.contains_key(id) ==> finding_id(table@[id]) == id && (start.contains_key(id)
                    || table@[id].module == name@),
            forall|x: FindingModel| #[trigger]
                holds_finding(table@, x) <==> holds_finding(start, x) || (x.module == name@
                    && is_dead(modules@, live@, false, x) && list.take(i as int).contains(x.name)),
        decreases n - i,
    {
        let ghost before = table@;
        let symbol_name = module.symbols.key_at(i);
        let symbol = module.symbols.value_at(i);
        let symbol_key = SymbolKey::new(name.clone(), symbol_name.clone());
        let ghost found = FindingModel {
            module: name@,
            name: symbol_name@,
            kind: symbol@.kind,
            file: symbol@.file,
            spelling: symbol@.spelling,
            line: symbol@.line,
        };
        let dead = !live.contains(&symbol_key);
        if dead {
            let place = Place {
                file_path: symbol.file_path.duplicate(),
                line_number: symbol.line_number,
            };
            let finding = DeadSymbolFinding {
                module: name.clone(),
                symbol_name: symbol_name.clone(),
                symbol_kind: symbol.kind,
                file_path: symbol.file_path.duplicate(),
                line_number: symbol.line_number,
            };
            table.insert(FindingKey { place, symbol: symbol_key }, finding);
        }
        proof {
            let seen = list.take(i as int);
            assert(list.take(i + 1) =~= seen.push(symbol_name@));
            lemma_push_contains(seen, symbol_name@);
            assert(!seen.contains(symbol_name@)) by {
                if seen.contains(symbol_name@) {
                    let j = choose|j: int| 0 <= j < seen.len() && seen[j] == symbol_name@;
                    assert(String::precedes(list[j], list[i as int]));
                    String::precedes_irreflexive(symbol_name@);
                }
            }
            assert forall|x: FindingModel| #[trigger]
                holds_finding(table@, x) <==> holds_finding(start, x) || (x.module == name@
                    && is_dead(modules@, live@, false, x) && list.take(i + 1).contains(x.name)) by {
                assert(holds_finding(before, x) <==> holds_finding(start, x) || (x.module == name@
                    && is_dead(modules@, live@, false, x) && seen.contains(x.name)));
                if x.module == name@ && x.name == symbol_name@ {
                    assert(is_dead(modules@, live@, false, x) <==> dead && x == found);
                    assert(!holds_finding(start, x));
                    assert(before.contains_key(finding_id(x)) ==> finding_id(before[finding_id(x)])
                        == finding_id(x));
                } else {
                    assert(finding_id(x) != finding_id(found));
                    assert(holds_finding(table@, x) == holds_finding(before, x));
                }
            }
        }
        i += 1;
    }
    assert(list.take(i as int) =~= list);
    assert forall|x: FindingModel|
        x.module == name@ && #[trigger] is_dead(modules@, live@, false, x) implies list.contains(
        x.name,
    ) by {
        assert(list.to_set().contains(x.name));
    }
}

/// The findings of a table in its order.
fn listed_findings(table: &SortedMap<FindingKey, DeadSymbolFinding>) -> (findings: Vec<
    DeadSymbolFinding,
>)
    requires
        forall|id: FindingId| #[trigger]
            table@.contains_key(id) ==> finding_id(table@[id]) == id,
    ensures
        strictly_sorted::<FindingKey>(finding_ids(finding_models(findings@))),
        forall|x: FindingModel| #[trigger]
            finding_models(findings@).contains(x) <==> holds_finding(table@, x),
{
    let n = table.len();
    let ghost list = in_order::<FindingKey>(table@.dom());
    let mut findings: Vec<DeadSymbolFinding> = Vec::new();
    let mut i: usize = 0;
    while i < n
        invariant
            i <= n,
            n == list.len(),
            list == in_order::<FindingKey>(table@.dom()),
            list.to_set() == table@.dom(),
            findings@.len() == i,
            forall|j: int| 0 <= j < i ==> (#[trigger] findings@[j])@ == table@[list[j]],
        decreases n - i,
    {
        findings.push(table.value_at(i).duplicate());
        i += 1;
    }
    proof {
        let models = finding_models(findings@);
        assert forall|j: int| 0 <= j < list.len() implies finding_id(#[trigger] models[j])
            == list[j] by {
            assert(models[j] == findings@[j]@);
            assert(list.to_set().contains(list[j]));
        }
        assert(finding_ids(models) =~= list);
        assert forall|x: FindingModel| #[trigger] models.contains(x) <==> holds_finding(
            table@,
            x,
        ) by {
            if models.contains(x) {
                let j = choose|j: int| 0 <= j < models.len() && models[j] == x;
                assert(finding_id(models[j]) == list[j]);
                assert(list.to_set().contains(list[j]));
            }
            if holds_finding(table@, x) {
                assert(list.to_set().contains(finding_id(x)));
                let j = choose|j: int| 0 <= j < list.len() && list[j] == finding_id(x);
                assert(models[j] == table@[list[j]]);
            }
        }
    }
    findings
}

/// Adds the findings of all modules.
fn dead_symbol_table(
    modules: &ModuleTable,
    live: &SortedSet<SymbolKey>,
    ignore_dynamic: bool,
) -> (table: SortedMap<FindingKey, DeadSymbolFinding>)
    ensures
        forall|id: FindingId| #[trigger]
            table@.contains_key(id) ==> finding_id(table@[id]) == id,
        forall|x: FindingModel|
            #[trigger] holds_finding(table@, x)
                <==> is_dead(modules@, live@, ignore_dynamic, x),
{
    let mut table: SortedMap<FindingKey, DeadSymbolFinding> = SortedMap::new();
    let n = modules.len();
    let ghost list = in_order::<String>(modules@.dom());
    let mut i: usize = 0;
    while i < n
        invariant
            i <= n,
            n == list.len(),
            list == in_order::<String>(modules@.dom()),
            list.to_set() == modules@.dom(),
            strictly_sorted::<String>(list),
            forall|id: FindingId| #[trigger]
                table@.contains_key(id) ==> finding_id(table@[id]) == id && list.take(
                    i as int,
                ).contains(table@[id].module),
            forall|x: FindingModel|
                #[trigger] holds_finding(table@, x)
                    <==> is_dead(modules@, live@, ignore_dynamic, x) && list.take(
                    i as int,
                ).contains(x.module),
        decreases n - i,
    {
        let ghost before = table@;
        let ghost seen = list.take(i as int);
        let name = modules.key_at(i);
        let module = modules.value_at(i);
        proof {
            assert(list[i as int] == name@);
            assert forall|j: int| 0 <= j < i implies #[trigger] seen[j] != name@ by {
                String::precedes_irreflexive(name@);
                assert(String::precedes(list[j], list[i as int]));
            }
        }
        let kept = !(ignore_dynamic && module.is_dynamic);
        if kept {
            add_dead_symbols(name, module, live, &mut table, Ghost(modules@));
        }
        proof {
            assert(list.take(i + 1) =~= seen.push(name@));
            lemma_push_contains(seen, name@);
            assert forall|id: FindingId| #[trigger] table@.contains_key(id) implies finding_id(
                table@[id],
            ) == id && list.take(i + 1).contains(table@[id].module) by {
                if before.contains_key(id) {
                    let x = before[id];
                    assert(holds_finding(before, x));
                    assert(holds_finding(table@, x));
                }
            }
            assert forall|x: FindingModel|
                #[trigger] holds_finding(table@, x)
                    <==> is_dead(modules@, live@, ignore_dynamic, x) && list.take(i + 1).contains(
                    x.module,
                ) by {
                assert(holds_finding(before, x)
                    <==> is_dead(modules@, live@, ignore_dynamic, x) && seen.contains(x.module));
                if x.module == name@ {
                    assert(!seen.contains(x.module));
                    assert(list.take(i + 1).contains(x.module));
                    assert(is_dead(modules@, live@, ignore_dynamic, x) == (kept && is_dead(
                        modules@,
                        live@,
                        false,
                        x,
                    )));
                }
            }
        }
        i += 1;
    }
    assert(list.take(i as int) =~= list);
    assert forall|x: FindingModel|
        #[trigger] holds_finding(table@, x)
            <==> is_dead(modules@, live@, ignore_dynamic, x) by {
        if is_dead(modules@, live@, ignore_dynamic, x) {
            assert(list.to_set().contains(x.module));
            assert(list.contains(x.module));
        }
    }
    table
}

/// The symbols of the live files that nothing uses, in order of file, line, module and name; the
/// paths of the files are those of the graph, as it writes them.
pub fn find_dead_symbols(input: DeadSymbolAnalysisInput<'_>) -> (findings: Vec<DeadSymbolFinding>)
    requires
        forall|file: Seq<char>|
            live_files(input@.graph, input@.roots).contains(file)
                && #[trigger] input@.sources.contains_key(file) ==> has_offsets(
                input@.sources[file].text,
            ),
    ensures
        finding_models(findings@).to_set() == dead_symbols(input@),
        strictly_sorted::<FindingKey>(finding_ids(finding_models(findings@))),
        is_listed::<FilePath>(live_files(input@.graph, input@.roots)),
{
    let live_paths = input.graph.reachable_from(input.entry_file_roots);
    if any_failed(input.parse_failures, &live_paths) {
        let findings: Vec<DeadSymbolFinding> = Vec::new();
        assert(finding_models(findings@).to_set() =~= Set::empty());
        return findings;
    }
    let mut modules = collect_modules(&input, &live_paths);
    add_star_import_references(&mut modules, input.project_config.deadcode.respect_all);
    let mut live = seed_live_symbols(
        &input.project_config.deadcode,
        input.graph,
        input.entry_points,
        input.entry_files,
        &modules,
    );
    propagate_liveness(&modules, &mut live);
    let table = dead_symbol_table(
        &modules,
        &live,
        input.project_config.deadcode.ignore_dynamic_modules,
    );
    let findings = listed_findings(&table);
    proof {
        let models = finding_models(findings@);
        assert forall|x: FindingModel| #[trigger]
            models.to_set().contains(x) <==> dead_symbols(input@).contains(x) by {
            assert(models.contains(x) <==> models.to_set().contains(x));
            assert(holds_finding(table@, x) <==> is_dead(
                modules@,
                live@,
                input@.config.ignore_dynamic_modules,
                x,
            ));
        }
        assert(models.to_set() =~= dead_symbols(input@));
    }
    findings
}

} // verus!
