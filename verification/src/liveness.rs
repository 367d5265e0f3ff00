//! Which symbols are in use.

use crate::collections::{
    gathered, in_order, is_listed, lemma_gathered_empty, lemma_gathered_push, lemma_gathered_set,
    lemma_push_contains, lemma_to_set_push, union_over, SortedMap, SortedSet,
};
use crate::collector::{extend_keys, ModuleModel, ModuleSymbols, SymbolDefinition};
use crate::config::DeadcodeConfig;
use crate::fastapi::{live_symbols, served_symbols};
use crate::graph::FileImportGraph;
use crate::imports::{ImportTarget, TargetModel};
use crate::keys::{SymbolId, SymbolKey};
use crate::order::Ordered;
use crate::reach::{explore, reachable, steps};
use crate::rules::{
    entry_point_symbol_seeds, entry_symbols, parse_symbol_rule, rule_symbol, EntryFiles,
};
use crate::text::{leading_underscore, starts_with_underscore, texts};
use vstd::prelude::*;

verus! {

/// The modules under analysis, by module path.
pub type ModuleTable = SortedMap<String, ModuleSymbols>;

pub type TableModel = Map<Seq<char>, ModuleModel>;

/// Whether the modules define a symbol.
pub open spec fn defines(modules: TableModel, id: SymbolId) -> bool {
    modules.contains_key(id.0) && modules[id.0].symbols.contains_key(id.1)
}

pub fn symbol_exists(modules: &ModuleTable, symbol: &SymbolKey) -> (yes: bool)
    ensures
        yes == defines(modules@, symbol@),
{
    match modules.get(&symbol.module) {
        Some(module) => module.symbols.contains_key(&symbol.symbol_name),
        None => false,
    }
}

/// Whether importing everything from `module` brings in its symbol `name`: what `__all__` lists,
/// where that is to be respected and lists anything; else the names without a leading underscore
/// and the public ones.
pub open spec fn is_star_imported(module: ModuleModel, name: Seq<char>, respect_all: bool) -> bool {
    &&& module.symbols.contains_key(name)
    &&& if respect_all && module.exports != Set::<Seq<char>>::empty() {
        module.exports.contains(name)
    } else {
        !starts_with_underscore(name) || module.symbols[name].public
    }
}

/// Whether importing everything from the module `star` brings in the symbol `id`.
pub open spec fn star_gives(modules: TableModel, respect_all: bool) -> spec_fn(
    Seq<char>,
    SymbolId,
) -> bool {
    |star: Seq<char>, id: SymbolId|
        modules.contains_key(star) && id.0 == star && is_star_imported(
            modules[star],
            id.1,
            respect_all,
        )
}

/// A module that also refers to everything its star imports bring in.
pub open spec fn with_stars(
    modules: TableModel,
    module: ModuleModel,
    respect_all: bool,
) -> ModuleModel {
    ModuleModel {
        references: module.references.union(
            gathered(module.stars, star_gives(modules, respect_all)),
        ),
        ..module
    }
}

/// The modules, each also referring to everything its star imports bring in.
pub open spec fn star_expanded(modules: TableModel, respect_all: bool) -> TableModel {
    Map::new(
        |m: Seq<char>| modules.contains_key(m),
        |m: Seq<char>| with_stars(modules, modules[m], respect_all),
    )
}

/// The symbols of a module that a star import of it brings in.
fn star_imported_symbols(module: &String, symbols: &ModuleSymbols, respect_all: bool) -> (names:
    SortedSet<SymbolKey>)
    ensures
        forall|id: SymbolId| #[trigger]
            names@.contains(id) <==> id.0 == module@ && is_star_imported(
                symbols@,
                id.1,
                respect_all,
            ),
{
    let mut names: SortedSet<SymbolKey> = SortedSet::new();
    let n = symbols.symbols.len();
    let ghost list = in_order::<String>(symbols.symbols@.dom());
    let export_count = symbols.exports.len();
    let only_exports = respect_all && export_count > 0;
    proof {
        let listing = in_order::<String>(symbols.exports@);
        if listing.len() > 0 {
            assert(listing.to_set().contains(listing[0]));
            assert(symbols.exports@ != Set::<Seq<char>>::empty());
        } else {
            assert(symbols.exports@ =~= Set::<Seq<char>>::empty()) by {
                assert(listing.to_set() =~= Set::<Seq<char>>::empty());
            }
        }
    }
    let mut i: usize = 0;
    while i < n
        invariant
            i <= n,
            n == list.len(),
            list == in_order::<String>(symbols.symbols@.dom()),
            list.to_set() == symbols.symbols@.dom(),
            only_exports == (respect_all && symbols@.exports != Set::<Seq<char>>::empty()),
            forall|id: SymbolId| #[trigger]
                names@.contains(id) <==> id.0 == module@ && is_star_imported(
                    symbols@,
                    id.1,
                    respect_all,
                ) && exists|j: int| 0 <= j < i && list[j] == id.1,
        decreases n - i,
    {
        let ghost before = names@;
        let name = symbols.symbols.key_at(i);
        let wanted = if only_exports {
            symbols.exports.contains(name)
        } else {
            !leading_underscore(name.as_str()) || symbols.symbols.value_at(i).has_public_decorator
        };
        assert(wanted == is_star_imported(symbols@, name@, respect_all));
        if wanted {
            names.insert(SymbolKey::new(module.clone(), name.clone()));
        }
        proof {
            assert forall|id: SymbolId| #[trigger]
                names@.contains(id) <==> id.0 == module@ && is_star_imported(
                    symbols@,
                    id.1,
                    respect_all,
                ) && exists|j: int| 0 <= j < i + 1 && list[j] == id.1 by {
                assert(names@.contains(id) <==> before.contains(id) || (wanted && id == (
                    module@,
                    name@,
                )));
                if id.1 == name@ {
                    assert(list[i as int] == id.1);
                }
            }
        }
        i += 1;
    }
    assert forall|id: SymbolId| #[trigger]
        names@.contains(id) <==> id.0 == module@ && is_star_imported(symbols@, id.1, respect_all) by {
        if is_star_imported(symbols@, id.1, respect_all) {
            assert(list.to_set().contains(id.1));
            let j = choose|j: int| 0 <= j < list.len() && list[j] == id.1;
            assert(0 <= j < i && list[j] == id.1);
        }
    }
    names
}

/// The symbols that a star import of each module brings in.
fn star_import_table(modules: &ModuleTable, respect_all: bool) -> (table: SortedMap<
    String,
    SortedSet<SymbolKey>,
>)
    ensures
        table@.dom() == modules@.dom(),
        forall|m: Seq<char>, id: SymbolId|
            modules@.contains_key(m) ==> (#[trigger] table@[m].contains(id) <==> star_gives(
                modules@,
                respect_all,
            )(m, id)),
{
    let mut table: SortedMap<String, SortedSet<SymbolKey>> = SortedMap::new();
    let n = modules.len();
    let ghost list = in_order::<String>(modules@.dom());
    let mut i: usize = 0;
    assert(list.take(0).to_set() =~= Set::empty());
    assert(table@.dom() =~= list.take(0).to_set());
    while i < n
        invariant
            i <= n,
            n == list.len(),
            list == in_order::<String>(modules@.dom()),
            list.to_set() == modules@.dom(),
            table@.dom() == list.take(i as int).to_set(),
            forall|m: Seq<char>, id: SymbolId|
                table@.contains_key(m) ==> (#[trigger] table@[m].contains(id) <==> star_gives(
                    modules@,
                    respect_all,
                )(m, id)),
        decreases n - i,
    {
        let module = modules.key_at(i);
        let names = star_imported_symbols(module, modules.value_at(i), respect_all);
        table.insert(module.clone(), names);
        proof {
            assert(list.take(i + 1) =~= list.take(i as int).push(list[i as int]));
            lemma_to_set_push(list.take(i as int), list[i as int]);
            assert(table@.dom() =~= list.take(i + 1).to_set());
        }
        i += 1;
    }
    assert(list.take(i as int) =~= list);
    table
}

/// Makes every module refer to what its star imports bring in.
pub fn add_star_import_references(modules: &mut ModuleTable, respect_all: bool)
    ensures
        final(modules)@ == star_expanded(old(modules)@, respect_all),
{
    let ghost start = modules@;
    let table = star_import_table(modules, respect_all);
    let n = modules.len();
    let ghost list = in_order::<String>(start.dom());
    let ghost gives = star_gives(start, respect_all);
    let mut i: usize = 0;
    while i < n
        invariant
            i <= n,
            n == list.len(),
            list == in_order::<String>(start.dom()),
            is_listed::<String>(start.dom()),
            modules@.dom() == start.dom(),
            gives == star_gives(start, respect_all),
            table@.dom() == start.dom(),
            forall|m: Seq<char>, id: SymbolId|
                start.contains_key(m) ==> (#[trigger] table@[m].contains(id) <==> gives(m, id)),
            forall|j: int|
                0 <= j < i ==> modules@[#[trigger] list[j]] == with_stars(
                    start,
                    start[list[j]],
                    respect_all,
                ),
            forall|j: int| i <= j < n ==> modules@[#[trigger] list[j]] == start[list[j]],
        decreases n - i,
    {
        let name = modules.key_at(i).clone();
        let ghost before = modules@;
        if let Some(module) = modules.remove(&name) {
            let ModuleSymbols {
                symbols,
                module_references,
                imports,
                exports,
                star_imports,
                is_dynamic,
                fastapi,
            } = module;
            let ghost stars = texts(star_imports@);
            let ghost known = module_references@;
            let mut references = module_references;
            let mut k: usize = 0;
            proof {
                assert(stars.take(0) =~= Seq::empty());
                lemma_gathered_empty(gives);
                assert(references@ =~= known.union(gathered(stars.take(0), gives)));
            }
            while k < star_imports.len()
                invariant
                    k <= star_imports@.len(),
                    stars == texts(star_imports@),
                    gives == star_gives(start, respect_all),
                    table@.dom() == start.dom(),
                    forall|m: Seq<char>, id: SymbolId|
                        start.contains_key(m) ==> (#[trigger] table@[m].contains(id) <==> gives(
                            m,
                            id,
                        )),
                    references@ == known.union(gathered(stars.take(k as int), gives)),
                decreases star_imports@.len() - k,
            {
                let ghost earlier = references@;
                let ghost star = stars[k as int];
                if let Some(names) = table.get(&star_imports[k]) {
                    extend_keys(&mut references, names);
                }
                proof {
                    assert(stars.take(k + 1) =~= stars.take(k as int).push(star));
                    lemma_gathered_push(stars.take(k as int), star, gives);
                    let extra = Set::new(|id: SymbolId| gives(star, id));
                    assert forall|id: SymbolId|
                        references@.contains(id) == (earlier.contains(id) || extra.contains(id)) by {
                        if start.contains_key(star) {
                            assert(table@[star].contains(id) <==> gives(star, id));
                        }
                    }
                    assert(references@ =~= known.union(gathered(stars.take(k + 1), gives)));
                }
                k += 1;
            }
            assert(stars.take(k as int) =~= stars);
            let updated = ModuleSymbols {
                symbols,
                module_references: references,
                imports,
                exports,
                star_imports,
                is_dynamic,
                fastapi,
            };
            let ghost model = updated@;
            let ghost key = name@;
            modules.insert(name, updated);
            proof {
                assert(model == with_stars(start, start[key], respect_all));
                assert(modules@ =~= before.insert(key, model));
                assert forall|j: int| 0 <= j < n && j != i implies list[j] != list[i as int] by {
                    String::precedes_irreflexive(list[j]);
                }
                assert(modules@.dom() =~= start.dom());
            }
        }
        i += 1;
    }
    proof {
        let expected = star_expanded(start, respect_all);
        assert forall|m: Seq<char>| start.contains_key(m) implies modules@[m] == expected[m] by {
            assert(list.to_set().contains(m));
            let j = choose|j: int| 0 <= j < list.len() && list[j] == m;
            assert(modules@[list[j]] == with_stars(start, start[list[j]], respect_all));
        }
        assert(modules@ =~= expected);
    }
}

/// Which existing symbols a module's own code refers to.
pub open spec fn uses_symbol(modules: TableModel) -> spec_fn(Seq<char>, SymbolId) -> bool {
    |m: Seq<char>, id: SymbolId| modules[m].references.contains(id) && defines(modules, id)
}

/// The symbol that a module exports under `name`: its own symbol, else the symbol it imports
/// under this name.
pub open spec fn exported_symbol(
    modules: TableModel,
    module: Seq<char>,
    name: Seq<char>,
) -> Option<SymbolId> {
    if defines(modules, (module, name)) {
        Some((module, name))
    } else if modules[module].imports.contains_key(name) {
        match modules[module].imports[name] {
            TargetModel::Symbol(id) => if defines(modules, id) {
                Some(id)
            } else {
                None
            },
            TargetModel::Module(_) => None,
        }
    } else {
        None
    }
}

/// Which symbols a module exports through `__all__`.
pub open spec fn exports_symbol(modules: TableModel) -> spec_fn(Seq<char>, SymbolId) -> bool {
    |m: Seq<char>, id: SymbolId|
        union_over(
            modules[m].exports,
            |name: Seq<char>, s: SymbolId| exported_symbol(modules, m, name) == Some(s),
        ).contains(id)
}

/// Which existing symbol a `public_symbols` entry names.
pub open spec fn declares_symbol(modules: TableModel) -> spec_fn(Seq<char>, SymbolId) -> bool {
    |rule: Seq<char>, id: SymbolId| rule_symbol(rule) == Some(id) && defines(modules, id)
}

/// Which symbols a `public_modules` entry makes public: those without a leading underscore.
pub open spec fn opens_module(modules: TableModel) -> spec_fn(Seq<char>, SymbolId) -> bool {
    |m: Seq<char>, id: SymbolId|
        id.0 == m && defines(modules, id) && !starts_with_underscore(id.1)
}

/// Which symbols of a module carry a public decorator.
pub open spec fn decorates_symbol(modules: TableModel) -> spec_fn(Seq<char>, SymbolId) -> bool {
    |m: Seq<char>, id: SymbolId|
        id.0 == m && defines(modules, id) && modules[id.0].symbols[id.1].public
}

/// The symbols that are live by themselves: those that module code uses, the exported ones where
/// `__all__` is respected, the ones configured or decorated as public, the entry points, and what
/// FastAPI serves from these.
pub open spec fn seeds(
    config: DeadcodeConfig,
    modules: TableModel,
    entries: Set<SymbolId>,
) -> Set<SymbolId> {
    union_over(modules.dom(), uses_symbol(modules)).union(
        if config.respect_all {
            union_over(modules.dom(), exports_symbol(modules))
        } else {
            Set::empty()
        },
    ).union(gathered(texts(config.public_symbols@), declares_symbol(modules))).union(
        gathered(texts(config.public_modules@), opens_module(modules)),
    ).union(union_over(modules.dom(), decorates_symbol(modules))).union(
        existing(modules, entries),
    ).union(served_symbols(modules, entries))
}

/// The members of a set that the modules define.
pub open spec fn existing(modules: TableModel, ids: Set<SymbolId>) -> Set<SymbolId> {
    Set::new(|id: SymbolId| ids.contains(id) && defines(modules, id))
}

/// Adds those of `keys` that the modules define.
fn add_existing(modules: &ModuleTable, keys: &SortedSet<SymbolKey>, live: &mut SortedSet<SymbolKey>)
    ensures
        final(live)@ == old(live)@.union(existing(modules@, keys@)),
{
    let ghost start = live@;
    let n = keys.len();
    let ghost list = in_order::<SymbolKey>(keys@);
    let mut i: usize = 0;
    assert(live@ =~= start.union(existing(modules@, list.take(0).to_set())));
    while i < n
        invariant
            i <= n,
            n == list.len(),
            list == in_order::<SymbolKey>(keys@),
            live@ == start.union(existing(modules@, list.take(i as int).to_set())),
        decreases n - i,
    {
        let key = keys.at(i);
        if symbol_exists(modules, key) {
            live.insert(key.duplicate());
        }
        proof {
            assert(list.take(i + 1) =~= list.take(i as int).push(list[i as int]));
            lemma_to_set_push(list.take(i as int), list[i as int]);
            assert(live@ =~= start.union(existing(modules@, list.take(i + 1).to_set())));
        }
        i += 1;
    }
    assert(list.take(i as int) =~= list);
}

fn add_used_symbols(modules: &ModuleTable, live: &mut SortedSet<SymbolKey>)
    ensures
        final(live)@ == old(live)@.union(union_over(modules@.dom(), uses_symbol(modules@))),
{
    let ghost start = live@;
    let n = modules.len();
    let ghost list = in_order::<String>(modules@.dom());
    let ghost gives = uses_symbol(modules@);
    let mut i: usize = 0;
    proof {
        lemma_gathered_empty(gives);
        assert(list.take(0) =~= Seq::empty());
        assert(live@ =~= start.union(gathered(list.take(0), gives)));
    }
    while i < n
        invariant
            i <= n,
            n == list.len(),
            list == in_order::<String>(modules@.dom()),
            gives == uses_symbol(modules@),
            live@ == start.union(gathered(list.take(i as int), gives)),
        decreases n - i,
    {
        add_existing(modules, &modules.value_at(i).module_references, live);
        proof {
            let m = list[i as int];
            assert(list.take(i + 1) =~= list.take(i as int).push(m));
            lemma_gathered_push(list.take(i as int), m, gives);
            assert(Set::new(|id: SymbolId| gives(m, id)) =~= existing(
                modules@,
                modules@[m].references,
            ));
            assert(live@ =~= start.union(gathered(list.take(i + 1), gives)));
        }
        i += 1;
    }
    proof {
        assert(list.take(i as int) =~= list);
        lemma_gathered_set(list, gives);
    }
}

fn add_module_exports(
    modules: &ModuleTable,
    name: &String,
    module: &ModuleSymbols,
    live: &mut SortedSet<SymbolKey>,
)
    requires
        modules@.contains_key(name@),
        modules@[name@] == module@,
    ensures
        final(live)@ == old(live)@.union(
            union_over(
                module@.exports,
                |e: Seq<char>, s: SymbolId| exported_symbol(modules@, name@, e) == Some(s),
            ),
        ),
{
    let ghost start = live@;
    let n = module.exports.len();
    let ghost list = in_order::<String>(module.exports@);
    let ghost gives = |e: Seq<char>, s: SymbolId| exported_symbol(modules@, name@, e) == Some(s);
    let mut i: usize = 0;
    proof {
        lemma_gathered_empty(gives);
        assert(list.take(0) =~= Seq::empty());
        assert(live@ =~= start.union(gathered(list.take(0), gives)));
    }
    while i < n
        invariant
            i <= n,
            n == list.len(),
            list == in_order::<String>(module.exports@),
            modules@.contains_key(name@),
            modules@[name@] == module@,
            gives == (|e: Seq<char>, s: SymbolId| exported_symbol(modules@, name@, e) == Some(s)),
            live@ == start.union(gathered(list.take(i as int), gives)),
        decreases n - i,
    {
        let ghost before = live@;
        let export = module.exports.at(i);
        let key = SymbolKey::new(name.clone(), export.clone());
        if symbol_exists(modules, &key) {
            live.insert(key);
        } else if let Some(ImportTarget::Symbol(imported)) = module.imports.get(export) {
            if symbol_exists(modules, imported) {
                live.insert(imported.duplicate());
            }
        }
        proof {
            let e = list[i as int];
            assert(list.take(i + 1) =~= list.take(i as int).push(e));
            lemma_gathered_push(list.take(i as int), e, gives);
            assert(live@ =~= before.union(Set::new(|id: SymbolId| gives(e, id))));
            assert(live@ =~= start.union(gathered(list.take(i + 1), gives)));
        }
        i += 1;
    }
    proof {
        assert(list.take(i as int) =~= list);
        lemma_gathered_set(list, gives);
    }
}

fn add_exported_symbols(modules: &ModuleTable, live: &mut SortedSet<SymbolKey>)
    ensures
        final(live)@ == old(live)@.union(union_over(modules@.dom(), exports_symbol(modules@))),
{
    let ghost start = live@;
    let n = modules.len();
    let ghost list = in_order::<String>(modules@.dom());
    let ghost gives = exports_symbol(modules@);
    let mut i: usize = 0;
    proof {
        lemma_gathered_empty(gives);
        assert(list.take(0) =~= Seq::empty());
        assert(live@ =~= start.union(gathered(list.take(0), gives)));
    }
    while i < n
        invariant
            i <= n,
            n == list.len(),
            list == in_order::<String>(modules@.dom()),
            gives == exports_symbol(modules@),
            live@ == start.union(gathered(list.take(i as int), gives)),
        decreases n - i,
    {
        let name = modules.key_at(i);
        let module = modules.value_at(i);
        let ghost before = live@;
        add_module_exports(modules, name, module, live);
        proof {
            let m = list[i as int];
            assert(list.take(i + 1) =~= list.take(i as int).push(m));
            lemma_gathered_push(list.take(i as int), m, gives);
            assert(live@ =~= before.union(Set::new(|id: SymbolId| gives(m, id))));
            assert(live@ =~= start.union(gathered(list.take(i + 1), gives)));
        }
        i += 1;
    }
    proof {
        assert(list.take(i as int) =~= list);
        lemma_gathered_set(list, gives);
    }
}

fn add_declared_symbols(
    rules: &Vec<String>,
    modules: &ModuleTable,
    live: &mut SortedSet<SymbolKey>,
)
    ensures
        final(live)@ == old(live)@.union(gathered(texts(rules@), declares_symbol(modules@))),
{
    let ghost start = live@;
    let ghost list = texts(rules@);
    let ghost gives = declares_symbol(modules@);
    let mut i: usize = 0;
    proof {
        lemma_gathered_empty(gives);
        assert(list.take(0) =~= Seq::empty());
        assert(live@ =~= start.union(gathered(list.take(0), gives)));
    }
    while i < rules.len()
        invariant
            i <= rules@.len(),
            list == texts(rules@),
            gives == declares_symbol(modules@),
            live@ == start.union(gathered(list.take(i as int), gives)),
        decreases rules@.len() - i,
    {
        let ghost before = live@;
        if let Some(symbol) = parse_symbol_rule(rules[i].as_str()) {
            if symbol_exists(modules, &symbol) {
                live.insert(symbol);
            }
        }
        proof {
            let rule = list[i as int];
            assert(list.take(i + 1) =~= list.take(i as int).push(rule));
            lemma_gathered_push(list.take(i as int), rule, gives);
            assert(live@ =~= before.union(Set::new(|id: SymbolId| gives(rule, id))));
            assert(live@ =~= start.union(gathered(list.take(i + 1), gives)));
        }
        i += 1;
    }
    assert(list.take(i as int) =~= list);
}

/// Adds the symbols of one module whose names have no leading underscore, or, where `decorated`
/// holds, those with a public decorator.
fn add_module_symbols(
    name: &String,
    module: &ModuleSymbols,
    decorated: bool,
    live: &mut SortedSet<SymbolKey>,
)
    ensures
        final(live)@ == old(live)@.union(
            Set::new(
                |id: SymbolId|
                    id.0 == name@ && module@.symbols.contains_key(id.1) && (if decorated {
                        module@.symbols[id.1].public
                    } else {
                        !starts_with_underscore(id.1)
                    }),
            ),
        ),
{
    let ghost start = live@;
    let n = module.symbols.len();
    let ghost list = in_order::<String>(module.symbols@.dom());
    let ghost gives = |s: Seq<char>, id: SymbolId|
        id == (name@, s) && (if decorated {
            module@.symbols[s].public
        } else {
            !starts_with_underscore(s)
        });
    let mut i: usize = 0;
    proof {
        lemma_gathered_empty(gives);
        assert(list.take(0) =~= Seq::empty());
        assert(live@ =~= start.union(gathered(list.take(0), gives)));
    }
    while i < n
        invariant
            i <= n,
            n == list.len(),
            list == in_order::<String>(module.symbols@.dom()),
            gives == (|s: Seq<char>, id: SymbolId|
                id == (name@, s) && (if decorated {
                    module@.symbols[s].public
                } else {
                    !starts_with_underscore(s)
                })),
            live@ == start.union(gathered(list.take(i as int), gives)),
        decreases n - i,
    {
        let ghost before = live@;
        let symbol = module.symbols.key_at(i);
        let wanted = if decorated {
            module.symbols.value_at(i).has_public_decorator
        } else {
            !leading_underscore(symbol.as_str())
        };
        if wanted {
            live.insert(SymbolKey::new(name.clone(), symbol.clone()));
        }
        proof {
            let s = list[i as int];
            assert(list.take(i + 1) =~= list.take(i as int).push(s));
            lemma_gathered_push(list.take(i as int), s, gives);
            assert(live@ =~= before.union(Set::new(|id: SymbolId| gives(s, id))));
            assert(live@ =~= start.union(gathered(list.take(i + 1), gives)));
        }
        i += 1;
    }
    proof {
        assert(list.take(i as int) =~= list);
        lemma_gathered_set(list, gives);
        let expected = Set::new(
            |id: SymbolId|
                id.0 == name@ && module@.symbols.contains_key(id.1) && (if decorated {
                    module@.symbols[id.1].public
                } else {
                    !starts_with_underscore(id.1)
                }),
        );
        let dom = module.symbols@.dom();
        assert forall|id: SymbolId| expected.contains(id) == union_over(dom, gives).contains(id) by {
            if expected.contains(id) {
                assert(dom.contains(id.1) && gives(id.1, id));
            }
        }
        assert(union_over(dom, gives) =~= expected);
    }
}

fn add_public_modules(
    public_modules: &Vec<String>,
    modules: &ModuleTable,
    live: &mut SortedSet<SymbolKey>,
)
    ensures
        final(live)@ == old(live)@.union(gathered(texts(public_modules@), opens_module(modules@))),
{
    let ghost start = live@;
    let ghost list = texts(public_modules@);
    let ghost gives = opens_module(modules@);
    let mut i: usize = 0;
    proof {
        lemma_gathered_empty(gives);
        assert(list.take(0) =~= Seq::empty());
        assert(live@ =~= start.union(gathered(list.take(0), gives)));
    }
    while i < public_modules.len()
        invariant
            i <= public_modules@.len(),
            list == texts(public_modules@),
            gives == opens_module(modules@),
            live@ == start.union(gathered(list.take(i as int), gives)),
        decreases public_modules@.len() - i,
    {
        let ghost before = live@;
        if let Some(module) = modules.get(&public_modules[i]) {
            add_module_symbols(&public_modules[i], module, false, live);
        }
        proof {
            let m = list[i as int];
            assert(list.take(i + 1) =~= list.take(i as int).push(m));
            lemma_gathered_push(list.take(i as int), m, gives);
            assert(live@ =~= before.union(Set::new(|id: SymbolId| gives(m, id))));
            assert(live@ =~= start.union(gathered(list.take(i + 1), gives)));
        }
        i += 1;
    }
    assert(list.take(i as int) =~= list);
}

fn add_decorated_symbols(modules: &ModuleTable, live: &mut SortedSet<SymbolKey>)
    ensures
        final(live)@ == old(live)@.union(union_over(modules@.dom(), decorates_symbol(modules@))),
{
    let ghost start = live@;
    let n = modules.len();
    let ghost list = in_order::<String>(modules@.dom());
    let ghost gives = decorates_symbol(modules@);
    let mut i: usize = 0;
    proof {
        lemma_gathered_empty(gives);
        assert(list.take(0) =~= Seq::empty());
        assert(live@ =~= start.union(gathered(list.take(0), gives)));
    }
    while i < n
        invariant
            i <= n,
            n == list.len(),
            list == in_order::<String>(modules@.dom()),
            gives == decorates_symbol(modules@),
            live@ == start.union(gathered(list.take(i as int), gives)),
        decreases n - i,
    {
        let ghost before = live@;
        add_module_symbols(modules.key_at(i), modules.value_at(i), true, live);
        proof {
            let m = list[i as int];
            assert(list.take(i + 1) =~= list.take(i as int).push(m));
            lemma_gathered_push(list.take(i as int), m, gives);
            assert(live@ =~= before.union(Set::new(|id: SymbolId| gives(m, id))));
            assert(live@ =~= start.union(gathered(list.take(i + 1), gives)));
        }
        i += 1;
    }
    proof {
        assert(list.take(i as int) =~= list);
        lemma_gathered_set(list, gives);
    }
}

/// The symbols that are live by themselves.
pub fn seed_live_symbols(
    config: &DeadcodeConfig,
    graph: &FileImportGraph,
    entry_points: &Vec<String>,
    entry_files: &EntryFiles,
    modules: &ModuleTable,
) -> (live: SortedSet<SymbolKey>)
    ensures
        live@ == seeds(
            *config,
            modules@,
            entry_symbols(texts(entry_points@), entry_files@, graph@),
        ),
{
    let mut live: SortedSet<SymbolKey> = SortedSet::new();
    add_used_symbols(modules, &mut live);
    if config.respect_all {
        add_exported_symbols(modules, &mut live);
    }
    add_declared_symbols(&config.public_symbols, modules, &mut live);
    add_public_modules(&config.public_modules, modules, &mut live);
    add_decorated_symbols(modules, &mut live);
    let entries = entry_point_symbol_seeds(entry_points, entry_files, graph);
    add_existing(modules, &entries, &mut live);
    let served = live_symbols(modules, &entries);
    extend_keys(&mut live, &served);
    assert(live@ =~= seeds(
        *config,
        modules@,
        entry_symbols(texts(entry_points@), entry_files@, graph@),
    ));
    live
}

/// The step from a defined symbol to a defined symbol that it refers to.
pub open spec fn reference_step(modules: TableModel) -> spec_fn(SymbolId, SymbolId) -> bool {
    |a: SymbolId, b: SymbolId|
        defines(modules, a) && modules[a.0].symbols[a.1].references.contains(b) && defines(
            modules,
            b,
        )
}

/// The defined symbols that a symbol of a module refers to.
fn existing_references(modules: &ModuleTable, symbol: &SymbolDefinition) -> (found: SortedSet<
    SymbolKey,
>)
    ensures
        found@ == existing(modules@, symbol@.references),
{
    let mut found: SortedSet<SymbolKey> = SortedSet::new();
    add_existing(modules, &symbol.references, &mut found);
    assert(found@ =~= existing(modules@, symbol@.references));
    found
}

/// Records, for each symbol of one module, the defined symbols that it refers to.
fn add_module_references(
    modules: &ModuleTable,
    name: &String,
    module: &ModuleSymbols,
    next: &mut SortedMap<SymbolKey, SortedSet<SymbolKey>>,
)
    requires
        modules@.contains_key(name@),
        modules@[name@] == module@,
    ensures
        forall|a: SymbolId| #[trigger]
            final(next)@.contains_key(a) <==> old(next)@.contains_key(a) || (a.0 == name@
                && defines(modules@, a)),
        forall|a: SymbolId| #[trigger]
            final(next)@.contains_key(a) ==> final(next)@[a] == if a.0 == name@ && defines(
                modules@,
                a,
            ) {
                existing(modules@, modules@[a.0].symbols[a.1].references)
            } else {
                old(next)@[a]
            },
{
    let ghost start = next@;
    let n = module.symbols.len();
    let ghost list = in_order::<String>(module.symbols@.dom());
    let mut i: usize = 0;
    while i < n
        invariant
            i <= n,
            n == list.len(),
            list == in_order::<String>(module.symbols@.dom()),
            list.to_set() == module.symbols@.dom(),
            modules@.contains_key(name@),
            modules@[name@] == module@,
            forall|a: SymbolId| #[trigger]
                next@.contains_key(a) <==> start.contains_key(a) || (a.0 == name@ && list.take(
                    i as int,
                ).contains(a.1)),
            forall|a: SymbolId| #[trigger]
                next@.contains_key(a) ==> next@[a] == if a.0 == name@ && list.take(
                    i as int,
                ).contains(a.1) {
                    existing(modules@, modules@[a.0].symbols[a.1].references)
                } else {
                    start[a]
                },
        decreases n - i,
    {
        let symbol = module.symbols.key_at(i);
        let targets = existing_references(modules, module.symbols.value_at(i));
        next.insert(SymbolKey::new(name.clone(), symbol.clone()), targets);
        proof {
            let taken = list.take(i as int);
            assert(list.take(i + 1) =~= taken.push(symbol@));
            lemma_push_contains(taken, symbol@);
        }
        i += 1;
    }
    proof {
        assert(list.take(i as int) =~= list);
        assert forall|a: SymbolId| a.0 == name@ implies (list.contains(a.1) <==> #[trigger] defines(
            modules@,
            a,
        )) by {
            assert(list.to_set().contains(a.1) <==> list.contains(a.1));
        }
    }
}

/// The defined symbols that each defined symbol refers to.
fn reference_table(modules: &ModuleTable) -> (next: SortedMap<SymbolKey, SortedSet<SymbolKey>>)
    ensures
        forall|a: SymbolId| #[trigger] next@.contains_key(a) <==> defines(modules@, a),
        forall|a: SymbolId| #[trigger]
            next@.contains_key(a) ==> next@[a] == existing(
                modules@,
                modules@[a.0].symbols[a.1].references,
            ),
{
    let mut next: SortedMap<SymbolKey, SortedSet<SymbolKey>> = SortedMap::new();
    let n = modules.len();
    let ghost list = in_order::<String>(modules@.dom());
    let mut i: usize = 0;
    while i < n
        invariant
            i <= n,
            n == list.len(),
            list == in_order::<String>(modules@.dom()),
            list.to_set() == modules@.dom(),
            forall|a: SymbolId| #[trigger]
                next@.contains_key(a) <==> defines(modules@, a) && exists|j: int|
                    0 <= j < i && list[j] == a.0,
            forall|a: SymbolId| #[trigger]
                next@.contains_key(a) ==> next@[a] == existing(
                    modules@,
                    modules@[a.0].symbols[a.1].references,
                ),
        decreases n - i,
    {
        let ghost before = next@;
        add_module_references(modules, modules.key_at(i), modules.value_at(i), &mut next);
        proof {
            let m = list[i as int];
            assert forall|a: SymbolId| #[trigger]
                next@.contains_key(a) <==> defines(modules@, a) && exists|j: int|
                    0 <= j < i + 1 && list[j] == a.0 by {
                assert(next@.contains_key(a) <==> before.contains_key(a) || (a.0 == m && defines(
                    modules@,
                    a,
                )));
                if a.0 == m {
                    assert(list[i as int] == a.0);
                }
            }
        }
        i += 1;
    }
    assert forall|a: SymbolId| #[trigger] next@.contains_key(a) <==> defines(modules@, a) by {
        if defines(modules@, a) {
            assert(list.to_set().contains(a.0));
            let j = choose|j: int| 0 <= j < list.len() && list[j] == a.0;
            assert(0 <= j < i && list[j] == a.0);
        }
    }
    next
}

/// Adds every defined symbol that a live one refers to, directly or not.
pub fn propagate_liveness(modules: &ModuleTable, live: &mut SortedSet<SymbolKey>)
    ensures
        final(live)@ == reachable(old(live)@, reference_step(modules@)),
{
    let next = reference_table(modules);
    proof {
        let by_table = steps(next@);
        let by_modules = reference_step(modules@);
        assert forall|a: SymbolId, b: SymbolId| #[trigger] by_table(a, b) == by_modules(a, b) by {
            assert(next@.contains_key(a) <==> defines(modules@, a));
        }
        assert(by_table =~= by_modules);
    }
    *live = explore(live, &next);
}

} // verus!
