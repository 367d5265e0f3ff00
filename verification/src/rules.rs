//! Configuration entries that name symbols.

use crate::collections::{SortedMap, SortedSet};
use crate::graph::{FileImportGraph, GraphModel};
use crate::imports::id_of;
use crate::keys::{SymbolId, SymbolKey};
use crate::path::FilePath;
use crate::text::{cut_first, cut_last, rsplit_once, split_once, texts, trim, trimmed};
use vstd::prelude::*;

verus! {

/// The two parts, where neither is empty.
pub open spec fn nonempty_parts(module: Seq<char>, name: Seq<char>) -> Option<SymbolId> {
    if module.len() > 0 && name.len() > 0 {
        Some((module, name))
    } else {
        None
    }
}

/// The module and the name that a symbol rule stands for: what is before and after the first
/// colon, or, in a rule without a colon, the last dot. Neither may be empty.
pub open spec fn rule_symbol(rule: Seq<char>) -> Option<SymbolId> {
    match cut_first(rule, ':') {
        Some((module, name)) => nonempty_parts(module, name),
        None => match cut_last(rule, '.') {
            Some((module, name)) => nonempty_parts(module, name),
            None => None,
        },
    }
}

pub open spec fn parts_of(parts: Option<(&str, &str)>) -> Option<SymbolId> {
    match parts {
        Some((module, name)) => Some((module@, name@)),
        None => None,
    }
}

fn valid_symbol_rule_parts<'a>(module: &'a str, name: &'a str) -> (parts: Option<(&'a str, &'a str)>)
    ensures
        parts_of(parts) == nonempty_parts(module@, name@),
{
    if !module.is_empty() && !name.is_empty() {
        Some((module, name))
    } else {
        None
    }
}

/// Splits a symbol rule into its module and its name.
pub fn parse_symbol_rule_parts<'a>(rule: &'a str) -> (parts: Option<(&'a str, &'a str)>)
    ensures
        parts_of(parts) == rule_symbol(rule@),
{
    if let Some((module, name)) = split_once(rule, ':') {
        return valid_symbol_rule_parts(module, name);
    }
    match rsplit_once(rule, '.') {
        Some((module, name)) => valid_symbol_rule_parts(module, name),
        None => None,
    }
}

pub fn parse_symbol_rule(rule: &str) -> (symbol: Option<SymbolKey>)
    ensures
        id_of(symbol) == rule_symbol(rule@),
{
    match parse_symbol_rule_parts(rule) {
        Some((module, name)) => Some(SymbolKey::new(module.to_string(), name.to_string())),
        None => None,
    }
}

/// The module part and the symbol of an entry point with a colon, without surrounding white space;
/// the symbol must not be empty.
pub open spec fn entry_symbol(entry_point: Seq<char>) -> Option<(Seq<char>, Seq<char>)> {
    match cut_first(entry_point, ':') {
        Some((module, name)) => if trimmed(name).len() == 0 {
            None
        } else {
            Some((trimmed(module), trimmed(name)))
        },
        None => None,
    }
}

/// Splits an entry point that names a symbol.
pub fn entry_point_parts(entry_point: &str) -> (parts: Option<(String, String)>)
    ensures
        match parts {
            Some((module, name)) => entry_symbol(entry_point@) == Some((module@, name@)),
            None => entry_symbol(entry_point@) is None,
        },
{
    match split_once(entry_point, ':') {
        Some((module, name)) => {
            let name = trim(name);
            if name.is_empty() {
                None
            } else {
                Some((trim(module).to_string(), name.to_string()))
            }
        },
        None => None,
    }
}

/// The files that entry points without their symbols resolve to.
pub type EntryFiles = SortedMap<String, Vec<FilePath>>;

/// Whether one entry point names the symbol `id`, in one of the files it resolves to.
pub open spec fn is_entry_symbol(
    entry_point: Seq<char>,
    files: Map<Seq<char>, Seq<FilePath>>,
    graph: GraphModel,
    id: SymbolId,
) -> bool {
    match entry_symbol(entry_point) {
        Some((module, name)) => files.contains_key(module) && names_symbol(
            files[module],
            graph,
            name,
            id,
        ),
        None => false,
    }
}

/// Whether `id` is the symbol `name` of the module of one of the files.
pub open spec fn names_symbol(
    files: Seq<FilePath>,
    graph: GraphModel,
    name: Seq<char>,
    id: SymbolId,
) -> bool {
    exists|j: int|
        0 <= j < files.len() && graph.files.contains_key((#[trigger] files[j])@) && id == (
            graph.files[files[j]@],
            name,
        )
}

/// The symbols that the entry points name.
pub open spec fn entry_symbols(
    entry_points: Seq<Seq<char>>,
    files: Map<Seq<char>, Seq<FilePath>>,
    graph: GraphModel,
) -> Set<SymbolId> {
    Set::new(
        |id: SymbolId|
            exists|i: int|
                0 <= i < entry_points.len() && is_entry_symbol(
                    #[trigger] entry_points[i],
                    files,
                    graph,
                    id,
                ),
    )
}

fn add_entry_symbols(
    files: &Vec<FilePath>,
    graph: &FileImportGraph,
    name: &String,
    seeds: &mut SortedSet<SymbolKey>,
)
    ensures
        final(seeds)@ == old(seeds)@.union(
            Set::new(|id: SymbolId| names_symbol(files@, graph@, name@, id)),
        ),
{
    let ghost start = seeds@;
    let mut i: usize = 0;
    assert(seeds@ =~= start.union(
        Set::new(|id: SymbolId| names_symbol(files@.take(0), graph@, name@, id)),
    ));
    while i < files.len()
        invariant
            i <= files@.len(),
            seeds@ == start.union(
                Set::new(|id: SymbolId| names_symbol(files@.take(i as int), graph@, name@, id)),
            ),
        decreases files@.len() - i,
    {
        if let Some(module) = graph.module_of(&files[i]) {
            seeds.insert(SymbolKey::new(module.clone(), name.clone()));
        }
        proof {
            let shorter = files@.take(i as int);
            let longer = files@.take(i + 1);
            let file = files@[i as int];
            assert forall|id: SymbolId|
                names_symbol(longer, graph@, name@, id) == (names_symbol(
                    shorter,
                    graph@,
                    name@,
                    id,
                ) || (graph@.files.contains_key(file@) && id == (graph@.files[file@], name@))) by {
                if names_symbol(shorter, graph@, name@, id) {
                    let j = choose|j: int|
                        0 <= j < shorter.len() && graph@.files.contains_key((#[trigger] shorter[j])@)
                            && id == (graph@.files[shorter[j]@], name@);
                    assert(longer[j] == shorter[j]);
                }
                if names_symbol(longer, graph@, name@, id) {
                    let j = choose|j: int|
                        0 <= j < longer.len() && graph@.files.contains_key((#[trigger] longer[j])@)
                            && id == (graph@.files[longer[j]@], name@);
                    if j < i {
                        assert(longer[j] == shorter[j]);
                    }
                }
                assert(longer[i as int] == file);
            }
            assert(seeds@ =~= start.union(
                Set::new(|id: SymbolId| names_symbol(longer, graph@, name@, id)),
            ));
        }
        i += 1;
    }
    assert(files@.take(i as int) =~= files@);
}

/// The symbols that the entry points name.
pub fn entry_point_symbol_seeds(
    entry_points: &Vec<String>,
    entry_files: &EntryFiles,
    graph: &FileImportGraph,
) -> (seeds: SortedSet<SymbolKey>)
    ensures
        seeds@ == entry_symbols(texts(entry_points@), entry_files@, graph@),
{
    let mut seeds: SortedSet<SymbolKey> = SortedSet::new();
    let ghost list = texts(entry_points@);
    let mut i: usize = 0;
    assert(seeds@ =~= entry_symbols(list.take(0), entry_files@, graph@));
    while i < entry_points.len()
        invariant
            i <= entry_points@.len(),
            list == texts(entry_points@),
            seeds@ == entry_symbols(list.take(i as int), entry_files@, graph@),
        decreases entry_points@.len() - i,
    {
        if let Some((module, name)) = entry_point_parts(entry_points[i].as_str()) {
            if let Some(files) = entry_files.get(&module) {
                add_entry_symbols(files, graph, &name, &mut seeds);
            }
        }
        proof {
            let shorter = list.take(i as int);
            let longer = list.take(i + 1);
            assert forall|id: SymbolId|
                entry_symbols(longer, entry_files@, graph@).contains(id) == (entry_symbols(
                    shorter,
                    entry_files@,
                    graph@,
                ).contains(id) || is_entry_symbol(list[i as int], entry_files@, graph@, id)) by {
                if entry_symbols(shorter, entry_files@, graph@).contains(id) {
                    let j = choose|j: int|
                        0 <= j < shorter.len() && is_entry_symbol(
                            #[trigger] shorter[j],
                            entry_files@,
                            graph@,
                            id,
                        );
                    assert(longer[j] == shorter[j]);
                }
                if entry_symbols(longer, entry_files@, graph@).contains(id) {
                    let j = choose|j: int|
                        0 <= j < longer.len() && is_entry_symbol(
                            #[trigger] longer[j],
                            entry_files@,
                            graph@,
                            id,
                        );
                    if j < i {
                        assert(longer[j] == shorter[j]);
                    }
                }
                assert(longer[i as int] == list[i as int]);
            }
            assert(seeds@ =~= entry_symbols(longer, entry_files@, graph@));
        }
        i += 1;
    }
    assert(list.take(i as int) =~= list);
    seeds
}

} // verus!
