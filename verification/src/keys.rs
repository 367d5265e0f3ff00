//! The names by which symbols are known across modules.

use crate::order::{
    lemma_pair_irreflexive, lemma_pair_total, lemma_pair_transitive, pair_precedes, place_pair,
    Ordered, Placement,
};
use vstd::prelude::*;

verus! {

/// A symbol's module path and its name in that module.
pub type SymbolId = (Seq<char>, Seq<char>);

/// Names a symbol by the module that defines it and its name there.
#[derive(Debug)]
pub struct SymbolKey {
    pub module: String,
    pub symbol_name: String,
}

impl View for SymbolKey {
    type V = SymbolId;

    open spec fn view(&self) -> SymbolId {
        (self.module@, self.symbol_name@)
    }
}

impl SymbolKey {
    pub fn new(module: String, symbol_name: String) -> (key: SymbolKey)
        ensures
            key@ == (module@, symbol_name@),
    {
        SymbolKey { module, symbol_name }
    }
}

impl Ordered for SymbolKey {
    open spec fn precedes(a: SymbolId, b: SymbolId) -> bool {
        pair_precedes::<String, String>(a, b)
    }

    proof fn precedes_irreflexive(a: SymbolId) {
        lemma_pair_irreflexive::<String, String>(a);
    }

    proof fn precedes_transitive(a: SymbolId, b: SymbolId, c: SymbolId) {
        lemma_pair_transitive::<String, String>(a, b, c);
    }

    proof fn precedes_total(a: SymbolId, b: SymbolId) {
        lemma_pair_total::<String, String>(a, b);
    }

    fn place(&self, other: &Self) -> (placement: Placement) {
        place_pair(&self.module, &self.symbol_name, &other.module, &other.symbol_name)
    }

    fn duplicate(&self) -> (copy: Self) {
        SymbolKey {
            module: self.module.clone(),
            symbol_name: self.symbol_name.clone(),
        }
    }
}

} // verus!
