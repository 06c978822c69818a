//! Grammar productions and dotted items, as the trace structure presents them.
use vstd::prelude::*;

verus! {

/// A grammar rule: a nonterminal and the symbols of its right-hand side, each
/// given by its display text.
pub struct Production {
    pub nonterminal: String,
    pub symbols: Vec<String>,
}

/// A production with a cursor: how much of the right-hand side has been
/// recognized.
pub struct LR0Item {
    pub production: Production,
    pub index: usize,
}

/// The mathematical content of a dotted item.
pub struct ItemModel {
    pub nonterminal: Seq<char>,
    pub symbols: Seq<Seq<char>>,
    pub index: nat,
}

impl View for LR0Item {
    type V = ItemModel;

    open spec fn view(&self) -> ItemModel {
        ItemModel {
            nonterminal: self.production.nonterminal@,
            symbols: self.production.symbols@.map_values(|s: String| s@),
            index: self.index as nat,
        }
    }
}

impl ItemModel {
    /// The cursor never passes the end of the right-hand side.
    pub open spec fn wf(&self) -> bool {
        self.index <= self.symbols.len()
    }
}

impl LR0Item {
    pub open spec fn wf(&self) -> bool {
        self@.wf()
    }
}

} // verus!
