//! One illustrative derivation: a flat symbol sequence, the conflict point,
//! and the nested reductions that built it.
use vstd::prelude::*;
use crate::grammar::ItemModel;

verus! {

/// One slot of a derivation: a grammar symbol (by its display text), or the
/// placeholder that stands for an empty right-hand side.
pub enum ExampleSymbol {
    Symbol(String),
    Epsilon,
}

pub enum SymbolModel {
    Symbol(Seq<char>),
    Epsilon,
}

impl View for ExampleSymbol {
    type V = SymbolModel;

    open spec fn view(&self) -> SymbolModel {
        match self {
            ExampleSymbol::Symbol(s) => SymbolModel::Symbol(s@),
            ExampleSymbol::Epsilon => SymbolModel::Epsilon,
        }
    }
}

/// The symbols `start..end` were reduced to `nonterminal`.
pub struct Reduction {
    pub start: usize,
    pub end: usize,
    pub nonterminal: String,
}

pub struct ReductionModel {
    pub start: int,
    pub end: int,
    pub nonterminal: Seq<char>,
}

impl View for Reduction {
    type V = ReductionModel;

    open spec fn view(&self) -> ReductionModel {
        ReductionModel { start: self.start as int, end: self.end as int, nonterminal: self.nonterminal@ }
    }
}

/// A derivation: `cursor` marks the conflict point within `symbols`.
pub struct Example {
    pub cursor: usize,
    pub symbols: Vec<ExampleSymbol>,
    pub reductions: Vec<Reduction>,
}

pub struct ExampleModel {
    pub cursor: int,
    pub symbols: Seq<SymbolModel>,
    pub reductions: Seq<ReductionModel>,
}

pub open spec fn symbol_models(s: Seq<ExampleSymbol>) -> Seq<SymbolModel> {
    s.map_values(|x: ExampleSymbol| x@)
}

pub open spec fn reduction_models(s: Seq<Reduction>) -> Seq<ReductionModel> {
    s.map_values(|x: Reduction| x@)
}

impl View for Example {
    type V = ExampleModel;

    open spec fn view(&self) -> ExampleModel {
        ExampleModel {
            cursor: self.cursor as int,
            symbols: symbol_models(self.symbols@),
            reductions: reduction_models(self.reductions@),
        }
    }
}

/// Grammar symbols, each as a concrete example symbol.
pub open spec fn concrete(s: Seq<Seq<char>>) -> Seq<SymbolModel> {
    s.map_values(|t: Seq<char>| SymbolModel::Symbol(t))
}

/// What one item contributes, with `items[1..]` expanded at its cursor:
/// the symbols it emits, the conflict cursor, and its reductions, innermost
/// first. `off` is the number of symbols emitted before it.
pub open spec fn expand(items: Seq<ItemModel>, off: int) -> (Seq<SymbolModel>, int, Seq<ReductionModel>)
    decreases items.len(),
{
    if items.len() == 0 {
        (seq![], off, seq![])
    } else {
        let it = items[0];
        let k = it.index as int;
        let body_cursor_inner: (Seq<SymbolModel>, int, Seq<ReductionModel>) = if items.len() == 1 {
            (concrete(it.symbols), off + k, seq![])
        } else {
            let sub = expand(items.drop_first(), off + k);
            let suffix = if k < it.symbols.len() { concrete(it.symbols.skip(k + 1)) } else { seq![] };
            (concrete(it.symbols.take(k)) + sub.0 + suffix, sub.1, sub.2)
        };
        let body = body_cursor_inner.0;
        let emitted = if body.len() == 0 { seq![SymbolModel::Epsilon] } else { body };
        (
            emitted,
            body_cursor_inner.1,
            body_cursor_inner.2.push(
                ReductionModel { start: off, end: off + emitted.len(), nonterminal: it.nonterminal },
            ),
        )
    }
}

/// The derivation for a path of items, earliest ancestor first.
pub open spec fn example_of_items(items: Seq<ItemModel>) -> ExampleModel {
    let e = expand(items, 0);
    ExampleModel { cursor: e.1, symbols: e.0, reductions: e.2 }
}

/// Spans of two reductions are disjoint, or one lies within the other.
pub open spec fn nested_or_disjoint(a: ReductionModel, b: ReductionModel) -> bool {
    ||| a.end <= b.start
    ||| b.end <= a.start
    ||| (b.start <= a.start && a.end <= b.end)
    ||| (a.start <= b.start && b.end <= a.end)
}

pub open spec fn items_wf(items: Seq<ItemModel>) -> bool {
    forall|k: int| 0 <= k < items.len() ==> (#[trigger] items[k]).wf()
}

/// What one expansion step emits: its cursor lies within its symbols, and
/// its reductions are non-empty, lie within its symbols, each contains the
/// ones before it, and the last covers all it emitted.
pub proof fn lemma_expand_shape(items: Seq<ItemModel>, off: int)
    requires
        items.len() >= 1,
        items_wf(items),
    ensures
        ({
            let e = expand(items, off);
            let n = e.0.len() as int;
            &&& n >= 1
            &&& off <= e.1 <= off + n
            &&& e.2.len() >= 1
            &&& e.2.last().start == off && e.2.last().end == off + n
            &&& forall|i: int| 0 <= i < e.2.len() ==> off <= (#[trigger] e.2[i]).start < e.2[i].end <= off + n
            &&& forall|i: int, j: int| 0 <= i < j < e.2.len() ==> (#[trigger] e.2[j]).start <= (#[trigger] e.2[i]).start
                && e.2[i].end <= e.2[j].end
        }),
    decreases items.len(),
{
    let it = items[0];
    let k = it.index as int;
    assert(it.wf());
    if items.len() > 1 {
        let rest = items.drop_first();
        assert forall|j: int| 0 <= j < rest.len() implies (#[trigger] rest[j]).wf() by {
            assert(rest[j] == items[j + 1]);
        }
        lemma_expand_shape(rest, off + k);
    }
}

} // verus!
