//! Drawing an example: its symbols on the first row, and beneath them one
//! bracket and label per reduction, each lower than the ones before it.
use vstd::prelude::*;
use crate::canvas::{blank_grid, horizontal_line, trim_end, vertical_line, write_text, AsciiCanvas};
use crate::example::{Example, ExampleModel, ExampleSymbol, SymbolModel};
use crate::layout::{col_sum, label_room, layout, lemma_label_room_grows, lemma_label_room_lower, lemma_layout, spans_ok, widths};

verus! {

/// The symbol widths, as `lengths` returns them.
pub open spec fn width_seq(ex: ExampleModel) -> Seq<usize> {
    Seq::new(ex.symbols.len() + 1, |i: int| widths(ex)[i] as usize)
}

/// The column of each slot after layout.
pub open spec fn columns_of(ex: ExampleModel) -> Seq<int> {
    layout(width_seq(ex), ex.reductions, ex.reductions.len() as int)
}

/// Reductions cover non-empty runs of symbols, and the layout's widest
/// possible extent fits in a machine word.
pub open spec fn paintable(ex: ExampleModel) -> bool {
    &&& spans_ok(ex.reductions, ex.symbols.len() as int)
    &&& forall|i: int| 0 <= i < ex.symbols.len() ==> #[trigger] widths(ex)[i] <= usize::MAX
    &&& col_sum(width_seq(ex), ex.symbols.len() + 1int) + label_room(ex.reductions, ex.reductions.len() as int)
        <= usize::MAX
}

/// The grid after writing the first `i` symbols on row 0.
pub open spec fn draw_symbols(g: Seq<Seq<char>>, ex: ExampleModel, cols: Seq<int>, i: int) -> Seq<Seq<char>>
    decreases i,
{
    if i <= 0 {
        g
    } else {
        let before = draw_symbols(g, ex, cols, i - 1);
        match ex.symbols[i - 1] {
            SymbolModel::Symbol(t) => write_text(before, 0, cols[i - 1], t),
            SymbolModel::Epsilon => before,
        }
    }
}

/// The row of the bracket of reduction `j`; its label goes on the same row.
pub open spec fn bracket_row(j: int) -> int {
    2 + 2 * j
}

/// The grid after drawing the brackets of the first `k` reductions.
pub open spec fn draw_brackets(g: Seq<Seq<char>>, ex: ExampleModel, cols: Seq<int>, k: int) -> Seq<Seq<char>>
    decreases k,
{
    if k <= 0 {
        g
    } else {
        let before = draw_brackets(g, ex, cols, k - 1);
        let r = ex.reductions[k - 1];
        let row = bracket_row(k - 1);
        let sc = cols[r.start];
        let ec = cols[r.end] - 1;
        let left = vertical_line(before, 1, row + 1, sc);
        let right = vertical_line(left, 1, row + 1, ec - 1);
        horizontal_line(right, row, sc, ec)
    }
}

/// The grid after writing the labels of the first `k` reductions.
pub open spec fn draw_labels(g: Seq<Seq<char>>, ex: ExampleModel, cols: Seq<int>, k: int) -> Seq<Seq<char>>
    decreases k,
{
    if k <= 0 {
        g
    } else {
        let before = draw_labels(g, ex, cols, k - 1);
        let r = ex.reductions[k - 1];
        write_text(before, bracket_row(k - 1), cols[r.start] + 2, r.nonterminal)
    }
}

/// The finished picture, before trailing blanks are trimmed.
pub open spec fn picture(ex: ExampleModel) -> Seq<Seq<char>> {
    let cols = columns_of(ex);
    let n = ex.reductions.len() as int;
    let g0 = blank_grid(1 + 2 * n, cols[ex.symbols.len() as int]);
    draw_labels(draw_brackets(draw_symbols(g0, ex, cols, ex.symbols.len() as int), ex, cols, n), ex, cols, n)
}

/// The rendered rows of an example.
pub open spec fn rendering(ex: ExampleModel) -> Seq<Seq<char>> {
    picture(ex).map_values(|row: Seq<char>| trim_end(row))
}

proof fn lemma_columns(ex: ExampleModel)
    requires
        paintable(ex),
    ensures
        ({
            let c = columns_of(ex);
            let n = ex.symbols.len() as int;
            &&& c.len() == n + 1
            &&& c[0] >= 0
            &&& forall|i: int, j: int| 0 <= i < j <= n ==> #[trigger] c[j] >= #[trigger] c[i] + width_seq(ex)[i] + 1
            &&& c[n] <= usize::MAX
            &&& forall|j: int| 0 <= j < ex.reductions.len() ==> c[(#[trigger] ex.reductions[j]).end]
                - c[ex.reductions[j].start] >= ex.reductions[j].nonterminal.len() + 5
        }),
{
    let l = width_seq(ex);
    let reds = ex.reductions;
    let n = ex.symbols.len() as int;
    lemma_layout(l, reds, reds.len() as int);
    lemma_label_room_grows(reds, 0, reds.len() as int);
    assert(col_sum(l, n + 1) == col_sum(l, n) + l[n] + 1);
}

/// After layout, every reduction spans at least its label's length plus
/// four columns (two strokes and a blank each side) from its first column to
/// the column after it.
pub proof fn lemma_layout_sufficient(ex: ExampleModel)
    requires
        paintable(ex),
    ensures
        forall|j: int|
            0 <= j < ex.reductions.len() ==> columns_of(ex)[(#[trigger] ex.reductions[j]).end]
                - columns_of(ex)[ex.reductions[j].start] >= ex.reductions[j].nonterminal.len() + 4,
{
    lemma_columns(ex);
}

/// After layout, columns strictly increase with the slot index, and each
/// symbol's text ends before the next slot begins.
pub proof fn lemma_layout_increasing(ex: ExampleModel)
    requires
        paintable(ex),
    ensures
        forall|i: int, j: int|
            0 <= i < j <= ex.symbols.len() ==> #[trigger] columns_of(ex)[i] < #[trigger] columns_of(ex)[j],
        forall|i: int|
            0 <= i < ex.symbols.len() ==> #[trigger] columns_of(ex)[i] + widths(ex)[i] < columns_of(ex)[i + 1],
{
    lemma_columns(ex);
    let c = columns_of(ex);
    assert forall|i: int| 0 <= i < ex.symbols.len() implies #[trigger] c[i] + widths(ex)[i] < c[i + 1] by {
        assert(c[i + 1] >= c[i] + width_seq(ex)[i] + 1);
    }
}

/// The rendering depends on the example alone: the same example always
/// gives the same rows.
pub proof fn lemma_rendering_repeatable(a: ExampleModel, b: ExampleModel)
    requires
        a == b,
    ensures
        rendering(a) == rendering(b),
        columns_of(a) == columns_of(b),
{
}

impl Example {
    /// Draws the example: symbol texts on row 0 at their columns, then for
    /// each reduction in order a bracket two rows below the previous one,
    /// with its strokes reaching up to row 1 and its label two columns in.
    pub fn paint(&self) -> (r: Vec<String>)
        requires
            paintable(self@),
        ensures
            r@.len() == rendering(self@).len(),
            forall|i: int| 0 <= i < r@.len() ==> (#[trigger] r@[i])@ == rendering(self@)[i],
    {
        let ghost ex = self@;
        let lengths = self.lengths();
        proof {
            assert(lengths@ =~= width_seq(ex));
            lemma_columns(ex);
            lemma_label_room_lower(ex.reductions, ex.reductions.len() as int);
            crate::layout::lemma_col_sum_grows(width_seq(ex), 0, ex.symbols.len() + 1int);
        }
        let positions = self.positions(lengths.as_slice());
        let ghost cols = columns_of(ex);
        proof {
            assert(positions@.len() == cols.len());
        }
        let rows = 1 + self.reductions.len() * 2;
        let columns = positions[positions.len() - 1];
        let mut canvas = AsciiCanvas::new(rows, columns);
        let ghost g0 = canvas@;
        let mut i: usize = 0;
        while i < self.symbols.len()
            invariant
                ex == self@,
                paintable(ex),
                cols == columns_of(ex),
                i <= ex.symbols.len(),
                positions@.len() == ex.symbols.len() + 1,
                forall|j: int| 0 <= j < positions@.len() ==> #[trigger] positions@[j] as int == cols[j],
                forall|a: int, b: int| 0 <= a < b <= ex.symbols.len() ==> #[trigger] cols[b] >= #[trigger] cols[a] + width_seq(ex)[a] + 1,
                cols[ex.symbols.len() as int] <= usize::MAX,
                canvas@ == draw_symbols(g0, ex, cols, i as int),
                canvas@.len() == rows,
                rows >= 1,
            decreases ex.symbols.len() - i,
        {
            match &self.symbols[i] {
                ExampleSymbol::Symbol(s) => {
                    proof {
                        assert(ex.symbols[i as int] == SymbolModel::Symbol(s@));
                        assert(cols[i + 1] >= cols[i as int] + width_seq(ex)[i as int] + 1);
                    }
                    canvas.write(0, positions[i], s);
                },
                ExampleSymbol::Epsilon => {},
            }
            i = i + 1;
        }
        let ghost g1 = canvas@;
        let mut k: usize = 0;
        while k < self.reductions.len()
            invariant
                ex == self@,
                paintable(ex),
                cols == columns_of(ex),
                k <= ex.reductions.len(),
                rows == 1 + 2 * ex.reductions.len(),
                positions@.len() == ex.symbols.len() + 1,
                forall|j: int| 0 <= j < positions@.len() ==> #[trigger] positions@[j] as int == cols[j],
                forall|a: int, b: int| 0 <= a < b <= ex.symbols.len() ==> #[trigger] cols[b] >= #[trigger] cols[a] + width_seq(ex)[a] + 1,
                forall|j: int| 0 <= j < ex.reductions.len() ==> cols[(#[trigger] ex.reductions[j]).end]
                    - cols[ex.reductions[j].start] >= ex.reductions[j].nonterminal.len() + 5,
                cols[ex.symbols.len() as int] <= usize::MAX,
                canvas@ == draw_brackets(g1, ex, cols, k as int),
                canvas@.len() == rows,
            decreases ex.reductions.len() - k,
        {
            let reduction = &self.reductions[k];
            proof {
                assert(ex.reductions[k as int] == reduction@);
                assert(0 <= reduction.start < reduction.end <= ex.symbols.len());
                if reduction.end < ex.symbols.len() {
                    assert(cols[ex.symbols.len() as int] >= cols[reduction.end as int] + width_seq(ex)[reduction.end as int] + 1);
                }
            }
            let start_column = positions[reduction.start];
            let end_column = positions[reduction.end] - 1;
            let row = 2 + k * 2;
            canvas.draw_vertical_line(1, row + 1, start_column);
            canvas.draw_vertical_line(1, row + 1, end_column - 1);
            canvas.draw_horizontal_line(row, start_column, end_column);
            k = k + 1;
        }
        let ghost g2 = canvas@;
        let mut k: usize = 0;
        while k < self.reductions.len()
            invariant
                ex == self@,
                paintable(ex),
                cols == columns_of(ex),
                k <= ex.reductions.len(),
                rows == 1 + 2 * ex.reductions.len(),
                positions@.len() == ex.symbols.len() + 1,
                forall|j: int| 0 <= j < positions@.len() ==> #[trigger] positions@[j] as int == cols[j],
                forall|a: int, b: int| 0 <= a < b <= ex.symbols.len() ==> #[trigger] cols[b] >= #[trigger] cols[a] + width_seq(ex)[a] + 1,
                forall|j: int| 0 <= j < ex.reductions.len() ==> cols[(#[trigger] ex.reductions[j]).end]
                    - cols[ex.reductions[j].start] >= ex.reductions[j].nonterminal.len() + 5,
                cols[ex.symbols.len() as int] <= usize::MAX,
                canvas@ == draw_labels(g2, ex, cols, k as int),
                canvas@.len() == rows,
            decreases ex.reductions.len() - k,
        {
            let reduction = &self.reductions[k];
            proof {
                assert(ex.reductions[k as int] == reduction@);
                assert(0 <= reduction.start < reduction.end <= ex.symbols.len());
                if reduction.end < ex.symbols.len() {
                    assert(cols[ex.symbols.len() as int] >= cols[reduction.end as int] + width_seq(ex)[reduction.end as int] + 1);
                }
            }
            let column = positions[reduction.start] + 2;
            let row = 2 + k * 2;
            canvas.write(row, column, &reduction.nonterminal);
            k = k + 1;
        }
        let r = canvas.to_strings();
        proof {
            assert(canvas@ == picture(ex));
        }
        r
    }
}

} // verus!
