//! Column layout of an example: where each symbol starts so that every
//! reduction's bracket and label fit beneath it.
use vstd::prelude::*;
use vstd::string::*;
use vstd::arithmetic::div_mod::{lemma_fundamental_div_mod, lemma_mod_pos_bound};
use crate::example::{Example, ExampleModel, ExampleSymbol, ReductionModel, SymbolModel};

verus! {

/// Display width of a symbol; the empty placeholder takes one blank column.
pub open spec fn symbol_width(s: SymbolModel) -> int {
    match s {
        SymbolModel::Symbol(t) => t.len() as int,
        SymbolModel::Epsilon => 1,
    }
}

/// The widths of an example's symbols, followed by a `0` for the end marker.
pub open spec fn widths(ex: ExampleModel) -> Seq<int> {
    ex.symbols.map_values(|s: SymbolModel| symbol_width(s)).push(0)
}

/// Column of slot `i` when every slot is followed by one blank column.
pub open spec fn col_sum(l: Seq<usize>, i: int) -> int
    decreases i,
{
    if i <= 0 {
        0
    } else {
        col_sum(l, i - 1) + l[i - 1] + 1
    }
}

/// Columns before any reduction is accounted for.
pub open spec fn initial_columns(l: Seq<usize>) -> Seq<int> {
    Seq::new(l.len(), |i: int| col_sum(l, i))
}

/// Width a reduction's annotation needs: its label, two bracket strokes and
/// one column of padding on each side.
pub open spec fn required_width(r: ReductionModel) -> int {
    r.nonterminal.len() as int + 4
}

/// Extra columns that slot `i` moves by when a reduction over `s..e` is
/// widened by `d`: nothing up to `s`, all of `d` from `e` on, and in between
/// the share of the gaps to its left, remainder to the leftmost gaps first.
pub open spec fn increment(i: int, s: int, e: int, d: int) -> int {
    if i <= s {
        0
    } else if i >= e {
        d
    } else {
        let gaps = e - s - 1;
        let g = i - s;
        (d / gaps) * g + if g <= d % gaps { g } else { d % gaps }
    }
}

/// How much room reduction `r` is missing in the columns `c`.
pub open spec fn deficit(c: Seq<int>, l: Seq<usize>, r: ReductionModel) -> int {
    let actual = c[r.end - 1] + l[r.end - 1] - c[r.start];
    if actual >= required_width(r) {
        0
    } else {
        required_width(r) - actual
    }
}

/// The columns after making room for reduction `r`.
pub open spec fn adjust(c: Seq<int>, l: Seq<usize>, r: ReductionModel) -> Seq<int> {
    let d = deficit(c, l, r);
    Seq::new(c.len(), |i: int| c[i] + increment(i, r.start, r.end, d))
}

/// The columns after making room for the first `k` reductions, in order.
pub open spec fn layout(l: Seq<usize>, reds: Seq<ReductionModel>, k: int) -> Seq<int>
    decreases k,
{
    if k <= 0 {
        initial_columns(l)
    } else {
        adjust(layout(l, reds, k - 1), l, reds[k - 1])
    }
}

/// Total width that the label annotations of the first `k` reductions can add.
pub open spec fn label_room(reds: Seq<ReductionModel>, k: int) -> int
    decreases k,
{
    if k <= 0 {
        0
    } else {
        label_room(reds, k - 1) + required_width(reds[k - 1])
    }
}

/// Every reduction covers a non-empty run of the `n` symbols.
pub open spec fn spans_ok(reds: Seq<ReductionModel>, n: int) -> bool {
    forall|j: int| 0 <= j < reds.len() ==> 0 <= (#[trigger] reds[j]).start < reds[j].end <= n
}

/// Slot `j` starts after slot `i` and its text, with a blank between.
pub open spec fn spaced(c: Seq<int>, l: Seq<usize>) -> bool {
    &&& c.len() == l.len()
    &&& c.len() > 0 ==> c[0] >= 0
    &&& forall|i: int, j: int| 0 <= i < j < c.len() ==> #[trigger] c[j] >= #[trigger] c[i] + l[i] + 1
}

pub(crate) proof fn lemma_col_sum_grows(l: Seq<usize>, i: int, j: int)
    requires
        0 <= i < j <= l.len(),
    ensures
        col_sum(l, j) >= col_sum(l, i) + l[i] + 1,
        col_sum(l, i) >= 0,
    decreases j,
{
    if j > i + 1 {
        lemma_col_sum_grows(l, i, j - 1);
    } else if i > 0 {
        lemma_col_sum_grows(l, i - 1, i);
    }
}

proof fn lemma_initial_spaced(l: Seq<usize>)
    ensures
        spaced(initial_columns(l), l),
{
    let c = initial_columns(l);
    assert forall|i: int, j: int| 0 <= i < j < c.len() implies #[trigger] c[j] >= #[trigger] c[i] + l[i] + 1 by {
        lemma_col_sum_grows(l, i, j);
    }
}

/// The increments never decrease along the row and never exceed `d`.
proof fn lemma_increment_monotone(i: int, j: int, s: int, e: int, d: int)
    requires
        0 <= s < e,
        d >= 0,
        i <= j,
    ensures
        0 <= increment(i, s, e, d) <= increment(j, s, e, d) <= d,
{
    if e - s > 1 {
        let gaps = e - s - 1;
        let q = d / gaps;
        let rm = d % gaps;
        lemma_fundamental_div_mod(d, gaps);
        lemma_mod_pos_bound(d, gaps);
        assert(q >= 0) by (nonlinear_arith)
            requires
                d >= 0,
                gaps > 0,
                d == gaps * q + rm,
                rm < gaps,
        ;
        if s < i < e {
            let gi = i - s;
            assert(q * gi <= q * gaps) by (nonlinear_arith)
                requires
                    q >= 0,
                    gi <= gaps,
            ;
            assert(q * gi >= 0) by (nonlinear_arith)
                requires
                    q >= 0,
                    gi >= 0,
            ;
        }
        if s < j < e {
            let gj = j - s;
            assert(q * gj <= q * gaps) by (nonlinear_arith)
                requires
                    q >= 0,
                    gj <= gaps,
            ;
            assert(q * gj >= 0) by (nonlinear_arith)
                requires
                    q >= 0,
                    gj >= 0,
            ;
            if s < i {
                let gi = i - s;
                assert(q * gi <= q * gj) by (nonlinear_arith)
                    requires
                        q >= 0,
                        gi <= gj,
                ;
            }
        }
    }
}

/// Making room for one reduction keeps the columns spaced, moves the end
/// marker by the deficit, never narrows a span, and leaves the reduction
/// itself wide enough.
proof fn lemma_adjust(c: Seq<int>, l: Seq<usize>, r: ReductionModel)
    requires
        spaced(c, l),
        0 <= r.start < r.end < l.len(),
    ensures
        ({
            let a = adjust(c, l, r);
            let d = deficit(c, l, r);
            &&& spaced(a, l)
            &&& 0 <= d <= required_width(r)
            &&& a[l.len() - 1] == c[l.len() - 1] + d
            &&& forall|i: int, j: int| 0 <= i <= j < c.len() ==> a[j] - a[i] >= #[trigger] c[j] - #[trigger] c[i]
            &&& a[r.end] - a[r.start] >= required_width(r) + 1
        }),
{
    let a = adjust(c, l, r);
    let d = deficit(c, l, r);
    assert(c[r.end] >= c[r.end - 1] + l[r.end - 1] + 1);
    if r.end - 1 > r.start {
        assert(c[r.end - 1] >= c[r.start] + l[r.start] + 1);
    }
    assert forall|i: int, j: int| 0 <= i <= j < c.len() implies a[j] - a[i] >= #[trigger] c[j] - #[trigger] c[i] by {
        lemma_increment_monotone(i, j, r.start, r.end, d);
    }
    assert forall|i: int, j: int| 0 <= i < j < a.len() implies #[trigger] a[j] >= #[trigger] a[i] + l[i] + 1 by {
        lemma_increment_monotone(i, j, r.start, r.end, d);
    }
    lemma_increment_monotone(0, 0, r.start, r.end, d);
    lemma_increment_monotone(r.start, r.end, r.start, r.end, d);
}

/// After the first `k` reductions: the columns are spaced, bounded by the
/// room the labels may add, and each of those reductions has its room.
pub proof fn lemma_layout(l: Seq<usize>, reds: Seq<ReductionModel>, k: int)
    requires
        l.len() >= 1,
        spans_ok(reds, l.len() - 1),
        0 <= k <= reds.len(),
    ensures
        ({
            let c = layout(l, reds, k);
            &&& spaced(c, l)
            &&& c[l.len() - 1] <= col_sum(l, l.len() - 1) + label_room(reds, k)
            &&& forall|j: int| 0 <= j < k ==> c[(#[trigger] reds[j]).end] - c[reds[j].start] >= required_width(reds[j]) + 1
        }),
    decreases k,
{
    if k == 0 {
        lemma_initial_spaced(l);
    } else {
        lemma_layout(l, reds, k - 1);
        let c = layout(l, reds, k - 1);
        let r = reds[k - 1];
        lemma_adjust(c, l, r);
        let a = layout(l, reds, k);
        assert forall|j: int| 0 <= j < k implies a[(#[trigger] reds[j]).end] - a[reds[j].start] >= required_width(reds[j]) + 1 by {
            if j < k - 1 {
                assert(a[reds[j].end] - a[reds[j].start] >= c[reds[j].end] - c[reds[j].start]);
            }
        }
    }
}

pub(crate) proof fn lemma_label_room_grows(reds: Seq<ReductionModel>, i: int, j: int)
    requires
        0 <= i <= j <= reds.len(),
    ensures
        label_room(reds, i) <= label_room(reds, j),
        label_room(reds, i) >= 0,
    decreases j,
{
    if j > i {
        lemma_label_room_grows(reds, i, j - 1);
    } else if i > 0 {
        lemma_label_room_grows(reds, i - 1, i - 1);
    }
}

/// Each label needs at least four columns, so the room grows by four a reduction.
pub(crate) proof fn lemma_label_room_lower(reds: Seq<ReductionModel>, k: int)
    requires
        0 <= k <= reds.len(),
    ensures
        label_room(reds, k) >= 4 * k,
    decreases k,
{
    if k > 0 {
        lemma_label_room_lower(reds, k - 1);
    }
}

/// Adds `amount` to the columns `from..to`.
fn shift(positions: &mut Vec<usize>, from: usize, to: usize, amount: usize)
    requires
        from <= to <= old(positions)@.len(),
        forall|i: int| from <= i < to ==> old(positions)@[i] + amount <= usize::MAX,
    ensures
        final(positions)@.len() == old(positions)@.len(),
        forall|i: int|
            0 <= i < old(positions)@.len() ==> #[trigger] final(positions)@[i] == if from <= i < to {
                old(positions)@[i] + amount
            } else {
                old(positions)@[i] as int
            },
{
    let mut i: usize = from;
    while i < to
        invariant
            from <= i <= to <= positions@.len(),
            positions@.len() == old(positions)@.len(),
            forall|j: int| from <= j < to ==> old(positions)@[j] + amount <= usize::MAX,
            forall|j: int|
                0 <= j < positions@.len() ==> #[trigger] positions@[j] == if from <= j < i {
                    old(positions)@[j] + amount
                } else {
                    old(positions)@[j] as int
                },
        decreases to - i,
    {
        let v = positions[i] + amount;
        positions.set(i, v);
        i = i + 1;
    }
}

impl Example {
    /// The display width of each symbol, then a `0` that stands for the end.
    pub fn lengths(&self) -> (r: Vec<usize>)
        ensures
            r@.len() == self@.symbols.len() + 1,
            forall|i: int| 0 <= i < r@.len() ==> #[trigger] r@[i] as int == widths(self@)[i],
    {
        let mut r: Vec<usize> = Vec::new();
        let mut i: usize = 0;
        while i < self.symbols.len()
            invariant
                i <= self.symbols@.len(),
                r@.len() == i,
                forall|j: int| 0 <= j < i ==> #[trigger] r@[j] as int == widths(self@)[j],
            decreases self.symbols@.len() - i,
        {
            let w: usize = match &self.symbols[i] {
                ExampleSymbol::Symbol(s) => s.as_str().unicode_len(),
                ExampleSymbol::Epsilon => 1,
            };
            r.push(w);
            i = i + 1;
        }
        r.push(0);
        r
    }

    /// The starting column of each slot (the symbols, then the end marker):
    /// one blank between slots, widened so that every reduction's bracket and
    /// label fit, reductions taken in order.
    pub fn positions(&self, lengths: &[usize]) -> (r: Vec<usize>)
        requires
            lengths@.len() == self@.symbols.len() + 1,
            spans_ok(self@.reductions, self@.symbols.len() as int),
            col_sum(lengths@, lengths@.len() as int) + label_room(self@.reductions, self@.reductions.len() as int)
                <= usize::MAX,
        ensures
            r@.len() == lengths@.len(),
            forall|i: int|
                0 <= i < r@.len() ==> #[trigger] r@[i] as int == layout(
                    lengths@,
                    self@.reductions,
                    self@.reductions.len() as int,
                )[i],
    {
        let ghost l = lengths@;
        let ghost reds = self@.reductions;
        let ghost n = l.len() - 1;
        proof {
            lemma_label_room_grows(reds, 0, reds.len() as int);
        }
        let mut positions: Vec<usize> = Vec::new();
        let mut counter: usize = 0;
        let mut i: usize = 0;
        while i < lengths.len()
            invariant
                l == lengths@,
                i <= l.len(),
                positions@.len() == i,
                counter == col_sum(l, i as int),
                col_sum(l, l.len() as int) <= usize::MAX,
                forall|j: int| 0 <= j < i ==> #[trigger] positions@[j] as int == col_sum(l, j),
            decreases l.len() - i,
        {
            positions.push(counter);
            if i + 1 < lengths.len() {
                proof {
                    lemma_col_sum_grows(l, (i + 1) as int, l.len() as int);
                }
            }
            counter = counter + lengths[i] + 1;
            i = i + 1;
        }
        proof {
            assert(positions@.len() == l.len());
            assert forall|j: int| 0 <= j < positions@.len() implies #[trigger] positions@[j] as int == layout(l, reds, 0)[j] by {}
        }
        let mut k: usize = 0;
        while k < self.reductions.len()
            invariant
                l == lengths@,
                reds == self@.reductions,
                l.len() == self@.symbols.len() + 1,
                n == l.len() - 1,
                spans_ok(reds, n),
                col_sum(l, l.len() as int) + label_room(reds, reds.len() as int) <= usize::MAX,
                k <= reds.len(),
                positions@.len() == l.len(),
                forall|j: int| 0 <= j < positions@.len() ==> #[trigger] positions@[j] as int == layout(l, reds, k as int)[j],
            decreases reds.len() - k,
        {
            let ghost c = layout(l, reds, k as int);
            let ghost a = layout(l, reds, k + 1);
            let ghost r = reds[k as int];
            let red = &self.reductions[k];
            let start = red.start;
            let end = red.end;
            proof {
                assert(r == red@);
                assert(0 <= r.start < r.end <= n);
                lemma_layout(l, reds, k as int);
                lemma_layout(l, reds, (k + 1) as int);
                lemma_label_room_grows(reds, (k + 1) as int, reds.len() as int);
                lemma_col_sum_grows(l, n, l.len() as int);
                lemma_adjust(c, l, r);
                assert(a == adjust(c, l, r));
                assert forall|j: int| 0 <= j < a.len() implies #[trigger] a[j] <= usize::MAX by {
                    if j < n {
                        assert(a[n] >= a[j] + l[j] + 1);
                    }
                }
                if end - 1 > start {
                    assert(c[end - 1] >= c[start as int] + l[start as int] + 1);
                }
                assert(c[end as int] >= c[end - 1] + l[end - 1] + 1);
            }
            let nt_len = red.nonterminal.as_str().unicode_len();
            let num_syms = end - start;
            let start_position = positions[start];
            let end_position = positions[end - 1] + lengths[end - 1];
            let required_len = nt_len + 4;
            let actual_len = end_position - start_position;
            let ghost d = deficit(c, l, r);
            if actual_len < required_len {
                let difference = required_len - actual_len;
                let len = positions.len();
                shift(&mut positions, end, len, difference);
                if num_syms > 1 {
                    let num_gaps = num_syms - 1;
                    let amount = difference / num_gaps;
                    let extra = difference % num_gaps;
                    let mut acc: usize = 0;
                    let mut g: usize = 1;
                    while g < num_syms
                        invariant
                            1 <= g <= num_syms,
                            num_syms == end - start,
                            num_gaps == num_syms - 1,
                            0 <= start < end <= n,
                            amount == d / (num_gaps as int),
                            extra == d % (num_gaps as int),
                            d == difference,
                            d == deficit(c, l, r),
                            d >= 0,
                            acc as int == increment(start + g - 1, start as int, end as int, d),
                            positions@.len() == a.len(),
                            a.len() == l.len(),
                            n == l.len() - 1,
                            a == adjust(c, l, r),
                            r.start == start && r.end == end,
                            forall|j: int| 0 <= j < a.len() ==> #[trigger] a[j] <= usize::MAX,
                            forall|j: int|
                                0 <= j < positions@.len() ==> #[trigger] positions@[j] as int == if start + g <= j < end {
                                    c[j]
                                } else {
                                    a[j]
                                },
                        decreases num_syms - g,
                    {
                        proof {
                            lemma_increment_monotone(start + g - 1, start + g - 1, start as int, end as int, d);
                            lemma_increment_monotone(start + g as int, start + g as int, start as int, end as int, d);
                            assert(amount * g == amount * (g - 1) + amount) by (nonlinear_arith);
                        }
                        let step: usize = if g <= extra { 1 } else { 0 };
                        proof {
                            let gaps = num_gaps as int;
                            let gi = g as int;
                            assert(increment(start + gi, start as int, end as int, d) == amount * gi + if gi <= extra {
                                gi
                            } else {
                                extra as int
                            });
                            if gi > 1 {
                                assert(increment(start + gi - 1, start as int, end as int, d) == amount * (gi - 1)
                                    + if gi - 1 <= extra {
                                    gi - 1
                                } else {
                                    extra as int
                                });
                            } else {
                                assert(amount * gi == amount) by (nonlinear_arith)
                                    requires
                                        gi == 1,
                                ;
                            }
                        }
                        acc = acc + amount + step;
                        let idx = start + g;
                        proof {
                            assert(positions@[idx as int] as int == c[idx as int]);
                            assert(a[idx as int] <= usize::MAX);
                        }
                        let v = positions[idx] + acc;
                        positions.set(idx, v);
                        g = g + 1;
                    }
                }
            } else {
                proof {
                    assert forall|j: int| 0 <= j < positions@.len() implies #[trigger] positions@[j] as int == a[j] by {
                        lemma_increment_monotone(j, j, start as int, end as int, 0);
                    }
                }
            }
            k = k + 1;
        }
        positions
    }
}

} // verus!
