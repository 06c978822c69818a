//! A grid of characters that brackets and text are drawn onto, growing to
//! the right on demand, with strokes that merge where they cross.
use vstd::prelude::*;
use vstd::string::*;

verus! {

/// The character at row `r`, column `c`; blank past the end of the row.
pub open spec fn cell(g: Seq<Seq<char>>, r: int, c: int) -> char {
    if 0 <= c < g[r].len() {
        g[r][c]
    } else {
        ' '
    }
}

/// `row`, padded with blanks to at least `w` characters.
pub open spec fn widen(row: Seq<char>, w: int) -> Seq<char> {
    if row.len() >= w {
        row
    } else {
        row + Seq::new((w - row.len()) as nat, |i: int| ' ')
    }
}

/// The grid with `ch` at row `r`, column `c`.
pub open spec fn put(g: Seq<Seq<char>>, r: int, c: int, ch: char) -> Seq<Seq<char>> {
    g.update(r, widen(g[r], c + 1).update(c, ch))
}

/// A vertical stroke turns a horizontal one into a junction.
pub open spec fn vertical_over(old: char) -> char {
    if old == '-' || old == '+' {
        '+'
    } else {
        '|'
    }
}

/// A horizontal stroke turns a vertical one into a junction.
pub open spec fn horizontal_over(old: char) -> char {
    if old == '|' || old == '+' {
        '+'
    } else {
        '-'
    }
}

/// The grid with `text` written on row `r` from column `c` on.
pub open spec fn write_text(g: Seq<Seq<char>>, r: int, c: int, text: Seq<char>) -> Seq<Seq<char>>
    decreases text.len(),
{
    if text.len() == 0 {
        g
    } else {
        let before = write_text(g, r, c, text.drop_last());
        put(before, r, c + text.len() - 1, text.last())
    }
}

/// The grid with a vertical stroke in column `c` over rows `from..to`.
pub open spec fn vertical_line(g: Seq<Seq<char>>, from: int, to: int, c: int) -> Seq<Seq<char>>
    decreases to - from,
{
    if to <= from {
        g
    } else {
        let before = vertical_line(g, from, to - 1, c);
        put(before, to - 1, c, vertical_over(cell(before, to - 1, c)))
    }
}

/// The grid with a horizontal stroke on row `r` over columns `from..to`.
pub open spec fn horizontal_line(g: Seq<Seq<char>>, r: int, from: int, to: int) -> Seq<Seq<char>>
    decreases to - from,
{
    if to <= from {
        g
    } else {
        let before = horizontal_line(g, r, from, to - 1);
        put(before, r, to - 1, horizontal_over(cell(before, r, to - 1)))
    }
}

/// `rows` rows of `columns` blanks.
pub open spec fn blank_grid(rows: int, columns: int) -> Seq<Seq<char>> {
    Seq::new(rows as nat, |r: int| Seq::new(columns as nat, |c: int| ' '))
}

/// `row` without its trailing blanks.
pub open spec fn trim_end(row: Seq<char>) -> Seq<char>
    decreases row.len(),
{
    if row.len() > 0 && row.last() == ' ' {
        trim_end(row.drop_last())
    } else {
        row
    }
}

/// Relies on `String::push`: appends one character to the string.
#[verifier::external_body]
fn push_char(s: &mut String, c: char)
    ensures
        final(s)@ == old(s)@.push(c),
{
    s.push(c)
}

pub struct AsciiCanvas {
    rows: Vec<Vec<char>>,
}

impl View for AsciiCanvas {
    type V = Seq<Seq<char>>;

    closed spec fn view(&self) -> Seq<Seq<char>> {
        self.rows@.map_values(|row: Vec<char>| row@)
    }
}

impl AsciiCanvas {
    /// A canvas of `rows` rows, each `columns` blanks wide.
    pub fn new(rows: usize, columns: usize) -> (r: AsciiCanvas)
        ensures
            r@ == blank_grid(rows as int, columns as int),
    {
        let mut grid: Vec<Vec<char>> = Vec::new();
        let mut i: usize = 0;
        while i < rows
            invariant
                i <= rows,
                grid@.len() == i,
                forall|k: int| 0 <= k < i ==> #[trigger] grid@[k]@ == Seq::new(columns as nat, |c: int| ' '),
            decreases rows - i,
        {
            let mut row: Vec<char> = Vec::new();
            let mut j: usize = 0;
            while j < columns
                invariant
                    j <= columns,
                    row@ == Seq::new(j as nat, |c: int| ' '),
                decreases columns - j,
            {
                row.push(' ');
                j = j + 1;
                proof {
                    assert(row@ =~= Seq::new(j as nat, |c: int| ' '));
                }
            }
            grid.push(row);
            i = i + 1;
        }
        let r = AsciiCanvas { rows: grid };
        proof {
            assert(r@ =~= blank_grid(rows as int, columns as int));
        }
        r
    }

    /// The character at row `r`, column `c`.
    pub fn get(&self, r: usize, c: usize) -> (ch: char)
        requires
            r < self@.len(),
        ensures
            ch == cell(self@, r as int, c as int),
    {
        if c < self.rows[r].len() {
            self.rows[r][c]
        } else {
            ' '
        }
    }

    /// Puts `ch` at row `r`, column `c`, widening the row if needed.
    pub fn set(&mut self, r: usize, c: usize, ch: char)
        requires
            r < old(self)@.len(),
            c < usize::MAX,
        ensures
            final(self)@ == put(old(self)@, r as int, c as int, ch),
            final(self)@.len() == old(self)@.len(),
    {
        let ghost g = self@;
        let mut row: Vec<char> = Vec::new();
        std::mem::swap(&mut self.rows[r], &mut row);
        let ghost orig = row@;
        proof {
            assert(orig == g[r as int]);
        }
        while row.len() <= c
            invariant
                row@ == widen(orig, row@.len() as int),
                row@.len() >= orig.len(),
                row@.len() == orig.len() || row@.len() <= c + 1,
                c < usize::MAX,
            decreases c + 1 - row@.len(),
        {
            row.push(' ');
            proof {
                assert(row@ =~= widen(orig, row@.len() as int));
            }
        }
        proof {
            assert(widen(orig, row@.len() as int) =~= widen(orig, c + 1));
        }
        row.set(c, ch);
        self.rows.set(r, row);
        proof {
            assert(self@ =~= put(g, r as int, c as int, ch));
        }
    }

    /// Writes `text` on row `r` from column `c` on.
    pub fn write(&mut self, r: usize, c: usize, text: &String)
        requires
            r < old(self)@.len(),
            c + text@.len() < usize::MAX,
        ensures
            final(self)@ == write_text(old(self)@, r as int, c as int, text@),
            final(self)@.len() == old(self)@.len(),
    {
        let ghost g = self@;
        let n = text.as_str().unicode_len();
        let mut i: usize = 0;
        proof {
            assert(text@.take(0) =~= Seq::<char>::empty());
        }
        while i < n
            invariant
                n == text@.len(),
                i <= n,
                c + n < usize::MAX,
                r < g.len(),
                self@ == write_text(g, r as int, c as int, text@.take(i as int)),
                self@.len() == g.len(),
            decreases n - i,
        {
            let ch = text.as_str().get_char(i);
            self.set(r, c + i, ch);
            proof {
                let t = text@.take(i + 1);
                assert(t.drop_last() =~= text@.take(i as int));
            }
            i = i + 1;
        }
        proof {
            assert(text@.take(n as int) =~= text@);
        }
    }

    /// Draws a vertical stroke in column `c` over rows `from..to`.
    pub fn draw_vertical_line(&mut self, from: usize, to: usize, c: usize)
        requires
            to <= old(self)@.len(),
            c < usize::MAX,
        ensures
            final(self)@ == vertical_line(old(self)@, from as int, to as int, c as int),
            final(self)@.len() == old(self)@.len(),
    {
        let ghost g = self@;
        let mut row: usize = from;
        while row < to
            invariant
                from <= row,
                row == from || row <= to,
                to <= g.len(),
                c < usize::MAX,
                self@ == vertical_line(g, from as int, row as int, c as int),
                self@.len() == g.len(),
            decreases to - row,
        {
            let old_char = self.get(row, c);
            let ch = if old_char == '-' || old_char == '+' { '+' } else { '|' };
            self.set(row, c, ch);
            row = row + 1;
        }
    }

    /// Draws a horizontal stroke on row `r` over columns `from..to`.
    pub fn draw_horizontal_line(&mut self, r: usize, from: usize, to: usize)
        requires
            r < old(self)@.len(),
            to < usize::MAX,
        ensures
            final(self)@ == horizontal_line(old(self)@, r as int, from as int, to as int),
            final(self)@.len() == old(self)@.len(),
    {
        let ghost g = self@;
        let mut c: usize = from;
        while c < to
            invariant
                from <= c,
                c == from || c <= to,
                r < g.len(),
                to < usize::MAX,
                self@ == horizontal_line(g, r as int, from as int, c as int),
                self@.len() == g.len(),
            decreases to - c,
        {
            let old_char = self.get(r, c);
            let ch = if old_char == '|' || old_char == '+' { '+' } else { '-' };
            self.set(r, c, ch);
            c = c + 1;
        }
    }

    /// The rows as text, trailing blanks removed.
    pub fn to_strings(&self) -> (r: Vec<String>)
        ensures
            r@.len() == self@.len(),
            forall|i: int| 0 <= i < r@.len() ==> (#[trigger] r@[i])@ == trim_end(self@[i]),
    {
        let mut out: Vec<String> = Vec::new();
        let mut i: usize = 0;
        while i < self.rows.len()
            invariant
                i <= self@.len(),
                self@.len() == self.rows@.len(),
                out@.len() == i,
                forall|j: int| 0 <= j < i ==> (#[trigger] out@[j])@ == trim_end(self@[j]),
            decreases self@.len() - i,
        {
            let row = &self.rows[i];
            proof {
                assert(row@ == self@[i as int]);
            }
            let mut k: usize = row.len();
            proof {
                assert(row@.take(k as int) =~= row@);
            }
            while k > 0 && row[k - 1] == ' '
                invariant
                    k <= row@.len(),
                    trim_end(row@) == trim_end(row@.take(k as int)),
                decreases k,
            {
                proof {
                    assert(row@.take(k as int).drop_last() =~= row@.take(k - 1));
                }
                k = k - 1;
            }
            let mut text = String::new();
            let mut j: usize = 0;
            while j < k
                invariant
                    j <= k <= row@.len(),
                    text@ == row@.take(j as int),
                decreases k - j,
            {
                push_char(&mut text, row[j]);
                j = j + 1;
                proof {
                    assert(text@ =~= row@.take(j as int));
                }
            }
            proof {
                assert(text@ =~= row@.take(k as int));
            }
            out.push(text);
            i = i + 1;
        }
        out
    }
}

} // verus!
