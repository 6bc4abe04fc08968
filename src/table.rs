//! A bordered text table of right-aligned columns, led by a row index.

use vstd::prelude::*;
use crate::column::{widest, Column};
use crate::format::{digits, push_digits};
use crate::parser::views;
use crate::text::{push_text, text_of};

verus! {

/// `n` spaces.
pub open spec fn spaces(n: nat) -> Seq<char> {
    Seq::new(n, |i: int| ' ')
}

/// A line of `n` dashes.
pub open spec fn divider(n: nat) -> Seq<char> {
    Seq::new(n, |i: int| '-').push('\n')
}

/// `s` right-aligned in `w` characters.
pub open spec fn pad_left(s: Seq<char>, w: nat) -> Seq<char> {
    if s.len() < w {
        spaces((w - s.len()) as nat) + s
    } else {
        s
    }
}

/// The text of a column in a line: the header for `row < 0`, else a row.
pub open spec fn cell(c: Column, row: int) -> Seq<char> {
    if row < 0 {
        c.header()
    } else {
        c.rows()[row]
    }
}

/// Each column's cell, right-aligned, with the divider between neighbours.
pub open spec fn cells(cols: Seq<Column>, row: int) -> Seq<char>
    decreases cols.len(),
{
    if cols.len() == 0 {
        Seq::empty()
    } else if cols.len() == 1 {
        pad_left(cell(cols.last(), row), cols.last().spec_width())
    } else {
        cells(cols.drop_last(), row) + " | "@ + pad_left(cell(cols.last(), row), cols.last().spec_width())
    }
}

/// The header line (`row < 0`) or a row's line.
pub open spec fn line(cols: Seq<Column>, row: int) -> Seq<char> {
    "| "@ + cells(cols, row) + " |"@ + seq!['\n']
}

/// The lines of the first `n` rows.
pub open spec fn body(cols: Seq<Column>, n: nat) -> Seq<char>
    decreases n,
{
    if n == 0 {
        Seq::empty()
    } else {
        body(cols, (n - 1) as nat) + line(cols, n - 1)
    }
}

/// Sum of the column widths.
pub open spec fn widths_sum(cols: Seq<Column>) -> int
    decreases cols.len(),
{
    if cols.len() == 0 {
        0
    } else {
        widths_sum(cols.drop_last()) + cols.last().spec_width()
    }
}

/// All columns have `n` rows.
pub open spec fn rows_match(cols: Seq<Column>, n: int) -> bool {
    forall|i: int| 0 <= i < cols.len() ==> (#[trigger] cols[i]).rows().len() == n
}

/// The whole table: a divider, the header, a divider, the rows, a divider.
pub open spec fn table_text(cols: Seq<Column>, width: nat) -> Seq<char> {
    divider(width) + line(cols, -1) + divider(width) + body(cols, cols[0].rows().len()) + divider(
        width,
    )
}

/// Index rows `1..=n` as text.
pub open spec fn index_rows(n: nat) -> Seq<Seq<char>> {
    Seq::new(n, |i: int| digits((i + 1) as nat))
}

proof fn lemma_digits_len(n: nat, k: nat)
    requires
        k >= 1,
        n < crate::decimal::pow10(k),
    ensures
        digits(n).len() <= k,
    decreases n,
{
    if n >= 10 {
        assert(n / 10 < crate::decimal::pow10((k - 1) as nat));
        lemma_digits_len(n / 10, (k - 1) as nat);
    }
}

proof fn lemma_widest_bound(w: nat, data: Seq<Seq<char>>, b: nat)
    requires
        w <= b,
        forall|j: int| 0 <= j < data.len() ==> (#[trigger] data[j]).len() <= b,
    ensures
        crate::column::widest(w, data) <= b,
    decreases data.len(),
{
    if data.len() > 0 {
        let d = data.drop_last();
        assert forall|j: int| 0 <= j < d.len() implies (#[trigger] d[j]).len() <= b by {
            assert(d[j] == data[j]);
        }
        lemma_widest_bound(w, d, b);
    }
}

proof fn lemma_widths_sum_prefix(cols: Seq<Column>, j: int)
    requires
        0 <= j <= cols.len(),
    ensures
        widths_sum(cols.take(j)) <= widths_sum(cols),
    decreases cols.len(),
{
    if j == cols.len() {
        assert(cols.take(j) =~= cols);
    } else {
        let dl = cols.drop_last();
        lemma_widths_sum_prefix(dl, j);
        assert(dl.take(j) =~= cols.take(j));
    }
}

proof fn lemma_widths_sum_first(cols: Seq<Column>)
    requires
        cols.len() >= 1,
    ensures
        widths_sum(cols) == cols[0].spec_width() + widths_sum(cols.skip(1)),
    decreases cols.len(),
{
    if cols.len() == 1 {
        assert(cols.drop_last() =~= Seq::<Column>::empty());
        assert(cols.skip(1) =~= Seq::<Column>::empty());
    } else {
        let dl = cols.drop_last();
        lemma_widths_sum_first(dl);
        assert(cols.skip(1).drop_last() =~= dl.skip(1));
        assert(dl[0] == cols[0]);
    }
}

proof fn lemma_cells_len(cols: Seq<Column>, row: int)
    requires
        cols.len() >= 1,
        forall|i: int| 0 <= i < cols.len() ==> (#[trigger] cell(cols[i], row)).len()
            <= cols[i].spec_width(),
    ensures
        cells(cols, row).len() == widths_sum(cols) + 3 * (cols.len() - 1),
    decreases cols.len(),
{
    assert(" | "@.len() == 3) by {
        reveal_strlit(" | ");
    }
    let last = cols.last();
    assert(cell(cols[cols.len() - 1], row).len() <= last.spec_width());
    let c = cell(last, row);
    if c.len() < last.spec_width() {
        assert(spaces((last.spec_width() - c.len()) as nat).len() == last.spec_width() - c.len());
    }
    assert(pad_left(c, last.spec_width()).len() == last.spec_width());
    assert(widths_sum(cols) == widths_sum(cols.drop_last()) + last.spec_width());
    if cols.len() == 1 {
        assert(cols.drop_last() =~= Seq::<Column>::empty());
        assert(widths_sum(cols.drop_last()) == 0);
    } else {
        let d = cols.drop_last();
        assert forall|i: int| 0 <= i < d.len() implies (#[trigger] cell(d[i], row)).len()
            <= d[i].spec_width() by {
            assert(d[i] == cols[i]);
        }
        lemma_cells_len(d, row);
    }
}

/// Columns under a leading index column, with the overall line width.
pub struct Table {
    columns: Vec<Column>,
    width: usize,
}

impl Table {
    /// The columns, the index column first.
    pub closed spec fn spec_columns(&self) -> Seq<Column> {
        self.columns@
    }

    /// The width of a divider line.
    pub closed spec fn spec_width(&self) -> nat {
        self.width as nat
    }

    /// At least one column, and all of one row count.
    pub closed spec fn wf(&self) -> bool {
        &&& self.columns@.len() >= 1
        &&& rows_match(self.columns@, self.columns@[0].rows().len() as int)
        &&& forall|i: int| 0 <= i < self.columns@.len() ==> (#[trigger] self.columns@[i]).wf()
        &&& self.width == widths_sum(self.columns@) + 4 + 3 * (self.columns@.len() - 1)
    }

    /// Every line is as wide as the table: the dividers, the header line and
    /// each row line have `spec_width` characters before the line break.
    pub proof fn lemma_line_width(&self, row: int)
        requires
            self.wf(),
            -1 <= row < self.spec_columns()[0].rows().len(),
        ensures
            divider(self.spec_width()).len() == self.spec_width() + 1,
            line(self.spec_columns(), row).len() == self.spec_width() + 1,
    {
        let cols = self.columns@;
        assert forall|i: int| 0 <= i < cols.len() implies (#[trigger] cell(cols[i], row)).len()
            <= cols[i].spec_width() by {
            cols[i].lemma_fits();
            assert(cols[i].rows().len() == cols[0].rows().len());
        }
        lemma_cells_len(cols, row);
        assert(" | "@.len() == 3) by {
            reveal_strlit(" | ");
        }
        assert("| "@.len() == 2) by {
            reveal_strlit("| ");
        }
        assert(" |"@.len() == 2) by {
            reveal_strlit(" |");
        }
    }

    /// Prepends a `#` column of row numbers from 1 to the given columns,
    /// which must be at least one and of one row count. The width is the sum
    /// of column widths, two end borders of 2 and a divider of 3 between
    /// neighbouring columns.
    pub fn new(columns: Vec<Column>) -> (r: Table)
        requires
            columns@.len() >= 1,
            rows_match(columns@, columns@[0].rows().len() as int),
            forall|i: int| 0 <= i < columns@.len() ==> (#[trigger] columns@[i]).wf(),
            columns@[0].rows().len() < u64::MAX,
            widths_sum(columns@) + 3 * columns@.len() + 64 <= usize::MAX,
        ensures
            r.spec_columns().len() == columns@.len() + 1,
            r.spec_columns().skip(1) == columns@,
            r.spec_columns()[0].header() == "#"@,
            r.spec_columns()[0].rows() == index_rows(columns@[0].rows().len()),
            r.spec_columns()[0].spec_width() == widest(1, index_rows(columns@[0].rows().len())),
            rows_match(r.spec_columns(), columns@[0].rows().len() as int),
            r.wf(),
            r.spec_width() == widths_sum(r.spec_columns()) + 4 + 3 * columns@.len(),
    {
        let count = columns[0].data().len();
        let mut index: Vec<String> = Vec::new();
        let mut i: usize = 0;
        while i < count
            invariant
                i <= count,
                count < u64::MAX,
                index@.len() == i,
                views(index@) == index_rows(i as nat),
            decreases count - i,
        {
            let mut v: Vec<char> = Vec::new();
            push_digits(&mut v, (i + 1) as u64);
            assert(v@ =~= digits((i + 1) as nat));
            let t = text_of(&v);
            let ghost before = index@;
            index.push(t);
            assert(index@ == before.push(t));
            assert forall|k: int| 0 <= k < i + 1 implies #[trigger] views(index@)[k] == index_rows(
                (i + 1) as nat,
            )[k] by {
                assert(views(index@)[k] == index@[k]@);
                if k < i {
                    assert(index@[k] == before[k]);
                    assert(views(before)[k] == before[k]@);
                    assert(views(before)[k] == index_rows(i as nat)[k]);
                } else {
                    assert(index@[k] == t);
                }
            }
            assert(views(index@) =~= index_rows((i + 1) as nat));
            i = i + 1;
        }
        let index_col = Column::from_strings("#", index);
        proof {
            assert(crate::decimal::pow10(20) == 100000000000000000000) by {
                reveal_with_fuel(crate::decimal::pow10, 21);
            }
            assert("#"@.len() == 1) by {
                reveal_strlit("#");
            }
            assert forall|j: int| 0 <= j < index_rows(count as nat).len() implies (
            #[trigger] index_rows(count as nat)[j]).len() <= 20 by {
                lemma_digits_len((j + 1) as nat, 20);
            }
            lemma_widest_bound(1, index_rows(count as nat), 20);
        }
        let mut all = columns;
        all.insert(0, index_col);
        assert(all@.skip(1) =~= columns@);
        proof {
            lemma_widths_sum_first(all@);
        }
        let mut width: usize = 4;
        let mut j: usize = 0;
        while j < all.len()
            invariant
                all@.len() == columns@.len() + 1,
                all@.skip(1) == columns@,
                all@[0].spec_width() <= 20,
                widths_sum(all@) == all@[0].spec_width() + widths_sum(columns@),
                widths_sum(columns@) + 3 * columns@.len() + 64 <= usize::MAX,
                j <= all@.len(),
                width == widths_sum(all@.take(j as int)) + 4 + 3 * (if j == 0 { 0 } else { j - 1 }),
            decreases all@.len() - j,
        {
            assert(all@.take(j as int + 1).drop_last() =~= all@.take(j as int));
            proof {
                lemma_widths_sum_prefix(all@, j as int + 1);
                lemma_widths_sum_first(all@);
            }
            if j > 0 {
                width = width + 3;
            }
            width = width + all[j].width();
            j = j + 1;
        }
        assert(all@.take(j as int) =~= all@);
        proof {
            assert forall|k: int| 0 <= k < all@.len() implies (#[trigger] all@[k]).rows().len()
                == count && all@[k].wf() by {
                if k > 0 {
                    assert(all@[k] == columns@[k - 1]);
                }
            }
        }
        Table { columns: all, width }
    }

    /// The table as text: a divider, the header line, a divider, one line
    /// per row and a last divider, each line ending in a line break.
    pub fn draw(&self) -> (r: String)
        requires
            self.wf(),
        ensures
            r@ == table_text(self.spec_columns(), self.spec_width()),
    {
        let mut v: Vec<char> = Vec::new();
        self.draw_row_divider(&mut v);
        self.draw_header(&mut v);
        self.draw_row_divider(&mut v);
        let d0 = self.columns[0].data();
        let count = d0.len();
        assert(views(d0@).len() == d0@.len());
        let ghost start = v@;
        let mut i: usize = 0;
        while i < count
            invariant
                self.wf(),
                count == self.columns@[0].rows().len(),
                i <= count,
                v@ == start + body(self.columns@, i as nat),
            decreases count - i,
        {
            self.draw_row(&mut v, i);
            i = i + 1;
            assert(v@ =~= start + body(self.columns@, i as nat));
        }
        self.draw_row_divider(&mut v);
        assert(v@ =~= table_text(self.spec_columns(), self.spec_width()));
        text_of(&v)
    }

    fn draw_row_divider(&self, v: &mut Vec<char>)
        ensures
            final(v)@ == old(v)@ + divider(self.width as nat),
    {
        let ghost start = v@;
        let mut k: usize = 0;
        while k < self.width
            invariant
                k <= self.width,
                v@ == start + Seq::new(k as nat, |i: int| '-'),
            decreases self.width - k,
        {
            v.push('-');
            k = k + 1;
            assert(v@ =~= start + Seq::new(k as nat, |i: int| '-'));
        }
        v.push('\n');
        assert(v@ =~= start + divider(self.width as nat));
    }

    fn draw_header(&self, v: &mut Vec<char>)
        requires
            self.wf(),
        ensures
            final(v)@ == old(v)@ + line(self.columns@, -1),
    {
        self.draw_line(v, None);
    }

    fn draw_row(&self, v: &mut Vec<char>, row: usize)
        requires
            self.wf(),
            row < self.columns@[0].rows().len(),
        ensures
            final(v)@ == old(v)@ + line(self.columns@, row as int),
    {
        self.draw_line(v, Some(row));
    }

    /// The header line for `None`, else the line of the given row.
    fn draw_line(&self, v: &mut Vec<char>, row: Option<usize>)
        requires
            self.wf(),
            row matches Some(r) ==> r < self.columns@[0].rows().len(),
        ensures
            final(v)@ == old(v)@ + line(
                self.columns@,
                match row {
                    Some(r) => r as int,
                    None => -1,
                },
            ),
    {
        let ghost ri: int = match row {
            Some(r) => r as int,
            None => -1,
        };
        let ghost start = v@;
        push_text(v, "| ");
        let mut j: usize = 0;
        while j < self.columns.len()
            invariant
                self.wf(),
                row matches Some(r) ==> r < self.columns@[0].rows().len(),
                ri == match row {
                    Some(r) => r as int,
                    None => -1,
                },
                j <= self.columns@.len(),
                v@ == start + "| "@ + cells(self.columns@.take(j as int), ri),
            decreases self.columns@.len() - j,
        {
            let col = &self.columns[j];
            assert(col.rows().len() == self.columns@[0].rows().len());
            let text: &str = match row {
                Some(r) => {
                    let d = col.data();
                    assert(views(d@)[r as int] == d@[r as int]@);
                    d[r].as_str()
                },
                None => col.name(),
            };
            assert(text@ == cell(*col, ri));
            if j > 0 {
                push_text(v, " | ");
            }
            push_padded(v, text, col.width());
            assert(self.columns@.take(j as int + 1).drop_last() =~= self.columns@.take(j as int));
            j = j + 1;
            assert(v@ =~= start + "| "@ + cells(self.columns@.take(j as int), ri));
        }
        push_text(v, " |");
        v.push('\n');
        assert(self.columns@.take(j as int) =~= self.columns@);
        assert(v@ =~= start + line(self.columns@, ri));
    }
}

/// Appends `s` right-aligned in `w` characters.
fn push_padded(v: &mut Vec<char>, s: &str, w: usize)
    ensures
        final(v)@ == old(v)@ + pad_left(s@, w as nat),
{
    let ghost start = v@;
    let n = s.unicode_len();
    if n < w {
        let mut k: usize = 0;
        while k < w - n
            invariant
                n < w,
                k <= w - n,
                v@ == start + spaces(k as nat),
            decreases w - n - k,
        {
            v.push(' ');
            k = k + 1;
            assert(v@ =~= start + spaces(k as nat));
        }
        push_text(v, s);
        assert(v@ =~= start + pad_left(s@, w as nat));
    } else {
        push_text(v, s);
    }
}

} // verus!
