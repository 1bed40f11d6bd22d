//! The table formatter: parsing a pipe-delimited block into a grid of
//! trimmed cells, normalizing the separator row, trimming spurious edge
//! columns, computing per-column display widths, padding, and rendering.
//!
//! The spec functions in this module describe each pass as a function on
//! sequences; the executable methods are proved to follow them exactly.

use vstd::prelude::*;
use vstd::string::StringExecFns;

use crate::text::{
    chars_of, clone_chars, has_char, join_char, join_with, split_at_char, split_lines, split_on,
    string_of, text_lines, trim_chars, trimmed,
};
use crate::width::{display_width, text_width};

verus! {

/// Upper bound on the number of rows a table may have.
pub const MAX_TABLE_ROWS: usize = 100000;

/// Upper bound on the number of columns a table may have.
pub const MAX_TABLE_COLS: usize = 1000;

/// Upper bound on the total cell count of a table.
pub const MAX_TABLE_CELLS: usize = 1000000;

/// Errors a table format attempt can end in.
#[derive(Debug, Clone, PartialEq, Eq)]
pub enum TableError {
    /// Table must have at least a header row and separator row.
    MissingSeparator,
    /// Table exceeds maximum allowed size.
    TableTooLarge { rows: usize, cols: usize, max_rows: usize, max_cols: usize },
    /// Invalid table structure.
    InvalidStructure(String),
    /// Input is empty or contains no table.
    EmptyInput,
}

// ---------------------------------------------------------------------------
// The specification of parsing
// ---------------------------------------------------------------------------

/// Every character of `s` is a dash.
pub open spec fn all_dash(s: Seq<char>) -> bool {
    forall|i: int| 0 <= i < s.len() ==> s[i] == '-'
}

/// The larger of two naturals.
pub open spec fn max_nat(a: nat, b: nat) -> nat {
    if a >= b {
        a
    } else {
        b
    }
}

/// The lines that take part in a table: those containing a pipe.
pub open spec fn pipe_lines(ls: Seq<Seq<char>>) -> Seq<Seq<char>>
    decreases ls.len(),
{
    if ls.len() == 0 {
        Seq::empty()
    } else if ls[0].contains('|') {
        seq![ls[0]] + pipe_lines(ls.drop_first())
    } else {
        pipe_lines(ls.drop_first())
    }
}

/// A non-empty all-dash cell collapses to a single dash; anything else is
/// kept as it is.
pub open spec fn norm_dash_cell(c: Seq<char>) -> Seq<char> {
    if c.len() > 0 && all_dash(c) {
        seq!['-']
    } else {
        c
    }
}

/// The cells of one line: split on pipes, each part trimmed.
pub open spec fn row_cells(l: Seq<char>) -> Seq<Seq<char>> {
    split_at_char(l, '|').map_values(|c: Seq<char>| trimmed(c))
}

/// The cells of the separator line: as `row_cells`, with dash runs collapsed.
pub open spec fn sep_cells(l: Seq<char>) -> Seq<Seq<char>> {
    row_cells(l).map_values(|c: Seq<char>| norm_dash_cell(c))
}

/// The rows read off the retained lines: cell-split each, the second one
/// dash-normalized.
pub open spec fn rows_of(pls: Seq<Seq<char>>) -> Seq<Seq<Seq<char>>> {
    pls.map(
        |i: int, l: Seq<char>|
            if i == 1 {
                sep_cells(l)
            } else {
                row_cells(l)
            },
    )
}

/// The grid read off the raw text, before edge-column trimming: one row per
/// pipe-containing line, the second row dash-normalized.
pub open spec fn raw_grid(s: Seq<char>) -> Seq<Seq<Seq<char>>> {
    rows_of(pipe_lines(text_lines(s)))
}

/// The column count of a grid: the length of its longest row.
pub open spec fn grid_cols(g: Seq<Seq<Seq<char>>>) -> nat
    decreases g.len(),
{
    if g.len() == 0 {
        0
    } else {
        max_nat(g[0].len(), grid_cols(g.drop_first()))
    }
}

/// The width of column `j`: the largest display width of any of its cells.
pub open spec fn col_width(g: Seq<Seq<Seq<char>>>, j: int) -> nat
    decreases g.len(),
{
    if g.len() == 0 {
        0
    } else {
        max_nat(
            if 0 <= j < g[0].len() {
                text_width(g[0][j])
            } else {
                0
            },
            col_width(g.drop_first(), j),
        )
    }
}

/// All column widths of a grid, in order.
pub open spec fn grid_widths(g: Seq<Seq<Seq<char>>>) -> Seq<nat> {
    Seq::new(grid_cols(g), |j: int| col_width(g, j))
}

/// Every row with its first cell removed.
pub open spec fn drop_lead_col(g: Seq<Seq<Seq<char>>>) -> Seq<Seq<Seq<char>>> {
    g.map_values(
        |r: Seq<Seq<char>>|
            if r.len() > 0 {
                r.drop_first()
            } else {
                r
            },
    )
}

/// Every row of length exactly `n` with its last cell removed.
pub open spec fn drop_tail_col(g: Seq<Seq<Seq<char>>>, n: int) -> Seq<Seq<Seq<char>>> {
    g.map_values(
        |r: Seq<Seq<char>>|
            if r.len() == n {
                r.drop_last()
            } else {
                r
            },
    )
}

/// Edge-column trimming: drop a leading all-empty column, then a trailing
/// all-empty column, recomputing widths in between.
pub open spec fn edge_trimmed(g: Seq<Seq<Seq<char>>>) -> Seq<Seq<Seq<char>>> {
    let w = grid_widths(g);
    if w.len() == 0 {
        g
    } else {
        let g1 = if w[0] == 0 {
            drop_lead_col(g)
        } else {
            g
        };
        let w1 = grid_widths(g1);
        if w1.len() > 0 && w1[w1.len() - 1] == 0 {
            drop_tail_col(g1, w1.len() as int)
        } else {
            g1
        }
    }
}

/// The grid a table text parses to.
pub open spec fn parsed_grid(s: Seq<char>) -> Seq<Seq<Seq<char>>> {
    edge_trimmed(raw_grid(s))
}

/// Whether row `idx` is a valid separator row: present, non-empty, and all
/// of its cells non-empty dash runs.
pub open spec fn row_is_sep(g: Seq<Seq<Seq<char>>>, idx: int) -> bool {
    &&& 0 <= idx < g.len()
    &&& g[idx].len() > 0
    &&& forall|j: int|
        0 <= j < g[idx].len() ==> ((#[trigger] g[idx][j]).len() > 0 && all_dash(g[idx][j]))
}

/// Whether the grid's second row is a valid separator row.
pub open spec fn sep_row_ok(g: Seq<Seq<Seq<char>>>) -> bool {
    row_is_sep(g, 1)
}

/// Whether the table's dimensions are within the configured caps.
pub open spec fn size_ok(rows: nat, cols: nat) -> bool {
    rows <= MAX_TABLE_ROWS && cols <= MAX_TABLE_COLS && rows * cols <= MAX_TABLE_CELLS
}

/// A row extended with empty cells up to `n` columns.
pub open spec fn fill_row(r: Seq<Seq<char>>, n: nat) -> Seq<Seq<char>> {
    if r.len() <= n {
        r + Seq::new((n - r.len()) as nat, |k: int| Seq::<char>::empty())
    } else {
        r
    }
}

/// Every row extended with empty cells up to `n` columns.
pub open spec fn fill_rows(g: Seq<Seq<Seq<char>>>, n: nat) -> Seq<Seq<Seq<char>>> {
    g.map_values(|r: Seq<Seq<char>>| fill_row(r, n))
}

/// A cell padded with `p` up to display width `target`.
pub open spec fn pad_cell(c: Seq<char>, target: nat, p: char) -> Seq<char> {
    if text_width(c) <= target {
        c + Seq::new((target - text_width(c)) as nat, |k: int| p)
    } else {
        c
    }
}

/// A row with each cell padded to its column's width.
pub open spec fn pad_row(r: Seq<Seq<char>>, w: Seq<nat>, p: char) -> Seq<Seq<char>> {
    r.map(
        |j: int, c: Seq<char>|
            if 0 <= j < w.len() {
                pad_cell(c, w[j], p)
            } else {
                c
            },
    )
}

/// The whole grid padded: spaces everywhere, dashes in the separator row.
pub open spec fn pad_grid(g: Seq<Seq<Seq<char>>>, w: Seq<nat>) -> Seq<Seq<Seq<char>>> {
    g.map(
        |i: int, r: Seq<Seq<char>>|
            pad_row(
                r,
                w,
                if i == 1 {
                    '-'
                } else {
                    ' '
                },
            ),
    )
}

/// A cell decorated for rendering: the padding character on either side.
pub open spec fn deco_cell(c: Seq<char>, p: char) -> Seq<char> {
    seq![p] + c + seq![p]
}

/// One rendered line without its newline: decorated cells joined by pipes,
/// bounded by pipes.
pub open spec fn row_body(r: Seq<Seq<char>>, p: char) -> Seq<char> {
    join_char(
        seq![Seq::<char>::empty()] + r.map_values(|c: Seq<char>| deco_cell(c, p)) + seq![
            Seq::<char>::empty()
        ],
        '|',
    )
}

/// One rendered line: its body followed by a newline.
pub open spec fn render_row(r: Seq<Seq<char>>, p: char) -> Seq<char> {
    row_body(r, p) + seq!['\n']
}

/// The rendering of rows `i` onward.
pub open spec fn render_from(g: Seq<Seq<Seq<char>>>, i: int) -> Seq<char>
    decreases g.len() - i,
{
    if i < 0 || i >= g.len() {
        Seq::empty()
    } else {
        render_row(
            g[i],
            if i == 1 {
                '-'
            } else {
                ' '
            },
        ) + render_from(g, i + 1)
    }
}

/// The rendering of a whole grid.
pub open spec fn render_grid(g: Seq<Seq<Seq<char>>>) -> Seq<char> {
    render_from(g, 0)
}

/// Whether `format_table` succeeds on `s`.
pub open spec fn table_ok(s: Seq<char>) -> bool {
    &&& trimmed(s).len() > 0
    &&& pipe_lines(text_lines(s)).len() > 0
    &&& parsed_grid(s).len() >= 2
    &&& size_ok(parsed_grid(s).len(), grid_widths(parsed_grid(s)).len())
    &&& sep_row_ok(parsed_grid(s))
}

/// The text `format_table` produces on success: the parsed grid, filled to a
/// uniform column count, padded to the column widths, and rendered.
pub open spec fn table_output(s: Seq<char>) -> Seq<char> {
    let g = parsed_grid(s);
    let w = grid_widths(g);
    render_grid(pad_grid(fill_rows(g, w.len()), w))
}

/// The executable width vector models the grid's widths.
pub open spec fn widths_ok(w: Seq<u128>, g: Seq<Seq<Seq<char>>>) -> bool {
    &&& w.len() == grid_cols(g)
    &&& forall|j: int| 0 <= j < w.len() ==> (#[trigger] w[j]) as nat == col_width(g, j)
}

/// The nat view of an executable width vector.
pub open spec fn widths_as_nats(w: Seq<u128>) -> Seq<nat> {
    w.map_values(|x: u128| x as nat)
}

// ---------------------------------------------------------------------------
// Lemmas about grids
// ---------------------------------------------------------------------------

/// Column count grows over a pushed row.
pub proof fn lemma_grid_cols_push(g: Seq<Seq<Seq<char>>>, r: Seq<Seq<char>>)
    ensures
        grid_cols(g.push(r)) == max_nat(grid_cols(g), r.len()),
    decreases g.len(),
{
    if g.len() == 0 {
        assert(g.push(r).drop_first() =~~= Seq::<Seq<Seq<char>>>::empty());
        assert(grid_cols(Seq::<Seq<Seq<char>>>::empty()) == 0);
    } else {
        assert(g.push(r).drop_first() =~~= g.drop_first().push(r));
        lemma_grid_cols_push(g.drop_first(), r);
    }
}

/// Column width grows over a pushed row.
pub proof fn lemma_col_width_push(g: Seq<Seq<Seq<char>>>, r: Seq<Seq<char>>, j: int)
    ensures
        col_width(g.push(r), j) == max_nat(
            col_width(g, j),
            if 0 <= j < r.len() {
                text_width(r[j])
            } else {
                0
            },
        ),
    decreases g.len(),
{
    if g.len() == 0 {
        assert(g.push(r).drop_first() =~~= Seq::<Seq<Seq<char>>>::empty());
        assert(col_width(Seq::<Seq<Seq<char>>>::empty(), j) == 0);
    } else {
        assert(g.push(r).drop_first() =~~= g.drop_first().push(r));
        lemma_col_width_push(g.drop_first(), r, j);
    }
}

/// Retained lines grow at the back as scanned lines grow at the back.
pub proof fn lemma_pipe_lines_push(ls: Seq<Seq<char>>, l: Seq<char>)
    ensures
        l.contains('|') ==> pipe_lines(ls.push(l)) == pipe_lines(ls).push(l),
        !l.contains('|') ==> pipe_lines(ls.push(l)) == pipe_lines(ls),
    decreases ls.len(),
{
    if ls.len() == 0 {
        assert(ls.push(l)[0] == l);
        assert(ls.push(l).drop_first() =~~= Seq::<Seq<char>>::empty());
        assert(pipe_lines(Seq::<Seq<char>>::empty()) == Seq::<Seq<char>>::empty());
        if l.contains('|') {
            assert(pipe_lines(ls.push(l)) =~~= pipe_lines(ls).push(l));
        }
    } else {
        assert(ls.push(l).drop_first() =~~= ls.drop_first().push(l));
        assert(ls.push(l)[0] == ls[0]);
        lemma_pipe_lines_push(ls.drop_first(), l);
        if l.contains('|') {
            if ls[0].contains('|') {
                assert(pipe_lines(ls.push(l)) =~~= pipe_lines(ls).push(l));
            }
        }
    }
}

/// Beyond the last column, widths are zero.
pub proof fn lemma_col_width_beyond(g: Seq<Seq<Seq<char>>>, j: int)
    requires
        j >= grid_cols(g),
    ensures
        col_width(g, j) == 0,
    decreases g.len(),
{
    if g.len() > 0 {
        lemma_col_width_beyond(g.drop_first(), j);
    }
}

/// The deep view of a grid vector, elementwise.
pub proof fn lemma_grid_view(c: &Vec<Vec<Vec<char>>>)
    ensures
        c.deep_view().len() == c@.len(),
        forall|i: int|
            0 <= i < c@.len() ==> (#[trigger] c.deep_view()[i]).len() == c@[i]@.len(),
        forall|i: int, j: int|
            0 <= i < c@.len() && 0 <= j < c@[i]@.len() ==> c.deep_view()[i][j] == c@[i]@[j]@,
{
    assert forall|i: int| 0 <= i < c@.len() implies (#[trigger] c.deep_view()[i]).len()
        == c@[i]@.len() by {
        assert(c.deep_view()[i] == c@[i].deep_view());
        assert(c@[i].deep_view() =~~= c@[i]@.map_values(|x: Vec<char>| x@));
    }
    assert forall|i: int, j: int|
        0 <= i < c@.len() && 0 <= j < c@[i]@.len() implies c.deep_view()[i][j] == c@[i]@[j]@ by {
        assert(c.deep_view()[i] == c@[i].deep_view());
        assert(c@[i].deep_view()[j] == c@[i]@[j].deep_view());
        assert(c@[i]@[j].deep_view() =~= c@[i]@[j]@);
    }
}

/// Whether every character of `v` is a dash.
pub fn dash_only(v: &Vec<char>) -> (r: bool)
    ensures
        r == all_dash(v@),
{
    let mut i: usize = 0;
    while i < v.len()
        invariant
            0 <= i <= v@.len(),
            forall|k: int| 0 <= k < i ==> v@[k] == '-',
        decreases v@.len() - i,
    {
        if v[i] != '-' {
            return false;
        }
        i = i + 1;
    }
    true
}

/// A copy of the cells `from..to` of a row.
fn copy_row_range(row: &Vec<Vec<char>>, from: usize, to: usize) -> (r: Vec<Vec<char>>)
    requires
        from <= to <= row@.len(),
    ensures
        r.deep_view() == row.deep_view().subrange(from as int, to as int),
{
    proof {
        crate::text::lemma_rows_view(row);
    }
    let mut r: Vec<Vec<char>> = Vec::new();
    let mut j: usize = from;
    proof {
        assert(r.deep_view() =~~= row.deep_view().subrange(from as int, from as int));
    }
    while j < to
        invariant
            from <= j <= to <= row@.len(),
            row.deep_view().len() == row@.len(),
            forall|k: int| 0 <= k < row@.len() ==> #[trigger] row.deep_view()[k] == row@[k]@,
            r.deep_view() == row.deep_view().subrange(from as int, j as int),
        decreases to - j,
    {
        let ghost pre = r.deep_view();
        r.push(clone_chars(&row[j]));
        proof {
            assert(r.deep_view() =~~= pre.push(row@[j as int]@));
            assert(row.deep_view().subrange(from as int, j + 1 as int)
                =~~= row.deep_view().subrange(from as int, j as int).push(
                row.deep_view()[j as int],
            ));
        }
        j = j + 1;
    }
    r
}

// ---------------------------------------------------------------------------
// The formatter
// ---------------------------------------------------------------------------

/// A Markdown table formatter that aligns columns.
///
/// The two fields are the transient parse state of the most recent call:
/// the grid of cells and the computed column widths. Each formatting call
/// rebuilds them from scratch, so an instance may be reused freely.
pub struct TableFormatter {
    /// The grid of cells of the current parse, row by row.
    pub cells: Vec<Vec<Vec<char>>>,
    /// The display width of each column, summed in a type wide enough that
    /// no sequence of characters can overflow it.
    pub column_widths: Vec<u128>,
}

impl TableFormatter {
    /// Creates a new `TableFormatter` instance.
    pub fn new() -> (r: TableFormatter)
        ensures
            r.cells@.len() == 0,
            r.column_widths@.len() == 0,
    {
        TableFormatter { cells: Vec::new(), column_widths: Vec::new() }
    }

    /// Calculates the maximum width needed for each column.
    pub fn get_column_widths(&mut self)
        ensures
            final(self).cells == old(self).cells,
            widths_ok(final(self).column_widths@, old(self).cells.deep_view()),
    {
        let ghost g = self.cells.deep_view();
        let mut w: Vec<u128> = Vec::new();
        let mut i: usize = 0;
        proof {
            lemma_grid_view(&self.cells);
            assert(g.take(0) =~~= Seq::<Seq<Seq<char>>>::empty());
            assert(widths_ok(w@, g.take(0)));
        }
        while i < self.cells.len()
            invariant
                0 <= i <= self.cells@.len(),
                g == self.cells.deep_view(),
                g.len() == self.cells@.len(),
                forall|t: int|
                    0 <= t < self.cells@.len() ==> (#[trigger] g[t]).len()
                        == self.cells@[t]@.len(),
                forall|t: int, j: int|
                    0 <= t < self.cells@.len() && 0 <= j < self.cells@[t]@.len() ==> g[t][j]
                        == self.cells@[t]@[j]@,
                widths_ok(w@, g.take(i as int)),
            decreases self.cells@.len() - i,
        {
            let row = &self.cells[i];
            let ghost wpre = w@;
            let ghost gpre = g.take(i as int);
            let ghost rseq = g[i as int];
            let mut j: usize = 0;
            while j < row.len()
                invariant
                    0 <= j <= row@.len(),
                    rseq.len() == row@.len(),
                    forall|k: int| 0 <= k < row@.len() ==> rseq[k] == row@[k]@,
                    widths_ok(wpre, gpre),
                    w@.len() == max_nat(wpre.len(), j as nat),
                    forall|k: int|
                        0 <= k < j && k < wpre.len() ==> (#[trigger] w@[k]) as nat == max_nat(
                            wpre[k] as nat,
                            text_width(rseq[k]),
                        ),
                    forall|k: int|
                        wpre.len() <= k < j ==> (#[trigger] w@[k]) as nat == text_width(rseq[k]),
                    forall|k: int| j <= k < wpre.len() ==> #[trigger] w@[k] == wpre[k],
                decreases row@.len() - j,
            {
                let cw = display_width(&row[j]);
                proof {
                    assert(row@[j as int]@ == rseq[j as int]);
                }
                if j >= w.len() {
                    w.push(cw);
                } else {
                    if w[j] < cw {
                        w[j] = cw;
                    }
                }
                j = j + 1;
            }
            proof {
                lemma_grid_cols_push(gpre, rseq);
                assert(g.take(i + 1 as int) =~~= gpre.push(rseq));
                assert(grid_cols(g.take(i + 1 as int)) == max_nat(grid_cols(gpre), rseq.len()));
                assert(w@.len() == max_nat(wpre.len(), rseq.len()));
                assert forall|k: int| 0 <= k < w@.len() implies (#[trigger] w@[k]) as nat
                    == col_width(g.take(i + 1 as int), k) by {
                    lemma_col_width_push(gpre, rseq, k);
                    if k >= wpre.len() {
                        lemma_col_width_beyond(gpre, k);
                    }
                }
            }
            i = i + 1;
        }
        proof {
            assert(g.take(g.len() as int) =~~= g);
        }
        self.column_widths = w;
    }

    /// Removes the first cell of every non-empty row.
    fn drop_lead_cells(&mut self)
        ensures
            final(self).cells.deep_view() == drop_lead_col(old(self).cells.deep_view()),
            final(self).column_widths == old(self).column_widths,
    {
        let ghost g = self.cells.deep_view();
        let mut out: Vec<Vec<Vec<char>>> = Vec::new();
        let mut i: usize = 0;
        proof {
            lemma_grid_view(&self.cells);
            assert(out.deep_view() =~~= drop_lead_col(g).take(0));
        }
        while i < self.cells.len()
            invariant
                0 <= i <= self.cells@.len(),
                g == self.cells.deep_view(),
                g.len() == self.cells@.len(),
                forall|t: int|
                    0 <= t < g.len() ==> (#[trigger] g[t]).len() == self.cells@[t]@.len(),
                out.deep_view() == drop_lead_col(g).take(i as int),
            decreases self.cells@.len() - i,
        {
            let row = &self.cells[i];
            let ghost rseq = g[i as int];
            proof {
                assert(rseq == self.cells@[i as int].deep_view());
            }
            let from: usize = if row.len() > 0 {
                1
            } else {
                0
            };
            let newrow = copy_row_range(row, from, row.len());
            let ghost outpre = out.deep_view();
            out.push(newrow);
            proof {
                if rseq.len() > 0 {
                    assert(newrow.deep_view() =~~= rseq.drop_first());
                } else {
                    assert(newrow.deep_view() =~~= rseq);
                }
                assert(out.deep_view() =~~= outpre.push(newrow.deep_view()));
                assert(drop_lead_col(g).take(i + 1 as int) =~~= drop_lead_col(g).take(
                    i as int,
                ).push(drop_lead_col(g)[i as int]));
                assert(out.deep_view() =~~= drop_lead_col(g).take(i + 1 as int));
            }
            i = i + 1;
        }
        proof {
            assert(drop_lead_col(g).take(g.len() as int) =~~= drop_lead_col(g));
        }
        self.cells = out;
    }

    /// Removes the last cell of every row whose length is exactly `n`.
    fn drop_tail_cells(&mut self, n: usize)
        requires
            n >= 1,
        ensures
            final(self).cells.deep_view() == drop_tail_col(
                old(self).cells.deep_view(),
                n as int,
            ),
            final(self).column_widths == old(self).column_widths,
    {
        let ghost g = self.cells.deep_view();
        let mut out: Vec<Vec<Vec<char>>> = Vec::new();
        let mut i: usize = 0;
        proof {
            lemma_grid_view(&self.cells);
            assert(out.deep_view() =~~= drop_tail_col(g, n as int).take(0));
        }
        while i < self.cells.len()
            invariant
                n >= 1,
                0 <= i <= self.cells@.len(),
                g == self.cells.deep_view(),
                g.len() == self.cells@.len(),
                forall|t: int|
                    0 <= t < g.len() ==> (#[trigger] g[t]).len() == self.cells@[t]@.len(),
                out.deep_view() == drop_tail_col(g, n as int).take(i as int),
            decreases self.cells@.len() - i,
        {
            let row = &self.cells[i];
            let ghost rseq = g[i as int];
            proof {
                assert(rseq == self.cells@[i as int].deep_view());
            }
            let to: usize = if row.len() == n {
                row.len() - 1
            } else {
                row.len()
            };
            let newrow = copy_row_range(row, 0, to);
            let ghost outpre = out.deep_view();
            out.push(newrow);
            proof {
                if rseq.len() == n {
                    assert(newrow.deep_view() =~~= rseq.drop_last());
                } else {
                    assert(newrow.deep_view() =~~= rseq);
                }
                assert(out.deep_view() =~~= outpre.push(newrow.deep_view()));
                assert(drop_tail_col(g, n as int).take(i + 1 as int) =~~= drop_tail_col(
                    g,
                    n as int,
                ).take(i as int).push(drop_tail_col(g, n as int)[i as int]));
                assert(out.deep_view() =~~= drop_tail_col(g, n as int).take(i + 1 as int));
            }
            i = i + 1;
        }
        proof {
            assert(drop_tail_col(g, n as int).take(g.len() as int) =~~= drop_tail_col(
                g,
                n as int,
            ));
        }
        self.cells = out;
    }

    /// Removes empty leading and trailing columns, leaving the column widths
    /// recomputed for the trimmed grid.
    fn remove_empty_edge_columns(&mut self)
        ensures
            final(self).cells.deep_view() == edge_trimmed(old(self).cells.deep_view()),
            widths_ok(
                final(self).column_widths@,
                edge_trimmed(old(self).cells.deep_view()),
            ),
    {
        let ghost g = self.cells.deep_view();
        let ghost w = grid_widths(g);
        self.get_column_widths();
        if self.column_widths.len() == 0 {
            proof {
                assert(w.len() == 0);
                assert(edge_trimmed(g) == g);
            }
            return ;
        }
        proof {
            assert(w.len() > 0);
            assert(w[0] == col_width(g, 0));
        }
        if self.column_widths[0] == 0 {
            self.drop_lead_cells();
            self.get_column_widths();
        }
        let ghost g1 = if w[0] == 0 {
            drop_lead_col(g)
        } else {
            g
        };
        let ghost w1 = grid_widths(g1);
        proof {
            assert(self.cells.deep_view() == g1);
            assert(widths_ok(self.column_widths@, g1));
            assert(forall|j: int| 0 <= j < w1.len() ==> w1[j] == col_width(g1, j));
        }
        if self.column_widths.len() > 0 {
            let last = self.column_widths.len() - 1;
            if self.column_widths[last] == 0 {
                let n = self.column_widths.len();
                self.drop_tail_cells(n);
                self.get_column_widths();
                proof {
                    assert(w1.len() > 0 && w1[w1.len() - 1] == 0);
                    assert(edge_trimmed(g) == drop_tail_col(g1, w1.len() as int));
                }
                return ;
            }
        }
        proof {
            assert(!(w1.len() > 0 && w1[w1.len() - 1] == 0));
            assert(edge_trimmed(g) == g1);
        }
    }

    /// Adds empty cells to rows that have fewer columns than the table.
    fn add_missing_cell_columns(&mut self)
        ensures
            final(self).cells.deep_view() == fill_rows(
                old(self).cells.deep_view(),
                old(self).column_widths@.len() as nat,
            ),
            final(self).column_widths == old(self).column_widths,
    {
        let ghost g = self.cells.deep_view();
        let ghost n = self.column_widths@.len() as nat;
        let num_columns = self.column_widths.len();
        let mut out: Vec<Vec<Vec<char>>> = Vec::new();
        let mut i: usize = 0;
        proof {
            lemma_grid_view(&self.cells);
            assert(out.deep_view() =~~= fill_rows(g, n).take(0));
        }
        while i < self.cells.len()
            invariant
                n == num_columns as nat,
                0 <= i <= self.cells@.len(),
                g == self.cells.deep_view(),
                g.len() == self.cells@.len(),
                forall|t: int|
                    0 <= t < g.len() ==> (#[trigger] g[t]).len() == self.cells@[t]@.len(),
                out.deep_view() == fill_rows(g, n).take(i as int),
            decreases self.cells@.len() - i,
        {
            let row = &self.cells[i];
            let ghost rseq = g[i as int];
            proof {
                assert(rseq == self.cells@[i as int].deep_view());
            }
            let mut newrow = copy_row_range(row, 0, row.len());
            proof {
                assert(newrow.deep_view() =~~= rseq);
                assert(newrow.deep_view() =~~= rseq + Seq::new(
                    0,
                    |k: int| Seq::<char>::empty(),
                ));
            }
            while newrow.len() < num_columns
                invariant
                    n == num_columns as nat,
                    newrow@.len() >= rseq.len(),
                    rseq.len() <= n ==> newrow@.len() <= n,
                    rseq.len() > n ==> newrow@.len() == rseq.len(),
                    newrow.deep_view() == rseq + Seq::new(
                        (newrow@.len() - rseq.len()) as nat,
                        |k: int| Seq::<char>::empty(),
                    ),
                decreases num_columns - newrow@.len(),
            {
                let ghost pre = newrow.deep_view();
                newrow.push(Vec::new());
                proof {
                    assert(newrow.deep_view() =~~= pre.push(Seq::<char>::empty()));
                    assert(newrow.deep_view() =~~= rseq + Seq::new(
                        (newrow@.len() - rseq.len()) as nat,
                        |k: int| Seq::<char>::empty(),
                    ));
                }
            }
            proof {
                if rseq.len() <= n {
                    assert(newrow@.len() == n);
                    assert(newrow.deep_view() =~~= fill_row(rseq, n));
                } else {
                    assert(newrow@.len() == rseq.len());
                    assert(newrow.deep_view() =~~= rseq + Seq::new(
                        0,
                        |k: int| Seq::<char>::empty(),
                    ));
                    assert(newrow.deep_view() =~~= fill_row(rseq, n));
                }
            }
            let ghost outpre = out.deep_view();
            out.push(newrow);
            proof {
                assert(out.deep_view() =~~= outpre.push(fill_row(rseq, n)));
                assert(fill_rows(g, n).take(i + 1 as int) =~~= fill_rows(g, n).take(
                    i as int,
                ).push(fill_rows(g, n)[i as int]));
                assert(out.deep_view() =~~= fill_rows(g, n).take(i + 1 as int));
            }
            i = i + 1;
        }
        proof {
            assert(fill_rows(g, n).take(g.len() as int) =~~= fill_rows(g, n));
        }
        self.cells = out;
    }

    /// Checks whether row `row_index` is a valid separator row: present,
    /// non-empty, and all of its cells non-empty dash runs.
    fn is_separator_row(&self, row_index: usize) -> (r: bool)
        ensures
            r == row_is_sep(self.cells.deep_view(), row_index as int),
    {
        let ghost g = self.cells.deep_view();
        proof {
            lemma_grid_view(&self.cells);
        }
        if row_index >= self.cells.len() {
            return false;
        }
        let row = &self.cells[row_index];
        if row.len() == 0 {
            return false;
        }
        let ghost rseq = g[row_index as int];
        let mut j: usize = 0;
        while j < row.len()
            invariant
                g == self.cells.deep_view(),
                0 <= row_index < g.len(),
                rseq == g[row_index as int],
                rseq.len() > 0,
                0 <= j <= row@.len(),
                rseq.len() == row@.len(),
                forall|k: int| 0 <= k < row@.len() ==> rseq[k] == row@[k]@,
                forall|k: int|
                    0 <= k < j ==> ((#[trigger] rseq[k]).len() > 0 && all_dash(rseq[k])),
            decreases row@.len() - j,
        {
            let cell = &row[j];
            if cell.len() == 0 {
                proof {
                    assert(g[row_index as int][j as int] == row@[j as int]@);
                    assert(g[row_index as int][j as int].len() == 0);
                }
                return false;
            }
            if !dash_only(cell) {
                proof {
                    assert(g[row_index as int][j as int] == row@[j as int]@);
                    assert(!all_dash(g[row_index as int][j as int]));
                }
                return false;
            }
            j = j + 1;
        }
        true
    }

    /// Pads each cell with spaces (dashes in the separator row) until its
    /// display width equals its column's width.
    fn pad_cells_for_output(&mut self)
        ensures
            final(self).cells.deep_view() == pad_grid(
                old(self).cells.deep_view(),
                widths_as_nats(old(self).column_widths@),
            ),
            final(self).column_widths == old(self).column_widths,
    {
        let ghost g = self.cells.deep_view();
        let ghost w = widths_as_nats(self.column_widths@);
        let mut out: Vec<Vec<Vec<char>>> = Vec::new();
        let mut i: usize = 0;
        proof {
            lemma_grid_view(&self.cells);
            assert(out.deep_view() =~~= pad_grid(g, w).take(0));
        }
        while i < self.cells.len()
            invariant
                0 <= i <= self.cells@.len(),
                g == self.cells.deep_view(),
                g.len() == self.cells@.len(),
                w == widths_as_nats(self.column_widths@),
                w.len() == self.column_widths@.len(),
                forall|t: int|
                    0 <= t < g.len() ==> (#[trigger] g[t]).len() == self.cells@[t]@.len(),
                forall|t: int, k: int|
                    0 <= t < g.len() && 0 <= k < self.cells@[t]@.len() ==> g[t][k]
                        == self.cells@[t]@[k]@,
                out.deep_view() == pad_grid(g, w).take(i as int),
            decreases self.cells@.len() - i,
        {
            let row = &self.cells[i];
            let ghost rseq = g[i as int];
            let p: char = if i == 1 {
                '-'
            } else {
                ' '
            };
            let mut newrow: Vec<Vec<char>> = Vec::new();
            let mut j: usize = 0;
            proof {
                assert(newrow.deep_view() =~~= pad_row(rseq, w, p).take(0));
            }
            while j < row.len()
                invariant
                    0 <= j <= row@.len(),
                    rseq.len() == row@.len(),
                    w == widths_as_nats(self.column_widths@),
                    w.len() == self.column_widths@.len(),
                    forall|k: int| 0 <= k < row@.len() ==> rseq[k] == row@[k]@,
                    newrow.deep_view() == pad_row(rseq, w, p).take(j as int),
                decreases row@.len() - j,
            {
                let cell = &row[j];
                let ghost cseq = rseq[j as int];
                let cw = display_width(cell);
                let mut newcell = clone_chars(cell);
                if j < self.column_widths.len() {
                    let target = self.column_widths[j];
                    proof {
                        assert(w[j as int] == self.column_widths@[j as int] as nat);
                    }
                    if cw < target {
                        let pad = target - cw;
                        let mut k: u128 = 0;
                        proof {
                            assert(newcell@ =~= cseq + Seq::new(0, |t: int| p));
                        }
                        while k < pad
                            invariant
                                0 <= k <= pad,
                                newcell@ == cseq + Seq::new(k as nat, |t: int| p),
                            decreases pad - k,
                        {
                            let ghost pre = newcell@;
                            newcell.push(p);
                            proof {
                                assert(newcell@ =~= cseq + Seq::new((k + 1) as nat, |t: int| p));
                            }
                            k = k + 1;
                        }
                        proof {
                            assert(newcell@ == pad_cell(cseq, w[j as int], p));
                        }
                    } else {
                        proof {
                            if cw == target {
                                assert(newcell@ =~= cseq + Seq::new(0, |t: int| p));
                                assert(newcell@ == pad_cell(cseq, w[j as int], p));
                            } else {
                                assert(newcell@ == pad_cell(cseq, w[j as int], p));
                            }
                        }
                    }
                }
                let ghost nrpre = newrow.deep_view();
                newrow.push(newcell);
                proof {
                    assert(newrow.deep_view() =~~= nrpre.push(newcell@));
                    assert(pad_row(rseq, w, p).take(j + 1 as int) =~~= pad_row(
                        rseq,
                        w,
                        p,
                    ).take(j as int).push(pad_row(rseq, w, p)[j as int]));
                    assert(newrow.deep_view() =~~= pad_row(rseq, w, p).take(j + 1 as int));
                }
                j = j + 1;
            }
            proof {
                assert(newrow.deep_view() =~~= pad_row(rseq, w, p));
            }
            let ghost outpre = out.deep_view();
            out.push(newrow);
            proof {
                assert(out.deep_view() =~~= outpre.push(pad_row(rseq, w, p)));
                assert(pad_grid(g, w).take(i + 1 as int) =~~= pad_grid(g, w).take(i as int).push(
                    pad_grid(g, w)[i as int],
                ));
                assert(out.deep_view() =~~= pad_grid(g, w).take(i + 1 as int));
            }
            i = i + 1;
        }
        proof {
            assert(pad_grid(g, w).take(g.len() as int) =~~= pad_grid(g, w));
        }
        self.cells = out;
    }

    /// Renders the formatted table to a string: each row's cells decorated
    /// and joined by pipes, one line per row.
    fn render_output(&self) -> (r: String)
        ensures
            r@ == render_grid(self.cells.deep_view()),
    {
        let ghost g = self.cells.deep_view();
        let mut out: Vec<char> = Vec::new();
        let mut i: usize = 0;
        proof {
            lemma_grid_view(&self.cells);
        }
        while i < self.cells.len()
            invariant
                0 <= i <= self.cells@.len(),
                g == self.cells.deep_view(),
                g.len() == self.cells@.len(),
                forall|t: int|
                    0 <= t < g.len() ==> (#[trigger] g[t]).len() == self.cells@[t]@.len(),
                forall|t: int, k: int|
                    0 <= t < g.len() && 0 <= k < self.cells@[t]@.len() ==> g[t][k]
                        == self.cells@[t]@[k]@,
                out@ + render_from(g, i as int) == render_grid(g),
            decreases self.cells@.len() - i,
        {
            let row = &self.cells[i];
            let ghost rseq = g[i as int];
            let p: char = if i == 1 {
                '-'
            } else {
                ' '
            };
            let mut parts: Vec<Vec<char>> = Vec::new();
            parts.push(Vec::new());
            let mut j: usize = 0;
            proof {
                assert(parts.deep_view() =~~= seq![Seq::<char>::empty()] + rseq.subrange(
                    0,
                    0,
                ).map_values(|c: Seq<char>| deco_cell(c, p)));
            }
            while j < row.len()
                invariant
                    0 <= j <= row@.len(),
                    rseq.len() == row@.len(),
                    forall|k: int| 0 <= k < row@.len() ==> rseq[k] == row@[k]@,
                    parts.deep_view() == seq![Seq::<char>::empty()] + rseq.subrange(
                        0,
                        j as int,
                    ).map_values(|c: Seq<char>| deco_cell(c, p)),
                decreases row@.len() - j,
            {
                let cell = &row[j];
                let ghost cseq = rseq[j as int];
                let mut dc: Vec<char> = Vec::new();
                dc.push(p);
                let mut t: usize = 0;
                while t < cell.len()
                    invariant
                        0 <= t <= cell@.len(),
                        cseq == cell@,
                        dc@ == seq![p] + cseq.subrange(0, t as int),
                    decreases cell@.len() - t,
                {
                    dc.push(cell[t]);
                    proof {
                        assert(seq![p] + cseq.subrange(0, t + 1 as int) =~= (seq![p]
                            + cseq.subrange(0, t as int)).push(cseq[t as int]));
                    }
                    t = t + 1;
                }
                dc.push(p);
                proof {
                    assert(cseq.subrange(0, cseq.len() as int) =~= cseq);
                    assert(dc@ =~= deco_cell(cseq, p));
                }
                let ghost ppre = parts.deep_view();
                parts.push(dc);
                proof {
                    assert(parts.deep_view() =~~= ppre.push(deco_cell(cseq, p)));
                    assert(parts.deep_view() =~~= seq![Seq::<char>::empty()] + rseq.subrange(
                        0,
                        j + 1 as int,
                    ).map_values(|c: Seq<char>| deco_cell(c, p)));
                }
                j = j + 1;
            }
            let ghost ppre = parts.deep_view();
            parts.push(Vec::new());
            proof {
                assert(parts.deep_view() =~~= ppre.push(Seq::<char>::empty()));
                assert(rseq.subrange(0, rseq.len() as int) =~= rseq);
                assert(parts.deep_view() =~~= seq![Seq::<char>::empty()] + rseq.map_values(
                    |c: Seq<char>| deco_cell(c, p),
                ) + seq![Seq::<char>::empty()]);
            }
            let mut line = join_with(&parts, '|');
            let ghost outpre = out@;
            out.append(&mut line);
            out.push('\n');
            proof {
                assert(out@ =~= outpre + render_row(rseq, p));
                assert(render_from(g, i as int) == render_row(rseq, p) + render_from(
                    g,
                    i + 1 as int,
                ));
                assert(outpre + (render_row(rseq, p) + render_from(g, i + 1 as int)) =~= (outpre
                    + render_row(rseq, p)) + render_from(g, i + 1 as int));
            }
            i = i + 1;
        }
        proof {
            assert(render_from(g, g.len() as int) == Seq::<char>::empty());
            assert(out@ =~= render_grid(g));
        }
        string_of(&out)
    }

    /// Imports and parses the table text into cells: keeps the lines that
    /// contain a pipe, splits and trims them, dash-normalizes the second
    /// retained row, and trims empty edge columns. Text without a single
    /// pipe line holds no table at all, so it fails as empty input and the
    /// parse state stays empty.
    fn import_table(&mut self, table: &Vec<char>) -> (r: Result<(), TableError>)
        requires
            old(self).cells@.len() == 0,
        ensures
            r is Ok <==> pipe_lines(text_lines(table@)).len() > 0,
            r is Ok ==> final(self).cells.deep_view() == parsed_grid(table@),
            r is Ok ==> widths_ok(final(self).column_widths@, parsed_grid(table@)),
            r is Err ==> r == Err::<(), TableError>(TableError::EmptyInput),
            r is Err ==> final(self).cells@.len() == 0 && final(self).column_widths == old(
                self,
            ).column_widths,
    {
        let lines = split_lines(table);
        let ghost lv = lines.deep_view();
        let mut kept: usize = 0;
        let mut i: usize = 0;
        proof {
            assert(lv.take(0) =~~= Seq::<Seq<char>>::empty());
            assert(pipe_lines(lv.take(0)) =~~= Seq::<Seq<char>>::empty());
            assert(self.cells.deep_view() =~~= rows_of(pipe_lines(lv.take(0))));
        }
        while i < lines.len()
            invariant
                0 <= i <= lines@.len(),
                lv == lines.deep_view(),
                lv.len() == lines@.len(),
                forall|t: int| 0 <= t < lv.len() ==> #[trigger] lv[t] == lines@[t]@,
                kept as int <= i as int,
                kept as nat == pipe_lines(lv.take(i as int)).len(),
                self.cells.deep_view() == rows_of(pipe_lines(lv.take(i as int))),
                self.column_widths == old(self).column_widths,
            decreases lines@.len() - i,
        {
            let line = &lines[i];
            let ghost lseq = lv[i as int];
            let ghost plpre = pipe_lines(lv.take(i as int));
            proof {
                lemma_pipe_lines_push(lv.take(i as int), lseq);
                assert(lv.take(i + 1 as int) =~~= lv.take(i as int).push(lseq));
            }
            if has_char(line, '|') {
                proof {
                    assert(lseq.contains('|'));
                }
                let parts = split_on(line, '|');
                let is_sep_row = kept == 1;
                let mut rowv: Vec<Vec<char>> = Vec::new();
                let mut j: usize = 0;
                proof {
                    assert(rowv.deep_view() =~~= row_cells(lseq).take(0));
                    assert(rowv.deep_view() =~~= sep_cells(lseq).take(0));
                }
                while j < parts.len()
                    invariant
                        0 <= j <= parts@.len(),
                        parts.deep_view() == split_at_char(lseq, '|'),
                        parts.deep_view().len() == parts@.len(),
                        forall|k: int|
                            0 <= k < parts@.len() ==> #[trigger] parts.deep_view()[k]
                                == parts@[k]@,
                        is_sep_row ==> rowv.deep_view() == sep_cells(lseq).take(j as int),
                        !is_sep_row ==> rowv.deep_view() == row_cells(lseq).take(j as int),
                    decreases parts@.len() - j,
                {
                    let mut tcell = trim_chars(&parts[j]);
                    proof {
                        assert(tcell@ == trimmed(split_at_char(lseq, '|')[j as int]));
                        assert(tcell@ == row_cells(lseq)[j as int]);
                    }
                    if is_sep_row {
                        if tcell.len() > 0 && dash_only(&tcell) {
                            let mut dash: Vec<char> = Vec::new();
                            dash.push('-');
                            tcell = dash;
                            proof {
                                assert(tcell@ =~= seq!['-']);
                            }
                        }
                        proof {
                            assert(tcell@ == norm_dash_cell(row_cells(lseq)[j as int]));
                            assert(tcell@ == sep_cells(lseq)[j as int]);
                        }
                    }
                    let ghost rpre = rowv.deep_view();
                    rowv.push(tcell);
                    proof {
                        assert(rowv.deep_view() =~~= rpre.push(tcell@));
                        if is_sep_row {
                            assert(sep_cells(lseq).take(j + 1 as int) =~~= sep_cells(
                                lseq,
                            ).take(j as int).push(sep_cells(lseq)[j as int]));
                        } else {
                            assert(row_cells(lseq).take(j + 1 as int) =~~= row_cells(
                                lseq,
                            ).take(j as int).push(row_cells(lseq)[j as int]));
                        }
                    }
                    j = j + 1;
                }
                proof {
                    if is_sep_row {
                        assert(rowv.deep_view() =~~= sep_cells(lseq));
                    } else {
                        assert(rowv.deep_view() =~~= row_cells(lseq));
                    }
                }
                let ghost cpre = self.cells.deep_view();
                let ghost rowview = rowv.deep_view();
                self.cells.push(rowv);
                proof {
                    assert(self.cells.deep_view() =~~= cpre.push(rowview));
                    assert(pipe_lines(lv.take(i + 1 as int)) == plpre.push(lseq));
                    assert(rows_of(plpre.push(lseq)) =~~= rows_of(plpre).push(
                        if plpre.len() == 1 {
                            sep_cells(lseq)
                        } else {
                            row_cells(lseq)
                        },
                    ));
                    assert(self.cells.deep_view() =~~= rows_of(pipe_lines(lv.take(i + 1 as int))));
                }
                kept = kept + 1;
            } else {
                proof {
                    assert(!lseq.contains('|'));
                    assert(pipe_lines(lv.take(i + 1 as int)) == plpre);
                }
            }
            i = i + 1;
        }
        proof {
            assert(lv.take(lv.len() as int) =~~= lv);
        }
        if kept == 0 {
            proof {
                assert(self.cells.deep_view().len() == 0);
                assert(self.cells@.len() == 0);
            }
            return Err(TableError::EmptyInput);
        }
        self.remove_empty_edge_columns();
        Ok(())
    }

    /// Formats a markdown table string, returning the aligned version, or an
    /// error describing why the text is not a well-formed table.
    pub fn format_table(&mut self, table: &str) -> (r: Result<String, TableError>)
        ensures
            r is Ok <==> table_ok(table@),
            r is Ok ==> (r matches Ok(o) && o@ == table_output(table@)),
            (trimmed(table@).len() == 0 || pipe_lines(text_lines(table@)).len() == 0) ==> r
                == Err::<String, TableError>(TableError::EmptyInput),
            (trimmed(table@).len() > 0 && pipe_lines(text_lines(table@)).len() > 0
                && parsed_grid(table@).len() < 2) ==> r == Err::<String, TableError>(
                TableError::MissingSeparator,
            ),
            (trimmed(table@).len() > 0 && pipe_lines(text_lines(table@)).len() > 0
                && parsed_grid(table@).len() >= 2 && !size_ok(
                parsed_grid(table@).len(),
                grid_widths(parsed_grid(table@)).len(),
            )) ==> r == Err::<String, TableError>(
                TableError::TableTooLarge {
                    rows: parsed_grid(table@).len() as usize,
                    cols: grid_widths(parsed_grid(table@)).len() as usize,
                    max_rows: MAX_TABLE_ROWS,
                    max_cols: MAX_TABLE_COLS,
                },
            ),
            (trimmed(table@).len() > 0 && pipe_lines(text_lines(table@)).len() > 0
                && parsed_grid(table@).len() >= 2 && size_ok(
                parsed_grid(table@).len(),
                grid_widths(parsed_grid(table@)).len(),
            ) && !sep_row_ok(parsed_grid(table@))) ==> (r matches Err(
                TableError::InvalidStructure(m),
            ) && m@ == "Row 2 is not a valid separator row"@),
    {
        let chars = chars_of(table);
        self.format_table_chars(&chars)
    }

    /// The table transform on a character vector; `format_table` is a thin
    /// shell around this.
    pub(crate) fn format_table_chars(&mut self, table: &Vec<char>) -> (r: Result<String, TableError>)
        ensures
            r is Ok <==> table_ok(table@),
            r is Ok ==> (r matches Ok(o) && o@ == table_output(table@)),
            (trimmed(table@).len() == 0 || pipe_lines(text_lines(table@)).len() == 0) ==> r
                == Err::<String, TableError>(TableError::EmptyInput),
            (trimmed(table@).len() > 0 && pipe_lines(text_lines(table@)).len() > 0
                && parsed_grid(table@).len() < 2) ==> r == Err::<String, TableError>(TableError::MissingSeparator),
            (trimmed(table@).len() > 0 && pipe_lines(text_lines(table@)).len() > 0
                && parsed_grid(table@).len() >= 2 && !size_ok(
                parsed_grid(table@).len(),
                grid_widths(parsed_grid(table@)).len(),
            )) ==> r == Err::<String, TableError>(
                TableError::TableTooLarge {
                    rows: parsed_grid(table@).len() as usize,
                    cols: grid_widths(parsed_grid(table@)).len() as usize,
                    max_rows: MAX_TABLE_ROWS,
                    max_cols: MAX_TABLE_COLS,
                },
            ),
            (trimmed(table@).len() > 0 && pipe_lines(text_lines(table@)).len() > 0
                && parsed_grid(table@).len() >= 2 && size_ok(
                parsed_grid(table@).len(),
                grid_widths(parsed_grid(table@)).len(),
            ) && !sep_row_ok(parsed_grid(table@))) ==> (r matches Err(
                TableError::InvalidStructure(m),
            ) && m@ == "Row 2 is not a valid separator row"@),
    {
        self.cells = Vec::new();
        self.column_widths = Vec::new();
        let t = trim_chars(table);
        if t.len() == 0 {
            return Err(TableError::EmptyInput);
        }
        let ghost gp = parsed_grid(table@);
        match self.import_table(table) {
            Ok(_) => {},
            Err(e) => {
                return Err(e);
            },
        }
        if self.cells.len() < 2 {
            return Err(TableError::MissingSeparator);
        }
        let rows = self.cells.len();
        let cols = self.column_widths.len();
        proof {
            assert(rows as nat == gp.len());
            assert(cols as nat == grid_cols(gp));
            assert(grid_widths(gp).len() == grid_cols(gp));
        }
        if rows > MAX_TABLE_ROWS || cols > MAX_TABLE_COLS {
            return Err(
                TableError::TableTooLarge {
                    rows,
                    cols,
                    max_rows: MAX_TABLE_ROWS,
                    max_cols: MAX_TABLE_COLS,
                },
            );
        }
        proof {
            assert(rows * cols <= 100000000) by (nonlinear_arith)
                requires
                    rows <= 100000,
                    cols <= 1000,
            ;
        }
        let total = rows * cols;
        if total > MAX_TABLE_CELLS {
            return Err(
                TableError::TableTooLarge {
                    rows,
                    cols,
                    max_rows: MAX_TABLE_ROWS,
                    max_cols: MAX_TABLE_COLS,
                },
            );
        }
        if !self.is_separator_row(1) {
            return Err(
                TableError::InvalidStructure(
                    String::from_str("Row 2 is not a valid separator row"),
                ),
            );
        }
        self.get_column_widths();
        proof {
            assert(self.column_widths@.len() as nat == grid_widths(gp).len());
        }
        self.add_missing_cell_columns();
        proof {
            assert(self.cells.deep_view() == fill_rows(gp, grid_widths(gp).len()));
        }
        self.pad_cells_for_output();
        proof {
            assert(widths_as_nats(self.column_widths@) =~= grid_widths(gp));
            assert(self.cells.deep_view() == pad_grid(
                fill_rows(gp, grid_widths(gp).len()),
                grid_widths(gp),
            ));
        }
        let out = self.render_output();
        proof {
            assert(out@ == table_output(table@));
        }
        Ok(out)
    }
}

impl Default for TableFormatter {
    /// An empty formatter, as `new` builds one.
    fn default() -> (r: TableFormatter)
        ensures
            r.cells@.len() == 0,
            r.column_widths@.len() == 0,
    {
        TableFormatter::new()
    }
}

} // verus!
