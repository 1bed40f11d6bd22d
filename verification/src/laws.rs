//! The library's laws: properties of the table transform and the document
//! scanner, stated over the same spec functions the executable contracts
//! speak of, and proved once and for all.

use vstd::prelude::*;

use crate::table::{
    all_dash, col_width, deco_cell, edge_trimmed, fill_row, fill_rows, grid_cols, grid_widths,
    pad_cell, pad_grid, pad_row, parsed_grid, pipe_lines, raw_grid, render_from, render_grid,
    render_row, row_body, row_cells, sep_cells, sep_row_ok, table_ok, table_output,
};
use crate::document::{
    doc_pieces, document_output, ends_newline, fence_line, line_candidate, span_block,
};
use crate::text::{
    count_char, is_blank, join_char, lemma_count_join, lemma_join_clean, lemma_join_has_delim,
    lemma_join_split, lemma_lines_prepend, lemma_split_basic, lemma_split_chars,
    lemma_trimmed_props, split_at_char, text_lines, trimmed,
};
use crate::width::{char_width, lemma_text_width_concat, lemma_text_width_repeat, text_width};

verus! {

/// The character a row is padded with: dashes in the separator row, spaces
/// elsewhere.
pub open spec fn pad_char(i: int) -> char {
    if i == 1 {
        '-'
    } else {
        ' '
    }
}

/// The grid a successful format renders: parsed, filled to a uniform column
/// count, and padded to the column widths.
pub open spec fn final_grid(s: Seq<char>) -> Seq<Seq<Seq<char>>> {
    let g = parsed_grid(s);
    let w = grid_widths(g);
    pad_grid(fill_rows(g, w.len()), w)
}

/// A cell as parsing produces it: free of pipes and newlines, with no
/// leading or trailing blank.
pub open spec fn tidy_cell(c: Seq<char>) -> bool {
    &&& !c.contains('|')
    &&& !c.contains('\n')
    &&& (c.len() == 0 || (!is_blank(c[0]) && !is_blank(c.last())))
}

/// Every cell of the grid is tidy.
pub open spec fn tidy_grid(g: Seq<Seq<Seq<char>>>) -> bool {
    forall|i: int, j: int|
        0 <= i < g.len() && 0 <= j < g[i].len() ==> tidy_cell(#[trigger] g[i][j])
}

// ---------------------------------------------------------------------------
// Parsing produces tidy cells
// ---------------------------------------------------------------------------

/// The cells split off a newline-free line are tidy, dash-normalized or not.
pub proof fn lemma_line_cells_tidy(l: Seq<char>)
    requires
        !l.contains('\n'),
    ensures
        forall|j: int| 0 <= j < row_cells(l).len() ==> tidy_cell(#[trigger] row_cells(l)[j]),
        forall|j: int| 0 <= j < sep_cells(l).len() ==> tidy_cell(#[trigger] sep_cells(l)[j]),
{
    lemma_split_basic(l, '|');
    lemma_split_chars(l, '|');
    assert forall|j: int| 0 <= j < row_cells(l).len() implies tidy_cell(
        #[trigger] row_cells(l)[j],
    ) by {
        let part = split_at_char(l, '|')[j];
        lemma_trimmed_props(part);
        assert(row_cells(l)[j] == trimmed(part));
        if trimmed(part).contains('|') {
            assert(part.contains('|'));
        }
        if trimmed(part).contains('\n') {
            assert(part.contains('\n'));
            assert(l.contains('\n'));
        }
    }
    assert forall|j: int| 0 <= j < sep_cells(l).len() implies tidy_cell(
        #[trigger] sep_cells(l)[j],
    ) by {
        assert(tidy_cell(row_cells(l)[j]));
        assert(tidy_cell(seq!['-'])) by {
            assert(!seq!['-'].contains('|')) by {
                if seq!['-'].contains('|') {
                    let w = choose|w: int| 0 <= w < 1 && seq!['-'][w] == '|';
                }
            }
            assert(!seq!['-'].contains('\n')) by {
                if seq!['-'].contains('\n') {
                    let w = choose|w: int| 0 <= w < 1 && seq!['-'][w] == '\n';
                }
            }
        }
    }
}

/// Retained lines keep any property all lines have, contain a pipe, and are
/// no more numerous than the lines.
pub proof fn lemma_pipe_lines_keep(ls: Seq<Seq<char>>, p: spec_fn(Seq<char>) -> bool)
    requires
        forall|t: int| 0 <= t < ls.len() ==> p(#[trigger] ls[t]),
    ensures
        pipe_lines(ls).len() <= ls.len(),
        forall|k: int| 0 <= k < pipe_lines(ls).len() ==> p(#[trigger] pipe_lines(ls)[k]),
        forall|k: int|
            0 <= k < pipe_lines(ls).len() ==> (#[trigger] pipe_lines(ls)[k]).contains('|'),
    decreases ls.len(),
{
    if ls.len() > 0 {
        assert forall|t: int| 0 <= t < ls.drop_first().len() implies p(
            #[trigger] ls.drop_first()[t],
        ) by {
            assert(ls.drop_first()[t] == ls[t + 1]);
        }
        lemma_pipe_lines_keep(ls.drop_first(), p);
    }
}

/// Lines of any text are newline-free.
pub proof fn lemma_lines_clean(s: Seq<char>)
    ensures
        forall|t: int|
            0 <= t < text_lines(s).len() ==> !(#[trigger] text_lines(s)[t]).contains('\n'),
{
    if s.len() == 0 {
    } else if s.last() == '\n' {
        lemma_split_basic(s.drop_last(), '\n');
    } else {
        lemma_split_basic(s, '\n');
    }
}

/// The raw grid read off any text has only tidy cells.
pub proof fn lemma_raw_grid_tidy(s: Seq<char>)
    ensures
        tidy_grid(raw_grid(s)),
{
    let ls = text_lines(s);
    let pls = pipe_lines(ls);
    lemma_lines_clean(s);
    lemma_pipe_lines_keep(ls, |l: Seq<char>| !l.contains('\n'));
    assert forall|i: int, j: int|
        0 <= i < raw_grid(s).len() && 0 <= j < raw_grid(s)[i].len() implies tidy_cell(
        #[trigger] raw_grid(s)[i][j],
    ) by {
        lemma_line_cells_tidy(pls[i]);
        if i == 1 {
            assert(raw_grid(s)[i] == sep_cells(pls[i]));
        } else {
            assert(raw_grid(s)[i] == row_cells(pls[i]));
        }
    }
}

/// Edge-column trimming keeps cells tidy.
pub proof fn lemma_edge_trimmed_tidy(g: Seq<Seq<Seq<char>>>)
    requires
        tidy_grid(g),
    ensures
        tidy_grid(edge_trimmed(g)),
{
    let e = edge_trimmed(g);
    assert forall|i: int, j: int| 0 <= i < e.len() && 0 <= j < e[i].len() implies tidy_cell(
        #[trigger] e[i][j],
    ) by {
        let w = grid_widths(g);
        if w.len() == 0 {
        } else {
            let g1 = if w[0] == 0 {
                crate::table::drop_lead_col(g)
            } else {
                g
            };
            if w[0] == 0 {
                assert(g1[i] == if g[i].len() > 0 {
                    g[i].drop_first()
                } else {
                    g[i]
                });
            }
            let w1 = grid_widths(g1);
            if w1.len() > 0 && w1[w1.len() - 1] == 0 {
                assert(e[i] == if g1[i].len() == w1.len() {
                    g1[i].drop_last()
                } else {
                    g1[i]
                });
            } else {
                assert(e[i] == g1[i]);
            }
            if w[0] == 0 {
                if g[i].len() > 0 {
                    assert(e[i][j] == g[i][j + 1]);
                } else {
                    assert(e[i][j] == g[i][j]);
                }
            } else {
                assert(e[i][j] == g[i][j]);
            }
        }
    }
}

/// Filling rows with empty cells keeps them tidy.
pub proof fn lemma_fill_rows_tidy(g: Seq<Seq<Seq<char>>>, n: nat)
    requires
        tidy_grid(g),
    ensures
        tidy_grid(fill_rows(g, n)),
{
    let f = fill_rows(g, n);
    assert forall|i: int, j: int| 0 <= i < f.len() && 0 <= j < f[i].len() implies tidy_cell(
        #[trigger] f[i][j],
    ) by {
        assert(f[i] == fill_row(g[i], n));
        if j < g[i].len() {
            assert(f[i][j] == g[i][j]);
        } else {
            assert(f[i][j] =~= Seq::<char>::empty());
            assert(tidy_cell(Seq::<char>::empty())) by {
                if Seq::<char>::empty().contains('|') {
                    let w = choose|w: int| 0 <= w < 0 && Seq::<char>::empty()[w] == '|';
                }
                if Seq::<char>::empty().contains('\n') {
                    let w = choose|w: int| 0 <= w < 0 && Seq::<char>::empty()[w] == '\n';
                }
            }
        }
    }
}

/// What a padded cell holds: the cell's characters and the padding
/// character, nothing else.
pub proof fn lemma_pad_cell_chars(c: Seq<char>, t: nat, p: char, x: char)
    requires
        pad_cell(c, t, p).contains(x),
    ensures
        c.contains(x) || x == p,
{
    if text_width(c) <= t {
        let padded = c + Seq::new((t - text_width(c)) as nat, |k: int| p);
        let w = choose|w: int| 0 <= w < padded.len() && padded[w] == x;
        if w < c.len() {
            assert(c[w] == x);
        }
    }
}

/// No row of a grid is longer than the grid's column count.
pub proof fn lemma_row_le_cols(g: Seq<Seq<Seq<char>>>, i: int)
    requires
        0 <= i < g.len(),
    ensures
        g[i].len() <= grid_cols(g),
    decreases g.len(),
{
    if i > 0 {
        lemma_row_le_cols(g.drop_first(), i - 1);
    }
}

/// No cell is wider than its column.
pub proof fn lemma_cell_le_col(g: Seq<Seq<Seq<char>>>, i: int, j: int)
    requires
        0 <= i < g.len(),
        0 <= j < g[i].len(),
    ensures
        text_width(g[i][j]) <= col_width(g, j),
    decreases g.len(),
{
    if i > 0 {
        lemma_cell_le_col(g.drop_first(), i - 1, j);
    }
}

/// Padding a cell that fits brings its width exactly to the target.
pub proof fn lemma_pad_cell_width(c: Seq<char>, t: nat, p: char)
    requires
        text_width(c) <= t,
        char_width(p) == 1,
    ensures
        text_width(pad_cell(c, t, p)) == t,
        pad_cell(c, t, p).len() == c.len() + (t - text_width(c)),
{
    let run = Seq::new((t - text_width(c)) as nat, |k: int| p);
    lemma_text_width_concat(c, run);
    lemma_text_width_repeat((t - text_width(c)) as nat, p);
}

// ---------------------------------------------------------------------------
// The shape of a successful output
// ---------------------------------------------------------------------------

/// The rows of the final grid: as many as were parsed, each one column
/// count long, every cell exactly its column's width, and all of it free of
/// pipes and newlines.
pub proof fn lemma_final_grid_shape(s: Seq<char>)
    requires
        table_ok(s),
    ensures
        final_grid(s).len() == parsed_grid(s).len(),
        forall|i: int|
            0 <= i < final_grid(s).len() ==> (#[trigger] final_grid(s)[i]).len() == grid_widths(
                parsed_grid(s),
            ).len(),
        forall|i: int, j: int|
            0 <= i < final_grid(s).len() && 0 <= j < grid_widths(parsed_grid(s)).len()
                ==> text_width(#[trigger] final_grid(s)[i][j]) == grid_widths(parsed_grid(s))[j],
        forall|i: int, j: int|
            0 <= i < final_grid(s).len() && 0 <= j < grid_widths(parsed_grid(s)).len() ==> (!(
            #[trigger] final_grid(s)[i][j]).contains('|') && !final_grid(s)[i][j].contains('\n')),
{
    let g = parsed_grid(s);
    let w = grid_widths(g);
    let n = w.len();
    let f = fill_rows(g, n);
    let fg = final_grid(s);
    lemma_raw_grid_tidy(s);
    lemma_edge_trimmed_tidy(raw_grid(s));
    lemma_fill_rows_tidy(g, n);
    assert forall|i: int| 0 <= i < fg.len() implies (#[trigger] fg[i]).len() == n by {
        lemma_row_le_cols(g, i);
        assert(f[i] == fill_row(g[i], n));
        assert(f[i].len() == n);
        assert(fg[i] == pad_row(f[i], w, pad_char(i)));
    }
    assert forall|i: int, j: int| 0 <= i < fg.len() && 0 <= j < n implies (text_width(
        #[trigger] fg[i][j],
    ) == w[j] && !fg[i][j].contains('|') && !fg[i][j].contains('\n')) by {
        lemma_row_le_cols(g, i);
        assert(f[i] == fill_row(g[i], n));
        assert(fg[i] == pad_row(f[i], w, pad_char(i)));
        assert(fg[i][j] == pad_cell(f[i][j], w[j], pad_char(i)));
        assert(tidy_cell(f[i][j]));
        if j < g[i].len() {
            assert(f[i][j] == g[i][j]);
            lemma_cell_le_col(g, i, j);
            assert(w[j] == col_width(g, j));
        } else {
            assert(f[i][j] =~= Seq::<char>::empty());
            assert(text_width(f[i][j]) == 0);
        }
        assert(char_width(pad_char(i)) == 1);
        lemma_pad_cell_width(f[i][j], w[j], pad_char(i));
        if fg[i][j].contains('|') {
            lemma_pad_cell_chars(f[i][j], w[j], pad_char(i), '|');
        }
        if fg[i][j].contains('\n') {
            lemma_pad_cell_chars(f[i][j], w[j], pad_char(i), '\n');
        }
    }
}

/// The decorated parts of a rendered row: bounded by empty parts, free of
/// pipes and newlines.
pub open spec fn body_parts(r: Seq<Seq<char>>, p: char) -> Seq<Seq<char>> {
    seq![Seq::<char>::empty()] + r.map_values(|c: Seq<char>| deco_cell(c, p)) + seq![
        Seq::<char>::empty()
    ]
}

/// A row of pipe-free, newline-free cells renders to a body with exactly
/// one pipe more than cells, and no newline.
pub proof fn lemma_row_body_shape(r: Seq<Seq<char>>, p: char)
    requires
        p != '|',
        p != '\n',
        forall|j: int|
            0 <= j < r.len() ==> (!(#[trigger] r[j]).contains('|') && !r[j].contains('\n')),
    ensures
        count_char(row_body(r, p), '|') == r.len() + 1,
        !row_body(r, p).contains('\n'),
        r.len() >= 1 ==> row_body(r, p).contains('|'),
{
    let parts = body_parts(r, p);
    assert(parts.len() == r.len() + 2);
    assert forall|k: int| 0 <= k < parts.len() implies (!(#[trigger] parts[k]).contains('|') && !(
    parts[k]).contains('\n')) by {
        if k == 0 || k == parts.len() - 1 {
            assert(parts[k].len() == 0);
            if parts[k].contains('|') {
                let w = choose|w: int| 0 <= w < parts[k].len() && parts[k][w] == '|';
            }
            if parts[k].contains('\n') {
                let w = choose|w: int| 0 <= w < parts[k].len() && parts[k][w] == '\n';
            }
        } else {
            let c = r[k - 1];
            assert(parts[k] == deco_cell(c, p));
            if parts[k].contains('|') {
                let w = choose|w: int| 0 <= w < parts[k].len() && parts[k][w] == '|';
                if 1 <= w < c.len() + 1 {
                    assert(c[w - 1] == '|');
                    assert(c.contains('|'));
                }
            }
            if parts[k].contains('\n') {
                let w = choose|w: int| 0 <= w < parts[k].len() && parts[k][w] == '\n';
                if 1 <= w < c.len() + 1 {
                    assert(c[w - 1] == '\n');
                    assert(c.contains('\n'));
                }
            }
        }
    }
    lemma_count_join(parts, '|');
    lemma_join_clean(parts, '|', '\n');
    if r.len() >= 1 {
        lemma_join_has_delim(parts, '|');
    }
}

/// The lines of a rendering: one per row, each the row's body.
pub proof fn lemma_render_lines(g: Seq<Seq<Seq<char>>>, i: int)
    requires
        0 <= i <= g.len(),
        forall|t: int, j: int|
            0 <= t < g.len() && 0 <= j < g[t].len() ==> (!(#[trigger] g[t][j]).contains('|')
                && !g[t][j].contains('\n')),
    ensures
        text_lines(render_from(g, i)) == Seq::new(
            (g.len() - i) as nat,
            |k: int| row_body(g[i + k], pad_char(i + k)),
        ),
    decreases g.len() - i,
{
    if i == g.len() {
        assert(text_lines(render_from(g, i)) =~~= Seq::new(
            0,
            |k: int| row_body(g[i + k], pad_char(i + k)),
        ));
    } else {
        lemma_render_lines(g, i + 1);
        let body = row_body(g[i], pad_char(i));
        assert forall|j: int| 0 <= j < g[i].len() implies (!(#[trigger] g[i][j]).contains('|')
            && !g[i][j].contains('\n')) by {}
        lemma_row_body_shape(g[i], pad_char(i));
        assert(render_from(g, i) == render_row(g[i], pad_char(i)) + render_from(g, i + 1));
        assert((body + seq!['\n']) + render_from(g, i + 1) =~= body + seq!['\n'] + render_from(
            g,
            i + 1,
        ));
        lemma_lines_prepend(body, render_from(g, i + 1));
        assert(text_lines(render_from(g, i)) =~~= Seq::new(
            (g.len() - i) as nat,
            |k: int| row_body(g[i + k], pad_char(i + k)),
        ));
    }
}

// ---------------------------------------------------------------------------
// Column count invariant
// ---------------------------------------------------------------------------

/// Every line of a successful output contains exactly one pipe more than
/// the table has columns.
pub proof fn lemma_column_count(s: Seq<char>)
    requires
        table_ok(s),
    ensures
        text_lines(table_output(s)).len() == parsed_grid(s).len(),
        forall|i: int|
            0 <= i < text_lines(table_output(s)).len() ==> count_char(
                #[trigger] text_lines(table_output(s))[i],
                '|',
            ) == grid_widths(parsed_grid(s)).len() + 1,
{
    let fg = final_grid(s);
    let n = grid_widths(parsed_grid(s)).len();
    lemma_final_grid_shape(s);
    lemma_render_lines(fg, 0);
    assert(table_output(s) == render_grid(fg));
    assert forall|i: int| 0 <= i < text_lines(table_output(s)).len() implies count_char(
        #[trigger] text_lines(table_output(s))[i],
        '|',
    ) == n + 1 by {
        assert(text_lines(table_output(s))[i] == row_body(fg[i], pad_char(i)));
        lemma_row_body_shape(fg[i], pad_char(i));
        assert(fg[i].len() == n);
    }
}

// ---------------------------------------------------------------------------
// Width invariant
// ---------------------------------------------------------------------------

/// In a successful output, every padded cell's display width equals its
/// column's computed maximum width.
pub proof fn lemma_width_invariant(s: Seq<char>)
    requires
        table_ok(s),
    ensures
        forall|i: int, j: int|
            0 <= i < final_grid(s).len() && 0 <= j < grid_widths(parsed_grid(s)).len()
                ==> text_width(#[trigger] final_grid(s)[i][j]) == grid_widths(parsed_grid(s))[j],
        table_output(s) == render_grid(final_grid(s)),
{
    lemma_final_grid_shape(s);
}

// ---------------------------------------------------------------------------
// Separator shape
// ---------------------------------------------------------------------------

/// A run of `k` dashes.
pub open spec fn dash_run(k: nat) -> Seq<char> {
    Seq::new(k, |t: int| '-')
}

/// The shape of the separator line for the given column widths: dash runs
/// two wider than each column, joined by pipes and bounded by pipes.
pub open spec fn sep_pattern(w: Seq<nat>) -> Seq<char> {
    join_char(
        seq![Seq::<char>::empty()] + w.map_values(|x: nat| dash_run((x + 2) as nat)) + seq![
            Seq::<char>::empty()
        ],
        '|',
    )
}

/// An all-dash text is as wide as it is long.
pub proof fn lemma_all_dash_width(c: Seq<char>)
    requires
        all_dash(c),
    ensures
        text_width(c) == c.len(),
    decreases c.len(),
{
    if c.len() > 0 {
        assert(forall|i: int| 0 <= i < c.drop_first().len() ==> c.drop_first()[i] == c[i + 1]);
        lemma_all_dash_width(c.drop_first());
    }
}

/// The separator row of the final grid: a dash run as wide as each column.
pub proof fn lemma_final_sep_cells(s: Seq<char>)
    requires
        table_ok(s),
    ensures
        forall|j: int|
            0 <= j < grid_widths(parsed_grid(s)).len() ==> #[trigger] final_grid(s)[1][j]
                == dash_run(grid_widths(parsed_grid(s))[j]),
{
    let g = parsed_grid(s);
    let w = grid_widths(g);
    let n = w.len();
    let f = fill_rows(g, n);
    let fg = final_grid(s);
    lemma_final_grid_shape(s);
    assert forall|j: int| 0 <= j < n implies #[trigger] fg[1][j] == dash_run(w[j]) by {
        lemma_row_le_cols(g, 1);
        assert(f[1] == fill_row(g[1], n));
        assert(fg[1] == pad_row(f[1], w, pad_char(1)));
        assert(fg[1][j] == pad_cell(f[1][j], w[j], '-'));
        assert(all_dash(f[1][j])) by {
            if j < g[1].len() {
                assert(f[1][j] == g[1][j]);
                assert(sep_row_ok(g));
            } else {
                assert(f[1][j] =~= Seq::<char>::empty());
            }
        }
        lemma_all_dash_width(f[1][j]);
        if j < g[1].len() {
            lemma_cell_le_col(g, 1, j);
        }
        assert(text_width(f[1][j]) <= w[j]);
        lemma_pad_cell_width(f[1][j], w[j], '-');
        assert(all_dash(fg[1][j])) by {
            let c = f[1][j];
            let run = Seq::new((w[j] - text_width(c)) as nat, |k: int| '-');
            assert(fg[1][j] == c + run);
            assert forall|t: int| 0 <= t < fg[1][j].len() implies fg[1][j][t] == '-' by {
                if t < c.len() {
                    assert((c + run)[t] == c[t]);
                } else {
                    assert((c + run)[t] == run[t - c.len()]);
                }
            }
        }
        lemma_all_dash_width(fg[1][j]);
        assert(fg[1][j].len() == w[j]);
        assert(fg[1][j] =~= dash_run(w[j]));
    }
}

/// The second line of a successful output matches the dash-run pattern of
/// the table's column widths.
pub proof fn lemma_separator_shape(s: Seq<char>)
    requires
        table_ok(s),
    ensures
        text_lines(table_output(s)).len() >= 2,
        text_lines(table_output(s))[1] == sep_pattern(grid_widths(parsed_grid(s))),
{
    let g = parsed_grid(s);
    let w = grid_widths(g);
    let n = w.len();
    let fg = final_grid(s);
    lemma_final_grid_shape(s);
    lemma_final_sep_cells(s);
    lemma_render_lines(fg, 0);
    assert(text_lines(table_output(s))[1] == row_body(fg[1], '-'));
    assert(body_parts(fg[1], '-') =~~= seq![Seq::<char>::empty()] + w.map_values(
        |x: nat| dash_run((x + 2) as nat),
    ) + seq![Seq::<char>::empty()]) by {
        assert forall|j: int| 0 <= j < n implies deco_cell(fg[1][j], '-') =~= dash_run(
            (w[j] + 2) as nat,
        ) by {
            assert(fg[1][j] == dash_run(w[j]));
        }
        assert(fg[1].len() == n);
    }
    assert(row_body(fg[1], '-') == sep_pattern(w));
}

// ---------------------------------------------------------------------------
// Document passthrough
// ---------------------------------------------------------------------------

/// Every line from `i` on, copied through with a newline after each.
pub open spec fn concat_lines(ls: Seq<Seq<char>>, i: int) -> Seq<char>
    decreases ls.len() - i,
{
    if i < 0 || i >= ls.len() {
        Seq::empty()
    } else {
        ls[i] + seq!['\n'] + concat_lines(ls, i + 1)
    }
}

/// With no candidate line anywhere, the scanner copies everything through.
pub proof fn lemma_pieces_verbatim(ls: Seq<Seq<char>>, i: int)
    requires
        0 <= i <= ls.len(),
        forall|t: int| 0 <= t < ls.len() ==> !line_candidate(#[trigger] ls[t]),
    ensures
        doc_pieces(ls, i) == concat_lines(ls, i),
    decreases ls.len() - i,
{
    if i < ls.len() {
        lemma_pieces_verbatim(ls, i + 1);
    }
}

/// Copying each line with its newline is the join plus a trailing newline.
proof fn lemma_concat_skip(ls: Seq<Seq<char>>, i: int)
    requires
        1 <= i <= ls.len(),
    ensures
        concat_lines(ls, i) == concat_lines(ls.drop_first(), i - 1),
    decreases ls.len() - i,
{
    if i < ls.len() {
        lemma_concat_skip(ls, i + 1);
        assert(ls.drop_first()[i - 1] == ls[i]);
    }
}

/// The verbatim copy of all lines is their join, newline-terminated.
proof fn lemma_concat_join(ls: Seq<Seq<char>>)
    ensures
        ls.len() == 0 ==> concat_lines(ls, 0) == Seq::<char>::empty(),
        ls.len() > 0 ==> concat_lines(ls, 0) == join_char(ls, '\n') + seq!['\n'],
    decreases ls.len(),
{
    if ls.len() == 1 {
        assert(concat_lines(ls, 1) == Seq::<char>::empty());
        assert(ls[0] + seq!['\n'] + Seq::<char>::empty() =~= ls[0] + seq!['\n']);
    } else if ls.len() > 1 {
        lemma_concat_join(ls.drop_first());
        lemma_concat_skip(ls, 1);
        assert(concat_lines(ls, 0) == ls[0] + seq!['\n'] + concat_lines(ls.drop_first(), 0));
        assert(join_char(ls, '\n') == ls[0] + seq!['\n'] + join_char(ls.drop_first(), '\n'));
        assert(ls[0] + seq!['\n'] + (join_char(ls.drop_first(), '\n') + seq!['\n']) =~= (ls[0]
            + seq!['\n'] + join_char(ls.drop_first(), '\n')) + seq!['\n']);
    }
}

/// A document none of whose lines is a candidate passes through unchanged.
pub proof fn lemma_document_verbatim(d: Seq<char>)
    requires
        forall|t: int|
            0 <= t < text_lines(d).len() ==> !line_candidate(#[trigger] text_lines(d)[t]),
    ensures
        document_output(d) == d,
{
    let ls = text_lines(d);
    lemma_pieces_verbatim(ls, 0);
    lemma_concat_join(ls);
    let o = doc_pieces(ls, 0);
    if d.len() == 0 {
        assert(o == Seq::<char>::empty());
        assert(document_output(d) =~= d);
    } else if d.last() == '\n' {
        lemma_split_basic(d.drop_last(), '\n');
        lemma_join_split(d.drop_last(), '\n');
        assert(ls.len() >= 1);
        assert(o == d.drop_last() + seq!['\n']);
        assert(o =~= d);
        assert(ends_newline(d));
    } else {
        lemma_split_basic(d, '\n');
        lemma_join_split(d, '\n');
        assert(ls.len() >= 1);
        assert(o == d + seq!['\n']);
        assert(ends_newline(o));
        assert(!ends_newline(d));
        assert(o.drop_last() =~= d);
    }
}

/// A document containing no pipe character at all passes through unchanged.
pub proof fn lemma_document_passthrough(d: Seq<char>)
    requires
        forall|i: int| 0 <= i < d.len() ==> d[i] != '|',
    ensures
        document_output(d) == d,
{
    let ls = text_lines(d);
    assert(!d.contains('|')) by {
        if d.contains('|') {
            let w = choose|w: int| 0 <= w < d.len() && #[trigger] d[w] == '|';
        }
    }
    assert forall|t: int| 0 <= t < ls.len() implies !line_candidate(#[trigger] ls[t]) by {
        let l = ls[t];
        assert(!l.contains('|')) by {
            if d.len() == 0 {
            } else if d.last() == '\n' {
                lemma_split_chars(d.drop_last(), '\n');
                if l.contains('|') {
                    assert(d.drop_last().contains('|'));
                    let w = choose|w: int|
                        0 <= w < d.drop_last().len() && #[trigger] d.drop_last()[w] == '|';
                    assert(d[w] == '|');
                }
            } else {
                lemma_split_chars(d, '\n');
            }
        }
        if trimmed(l).len() > 0 && trimmed(l)[0] == '|' {
            lemma_trimmed_props(l);
            assert(trimmed(l).contains('|'));
        }
    }
    lemma_document_verbatim(d);
}

/// A fenced-code delimiter line is never a table candidate, and the scanner
/// copies any non-candidate line through unchanged, scanning on from the
/// very next line.
pub proof fn lemma_fence_line_preserved(ls: Seq<Seq<char>>, i: int)
    requires
        0 <= i < ls.len(),
        fence_line(ls[i]),
    ensures
        !line_candidate(ls[i]),
        doc_pieces(ls, i) == ls[i] + seq!['\n'] + doc_pieces(ls, i + 1),
{
    assert(trimmed(ls[i])[0] == '`');
}

/// The lines `i..k`, each copied through with its newline.
pub open spec fn copied_lines(ls: Seq<Seq<char>>, i: int, k: int) -> Seq<char>
    decreases k - i,
{
    if i < 0 || i >= k || i >= ls.len() {
        Seq::empty()
    } else {
        ls[i] + seq!['\n'] + copied_lines(ls, i + 1, k)
    }
}

/// A run of lines none of which starts a formattable table — each either no
/// candidate at all, or a candidate whose block fails to format — is copied
/// through verbatim, line by line, and scanning resumes right after it.
pub proof fn lemma_failed_run_verbatim(ls: Seq<Seq<char>>, i: int, k: int)
    requires
        0 <= i <= k <= ls.len(),
        forall|j: int|
            i <= j < k ==> (!line_candidate(#[trigger] ls[j]) || !table_ok(span_block(ls, j))),
    ensures
        doc_pieces(ls, i) == copied_lines(ls, i, k) + doc_pieces(ls, k),
    decreases k - i,
{
    if i < k {
        lemma_failed_run_verbatim(ls, i + 1, k);
        assert(doc_pieces(ls, i) == ls[i] + seq!['\n'] + doc_pieces(ls, i + 1));
        assert(ls[i] + seq!['\n'] + (copied_lines(ls, i + 1, k) + doc_pieces(ls, k)) =~= (ls[i]
            + seq!['\n'] + copied_lines(ls, i + 1, k)) + doc_pieces(ls, k));
    } else {
        assert(copied_lines(ls, i, k) + doc_pieces(ls, k) =~= doc_pieces(ls, k));
    }
}

/// A fenced block whose enclosed pipe-looking lines do not themselves make
/// a well-formed table is never reinterpreted: the two fence delimiter
/// lines and every enclosed line appear verbatim, in order, in the
/// scanner's output. (The guarantee rests on each enclosed block failing to
/// format; the scanner keeps no fence state, so a complete valid table
/// between fences would still be formatted.)
pub proof fn lemma_fenced_block_preserved(ls: Seq<Seq<char>>, a: int, b: int)
    requires
        0 <= a < b < ls.len(),
        fence_line(ls[a]),
        fence_line(ls[b]),
        forall|j: int| #![trigger span_block(ls, j)] a < j < b ==> !table_ok(span_block(ls, j)),
    ensures
        doc_pieces(ls, a) == copied_lines(ls, a, b + 1) + doc_pieces(ls, b + 1),
{
    lemma_fence_line_preserved(ls, a);
    lemma_fence_line_preserved(ls, b);
    assert forall|j: int| a <= j < b + 1 implies (!line_candidate(#[trigger] ls[j]) || !table_ok(
        span_block(ls, j),
    )) by {
        if a < j < b {
            assert(!table_ok(span_block(ls, j)));
        }
    }
    lemma_failed_run_verbatim(ls, a, b + 1);
}

// ---------------------------------------------------------------------------
// Idempotence: alignment is a fixed point
// ---------------------------------------------------------------------------

/// A grid of uniform row length has that many columns.
proof fn lemma_cols_uniform(g: Seq<Seq<Seq<char>>>, n: nat)
    requires
        forall|i: int| 0 <= i < g.len() ==> (#[trigger] g[i]).len() == n,
    ensures
        g.len() > 0 ==> grid_cols(g) == n,
        g.len() == 0 ==> grid_cols(g) == 0,
    decreases g.len(),
{
    if g.len() > 0 {
        assert forall|i: int| 0 <= i < g.drop_first().len() implies (
        #[trigger] g.drop_first()[i]).len() == n by {
            assert(g.drop_first()[i] == g[i + 1]);
        }
        lemma_cols_uniform(g.drop_first(), n);
    }
}

/// A bound on every cell of a column bounds the column's width.
proof fn lemma_col_width_ub(g: Seq<Seq<Seq<char>>>, j: int, b: nat)
    requires
        forall|i: int|
            0 <= i < g.len() && 0 <= j < (#[trigger] g[i]).len() ==> text_width(g[i][j]) <= b,
    ensures
        col_width(g, j) <= b,
    decreases g.len(),
{
    if g.len() > 0 {
        assert forall|i: int|
            0 <= i < g.drop_first().len() && 0 <= j < (#[trigger] g.drop_first()[i]).len()
            implies text_width(g.drop_first()[i][j]) <= b by {
            assert(g.drop_first()[i] == g[i + 1]);
        }
        lemma_col_width_ub(g.drop_first(), j, b);
    }
}

/// A column's width is zero or the width of one of its cells.
proof fn lemma_col_width_attained(g: Seq<Seq<Seq<char>>>, j: int)
    ensures
        col_width(g, j) == 0 || exists|i: int|
            0 <= i < g.len() && 0 <= j < (#[trigger] g[i]).len() && text_width(g[i][j])
                == col_width(g, j),
    decreases g.len(),
{
    if g.len() > 0 {
        lemma_col_width_attained(g.drop_first(), j);
        let hd: nat = if 0 <= j < g[0].len() {
            text_width(g[0][j])
        } else {
            0
        };
        let tl = col_width(g.drop_first(), j);
        if col_width(g, j) != 0 {
            if hd >= tl {
                assert(0 <= j < g[0].len() && text_width(g[0][j]) == col_width(g, j));
            } else {
                let i = choose|i: int|
                    0 <= i < g.drop_first().len() && 0 <= j < (#[trigger] g.drop_first()[i]).len()
                        && text_width(g.drop_first()[i][j]) == tl;
                assert(g[i + 1] == g.drop_first()[i]);
                assert(0 <= j < g[i + 1].len() && text_width(g[i + 1][j]) == col_width(g, j));
            }
        }
    }
}

/// Filling rows with empty cells leaves every column width unchanged.
proof fn lemma_fill_col_width(g: Seq<Seq<Seq<char>>>, n: nat, j: int)
    requires
        forall|i: int| 0 <= i < g.len() ==> (#[trigger] g[i]).len() <= n,
    ensures
        col_width(fill_rows(g, n), j) == col_width(g, j),
    decreases g.len(),
{
    let f = fill_rows(g, n);
    if g.len() > 0 {
        assert forall|i: int| 0 <= i < g.drop_first().len() implies (
        #[trigger] g.drop_first()[i]).len() <= n by {
            assert(g.drop_first()[i] == g[i + 1]);
        }
        lemma_fill_col_width(g.drop_first(), n, j);
        assert(f.drop_first() =~~= fill_rows(g.drop_first(), n));
        assert(f[0] == fill_row(g[0], n));
        if 0 <= j < f[0].len() {
            if j < g[0].len() {
                assert(f[0][j] == g[0][j]);
            } else {
                assert(f[0][j] =~= Seq::<char>::empty());
                assert(text_width(f[0][j]) == 0);
            }
        }
    } else {
        assert(f =~~= Seq::<Seq<Seq<char>>>::empty());
    }
}

/// Filling rows that are already full changes nothing.
proof fn lemma_fill_noop(g: Seq<Seq<Seq<char>>>, n: nat)
    requires
        forall|i: int| 0 <= i < g.len() ==> (#[trigger] g[i]).len() == n,
    ensures
        fill_rows(g, n) == g,
{
    assert forall|i: int| 0 <= i < g.len() implies #[trigger] fill_rows(g, n)[i] == g[i] by {
        assert(fill_rows(g, n)[i] == fill_row(g[i], n));
        assert(fill_row(g[i], n) =~~= g[i]);
    }
    assert(fill_rows(g, n) =~~= g);
}

/// Widths of a grid whose rows are bracketed by empty boundary cells.
proof fn lemma_border_widths(a: Seq<Seq<Seq<char>>>, b: Seq<Seq<Seq<char>>>, n: nat)
    requires
        a.len() == b.len(),
        forall|i: int| 0 <= i < a.len() ==> (#[trigger] a[i]).len() == n,
        forall|i: int|
            0 <= i < b.len() ==> #[trigger] b[i] == seq![Seq::<char>::empty()] + a[i] + seq![
                Seq::<char>::empty()
            ],
    ensures
        forall|j: int| 1 <= j <= n ==> #[trigger] col_width(b, j) == col_width(a, j - 1),
        col_width(b, 0) == 0,
        col_width(b, n + 1 as int) == 0,
    decreases a.len(),
{
    if a.len() > 0 {
        assert forall|i: int| 0 <= i < a.drop_first().len() implies (
        #[trigger] a.drop_first()[i]).len() == n by {
            assert(a.drop_first()[i] == a[i + 1]);
        }
        assert forall|i: int| 0 <= i < b.drop_first().len() implies #[trigger] b.drop_first()[i]
            == seq![Seq::<char>::empty()] + a.drop_first()[i] + seq![Seq::<char>::empty()] by {
            assert(b.drop_first()[i] == b[i + 1]);
            assert(a.drop_first()[i] == a[i + 1]);
        }
        lemma_border_widths(a.drop_first(), b.drop_first(), n);
        assert(b[0] == seq![Seq::<char>::empty()] + a[0] + seq![Seq::<char>::empty()]);
        assert(b[0].len() == n + 2);
        assert(b[0][0] =~= Seq::<char>::empty());
        assert(b[0][n + 1 as int] =~= Seq::<char>::empty());
        assert(text_width(Seq::<char>::empty()) == 0);
        assert forall|j: int| 1 <= j <= n implies #[trigger] col_width(b, j) == col_width(
            a,
            j - 1,
        ) by {
            assert(b[0][j] == a[0][j - 1]);
            assert(col_width(b.drop_first(), j) == col_width(a.drop_first(), j - 1));
            assert(col_width(b, j) == crate::table::max_nat(
                text_width(b[0][j]),
                col_width(b.drop_first(), j),
            ));
            assert(col_width(a, j - 1) == crate::table::max_nat(
                text_width(a[0][j - 1]),
                col_width(a.drop_first(), j - 1),
            ));
        }
        assert(col_width(b, 0) == crate::table::max_nat(
            text_width(b[0][0]),
            col_width(b.drop_first(), 0),
        ));
        assert(col_width(b, n + 1 as int) == crate::table::max_nat(
            text_width(b[0][n + 1 as int]),
            col_width(b.drop_first(), n + 1 as int),
        ));
    }
}

/// Widths of a grid whose rows carry one trailing empty boundary cell.
proof fn lemma_tail_widths(a: Seq<Seq<Seq<char>>>, b: Seq<Seq<Seq<char>>>, n: nat)
    requires
        a.len() == b.len(),
        forall|i: int| 0 <= i < a.len() ==> (#[trigger] a[i]).len() == n,
        forall|i: int|
            0 <= i < b.len() ==> #[trigger] b[i] == a[i] + seq![Seq::<char>::empty()],
    ensures
        forall|j: int| 0 <= j < n ==> #[trigger] col_width(b, j) == col_width(a, j),
        col_width(b, n as int) == 0,
    decreases a.len(),
{
    if a.len() > 0 {
        assert forall|i: int| 0 <= i < a.drop_first().len() implies (
        #[trigger] a.drop_first()[i]).len() == n by {
            assert(a.drop_first()[i] == a[i + 1]);
        }
        assert forall|i: int| 0 <= i < b.drop_first().len() implies #[trigger] b.drop_first()[i]
            == a.drop_first()[i] + seq![Seq::<char>::empty()] by {
            assert(b.drop_first()[i] == b[i + 1]);
            assert(a.drop_first()[i] == a[i + 1]);
        }
        lemma_tail_widths(a.drop_first(), b.drop_first(), n);
        assert(b[0] == a[0] + seq![Seq::<char>::empty()]);
        assert(b[0].len() == n + 1);
        assert(b[0][n as int] =~= Seq::<char>::empty());
        assert(text_width(Seq::<char>::empty()) == 0);
        assert forall|j: int| 0 <= j < n implies #[trigger] col_width(b, j) == col_width(
            a,
            j,
        ) by {
            assert(b[0][j] == a[0][j]);
            assert(col_width(b.drop_first(), j) == col_width(a.drop_first(), j));
            assert(col_width(b, j) == crate::table::max_nat(
                text_width(b[0][j]),
                col_width(b.drop_first(), j),
            ));
            assert(col_width(a, j) == crate::table::max_nat(
                text_width(a[0][j]),
                col_width(a.drop_first(), j),
            ));
        }
        assert(col_width(b, n as int) == crate::table::max_nat(
            text_width(b[0][n as int]),
            col_width(b.drop_first(), n as int),
        ));
    }
}

/// Retained lines, when every line contains a pipe, are all the lines.
proof fn lemma_pipe_lines_all(ls: Seq<Seq<char>>)
    requires
        forall|t: int| 0 <= t < ls.len() ==> (#[trigger] ls[t]).contains('|'),
    ensures
        pipe_lines(ls) == ls,
    decreases ls.len(),
{
    if ls.len() > 0 {
        assert forall|t: int| 0 <= t < ls.drop_first().len() implies (
        #[trigger] ls.drop_first()[t]).contains('|') by {
            assert(ls.drop_first()[t] == ls[t + 1]);
        }
        lemma_pipe_lines_all(ls.drop_first());
        assert(pipe_lines(ls) =~~= ls);
    }
}

/// Trimming a cell wrapped in a space and space padding recovers the cell.
proof fn lemma_trim_wrapped(c: Seq<char>, m: nat)
    requires
        c.len() == 0 || (!is_blank(c[0]) && !is_blank(c.last())),
    ensures
        trimmed(seq![' '] + c + Seq::new(m, |t: int| ' ')) == c,
{
    let run = Seq::new(m, |t: int| ' ');
    let s = seq![' '] + c + run;
    assert(is_blank(s[0]));
    assert(crate::text::trim_front(s) == crate::text::trim_front(s.drop_first()));
    assert(s.drop_first() =~= c + run);
    if c.len() == 0 {
        assert(c + run =~= run);
        assert(forall|i: int| 0 <= i < run.len() ==> is_blank(#[trigger] run[i]));
        crate::text::lemma_trim_front_skip(run, run.len() as int);
        assert(run.skip(run.len() as int) =~= Seq::<char>::empty());
        assert(crate::text::trim_front(run) == Seq::<char>::empty());
        assert(crate::text::trim_back(Seq::<char>::empty()) =~= Seq::<char>::empty());
        assert(trimmed(s) =~= c);
    } else {
        assert((c + run)[0] == c[0]);
        crate::text::lemma_trim_front_noop(c + run);
        assert(forall|i: int| c.len() <= i < (c + run).len() ==> is_blank(#[trigger] (c + run)[i]));
        crate::text::lemma_trim_back_take(c + run, c.len() as int);
        assert((c + run).take(c.len() as int) =~= c);
        crate::text::lemma_trim_back_noop(c);
    }
}

/// A cell is a normalization result: if it is a non-empty dash run, it is
/// the single dash.
pub open spec fn normed_cell(c: Seq<char>) -> bool {
    (c.len() > 0 && all_dash(c)) ==> c == seq!['-']
}

/// In a table that validates, every separator-row cell is the single dash.
proof fn lemma_parsed_sep_single(s: Seq<char>)
    requires
        table_ok(s),
    ensures
        forall|j: int|
            0 <= j < parsed_grid(s)[1].len() ==> #[trigger] parsed_grid(s)[1][j] == seq!['-'],
{
    let raw = raw_grid(s);
    let g = parsed_grid(s);
    assert(raw.len() == pipe_lines(text_lines(s)).len());
    assert(g.len() >= 2);
    assert forall|j: int| 0 <= j < raw[1].len() implies normed_cell(#[trigger] raw[1][j]) by {
        let l = pipe_lines(text_lines(s))[1];
        assert(raw.len() == edge_trimmed(raw).len()) by {
            let w = grid_widths(raw);
            if w.len() != 0 {
                let g1 = if w[0] == 0 {
                    crate::table::drop_lead_col(raw)
                } else {
                    raw
                };
                assert(g1.len() == raw.len());
            }
        }
        assert(raw[1] == sep_cells(l));
        assert(raw[1][j] == crate::table::norm_dash_cell(row_cells(l)[j]));
    }
    let w = grid_widths(raw);
    assert forall|j: int| 0 <= j < g[1].len() implies #[trigger] g[1][j] == seq!['-'] by {
        assert(normed_cell(g[1][j])) by {
            if w.len() == 0 {
            } else {
                let g1 = if w[0] == 0 {
                    crate::table::drop_lead_col(raw)
                } else {
                    raw
                };
                if w[0] == 0 {
                    assert(g1[1] == if raw[1].len() > 0 {
                        raw[1].drop_first()
                    } else {
                        raw[1]
                    });
                }
                let w1 = grid_widths(g1);
                if w1.len() > 0 && w1[w1.len() - 1] == 0 {
                    assert(g[1] == if g1[1].len() == w1.len() {
                        g1[1].drop_last()
                    } else {
                        g1[1]
                    });
                } else {
                    assert(g[1] == g1[1]);
                }
                if w[0] == 0 {
                    if raw[1].len() > 0 {
                        assert(g[1][j] == raw[1][j + 1]);
                    } else {
                        assert(g[1][j] == raw[1][j]);
                    }
                } else {
                    assert(g[1][j] == raw[1][j]);
                }
            }
        }
        assert(sep_row_ok(g));
        assert(g[1][j].len() > 0 && all_dash(g[1][j]));
    }
}

/// A row of single dashes, one per column.
pub open spec fn dash_row(n: nat) -> Seq<Seq<char>> {
    Seq::new(n, |j: int| seq!['-'])
}

/// The filled grid with the separator row renormalized to single dashes:
/// what re-parsing a rendered table recovers.
pub open spec fn renorm_grid(s: Seq<char>) -> Seq<Seq<Seq<char>>> {
    let g = parsed_grid(s);
    let n = grid_widths(g).len();
    fill_rows(g, n).update(1, dash_row(n))
}

/// Re-parsing a successful output with no zero-width column recovers the
/// renormalized filled grid, with the same column widths.
proof fn lemma_reparse(s: Seq<char>)
    requires
        table_ok(s),
        forall|j: int|
            0 <= j < grid_widths(parsed_grid(s)).len() ==> #[trigger] grid_widths(
                parsed_grid(s),
            )[j] >= 1,
    ensures
        text_lines(table_output(s)).len() == parsed_grid(s).len(),
        pipe_lines(text_lines(table_output(s))) == text_lines(table_output(s)),
        parsed_grid(table_output(s)) == renorm_grid(s),
        grid_cols(renorm_grid(s)) == grid_widths(parsed_grid(s)).len(),
        forall|j: int|
            0 <= j < grid_widths(parsed_grid(s)).len() ==> #[trigger] col_width(
                renorm_grid(s),
                j,
            ) == grid_widths(parsed_grid(s))[j],
{
    let g = parsed_grid(s);
    let w = grid_widths(g);
    let n = w.len();
    let m = g.len();
    let f = fill_rows(g, n);
    let f2 = renorm_grid(s);
    let fg = final_grid(s);
    let out = table_output(s);
    lemma_final_grid_shape(s);
    lemma_final_sep_cells(s);
    lemma_parsed_sep_single(s);
    lemma_raw_grid_tidy(s);
    lemma_edge_trimmed_tidy(raw_grid(s));
    lemma_fill_rows_tidy(g, n);
    assert(n >= 1) by {
        lemma_row_le_cols(g, 1);
        assert(g[1].len() > 0);
    }
    assert(m >= 2);
    // Rows of f and f2 are uniformly n long.
    assert forall|i: int| 0 <= i < m implies (#[trigger] f[i]).len() == n by {
        lemma_row_le_cols(g, i);
        assert(f[i] == fill_row(g[i], n));
    }
    assert(f2.len() == m);
    assert forall|i: int| 0 <= i < m implies (#[trigger] f2[i]).len() == n by {
        if i != 1 {
            assert(f2[i] == f[i]);
        } else {
            assert(f2[1] == dash_row(n));
        }
    }
    // The output's lines are the rendered row bodies, and all contain a pipe.
    lemma_render_lines(fg, 0);
    let bodies = text_lines(out);
    assert(bodies.len() == m);
    assert forall|i: int| 0 <= i < m implies (#[trigger] bodies[i]).contains('|') by {
        lemma_row_body_shape(fg[i], pad_char(i));
        assert(bodies[i] == row_body(fg[i], pad_char(i)));
    }
    lemma_pipe_lines_all(bodies);
    // Re-splitting each body recovers its decorated cells.
    assert forall|i: int| 0 <= i < m implies #[trigger] raw_grid(out)[i] == seq![
        Seq::<char>::empty()
    ] + f2[i] + seq![Seq::<char>::empty()] by {
        let p = pad_char(i);
        let parts = body_parts(fg[i], p);
        assert(bodies[i] == row_body(fg[i], p));
        assert(parts.len() == n + 2);
        assert forall|k: int| 0 <= k < parts.len() implies !(#[trigger] parts[k]).contains(
            '|',
        ) by {
            if k == 0 || k == parts.len() - 1 {
                if parts[k].contains('|') {
                    let t = parts[k];
                    let u = choose|u: int| 0 <= u < t.len() && #[trigger] t[u] == '|';
                }
            } else {
                let c = fg[i][k - 1];
                assert(parts[k] == deco_cell(c, p));
                if parts[k].contains('|') {
                    let t = parts[k];
                    let u = choose|u: int| 0 <= u < t.len() && #[trigger] t[u] == '|';
                    if 1 <= u < c.len() + 1 {
                        assert(c[u - 1] == '|');
                        assert(c.contains('|'));
                    }
                }
            }
        }
        crate::text::lemma_split_join(parts, '|');
        assert(bodies[i] == join_char(parts, '|'));
        assert(split_at_char(bodies[i], '|') == parts);
        let cells = row_cells(bodies[i]);
        assert(cells.len() == n + 2);
        assert(fg[i] == pad_row(f[i], w, p));
        if i != 1 {
            assert forall|k: int| 0 <= k < n + 2 implies #[trigger] cells[k] == (seq![
                Seq::<char>::empty()
            ] + f2[i] + seq![Seq::<char>::empty()])[k] by {
                assert(cells[k] == trimmed(parts[k]));
                if k == 0 || k == n + 1 {
                    assert(parts[k].len() == 0);
                    assert(trimmed(Seq::<char>::empty()) =~= Seq::<char>::empty());
                } else {
                    let j = k - 1;
                    let fc = f[i][j];
                    assert(parts[k] == deco_cell(fg[i][j], p));
                    assert(fg[i][j] == pad_cell(fc, w[j], ' '));
                    assert(text_width(fc) <= w[j]) by {
                        if j < g[i].len() {
                            assert(fc == g[i][j]);
                            lemma_cell_le_col(g, i, j);
                        } else {
                            assert(fc =~= Seq::<char>::empty());
                            assert(text_width(fc) == 0);
                        }
                    }
                    let k1 = (w[j] - text_width(fc)) as nat;
                    assert(fg[i][j] == fc + Seq::new(k1, |t: int| ' '));
                    assert(deco_cell(fg[i][j], ' ') =~= seq![' '] + fc + Seq::new(
                        (k1 + 1) as nat,
                        |t: int| ' ',
                    ));
                    assert(tidy_cell(fc));
                    lemma_trim_wrapped(fc, (k1 + 1) as nat);
                    assert(cells[k] == fc);
                    assert(f2[i][j] == fc);
                }
            }
            assert(raw_grid(out)[i] == cells);
            assert(cells =~~= seq![Seq::<char>::empty()] + f2[i] + seq![Seq::<char>::empty()]);
        } else {
            // The separator line's cells are dash runs, renormalized on parse.
            assert forall|k: int| 0 <= k < n + 2 implies #[trigger] cells[k] == (seq![
                Seq::<char>::empty()
            ] + Seq::new(n, |j: int| dash_run((w[j] + 2) as nat)) + seq![Seq::<char>::empty()])[k]
                by {
                assert(cells[k] == trimmed(parts[k]));
                if k == 0 || k == n + 1 {
                    assert(parts[k].len() == 0);
                    assert(trimmed(Seq::<char>::empty()) =~= Seq::<char>::empty());
                } else {
                    let j = k - 1;
                    assert(parts[k] == deco_cell(fg[1][j], p));
                    assert(fg[1][j] == dash_run(w[j]));
                    let d = deco_cell(fg[1][j], '-');
                    assert(d =~= dash_run((w[j] + 2) as nat));
                    assert(all_dash(d));
                    assert(d.len() >= 2);
                    assert(d[0] == '-' && d.last() == '-');
                    assert(!is_blank(d[0]) && !is_blank(d.last()));
                    crate::text::lemma_trimmed_noop(d);
                    assert(cells[k] == d);
                }
            }
            let sc = sep_cells(bodies[1]);
            assert(raw_grid(out)[1] == sc);
            assert forall|k: int| 0 <= k < n + 2 implies #[trigger] sc[k] == (seq![
                Seq::<char>::empty()
            ] + f2[1] + seq![Seq::<char>::empty()])[k] by {
                assert(sc[k] == crate::table::norm_dash_cell(cells[k]));
                if k == 0 || k == n + 1 {
                    assert(cells[k] =~= Seq::<char>::empty());
                    assert(crate::table::norm_dash_cell(Seq::<char>::empty())
                        == Seq::<char>::empty());
                } else {
                    let d = dash_run((w[k - 1] + 2) as nat);
                    assert(cells[k] == d);
                    assert(d.len() > 0 && all_dash(d));
                    assert(sc[k] == seq!['-']);
                    assert(f2[1] == dash_row(n));
                    assert(f2[1][k - 1] == seq!['-']);
                }
            }
            assert(sc =~~= seq![Seq::<char>::empty()] + f2[1] + seq![Seq::<char>::empty()]);
        }
    }
    // Widths of the re-parsed bordered grid.
    let braw = raw_grid(out);
    assert(braw.len() == m);
    lemma_border_widths(f2, braw, n);
    lemma_cols_uniform(braw, (n + 2) as nat);
    // Column widths of f2 equal the original widths.
    assert forall|j: int| 0 <= j < n implies #[trigger] col_width(f2, j) == w[j] by {
        assert forall|i: int| 0 <= i < m && 0 <= j < (#[trigger] f2[i]).len() implies text_width(
            f2[i][j],
        ) <= w[j] by {
            if i == 1 {
                assert(f2[1][j] == seq!['-']);
                assert(text_width(seq!['-']) == 1) by {
                    assert(seq!['-'].drop_first() =~= Seq::<char>::empty());
                    assert(text_width(Seq::<char>::empty()) == 0);
                    assert(char_width('-') == 1);
                }
            } else {
                assert(f2[i] == f[i]);
                lemma_cell_le_col(f, i, j);
                assert(col_width(f, j) == col_width(g, j)) by {
                    assert forall|t: int| 0 <= t < g.len() implies (#[trigger] g[t]).len()
                        <= n by {
                        lemma_row_le_cols(g, t);
                    }
                    lemma_fill_col_width(g, n, j);
                }
            }
        }
        lemma_col_width_ub(f2, j, w[j]);
        // Lower bound: the original maximum is still attained.
        assert forall|t: int| 0 <= t < g.len() implies (#[trigger] g[t]).len() <= n by {
            lemma_row_le_cols(g, t);
        }
        lemma_fill_col_width(g, n, j);
        lemma_col_width_attained(f, j);
        assert(col_width(f, j) == w[j]);
        if w[j] == 0 {
        } else {
            let i = choose|i: int|
                0 <= i < f.len() && 0 <= j < (#[trigger] f[i]).len() && text_width(f[i][j])
                    == col_width(f, j);
            if i != 1 {
                assert(f2[i][j] == f[i][j]);
                lemma_cell_le_col(f2, i, j);
            } else {
                assert(text_width(f[1][j]) == w[j]);
                assert(text_width(f[1][j]) <= 1) by {
                    if j < g[1].len() {
                        assert(f[1][j] == g[1][j]);
                        assert(g[1][j] == seq!['-']);
                        assert(text_width(seq!['-']) == 1) by {
                            assert(seq!['-'].drop_first() =~= Seq::<char>::empty());
                        }
                    } else {
                        assert(f[1][j] =~= Seq::<char>::empty());
                    }
                }
                assert(w[j] == 1);
                assert(f2[1][j] == seq!['-']);
                assert(text_width(seq!['-']) == 1) by {
                    assert(seq!['-'].drop_first() =~= Seq::<char>::empty());
                }
                lemma_cell_le_col(f2, 1, j);
            }
        }
    }
    // Edge trimming peels the two boundary columns and nothing else.
    let wb = grid_widths(braw);
    assert(wb.len() == n + 2);
    assert(wb[0] == col_width(braw, 0));
    assert(wb[0] == 0);
    let g1 = crate::table::drop_lead_col(braw);
    assert forall|i: int| 0 <= i < m implies #[trigger] g1[i] == f2[i] + seq![
        Seq::<char>::empty()
    ] by {
        assert(braw[i].len() == n + 2);
        assert(g1[i] == braw[i].drop_first());
        assert(braw[i].drop_first() =~~= f2[i] + seq![Seq::<char>::empty()]);
    }
    lemma_tail_widths(f2, g1, n);
    lemma_cols_uniform(g1, (n + 1) as nat);
    let w1 = grid_widths(g1);
    assert(w1.len() == n + 1);
    assert(w1[n as int] == col_width(g1, n as int));
    assert(w1[n as int] == 0);
    let g2 = crate::table::drop_tail_col(g1, (n + 1) as int);
    assert forall|i: int| 0 <= i < m implies #[trigger] g2[i] == f2[i] by {
        assert(g1[i].len() == n + 1);
        assert(g2[i] == g1[i].drop_last());
        assert(g1[i].drop_last() =~~= f2[i]);
    }
    assert(parsed_grid(out) == edge_trimmed(braw));
    assert(edge_trimmed(braw) == g2);
    assert(g2 =~~= f2);
    lemma_cols_uniform(f2, n);
}

/// Alignment is a fixed point: re-formatting a formatted table yields the
/// very same text. This holds whenever the first format succeeds and no
/// column came out zero columns wide; a zero-width column's separator cell
/// gains a dash on re-parsing, which widens that column the second time.
pub proof fn lemma_format_idempotent(s: Seq<char>)
    requires
        table_ok(s),
        forall|j: int|
            0 <= j < grid_widths(parsed_grid(s)).len() ==> #[trigger] grid_widths(
                parsed_grid(s),
            )[j] >= 1,
    ensures
        table_ok(table_output(s)),
        table_output(table_output(s)) == table_output(s),
{
    let g = parsed_grid(s);
    let w = grid_widths(g);
    let n = w.len();
    let m = g.len();
    let f = fill_rows(g, n);
    let f2 = renorm_grid(s);
    let fg = final_grid(s);
    let out = table_output(s);
    lemma_final_grid_shape(s);
    lemma_final_sep_cells(s);
    lemma_parsed_sep_single(s);
    lemma_reparse(s);
    assert(n >= 1) by {
        lemma_row_le_cols(g, 1);
        assert(g[1].len() > 0);
    }
    assert forall|i: int| 0 <= i < m implies (#[trigger] f[i]).len() == n by {
        lemma_row_le_cols(g, i);
        assert(f[i] == fill_row(g[i], n));
    }
    // The output has a non-blank first character, so it does not trim away.
    assert(trimmed(out).len() > 0) by {
        lemma_render_lines(fg, 0);
        lemma_row_body_shape(fg[0], pad_char(0));
        let parts = body_parts(fg[0], pad_char(0));
        assert(parts.len() >= 2);
        let body = row_body(fg[0], pad_char(0));
        assert(body == parts[0] + seq!['|'] + join_char(parts.drop_first(), '|'));
        assert(parts[0].len() == 0);
        assert(body[0] == '|');
        assert(render_from(fg, 0) == render_row(fg[0], pad_char(0)) + render_from(fg, 1));
        assert(out[0] == body[0]);
        assert(!is_blank('|'));
        crate::text::lemma_trimmed_nonempty(out, 0);
    }
    // The re-parsed grid validates.
    let w2 = grid_widths(f2);
    assert(w2.len() == n);
    assert forall|j: int| 0 <= j < n implies #[trigger] w2[j] == w[j] by {
        assert(w2[j] == col_width(f2, j));
    }
    assert(table_ok(out)) by {
        assert(pipe_lines(text_lines(out)).len() == m > 0);
        assert(parsed_grid(out).len() == m >= 2);
        assert(crate::table::size_ok(parsed_grid(out).len(), grid_widths(parsed_grid(out)).len()))
            by {
            assert(grid_widths(parsed_grid(out)).len() == n);
            assert(crate::table::size_ok(m, n));
        }
        assert(sep_row_ok(parsed_grid(out))) by {
            assert(parsed_grid(out)[1] == dash_row(n));
            assert(dash_row(n).len() == n >= 1);
            assert forall|j: int| 0 <= j < n implies ((#[trigger] dash_row(n)[j]).len() > 0
                && all_dash(dash_row(n)[j])) by {
                assert(dash_row(n)[j] == seq!['-']);
            }
        }
    }
    // The second pass pads the same grid to the same widths.
    assert(fill_rows(f2, n) == f2) by {
        assert forall|i: int| 0 <= i < f2.len() implies (#[trigger] f2[i]).len() == n by {
            if i != 1 {
                assert(f2[i] == f[i]);
            } else {
                assert(f2[1] == dash_row(n));
            }
        }
        lemma_fill_noop(f2, n);
    }
    assert(grid_widths(parsed_grid(out)) =~= w) by {
        assert(grid_widths(parsed_grid(out)).len() == n);
        assert(forall|j: int|
            0 <= j < n ==> #[trigger] grid_widths(parsed_grid(out))[j] == col_width(f2, j));
    }
    assert(pad_grid(f2, w) =~~= fg) by {
        assert forall|i: int, j: int| 0 <= i < m && 0 <= j < n implies #[trigger] pad_grid(
            f2,
            w,
        )[i][j] == fg[i][j] by {
            assert(pad_grid(f2, w)[i] == pad_row(f2[i], w, pad_char(i)));
            assert(pad_grid(f2, w)[i][j] == pad_cell(f2[i][j], w[j], pad_char(i)));
            assert(fg[i] == pad_row(f[i], w, pad_char(i)));
            assert(fg[i][j] == pad_cell(f[i][j], w[j], pad_char(i)));
            if i == 1 {
                assert(f2[1][j] == seq!['-']);
                assert(fg[1][j] == dash_run(w[j]));
                assert(text_width(seq!['-']) == 1) by {
                    assert(seq!['-'].drop_first() =~= Seq::<char>::empty());
                }
                assert(w[j] >= 1);
                let padded = pad_cell(seq!['-'], w[j], '-');
                assert(padded == seq!['-'] + Seq::new((w[j] - 1) as nat, |t: int| '-'));
                assert(padded =~= dash_run(w[j]));
            } else {
                assert(f2[i] == f[i]);
            }
        }
        assert forall|i: int| 0 <= i < m implies #[trigger] pad_grid(f2, w)[i].len() == n by {
            assert(pad_grid(f2, w)[i] == pad_row(f2[i], w, pad_char(i)));
        }
        assert forall|i: int| 0 <= i < m implies (#[trigger] fg[i]).len() == n by {}
    }
    assert(table_output(out) == render_grid(pad_grid(
        fill_rows(parsed_grid(out), grid_widths(parsed_grid(out)).len()),
        grid_widths(parsed_grid(out)),
    )));
    assert(fill_rows(parsed_grid(out), grid_widths(parsed_grid(out)).len()) == f2);
    assert(pad_grid(f2, grid_widths(parsed_grid(out))) == pad_grid(f2, w));
    assert(table_output(out) == render_grid(fg));
    assert(table_output(out) == out);
}

} // verus!
