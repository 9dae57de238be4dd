//! A whole listing: the visibility filter, then one of the two layouts, as
//! lines of text.

use vstd::prelude::*;

use crate::entries::{filter_entries, listed};
use crate::layout::{
    col_width, column_width, columns_per_row, compact_layout, concat_lines, grid_layout, is_grid,
    is_packing, lengths_fit, line_text, render_line, render_row, row_text,
};

verus! {

/// The text of each grid row.
pub open spec fn grid_texts(rows: Seq<Seq<Seq<char>>>, col_width: int) -> Seq<Seq<char>> {
    Seq::new(rows.len(), |i: int| row_text(rows[i], col_width))
}

/// The text of each compact line.
pub open spec fn packing_texts(lines: Seq<Seq<Seq<char>>>) -> Seq<Seq<char>> {
    Seq::new(lines.len(), |i: int| line_text(lines[i]))
}

/// Either layout of a listing is a pure reshaping: its lines, concatenated,
/// are exactly the listed names in their original order.
pub proof fn lemma_layout_keeps_order(
    names: Seq<Seq<char>>,
    show_all: bool,
    terminal_width: int,
    rows: Seq<Seq<Seq<char>>>,
)
    requires
        is_grid(
            rows,
            listed(names, show_all),
            columns_per_row(terminal_width, column_width(listed(names, show_all))),
        ) || is_packing(rows, listed(names, show_all), terminal_width),
    ensures
        concat_lines(rows) == listed(names, show_all),
{
}

/// Renders grid rows, each name padded to `col_width`.
pub fn render_grid(rows: &Vec<Vec<String>>, col_width: usize) -> (r: Vec<String>)
    ensures
        r.deep_view() == grid_texts(rows.deep_view(), col_width as int),
{
    let mut out: Vec<String> = Vec::new();
    let mut i: usize = 0;
    while i < rows.len()
        invariant
            i <= rows.len(),
            out.len() == i,
            forall|j: int|
                0 <= j < i ==> #[trigger] out.deep_view()[j] == row_text(
                    rows.deep_view()[j],
                    col_width as int,
                ),
        decreases rows.len() - i,
    {
        let text = render_row(&rows[i], col_width);
        let ghost before = out.deep_view();
        out.push(text);
        assert(out.deep_view() =~= before.push(text@));
        i = i + 1;
    }
    assert(out.deep_view() =~= grid_texts(rows.deep_view(), col_width as int));
    out
}

/// Renders compact lines, names joined by the fixed gap.
pub fn render_compact(lines: &Vec<Vec<String>>) -> (r: Vec<String>)
    ensures
        r.deep_view() == packing_texts(lines.deep_view()),
{
    let mut out: Vec<String> = Vec::new();
    let mut i: usize = 0;
    while i < lines.len()
        invariant
            i <= lines.len(),
            out.len() == i,
            forall|j: int|
                0 <= j < i ==> #[trigger] out.deep_view()[j] == line_text(lines.deep_view()[j]),
        decreases lines.len() - i,
    {
        let text = render_line(&lines[i]);
        let ghost before = out.deep_view();
        out.push(text);
        assert(out.deep_view() =~= before.push(text@));
        i = i + 1;
    }
    assert(out.deep_view() =~= packing_texts(lines.deep_view()));
    out
}

/// The lines of a listing of `names`: hidden names dropped unless `show_all`;
/// then, with `long`, the grid (no lines for no names), else the compact
/// packing (one empty line for no names). Each layout is unique
/// (`lemma_grid_unique`, `lemma_packing_unique`), so the lines are fixed.
pub fn format_listing(names: &Vec<String>, show_all: bool, long: bool, terminal_width: usize) -> (r:
    Vec<String>)
    requires
        lengths_fit(names.deep_view()),
    ensures
        ({
            let shown = listed(names.deep_view(), show_all);
            let width = column_width(shown);
            &&& long ==> exists|rows: Seq<Seq<Seq<char>>>|
                #[trigger] is_grid(rows, shown, columns_per_row(terminal_width as int, width))
                    && r.deep_view() == grid_texts(rows, width)
            &&& !long ==> exists|rows: Seq<Seq<Seq<char>>>|
                #[trigger] is_packing(rows, shown, terminal_width as int) && r.deep_view()
                    == packing_texts(rows)
        }),
{
    let shown = filter_entries(names, show_all);
    assert forall|i: int| 0 <= i < shown.deep_view().len() implies #[trigger] shown.deep_view()[i].len()
        < usize::MAX by {
        assert(shown.deep_view().contains(shown.deep_view()[i]));
        let j = choose|j: int|
            0 <= j < names.deep_view().len() && names.deep_view()[j] == shown.deep_view()[i];
        assert(names.deep_view()[j].len() < usize::MAX);
    }
    if long {
        let rows = grid_layout(&shown, terminal_width);
        let width = col_width(&shown);
        render_grid(&rows, width)
    } else {
        let lines = compact_layout(&shown, terminal_width);
        render_compact(&lines)
    }
}

} // verus!
