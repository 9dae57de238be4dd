//! The layout engine: arranging entry names into lines, either as a grid of
//! uniform columns or by greedy packing with a fixed gap.

use vstd::prelude::*;
use vstd::string::*;

use crate::text::{pad_right, padded, spaces};

verus! {

/// Spaces between two names on a compact line.
pub const GAP: usize = 8;

/// The concatenation of all lines, in order.
pub open spec fn concat_lines(lines: Seq<Seq<Seq<char>>>) -> Seq<Seq<char>>
    decreases lines.len(),
{
    if lines.len() == 0 {
        seq![]
    } else {
        concat_lines(lines.drop_last()) + lines.last()
    }
}

/// The length of the longest name, 0 for none.
pub open spec fn longest(names: Seq<Seq<char>>) -> nat
    decreases names.len(),
{
    if names.len() == 0 {
        0
    } else if names.last().len() > longest(names.drop_last()) {
        names.last().len()
    } else {
        longest(names.drop_last())
    }
}

/// The grid's column width: the longest name and a one-space gutter.
pub open spec fn column_width(names: Seq<Seq<char>>) -> int {
    longest(names) as int + 1
}

/// How many columns of `col_width` fit in `terminal_width`; at least one.
pub open spec fn columns_per_row(terminal_width: int, col_width: int) -> int {
    if terminal_width / col_width >= 1 {
        terminal_width / col_width
    } else {
        1
    }
}

/// `rows` fills rows of `per_row` entries in turn: every row holds between one
/// and `per_row` entries, and all but the last hold exactly `per_row`.
pub open spec fn is_row_filling(rows: Seq<Seq<Seq<char>>>, per_row: int) -> bool {
    &&& forall|i: int| 0 <= i < rows.len() ==> 1 <= #[trigger] rows[i].len() <= per_row
    &&& forall|i: int| 0 <= i < rows.len() - 1 ==> #[trigger] rows[i].len() == per_row
}

/// The grid of `names`: the names in order, split into rows of `per_row`.
pub open spec fn is_grid(rows: Seq<Seq<Seq<char>>>, names: Seq<Seq<char>>, per_row: int) -> bool {
    concat_lines(rows) == names && is_row_filling(rows, per_row)
}

/// Every name is shorter than the largest `usize`, so a column width fits.
pub open spec fn lengths_fit(names: Seq<Seq<char>>) -> bool {
    forall|i: int| 0 <= i < names.len() ==> #[trigger] names[i].len() < usize::MAX
}

proof fn lemma_longest_bound(names: Seq<Seq<char>>)
    requires
        lengths_fit(names),
    ensures
        longest(names) < usize::MAX,
        forall|i: int| 0 <= i < names.len() ==> #[trigger] names[i].len() <= longest(names),
    decreases names.len(),
{
    if names.len() > 0 {
        let rest = names.drop_last();
        assert forall|i: int| 0 <= i < rest.len() implies #[trigger] rest[i].len() < usize::MAX by {
            assert(rest[i] == names[i]);
        }
        lemma_longest_bound(rest);
        assert forall|i: int| 0 <= i < names.len() implies #[trigger] names[i].len() <= longest(names) by {
            if i < names.len() - 1 {
                assert(rest[i] == names[i]);
            }
        }
    }
}

/// The grid's column width for `names`: the longest name plus one.
pub fn col_width(names: &Vec<String>) -> (r: usize)
    requires
        lengths_fit(names.deep_view()),
    ensures
        r == column_width(names.deep_view()),
{
    let ghost all = names.deep_view();
    proof {
        lemma_longest_bound(all);
    }
    let mut m: usize = 0;
    let mut i: usize = 0;
    while i < names.len()
        invariant
            i <= names.len(),
            all == names.deep_view(),
            lengths_fit(all),
            m == longest(all.take(i as int)),
        decreases names.len() - i,
    {
        let len = names[i].as_str().unicode_len();
        assert(all.take(i as int + 1).drop_last() =~= all.take(i as int));
        assert(all.take(i as int + 1).last() == all[i as int]);
        if len > m {
            m = len;
        }
        i = i + 1;
    }
    assert(all.take(names.len() as int) =~= all);
    assert(m < usize::MAX);
    m + 1
}

/// How many columns of `col_width` fit in `terminal_width`; at least one, even
/// when a single column is wider than the terminal.
pub fn cols_per_row(terminal_width: usize, col_width: usize) -> (r: usize)
    requires
        col_width >= 1,
    ensures
        r == columns_per_row(terminal_width as int, col_width as int),
        r >= 1,
{
    let per = terminal_width / col_width;
    if per >= 1 {
        per
    } else {
        1
    }
}

proof fn lemma_concat_push(lines: Seq<Seq<Seq<char>>>, line: Seq<Seq<char>>)
    ensures
        concat_lines(lines.push(line)) == concat_lines(lines) + line,
{
    assert(lines.push(line).drop_last() =~= lines);
}

/// Splits `names`, in order, into rows of `per_row` entries; the last row may
/// hold fewer. No names give no rows.
pub fn fill_rows(names: &Vec<String>, per_row: usize) -> (r: Vec<Vec<String>>)
    requires
        per_row >= 1,
    ensures
        is_grid(r.deep_view(), names.deep_view(), per_row as int),
        r.len() == 0 <==> names.len() == 0,
{
    let ghost all = names.deep_view();
    let mut rows: Vec<Vec<String>> = Vec::new();
    let mut current: Vec<String> = Vec::new();
    let mut i: usize = 0;
    while i < names.len()
        invariant
            i <= names.len(),
            per_row >= 1,
            all == names.deep_view(),
            concat_lines(rows.deep_view()) + current.deep_view() == all.take(i as int),
            forall|j: int| 0 <= j < rows.len() ==> #[trigger] rows.deep_view()[j].len() == per_row,
            current.len() <= per_row,
            i > 0 ==> current.len() >= 1,
            i == 0 ==> rows.len() == 0 && current.len() == 0,
        decreases names.len() - i,
    {
        let ghost prefix = all.take(i as int);
        if current.len() == per_row {
            let ghost before = rows.deep_view();
            let ghost full = current.deep_view();
            rows.push(current);
            assert(rows.deep_view() =~= before.push(full));
            proof {
                lemma_concat_push(before, full);
            }
            current = Vec::new();
            assert(current.deep_view() =~= seq![]);
            assert(concat_lines(rows.deep_view()) + current.deep_view() =~= prefix);
        }
        let ghost cur = current.deep_view();
        current.push(names[i].clone());
        assert(current.deep_view() =~= cur.push(all[i as int]));
        assert(all.take(i as int + 1) =~= prefix.push(all[i as int]));
        assert(concat_lines(rows.deep_view()) + current.deep_view() =~= all.take(i as int + 1));
        i = i + 1;
    }
    if current.len() > 0 {
        let ghost before = rows.deep_view();
        let ghost last = current.deep_view();
        rows.push(current);
        assert(rows.deep_view() =~= before.push(last));
        proof {
            lemma_concat_push(before, last);
        }
    } else {
        assert(current.deep_view() =~= seq![]);
    }
    assert(all.take(names.len() as int) =~= all);
    assert(concat_lines(rows.deep_view()) =~= all);
    rows
}

/// Every row of a grid holds at most `columns_per_row` names, and that count
/// is at least one, also when the column width exceeds the terminal width.
pub proof fn lemma_grid_column_bound(
    rows: Seq<Seq<Seq<char>>>,
    names: Seq<Seq<char>>,
    terminal_width: int,
)
    requires
        terminal_width >= 0,
        is_grid(rows, names, columns_per_row(terminal_width, column_width(names))),
    ensures
        columns_per_row(terminal_width, column_width(names)) >= 1,
        forall|i: int|
            0 <= i < rows.len() ==> #[trigger] rows[i].len() <= columns_per_row(
                terminal_width,
                column_width(names),
            ),
{
}

proof fn lemma_full_rows_len(rows: Seq<Seq<Seq<char>>>, per_row: int)
    requires
        forall|i: int| 0 <= i < rows.len() ==> #[trigger] rows[i].len() == per_row,
    ensures
        concat_lines(rows).len() == per_row * rows.len(),
    decreases rows.len(),
{
    if rows.len() > 0 {
        let rest = rows.drop_last();
        assert forall|i: int| 0 <= i < rest.len() implies #[trigger] rest[i].len() == per_row by {
            assert(rest[i] == rows[i]);
        }
        lemma_full_rows_len(rest, per_row);
        assert(per_row * rows.len() == per_row * rest.len() + per_row) by (nonlinear_arith)
            requires
                rows.len() == rest.len() + 1,
        ;
    }
}

/// A grid is determined by its names and its row size: two grids of the same
/// names with the same row size are equal.
pub proof fn lemma_grid_unique(
    a: Seq<Seq<Seq<char>>>,
    b: Seq<Seq<Seq<char>>>,
    names: Seq<Seq<char>>,
    per_row: int,
)
    requires
        per_row >= 1,
        is_grid(a, names, per_row),
        is_grid(b, names, per_row),
    ensures
        a == b,
    decreases a.len(),
{
    if a.len() == 0 || b.len() == 0 {
        if a.len() > 0 {
            assert(concat_lines(a).len() >= a.last().len());
        }
        if b.len() > 0 {
            assert(concat_lines(b).len() >= b.last().len());
        }
        assert(a =~= b);
    } else {
        let (ra, rb) = (a.drop_last(), b.drop_last());
        let (xa, xb) = (a.last().len() as int, b.last().len() as int);
        assert forall|i: int| 0 <= i < ra.len() implies #[trigger] ra[i].len() == per_row by {
            assert(ra[i] == a[i]);
        }
        assert forall|i: int| 0 <= i < rb.len() implies #[trigger] rb[i].len() == per_row by {
            assert(rb[i] == b[i]);
        }
        lemma_full_rows_len(ra, per_row);
        lemma_full_rows_len(rb, per_row);
        let (la, lb) = (ra.len() as int, rb.len() as int);
        assert(1 <= xa <= per_row && 1 <= xb <= per_row);
        assert(per_row * la + xa == per_row * lb + xb);
        assert(la == lb) by (nonlinear_arith)
            requires
                per_row * la + xa == per_row * lb + xb,
                1 <= xa <= per_row,
                1 <= xb <= per_row,
                la >= 0,
                lb >= 0,
        ;
        assert(xa == xb);
        let cut = per_row * la;
        assert(concat_lines(ra) =~= names.take(cut));
        assert(concat_lines(rb) =~= names.take(cut));
        assert(a.last() =~= names.skip(cut));
        assert(b.last() =~= names.skip(cut));
        lemma_grid_unique(ra, rb, names.take(cut), per_row);
        assert(a =~= ra.push(a.last()));
        assert(b =~= rb.push(b.last()));
    }
}

/// Lays `names` out as a grid for `terminal_width` columns: the column width is
/// the longest name plus one, and each row holds as many columns as fit (at
/// least one).
pub fn grid_layout(names: &Vec<String>, terminal_width: usize) -> (r: Vec<Vec<String>>)
    requires
        lengths_fit(names.deep_view()),
    ensures
        is_grid(
            r.deep_view(),
            names.deep_view(),
            columns_per_row(terminal_width as int, column_width(names.deep_view())),
        ),
        r.len() == 0 <==> names.len() == 0,
{
    let width = col_width(names);
    let per_row = cols_per_row(terminal_width, width);
    fill_rows(names, per_row)
}

/// A compact line as text: its names joined by `GAP` spaces.
pub open spec fn line_text(line: Seq<Seq<char>>) -> Seq<char>
    decreases line.len(),
{
    if line.len() == 0 {
        seq![]
    } else if line.len() == 1 {
        line[0]
    } else {
        line_text(line.drop_last()) + spaces(GAP as nat) + line.last()
    }
}

/// A compact line fits: its text is within `terminal_width`, or it is a
/// single name, which is never split.
pub open spec fn fits(line: Seq<Seq<char>>, terminal_width: int) -> bool {
    line_text(line).len() <= terminal_width || line.len() == 1
}

/// `next` was begun because its first name did not fit after `line`.
pub open spec fn overflows_into(line: Seq<Seq<char>>, next: Seq<Seq<char>>, terminal_width: int) -> bool {
    line_text(line).len() + GAP + next[0].len() > terminal_width
}

/// The compact packing of `names`: the names in order, each line fitting and
/// holding as many names as fit. No names give one empty line.
pub open spec fn is_packing(lines: Seq<Seq<Seq<char>>>, names: Seq<Seq<char>>, terminal_width: int) -> bool {
    &&& concat_lines(lines) == names
    &&& names.len() == 0 ==> lines.len() == 1 && lines[0].len() == 0
    &&& names.len() > 0 ==> forall|i: int| 0 <= i < lines.len() ==> #[trigger] lines[i].len() >= 1
    &&& forall|i: int| 0 <= i < lines.len() ==> fits(#[trigger] lines[i], terminal_width)
    &&& forall|i: int|
        0 <= i < lines.len() - 1 ==> overflows_into(#[trigger] lines[i], lines[i + 1], terminal_width)
}

proof fn lemma_line_text_push(line: Seq<Seq<char>>, name: Seq<char>)
    requires
        line.len() >= 1,
    ensures
        line_text(line.push(name)) == line_text(line) + spaces(GAP as nat) + name,
{
    assert(line.push(name).drop_last() =~= line);
}

proof fn lemma_concat_first(lines: Seq<Seq<Seq<char>>>)
    requires
        lines.len() > 0,
    ensures
        concat_lines(lines) == lines[0] + concat_lines(lines.drop_first()),
    decreases lines.len(),
{
    if lines.len() == 1 {
        assert(lines.drop_first() =~= seq![]);
        assert(lines.drop_last() =~= seq![]);
        assert(concat_lines(lines.drop_last()) =~= seq![]);
        assert(lines.last() == lines[0]);
        assert(concat_lines(lines) =~= lines[0]);
    } else {
        lemma_concat_first(lines.drop_last());
        assert(lines.drop_last().drop_first() =~= lines.drop_first().drop_last());
        assert(lines.drop_last()[0] == lines[0]);
        assert(lines.drop_first().last() == lines.last());
    }
}

proof fn lemma_line_text_prefix(line: Seq<Seq<char>>, j: int)
    requires
        1 <= j <= line.len(),
    ensures
        line_text(line.take(j)).len() <= line_text(line).len(),
    decreases line.len() - j,
{
    if j < line.len() {
        lemma_line_text_prefix(line, j + 1);
        assert(line.take(j + 1).drop_last() =~= line.take(j));
    } else {
        assert(line.take(j) =~= line);
    }
}

/// A packing of names, without the one empty line that stands for no names.
spec fn is_nonempty_packing(lines: Seq<Seq<Seq<char>>>, names: Seq<Seq<char>>, w: int) -> bool {
    &&& concat_lines(lines) == names
    &&& forall|i: int| 0 <= i < lines.len() ==> #[trigger] lines[i].len() >= 1
    &&& forall|i: int| 0 <= i < lines.len() ==> fits(#[trigger] lines[i], w)
    &&& forall|i: int| 0 <= i < lines.len() - 1 ==> overflows_into(#[trigger] lines[i], lines[i + 1], w)
}

proof fn lemma_first_line_greedy(a: Seq<Seq<Seq<char>>>, b: Seq<Seq<Seq<char>>>, names: Seq<Seq<char>>, w: int)
    requires
        a.len() > 0,
        b.len() > 0,
        is_nonempty_packing(a, names, w),
        is_nonempty_packing(b, names, w),
    ensures
        a[0].len() >= b[0].len(),
{
    let (p, q) = (a[0].len() as int, b[0].len() as int);
    lemma_concat_first(a);
    lemma_concat_first(b);
    if p < q {
        let rest = a.drop_first();
        assert(names[p] == b[0][p]);
        if rest.len() == 0 {
            assert(names.len() == p);
        }
        lemma_concat_first(rest);
        assert(rest[0].len() >= 1);
        assert(a[1] == rest[0]);
        assert(a[1][0] == names[p]);
        assert(overflows_into(a[0], a[1], w));
        let lb = b[0];
        assert forall|i: int| 0 <= i < p implies lb.take(p)[i] == a[0][i] by {
            assert(names[i] == a[0][i]);
            assert(names[i] == lb[i]);
        }
        assert(lb.take(p) =~= a[0]);
        assert(lb.take(p + 1).drop_last() =~= lb.take(p));
        assert(line_text(lb.take(p + 1)) == line_text(a[0]) + spaces(GAP as nat) + names[p]);
        lemma_line_text_prefix(lb, p + 1);
        assert(fits(b[0], w));
    }
}

proof fn lemma_nonempty_packing_unique(a: Seq<Seq<Seq<char>>>, b: Seq<Seq<Seq<char>>>, names: Seq<Seq<char>>, w: int)
    requires
        is_nonempty_packing(a, names, w),
        is_nonempty_packing(b, names, w),
    ensures
        a == b,
    decreases a.len(),
{
    if a.len() == 0 || b.len() == 0 {
        if a.len() > 0 {
            lemma_concat_first(a);
        }
        if b.len() > 0 {
            lemma_concat_first(b);
        }
        assert(a =~= b);
    } else {
        lemma_first_line_greedy(a, b, names, w);
        lemma_first_line_greedy(b, a, names, w);
        lemma_concat_first(a);
        lemma_concat_first(b);
        let p = a[0].len() as int;
        assert(a[0] =~= names.take(p));
        assert(b[0] =~= names.take(p));
        let (ra, rb) = (a.drop_first(), b.drop_first());
        assert(concat_lines(ra) =~= names.skip(p));
        assert(concat_lines(rb) =~= names.skip(p));
        assert forall|i: int| 0 <= i < ra.len() - 1 implies overflows_into(#[trigger] ra[i], ra[i + 1], w) by {
            assert(ra[i] == a[i + 1] && ra[i + 1] == a[i + 2]);
        }
        assert forall|i: int| 0 <= i < rb.len() - 1 implies overflows_into(#[trigger] rb[i], rb[i + 1], w) by {
            assert(rb[i] == b[i + 1] && rb[i + 1] == b[i + 2]);
        }
        assert forall|i: int| 0 <= i < ra.len() implies #[trigger] ra[i].len() >= 1 && fits(ra[i], w) by {
            assert(ra[i] == a[i + 1]);
        }
        assert forall|i: int| 0 <= i < rb.len() implies #[trigger] rb[i].len() >= 1 && fits(rb[i], w) by {
            assert(rb[i] == b[i + 1]);
        }
        lemma_nonempty_packing_unique(ra, rb, names.skip(p), w);
        assert(a =~= seq![a[0]] + ra);
        assert(b =~= seq![b[0]] + rb);
    }
}

/// The compact packing is determined by its names and the terminal width:
/// two packings of the same names for the same width are equal.
pub proof fn lemma_packing_unique(
    a: Seq<Seq<Seq<char>>>,
    b: Seq<Seq<Seq<char>>>,
    names: Seq<Seq<char>>,
    terminal_width: int,
)
    requires
        is_packing(a, names, terminal_width),
        is_packing(b, names, terminal_width),
    ensures
        a == b,
{
    if names.len() == 0 {
        assert(a =~= b);
    } else {
        lemma_nonempty_packing_unique(a, b, names, terminal_width);
    }
}

/// Packs `names` greedily into lines of at most `terminal_width` characters:
/// a name joins the current line, `GAP` spaces after the previous one, when
/// the line stays within the width; otherwise it starts a new line.
pub fn compact_layout(names: &Vec<String>, terminal_width: usize) -> (r: Vec<Vec<String>>)
    ensures
        is_packing(r.deep_view(), names.deep_view(), terminal_width as int),
{
    let ghost all = names.deep_view();
    let ghost w = terminal_width as int;
    let mut rows: Vec<Vec<String>> = Vec::new();
    let mut current: Vec<String> = Vec::new();
    let mut current_len: usize = 0;
    let mut i: usize = 0;
    while i < names.len()
        invariant
            i <= names.len(),
            all == names.deep_view(),
            w == terminal_width as int,
            concat_lines(rows.deep_view()) + current.deep_view() == all.take(i as int),
            current_len == line_text(current.deep_view()).len(),
            forall|j: int| 0 <= j < rows.len() ==> #[trigger] rows.deep_view()[j].len() >= 1,
            forall|j: int| 0 <= j < rows.len() ==> fits(#[trigger] rows.deep_view()[j], w),
            forall|j: int|
                0 <= j < rows.len() - 1 ==> overflows_into(
                    #[trigger] rows.deep_view()[j],
                    rows.deep_view()[j + 1],
                    w,
                ),
            rows.len() > 0 ==> overflows_into(rows.deep_view().last(), current.deep_view(), w),
            current.len() > 0 ==> fits(current.deep_view(), w),
            i > 0 ==> current.len() >= 1,
            i == 0 ==> rows.len() == 0 && current.len() == 0,
        decreases names.len() - i,
    {
        let ghost prefix = all.take(i as int);
        let name = &names[i];
        let len = name.as_str().unicode_len();
        assert(all.take(i as int + 1) =~= prefix.push(name@));
        if current.len() == 0 {
            current.push(name.clone());
            assert(current.deep_view() =~= seq![name@]);
            assert(concat_lines(rows.deep_view()) =~= seq![]);
            current_len = len;
        } else if current_len > terminal_width || terminal_width - current_len < GAP
            || terminal_width - current_len - GAP < len {
            let ghost before = rows.deep_view();
            let ghost full = current.deep_view();
            rows.push(current);
            assert(rows.deep_view() =~= before.push(full));
            proof {
                lemma_concat_push(before, full);
            }
            current = Vec::new();
            current.push(name.clone());
            assert(current.deep_view() =~= seq![name@]);
            current_len = len;
            assert(concat_lines(rows.deep_view()) + current.deep_view() =~= all.take(i as int + 1));
            assert(rows.deep_view().last() == full);
        } else {
            let ghost cur = current.deep_view();
            current.push(name.clone());
            assert(current.deep_view() =~= cur.push(name@));
            proof {
                lemma_line_text_push(cur, name@);
            }
            current_len = current_len + GAP + len;
            assert(concat_lines(rows.deep_view()) + current.deep_view() =~= all.take(i as int + 1));
            assert(current.deep_view()[0] == cur[0]);
        }
        i = i + 1;
    }
    let ghost before = rows.deep_view();
    let ghost last = current.deep_view();
    rows.push(current);
    assert(rows.deep_view() =~= before.push(last));
    proof {
        lemma_concat_push(before, last);
    }
    assert(all.take(names.len() as int) =~= all);
    assert(concat_lines(rows.deep_view()) =~= all);
    rows
}

/// A grid row as text: each name padded to `col_width`, concatenated. The
/// last column keeps its padding.
pub open spec fn row_text(row: Seq<Seq<char>>, col_width: int) -> Seq<char>
    decreases row.len(),
{
    if row.len() == 0 {
        seq![]
    } else {
        row_text(row.drop_last(), col_width) + padded(row.last(), col_width)
    }
}

/// Renders one grid row: every name right-padded to `col_width`.
pub fn render_row(row: &Vec<String>, col_width: usize) -> (r: String)
    ensures
        r@ == row_text(row.deep_view(), col_width as int),
{
    let ghost all = row.deep_view();
    let mut out = String::new();
    let mut i: usize = 0;
    while i < row.len()
        invariant
            i <= row.len(),
            all == row.deep_view(),
            out@ == row_text(all.take(i as int), col_width as int),
        decreases row.len() - i,
    {
        let cell = pad_right(row[i].clone(), col_width);
        out.append(cell.as_str());
        assert(all.take(i as int + 1).drop_last() =~= all.take(i as int));
        i = i + 1;
    }
    assert(all.take(row.len() as int) =~= all);
    out
}

/// Renders one compact line: its names joined by `GAP` spaces.
pub fn render_line(line: &Vec<String>) -> (r: String)
    ensures
        r@ == line_text(line.deep_view()),
{
    let ghost all = line.deep_view();
    let mut out = String::new();
    let mut i: usize = 0;
    while i < line.len()
        invariant
            i <= line.len(),
            all == line.deep_view(),
            out@ == line_text(all.take(i as int)),
        decreases line.len() - i,
    {
        let ghost taken = all.take(i as int);
        assert(all.take(i as int + 1) =~= taken.push(all[i as int]));
        if i > 0 {
            proof {
                reveal_strlit("        ");
                lemma_line_text_push(taken, all[i as int]);
            }
            out.append("        ");
            assert("        "@ =~= spaces(GAP as nat));
        } else {
            assert(all.take(1) =~= seq![all[0]]);
        }
        out.append(line[i].as_str());
        i = i + 1;
    }
    assert(all.take(line.len() as int) =~= all);
    out
}

} // verus!
