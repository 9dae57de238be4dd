//! The terminal width that lines are laid out for.

use vstd::prelude::*;

verus! {

/// Columns assumed when no terminal can be queried (output piped, for one).
pub const DEFAULT_WIDTH: usize = 100;

/// The width for a queried column count: the count itself, or
/// `DEFAULT_WIDTH` when there was no terminal.
pub open spec fn width_or_default_spec(columns: Option<u16>) -> int {
    match columns {
        Some(w) => w as int,
        None => DEFAULT_WIDTH as int,
    }
}

/// Relies on terminal_size::terminal_size: the column count of the terminal
/// on stdout, stderr or stdin, or `None` when none of them is a terminal.
/// The answer depends on the process's environment, so nothing is promised
/// of it.
#[verifier::external_body]
fn query_columns() -> (r: Option<u16>) {
    terminal_size::terminal_size().map(|(w, _)| w.0)
}

/// The width to lay out for, given the queried column count.
pub fn width_or_default(columns: Option<u16>) -> (r: usize)
    ensures
        r == width_or_default_spec(columns),
{
    match columns {
        Some(w) => w as usize,
        None => DEFAULT_WIDTH,
    }
}

/// The width of the current terminal, or `DEFAULT_WIDTH` without one.
pub fn terminal_width() -> (r: usize)
    ensures
        exists|columns: Option<u16>| r == #[trigger] width_or_default_spec(columns),
{
    let columns = query_columns();
    let r = width_or_default(columns);
    assert(r == width_or_default_spec(columns));
    r
}

} // verus!
