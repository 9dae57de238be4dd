use dirlist::entries::{filter_entries, is_hidden};
use dirlist::layout::{
    col_width, cols_per_row, compact_layout, fill_rows, grid_layout, render_line, render_row, GAP,
};
use dirlist::listing::{format_listing, render_compact, render_grid};
use dirlist::terminal::{terminal_width, width_or_default, DEFAULT_WIDTH};
use dirlist::text::{char_at, pad_right};

fn names(v: &[&str]) -> Vec<String> {
    v.iter().map(|s| s.to_string()).collect()
}

fn rows(v: &[&[&str]]) -> Vec<Vec<String>> {
    v.iter().map(|r| names(r)).collect()
}

#[test]
fn compact_narrow_terminal_one_name_per_line() {
    let r = compact_layout(&names(&["a", "bb", "ccc"]), 10);
    assert_eq!(r, rows(&[&["a"], &["bb"], &["ccc"]]));
    assert_eq!(render_compact(&r), names(&["a", "bb", "ccc"]));
}

#[test]
fn compact_wide_terminal_single_line() {
    let r = compact_layout(&names(&["a", "bb", "ccc"]), 100);
    assert_eq!(r, rows(&[&["a", "bb", "ccc"]]));
    assert_eq!(render_compact(&r), names(&["a        bb        ccc"]));
}

#[test]
fn grid_two_names_one_row() {
    let n = names(&["file1", "file22"]);
    assert_eq!(col_width(&n), 7);
    assert_eq!(cols_per_row(20, 7), 2);
    let r = grid_layout(&n, 20);
    assert_eq!(r, rows(&[&["file1", "file22"]]));
    assert_eq!(render_grid(&r, 7), names(&["file1  file22 "]));
}

#[test]
fn hidden_entries_filtered() {
    let n = names(&[".git", "README"]);
    assert_eq!(filter_entries(&n, false), names(&["README"]));
    assert_eq!(filter_entries(&n, true), n);
}

#[test]
fn empty_listing_edge_cases() {
    let empty: Vec<String> = Vec::new();
    let compact = compact_layout(&empty, 80);
    assert_eq!(compact.len(), 1);
    assert!(compact[0].is_empty());
    assert_eq!(render_compact(&compact), names(&[""]));
    assert!(grid_layout(&empty, 80).is_empty());
    assert_eq!(format_listing(&empty, true, true, 80), Vec::<String>::new());
    assert_eq!(format_listing(&empty, true, false, 80), names(&[""]));
}

#[test]
fn order_preserved_across_lines() {
    let n = names(&["one", "two", "three", "four", "five", "six", "seven"]);
    let flat: Vec<String> = compact_layout(&n, 20).into_iter().flatten().collect();
    assert_eq!(flat, n);
    let flat: Vec<String> = grid_layout(&n, 20).into_iter().flatten().collect();
    assert_eq!(flat, n);
}

#[test]
fn hidden_filter_membership() {
    let n = names(&[".a", "b", ".c", "d", "."]);
    let shown = filter_entries(&n, false);
    for e in &n {
        assert_eq!(shown.contains(e), !e.starts_with('.'));
    }
    assert_eq!(shown, names(&["b", "d"]));
}

#[test]
fn grid_rows_within_column_count() {
    let n = names(&["aa", "bb", "cc", "dd", "ee"]);
    // column width 3, 7 / 3 = 2 per row
    let r = grid_layout(&n, 7);
    assert_eq!(r, rows(&[&["aa", "bb"], &["cc", "dd"], &["ee"]]));
    assert_eq!(render_grid(&r, 3), names(&["aa bb ", "cc dd ", "ee "]));
}

#[test]
fn grid_name_wider_than_terminal() {
    let n = names(&["a_very_long_name", "b"]);
    assert_eq!(cols_per_row(5, 17), 1);
    let r = grid_layout(&n, 5);
    assert_eq!(r, rows(&[&["a_very_long_name"], &["b"]]));
}

#[test]
fn compact_oversized_name_alone() {
    let n = names(&["x", "abcdefghijkl", "y", "z"]);
    let r = compact_layout(&n, 10);
    assert_eq!(r, rows(&[&["x"], &["abcdefghijkl"], &["y", "z"]]));
    for line in render_compact(&r) {
        assert!(line.chars().count() <= 10 || !line.contains(' '));
    }
}

#[test]
fn compact_exact_fit_stays_on_line() {
    // 1 + 8 + 1 = 10 fits exactly in 10 columns
    let r = compact_layout(&names(&["a", "b", "c"]), 10);
    assert_eq!(r, rows(&[&["a", "b"], &["c"]]));
}

#[test]
fn compact_zero_width() {
    let r = compact_layout(&names(&["a", "b"]), 0);
    assert_eq!(r, rows(&[&["a"], &["b"]]));
}

#[test]
fn fill_rows_splits_evenly() {
    let r = fill_rows(&names(&["1", "2", "3", "4"]), 2);
    assert_eq!(r, rows(&[&["1", "2"], &["3", "4"]]));
    assert!(fill_rows(&Vec::new(), 3).is_empty());
}

#[test]
fn render_row_keeps_trailing_padding() {
    assert_eq!(render_row(&names(&["ab", "c"]), 4), "ab  c   ");
    assert_eq!(render_row(&names(&[]), 4), "");
}

#[test]
fn render_line_joins_with_gap() {
    assert_eq!(GAP, 8);
    assert_eq!(render_line(&names(&["x", "y"])), "x        y");
    assert_eq!(render_line(&names(&["x"])), "x");
    assert_eq!(render_line(&names(&[])), "");
}

#[test]
fn pad_right_pads_and_never_truncates() {
    assert_eq!(pad_right("ab".to_string(), 5), "ab   ");
    assert_eq!(pad_right("abcdef".to_string(), 3), "abcdef");
    assert_eq!(pad_right(String::new(), 2), "  ");
}

#[test]
fn char_at_picks_one_character() {
    assert_eq!(char_at(&"hello".to_string(), 0), "h");
    assert_eq!(char_at(&"hello".to_string(), 4), "o");
    assert_eq!(char_at(&"häj".to_string(), 1), "ä");
}

#[test]
fn is_hidden_checks_leading_dot() {
    assert!(is_hidden(&".git".to_string()));
    assert!(!is_hidden(&"a.b".to_string()));
    assert!(!is_hidden(&String::new()));
}

#[test]
fn col_width_counts_characters() {
    assert_eq!(col_width(&names(&[])), 1);
    assert_eq!(col_width(&names(&["ab", "abcd", "a"])), 5);
    assert_eq!(col_width(&names(&["äöü"])), 4);
}

#[test]
fn format_listing_selects_mode() {
    let n = names(&[".hidden", "a", "bb", "ccc"]);
    assert_eq!(format_listing(&n, false, false, 100), names(&["a        bb        ccc"]));
    assert_eq!(format_listing(&n, false, true, 100), names(&["a   bb  ccc "]));
    assert_eq!(
        format_listing(&n, true, true, 16),
        names(&[".hidden a       ", "bb      ccc     "])
    );
}

#[test]
fn width_defaults_without_terminal() {
    assert_eq!(width_or_default(None), DEFAULT_WIDTH);
    assert_eq!(DEFAULT_WIDTH, 100);
    assert_eq!(width_or_default(Some(132)), 132);
    let w = terminal_width();
    assert!(w <= u16::MAX as usize);
}
