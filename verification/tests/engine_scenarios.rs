//! Layout scenarios exercised through the engine API.

use tablespanner::layout_table;
use tablespanner::Span;
use tablespanner::SpanTable;

fn anchor_rows(rows: &[&[&str]]) -> Vec<Vec<String>> {
    rows.iter().map(|r| r.iter().map(|x| x.to_string()).collect()).collect()
}

fn laid_rows(rows: &[&[Option<&str>]]) -> Vec<Vec<Option<String>>> {
    rows.iter().map(|r| r.iter().map(|x| x.map(|s| s.to_string())).collect()).collect()
}

fn spans(pairs: &[(&str, usize, usize)]) -> SpanTable {
    let mut table = SpanTable::new();
    for (id, rows, cols) in pairs {
        table.insert(id.to_string(), Span::new(*rows, *cols).unwrap());
    }
    table
}

/// If no span specifications are given, return a simple table that matches
/// the input.
#[test]
fn engine_basic_table_layout() {
    let spanspec = SpanTable::new();
    let data = anchor_rows(&[&["A", "B", "C"], &["D", "E", "F"], &["G", "H", "I"]]);
    let expected = laid_rows(&[
        &[Some("A"), Some("B"), Some("C")],
        &[Some("D"), Some("E"), Some("F")],
        &[Some("G"), Some("H"), Some("I")],
    ]);
    let result = layout_table(&spanspec, &data);
    assert_eq!(result, expected);
}

#[test]
fn engine_layout_with_colspan() {
    let spanspec = spans(&[("D", 1, 2)]);
    let data = anchor_rows(&[&["A", "B", "C"], &["D", "E"], &["G", "H", "I"]]);
    let expected = laid_rows(&[
        &[Some("A"), Some("B"), Some("C")],
        &[Some("D"), None, Some("E")],
        &[Some("G"), Some("H"), Some("I")],
    ]);
    let result = layout_table(&spanspec, &data);
    assert_eq!(result, expected);
}

#[test]
fn engine_layout_with_rowspan() {
    let spanspec = spans(&[("E", 2, 1)]);
    let data = anchor_rows(&[&["A", "B", "C"], &["D", "E", "F"], &["G", "H"], &["J", "K", "L"]]);
    let expected = laid_rows(&[
        &[Some("A"), Some("B"), Some("C")],
        &[Some("D"), Some("E"), Some("F")],
        &[Some("G"), None, Some("H")],
        &[Some("J"), Some("K"), Some("L")],
    ]);
    let result = layout_table(&spanspec, &data);
    assert_eq!(result, expected);
}

#[test]
fn engine_test_block_span() {
    let spanspec = spans(&[("D", 3, 2), ("E", 1, 2)]);
    let data = anchor_rows(&[
        &["A", "B", "C"],
        &["D", "E", "F"],
        &["G", "H", "I"],
        &["J", "K", "L"],
        &["M", "N", "O"],
    ]);
    let expected = laid_rows(&[
        &[Some("A"), Some("B"), Some("C")],
        &[Some("D"), None, Some("E"), None, Some("F")],
        &[None, None, Some("G"), Some("H"), Some("I")],
        &[None, None, Some("J"), Some("K"), Some("L")],
        &[Some("M"), Some("N"), Some("O")],
    ]);
    let result = layout_table(&spanspec, &data);
    assert_eq!(result, expected);
}

#[test]
fn engine_test_overlapping_row_spans() {
    let spanspec = spans(&[("E", 2, 1), ("H", 2, 1)]);
    let data = anchor_rows(&[
        &["A", "B", "C"],
        &["D", "E", "F"],
        &["G", "H", "I"],
        &["J", "K", "L"],
        &["M", "N", "O"],
    ]);
    let expected = laid_rows(&[
        &[Some("A"), Some("B"), Some("C")],
        &[Some("D"), Some("E"), Some("F")],
        &[Some("G"), None, Some("H"), Some("I")],
        &[Some("J"), Some("K"), None, Some("L")],
        &[Some("M"), Some("N"), Some("O")],
    ]);
    let result = layout_table(&spanspec, &data);
    assert_eq!(result, expected);
}

#[test]
fn rowspan_blocking_colspans() {
    // If a rowspan blocks a colspan, push the colspan back past the end of
    // the rowspanned object.
    let spanspec = spans(&[("E", 2, 1), ("G", 2, 2)]);
    let data = anchor_rows(&[
        &["A", "B", "C"],
        &["D", "E", "F"],
        &["G", "H", "I"],
        &["J", "K", "L"],
        &["M", "N", "O"],
    ]);
    let expected = laid_rows(&[
        &[Some("A"), Some("B"), Some("C")],
        &[Some("D"), Some("E"), Some("F")],
        &[None, None, Some("G"), None, Some("H"), Some("I")],
        &[Some("J"), Some("K"), None, None, Some("L")],
        &[Some("M"), Some("N"), Some("O")],
    ]);
    let result = layout_table(&spanspec, &data);
    assert_eq!(result, expected);
}

#[test]
fn test_trailing_rowspans() {
    let spanspec = spans(&[("B", 3, 1), ("C", 2, 1)]);
    let data = anchor_rows(&[&["A", "B", "C"]]);
    let expected = laid_rows(&[
        &[Some("A"), Some("B"), Some("C")],
        &[None, None, None],
        &[None, None],
    ]);
    let result = layout_table(&spanspec, &data);
    assert_eq!(result, expected);
}
