//! Layout scenarios exercised through the library's public surface.

use tablespanner::layout_table;
use tablespanner::Span;
use tablespanner::SpanTable;

fn input_rows(rows: &[&[&str]]) -> Vec<Vec<String>> {
    rows.iter().map(|r| r.iter().map(|x| x.to_string()).collect()).collect()
}

fn output_rows(rows: &[&[Option<&str>]]) -> Vec<Vec<Option<String>>> {
    rows.iter().map(|r| r.iter().map(|x| x.map(|s| s.to_string())).collect()).collect()
}

fn span_table(pairs: &[(&str, usize, usize)]) -> SpanTable {
    let mut table = SpanTable::new();
    for (id, rows, cols) in pairs {
        table.insert(id.to_string(), Span::new(*rows, *cols).unwrap());
    }
    table
}

/// If no span specifications are given, return a simple table that matches
/// the input.
#[test]
fn lib_basic_table_layout() {
    let spanspec = SpanTable::new();
    let data = input_rows(&[&["A", "B", "C"], &["D", "E", "F"], &["G", "H", "I"]]);
    let expected = output_rows(&[
        &[Some("A"), Some("B"), Some("C")],
        &[Some("D"), Some("E"), Some("F")],
        &[Some("G"), Some("H"), Some("I")],
    ]);
    let result = layout_table(&spanspec, &data);
    assert_eq!(result, expected);
}

#[test]
fn lib_layout_with_colspan() {
    let spanspec = span_table(&[("D", 1, 2)]);
    let data = input_rows(&[&["A", "B", "C"], &["D", "E"], &["G", "H", "I"]]);
    let expected = output_rows(&[
        &[Some("A"), Some("B"), Some("C")],
        &[Some("D"), None, Some("E")],
        &[Some("G"), Some("H"), Some("I")],
    ]);
    let result = layout_table(&spanspec, &data);
    assert_eq!(result, expected);
}

#[test]
fn lib_layout_with_rowspan() {
    let spanspec = span_table(&[("E", 2, 1)]);
    let data = input_rows(&[&["A", "B", "C"], &["D", "E", "F"], &["G", "H"], &["J", "K", "L"]]);
    let expected = output_rows(&[
        &[Some("A"), Some("B"), Some("C")],
        &[Some("D"), Some("E"), Some("F")],
        &[Some("G"), None, Some("H")],
        &[Some("J"), Some("K"), Some("L")],
    ]);
    let result = layout_table(&spanspec, &data);
    assert_eq!(result, expected);
}

#[test]
fn lib_test_block_span() {
    let spanspec = span_table(&[("D", 3, 2), ("E", 1, 2)]);
    let data = input_rows(&[
        &["A", "B", "C"],
        &["D", "E", "F"],
        &["G", "H", "I"],
        &["J", "K", "L"],
        &["M", "N", "O"],
    ]);
    let expected = output_rows(&[
        &[Some("A"), Some("B"), Some("C")],
        &[Some("D"), None, Some("E"), None, Some("F")],
        &[None, None, Some("G"), Some("H"), Some("I")],
        &[None, None, Some("J"), Some("K"), Some("L")],
        &[Some("M"), Some("N"), Some("O")],
    ]);
    let result = layout_table(&spanspec, &data);
    assert_eq!(result, expected);
}

#[test]
fn lib_test_overlapping_row_spans() {
    let spanspec = span_table(&[("E", 2, 1), ("H", 2, 1)]);
    let data = input_rows(&[
        &["A", "B", "C"],
        &["D", "E", "F"],
        &["G", "H", "I"],
        &["J", "K", "L"],
        &["M", "N", "O"],
    ]);
    let expected = output_rows(&[
        &[Some("A"), Some("B"), Some("C")],
        &[Some("D"), Some("E"), Some("F")],
        &[Some("G"), None, Some("H"), Some("I")],
        &[Some("J"), Some("K"), None, Some("L")],
        &[Some("M"), Some("N"), Some("O")],
    ]);
    let result = layout_table(&spanspec, &data);
    assert_eq!(result, expected);
}

#[test]
fn test_blocked_col_spans() {
    // A rowspan in column 1 blocks the two-column anchor G, whose whole
    // span must fit: G lands in column 2, its second column in column 3.
    let spanspec = span_table(&[("E", 2, 1), ("G", 1, 2)]);
    let data = input_rows(&[
        &["A", "B", "C"],
        &["D", "E", "F"],
        &["G", "H", "I"],
        &["J", "K", "L"],
        &["M", "N", "O"],
    ]);
    let expected = output_rows(&[
        &[Some("A"), Some("B"), Some("C")],
        &[Some("D"), Some("E"), Some("F")],
        &[None, None, Some("G"), None, Some("H"), Some("I")],
        &[Some("J"), Some("K"), Some("L")],
        &[Some("M"), Some("N"), Some("O")],
    ]);
    let result = layout_table(&spanspec, &data);
    assert_eq!(result, expected);
}
