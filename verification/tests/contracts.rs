//! Span validation, span-table construction, tracker behaviour and the
//! JSON rendering of layouts.

use tablespanner::cell_fits;
use tablespanner::layout_table;
use tablespanner::render_to_json;
use tablespanner::ConfigError;
use tablespanner::RowSpanTracker;
use tablespanner::Span;
use tablespanner::SpanTable;

fn grid(rows: &[&[&str]]) -> Vec<Vec<String>> {
    rows.iter().map(|r| r.iter().map(|x| x.to_string()).collect()).collect()
}

fn expect(rows: &[&[Option<&str>]]) -> Vec<Vec<Option<String>>> {
    rows.iter().map(|r| r.iter().map(|x| x.map(|s| s.to_string())).collect()).collect()
}

#[test]
fn span_zero_rows_is_a_config_error() {
    assert_eq!(Span::new(0, 5), Err(ConfigError::ZeroRows));
    assert_eq!(Span::new(0, 1), Err(ConfigError::ZeroRows));
    assert_eq!(Span::new(0, 0), Err(ConfigError::ZeroRows));
}

#[test]
fn span_zero_cols_is_a_config_error() {
    assert_eq!(Span::new(5, 0), Err(ConfigError::ZeroCols));
    assert_eq!(Span::new(1, 0), Err(ConfigError::ZeroCols));
}

#[test]
fn span_accepts_positive_dimensions() {
    let span = Span::new(2, 3).unwrap();
    assert_eq!(span.rows, 2);
    assert_eq!(span.cols, 3);
}

#[test]
fn span_from_pair_validates() {
    assert_eq!(Span::from_pair((0, 3)), Err(ConfigError::ZeroRows));
    assert_eq!(Span::from_pair((3, 0)), Err(ConfigError::ZeroCols));
    assert_eq!(Span::from_pair((3, 4)), Span::new(3, 4));
}

#[test]
fn span_default_is_single_cell() {
    assert_eq!(Span::default(), Span::new(1, 1).unwrap());
}

#[test]
fn lookup_falls_back_to_default_span() {
    let mut table = SpanTable::new();
    table.insert("A".to_string(), Span::new(2, 3).unwrap());
    assert_eq!(table.lookup(&"A".to_string()), Span::new(2, 3).unwrap());
    assert_eq!(table.lookup(&"B".to_string()), Span::new(1, 1).unwrap());
}

#[test]
fn insert_last_binding_wins() {
    let mut table = SpanTable::new();
    table.insert("A".to_string(), Span::new(2, 3).unwrap());
    table.insert("A".to_string(), Span::new(4, 5).unwrap());
    assert_eq!(table.lookup(&"A".to_string()), Span::new(4, 5).unwrap());
}

#[test]
fn from_pairs_builds_the_table() {
    let pairs = vec![
        ("A".to_string(), (1usize, 2usize)),
        ("B".to_string(), (3usize, 1usize)),
    ];
    let table = SpanTable::from_pairs(&pairs).unwrap();
    assert_eq!(table.lookup(&"A".to_string()), Span::new(1, 2).unwrap());
    assert_eq!(table.lookup(&"B".to_string()), Span::new(3, 1).unwrap());
    assert_eq!(table.lookup(&"C".to_string()), Span::new(1, 1).unwrap());
}

#[test]
fn from_pairs_reports_first_invalid_pair() {
    let pairs = vec![
        ("A".to_string(), (1usize, 2usize)),
        ("B".to_string(), (0usize, 1usize)),
        ("C".to_string(), (2usize, 0usize)),
    ];
    assert!(matches!(SpanTable::from_pairs(&pairs), Err(ConfigError::ZeroRows)));
    let pairs2 = vec![
        ("A".to_string(), (1usize, 2usize)),
        ("C".to_string(), (2usize, 0usize)),
        ("B".to_string(), (0usize, 1usize)),
    ];
    assert!(matches!(SpanTable::from_pairs(&pairs2), Err(ConfigError::ZeroCols)));
}

#[test]
fn from_pairs_is_order_insensitive_for_distinct_ids() {
    let forward = vec![
        ("A".to_string(), (1usize, 2usize)),
        ("B".to_string(), (3usize, 1usize)),
        ("C".to_string(), (2usize, 2usize)),
    ];
    let backward = vec![
        ("C".to_string(), (2usize, 2usize)),
        ("B".to_string(), (3usize, 1usize)),
        ("A".to_string(), (1usize, 2usize)),
    ];
    let t1 = SpanTable::from_pairs(&forward).unwrap();
    let t2 = SpanTable::from_pairs(&backward).unwrap();
    for id in ["A", "B", "C", "D"] {
        assert_eq!(t1.lookup(&id.to_string()), t2.lookup(&id.to_string()));
    }
}

#[test]
fn tracker_lifecycle() {
    let mut tracker = RowSpanTracker::new();
    assert!(!tracker.spanned(0));
    assert_eq!(tracker.max_spanned(), None);
    tracker.track(2, 3);
    assert!(tracker.spanned(2));
    assert!(!tracker.spanned(1));
    assert!(!tracker.spanned(3));
    assert_eq!(tracker.max_spanned(), Some(2));
    tracker.dec();
    assert!(tracker.spanned(2));
    tracker.dec();
    assert!(tracker.spanned(2));
    tracker.dec();
    assert!(!tracker.spanned(2));
    assert_eq!(tracker.max_spanned(), None);
}

#[test]
fn tracker_ignores_single_row_spans() {
    let mut tracker = RowSpanTracker::new();
    tracker.track(4, 1);
    assert!(!tracker.spanned(4));
    assert_eq!(tracker.max_spanned(), None);
}

#[test]
fn cell_fits_considers_every_spanned_column() {
    let mut tracker = RowSpanTracker::new();
    tracker.track(1, 2);
    assert!(cell_fits(0, 1, &tracker));
    assert!(!cell_fits(0, 2, &tracker));
    assert!(!cell_fits(1, 1, &tracker));
    assert!(cell_fits(2, 5, &tracker));
}

/// With only default spans the layout is the input wrapped as present.
#[test]
fn identity_layout_without_spans() {
    let spanspec = SpanTable::new();
    let data = grid(&[&["A", "B", "C"], &["D", "E", "F"]]);
    let expected = expect(&[
        &[Some("A"), Some("B"), Some("C")],
        &[Some("D"), Some("E"), Some("F")],
    ]);
    assert_eq!(layout_table(&spanspec, &data), expected);
}

/// Spans never duplicate an identifier: each anchor appears exactly once.
#[test]
fn present_cells_match_anchor_count() {
    let mut spanspec = SpanTable::new();
    spanspec.insert("D".to_string(), Span::new(3, 2).unwrap());
    spanspec.insert("E".to_string(), Span::new(1, 2).unwrap());
    let data = grid(&[&["A", "B", "C"], &["D", "E", "F"], &["G", "H", "I"]]);
    let result = layout_table(&spanspec, &data);
    let anchors: usize = data.iter().map(|r| r.len()).sum();
    let present: usize = result.iter().flatten().filter(|c| c.is_some()).count();
    assert_eq!(present, anchors);
}

/// Each output row lists its input row's anchors, in order, as its present
/// cells; trailing rows hold none.
#[test]
fn present_cells_keep_anchor_order() {
    let mut spanspec = SpanTable::new();
    spanspec.insert("B".to_string(), Span::new(3, 1).unwrap());
    spanspec.insert("E".to_string(), Span::new(2, 2).unwrap());
    let data = grid(&[&["A", "B", "C"], &["D", "E"], &["F", "G", "H"]]);
    let result = layout_table(&spanspec, &data);
    for (i, inrow) in data.iter().enumerate() {
        let present: Vec<String> =
            result[i].iter().filter_map(|c| c.clone()).collect();
        assert_eq!(&present, inrow);
    }
    for row in result.iter().skip(data.len()) {
        assert!(row.iter().all(|c| c.is_none()));
    }
}

/// No trailing row is appended when no rowspan outlives the input.
#[test]
fn no_trailing_rows_when_spans_fit() {
    let mut spanspec = SpanTable::new();
    spanspec.insert("A".to_string(), Span::new(3, 1).unwrap());
    let data = grid(&[&["A", "B"], &["C"], &["D"]]);
    let result = layout_table(&spanspec, &data);
    assert_eq!(result.len(), data.len());
}

#[test]
fn empty_input_row_yields_empty_output_row() {
    let spanspec = SpanTable::new();
    let data: Vec<Vec<String>> = vec![vec![], grid(&[&["A"]])[0].clone()];
    let expected = vec![vec![], vec![Some("A".to_string())]];
    assert_eq!(layout_table(&spanspec, &data), expected);
}

#[test]
fn render_to_json_simple_grid() {
    let layout = expect(&[&[Some("A"), None], &[Some("B")]]);
    assert_eq!(render_to_json(layout), "[[\"A\",null],[\"B\"]]".to_string());
}

#[test]
fn render_to_json_empty_cases() {
    assert_eq!(render_to_json(vec![]), "[]".to_string());
    assert_eq!(render_to_json(vec![vec![]]), "[[]]".to_string());
    assert_eq!(render_to_json(vec![vec![], vec![]]), "[[],[]]".to_string());
}

#[test]
fn render_to_json_emits_identifiers_verbatim() {
    let layout = vec![vec![Some("A,B".to_string()), Some("".to_string())]];
    assert_eq!(render_to_json(layout), "[[\"A,B\",\"\"]]".to_string());
}

#[test]
fn render_to_json_of_a_layout() {
    let mut spanspec = SpanTable::new();
    spanspec.insert("D".to_string(), Span::new(1, 2).unwrap());
    let data = grid(&[&["A", "B", "C"], &["D", "E"]]);
    let rendered = render_to_json(layout_table(&spanspec, &data));
    assert_eq!(rendered, "[[\"A\",\"B\",\"C\"],[\"D\",null,\"E\"]]".to_string());
}
