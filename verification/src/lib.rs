//! Computes dense two-dimensional table layouts for tables whose cells may
//! span several rows and/or columns. The caller supplies a sparse mapping
//! from cell identifier to its span and the row-major sequence of anchor
//! cells; the library produces the dense grid, accounting for columns still
//! reserved by rowspans from earlier rows and for spans that outlive the
//! last input row.

pub mod encode;
pub mod engine;
pub mod laws;
pub mod span;
pub mod tracker;

pub use encode::render_to_json;
pub use engine::cell_fits;
pub use engine::layout_table;
pub use engine::TableLayout;
pub use engine::TableSpec;
pub use span::ConfigError;
pub use span::Span;
pub use span::SpanTable;
pub use tracker::RowSpanTracker;
