//! The layout engine.
//!
//! For each input row the engine walks a cursor along the output row. An
//! anchor is displaced rightward past any position where some column of its
//! column span is still reserved by a rowspan from an earlier row; it is
//! then written once, the remaining columns of its span are written as
//! empty markers, and every column of the span is recorded in the tracker
//! for the span's row count. After the input rows are exhausted, all-empty
//! rows are appended while any rowspan remains active.
//!
//! The spec model mirrors this process over sequences: `place_anchor`,
//! `place_anchors`, `layout_rows` and `trailing` compose into
//! `spec_layout`, and `layout_table` is proved to return exactly that.

use vstd::pervasive::unreached;
use vstd::prelude::*;

use crate::span::span_of;
use crate::span::Span;
use crate::span::SpanTable;
use crate::tracker::blocked;
use crate::tracker::dec_all;
use crate::tracker::lemma_dec_all_max_count;
use crate::tracker::lemma_max_blocked_spec;
use crate::tracker::lemma_max_count_props;
use crate::tracker::lemma_max_count_zero;
use crate::tracker::max_blocked;
use crate::tracker::max_count;
use crate::tracker::spec_track;
use crate::tracker::RowSpanTracker;

verus! {

/// Input table data: rows of anchor cell identifiers, spans omitted.
pub type TableSpec = Vec<Vec<String>>;

/// Output table layout: rows of present identifiers and empty markers.
pub type TableLayout = Vec<Vec<Option<String>>>;

/// The view of an output cell: the identifier's characters when present.
pub open spec fn opt_view(o: Option<String>) -> Option<Seq<char>> {
    match o {
        Some(s) => Some(s@),
        None => None,
    }
}

/// The view of an output row.
pub open spec fn row_view(r: Seq<Option<String>>) -> Seq<Option<Seq<char>>> {
    Seq::new(r.len(), |i: int| opt_view(r[i]))
}

/// The view of an output grid.
pub open spec fn grid_view(g: Seq<Vec<Option<String>>>) -> Seq<Seq<Option<Seq<char>>>> {
    Seq::new(g.len(), |i: int| row_view(g[i]@))
}

/// The view of one input row of anchors.
pub open spec fn ids_view(r: Seq<String>) -> Seq<Seq<char>> {
    Seq::new(r.len(), |i: int| r[i]@)
}

/// The view of the whole input table.
pub open spec fn table_views(d: Seq<Vec<String>>) -> Seq<Seq<Seq<char>>> {
    Seq::new(d.len(), |i: int| ids_view(d[i]@))
}

/// Can a cell whose column span is `col_count` wide sit with its leftmost
/// column at `col`, no column of its extent being reserved?
pub open spec fn fits(t: Seq<usize>, col: int, col_count: int) -> bool {
    forall|j: int| col <= j < col + col_count ==> !blocked(t, j)
}

/// The first column at or after `col` where a cell `col_count` wide fits;
/// beyond the tracked range every column is free.
pub open spec fn fit_from(t: Seq<usize>, col: int, col_count: int) -> int
    decreases t.len() - col,
{
    if col >= t.len() || fits(t, col, col_count) {
        col
    } else {
        fit_from(t, col + 1, col_count)
    }
}

/// `fit_from` never moves left, and its result fits.
pub proof fn lemma_fit_from_props(t: Seq<usize>, col: int, col_count: int)
    ensures
        fit_from(t, col, col_count) >= col,
        fits(t, fit_from(t, col, col_count), col_count),
    decreases t.len() - col,
{
    if col >= t.len() {
        assert(fits(t, col, col_count));
    } else if fits(t, col, col_count) {
    } else {
        lemma_fit_from_props(t, col + 1, col_count);
    }
}

/// A row of `n` empty markers.
pub open spec fn none_row(n: nat) -> Seq<Option<Seq<char>>> {
    Seq::new(n, |i: int| None::<Seq<char>>)
}

/// The tracker after recording a span of `rows` rows in each of the `w`
/// columns starting at `c`.
pub open spec fn multi_track(t: Seq<usize>, c: int, w: int, rows: usize) -> Seq<usize>
    decreases w,
{
    if w <= 0 {
        t
    } else {
        spec_track(multi_track(t, c, w - 1, rows), c + w - 1, rows)
    }
}

/// Place one anchor at the end of a partial output row: skip past positions
/// where its column span does not fit, write the identifier, write the rest
/// of its span as empty markers, and record each spanned column.
pub open spec fn place_anchor(
    m: Map<Seq<char>, Span>,
    t: Seq<usize>,
    row: Seq<Option<Seq<char>>>,
    id: Seq<char>,
) -> (Seq<Option<Seq<char>>>, Seq<usize>) {
    let sp = span_of(m, id);
    let c = fit_from(t, row.len() as int, sp.cols as int);
    let row2 = row + none_row((c - row.len()) as nat) + seq![Some(id)] + none_row(
        (sp.cols - 1) as nat,
    );
    let t2 = multi_track(t, c, sp.cols as int, sp.rows);
    (row2, t2)
}

/// Place a row's anchors in order, starting from the given partial row.
pub open spec fn place_anchors(
    m: Map<Seq<char>, Span>,
    t: Seq<usize>,
    ids: Seq<Seq<char>>,
    row: Seq<Option<Seq<char>>>,
) -> (Seq<Option<Seq<char>>>, Seq<usize>)
    decreases ids.len(),
{
    if ids.len() == 0 {
        (row, t)
    } else {
        let (row2, t2) = place_anchor(m, t, row, ids.first());
        place_anchors(m, t2, ids.drop_first(), row2)
    }
}

/// Lay out the input rows in order, appending each completed row to `acc`
/// and expiring one tracked row of every active span per input row.
pub open spec fn layout_rows(
    m: Map<Seq<char>, Span>,
    t: Seq<usize>,
    rows: Seq<Seq<Seq<char>>>,
    acc: Seq<Seq<Option<Seq<char>>>>,
) -> (Seq<Seq<Option<Seq<char>>>>, Seq<usize>)
    decreases rows.len(),
{
    if rows.len() == 0 {
        (acc, t)
    } else {
        let (r, t2) = place_anchors(m, t, rows.first(), Seq::empty());
        layout_rows(m, dec_all(t2), rows.drop_first(), acc.push(r))
    }
}

/// Append all-empty rows while any rowspan remains active, each as wide as
/// one past the highest still-reserved column.
pub open spec fn trailing(t: Seq<usize>, acc: Seq<Seq<Option<Seq<char>>>>) -> Seq<
    Seq<Option<Seq<char>>>,
>
    decreases max_count(t),
{
    match max_blocked(t) {
        None => acc,
        Some(c) => {
            proof {
                lemma_max_count_zero(t);
                lemma_max_count_props(t);
                lemma_dec_all_max_count(t);
            }
            trailing(dec_all(t), acc.push(none_row((c + 1) as nat)))
        },
    }
}

/// The complete layout of the input rows under the given span mapping.
pub open spec fn spec_layout(m: Map<Seq<char>, Span>, rows: Seq<Seq<Seq<char>>>) -> Seq<
    Seq<Option<Seq<char>>>,
> {
    let (out, t) = layout_rows(m, Seq::empty(), rows, Seq::empty());
    trailing(t, out)
}

/// Viewing a row commutes with appending a cell.
pub proof fn lemma_row_view_push(r: Seq<Option<String>>, x: Option<String>)
    ensures
        row_view(r.push(x)) == row_view(r).push(opt_view(x)),
{
    assert(row_view(r.push(x)) =~= row_view(r).push(opt_view(x)));
}

/// Viewing a grid commutes with appending a row.
pub proof fn lemma_grid_view_push(g: Seq<Vec<Option<String>>>, r: Vec<Option<String>>)
    ensures
        grid_view(g.push(r)) == grid_view(g).push(row_view(r@)),
{
    assert(grid_view(g.push(r)) =~= grid_view(g).push(row_view(r@)));
}

/// Appending an empty marker extends the trailing run of empty markers.
pub proof fn lemma_none_row_grow(a: Seq<Option<Seq<char>>>, n: nat)
    ensures
        (a + none_row(n)).push(None::<Seq<char>>) == a + none_row(n + 1),
{
    assert((a + none_row(n)).push(None::<Seq<char>>) =~= a + none_row(n + 1));
}

/// Given a candidate column and the cell's column count, report whether the
/// cell fits there: no column of its span may be part of an active rowspan.
pub fn cell_fits(col: usize, col_count: usize, active_row_spans: &RowSpanTracker) -> (r: bool)
    ensures
        r == fits(active_row_spans@, col as int, col_count as int),
{
    let mut off: usize = 0;
    while off < col_count
        invariant
            off <= col_count,
            forall|j: int| col <= j < col + off ==> !blocked(active_row_spans@, j),
        decreases col_count - off,
    {
        let tracked_cols = active_row_spans.tracked_columns();
        if tracked_cols <= col || tracked_cols - col <= off {
            // every remaining column of the span lies beyond the tracked
            // range and is free
            return true;
        }
        if active_row_spans.spanned(col + off) {
            return false;
        }
        off = off + 1;
    }
    true
}

/// Determine the layout of table cells given the available spans and the
/// data for the table.
pub fn layout_table(spaninfo: &SpanTable, data: &TableSpec) -> (r: TableLayout)
    requires
        spaninfo.wf(),
    ensures
        grid_view(r@) == spec_layout(spaninfo@, table_views(data@)),
{
    let ghost m = spaninfo@;
    let ghost rows_v = table_views(data@);
    let mut table: TableLayout = Vec::new();
    let mut active_row_spans = RowSpanTracker::new();
    let mut i: usize = 0;
    proof {
        assert(rows_v.skip(0) =~= rows_v);
        assert(grid_view(table@) =~= Seq::<Seq<Option<Seq<char>>>>::empty());
    }
    while i < data.len()
        invariant
            i <= data@.len(),
            spaninfo.wf(),
            m == spaninfo@,
            rows_v == table_views(data@),
            layout_rows(m, Seq::<usize>::empty(), rows_v, Seq::<Seq<Option<Seq<char>>>>::empty())
                == layout_rows(m, active_row_spans@, rows_v.skip(i as int), grid_view(table@)),
        decreases data@.len() - i,
    {
        let inrow: &Vec<String> = &data[i];
        let ghost t_row = active_row_spans@;
        let ghost ids = ids_view(inrow@);
        let mut row: Vec<Option<String>> = Vec::new();
        let mut k: usize = 0;
        proof {
            assert(ids.skip(0) =~= ids);
            assert(row_view(row@) =~= Seq::<Option<Seq<char>>>::empty());
        }
        while k < inrow.len()
            invariant
                k <= inrow@.len(),
                spaninfo.wf(),
                m == spaninfo@,
                ids == ids_view(inrow@),
                place_anchors(m, t_row, ids, Seq::<Option<Seq<char>>>::empty()) == place_anchors(
                    m,
                    active_row_spans@,
                    ids.skip(k as int),
                    row_view(row@),
                ),
            decreases inrow@.len() - k,
        {
            let cell: &String = &inrow[k];
            let span = spaninfo.lookup(cell);
            let ghost t_anchor = active_row_spans@;
            let ghost row_pre = row_view(row@);
            let ghost target = fit_from(t_anchor, row@.len() as int, span.cols as int);
            proof {
                lemma_fit_from_props(t_anchor, row@.len() as int, span.cols as int);
                assert(row_pre + none_row(0) =~= row_view(row@));
            }
            while !cell_fits(row.len(), span.cols, &active_row_spans)
                invariant
                    active_row_spans@ == t_anchor,
                    row_pre.len() <= row@.len(),
                    row_view(row@) == row_pre + none_row((row@.len() - row_pre.len()) as nat),
                    target == fit_from(t_anchor, row@.len() as int, span.cols as int),
                    target >= row@.len(),
                decreases target - row@.len(),
            {
                let ghost cur = row@.len() as int;
                let ghost prev = row@;
                row.push(None);
                proof {
                    assert(!fits(t_anchor, cur, span.cols as int));
                    assert(fit_from(t_anchor, cur, span.cols as int) == fit_from(
                        t_anchor,
                        cur + 1,
                        span.cols as int,
                    ));
                    lemma_fit_from_props(t_anchor, cur + 1, span.cols as int);
                    lemma_row_view_push(prev, None::<String>);
                    lemma_none_row_grow(row_pre, (cur - row_pre.len()) as nat);
                }
            }
            proof {
                assert(fits(t_anchor, row@.len() as int, span.cols as int));
                assert(target == row@.len() as int);
            }
            let ghost d = (target - row_pre.len()) as nat;
            active_row_spans.track(row.len(), span.rows);
            let cloned = cell.clone();
            let ghost prev_some = row@;
            let ghost pushed: Option<String> = Some(cloned);
            row.push(Some(cloned));
            proof {
                assert(multi_track(t_anchor, target, 0, span.rows) == t_anchor);
                assert(multi_track(t_anchor, target, 1, span.rows) == spec_track(
                    t_anchor,
                    target,
                    span.rows,
                ));
                assert(active_row_spans@ == multi_track(t_anchor, target, 1, span.rows));
                lemma_row_view_push(prev_some, pushed);
                assert(opt_view(pushed) == Some(cell@));
                assert(row_view(row@) == (row_pre + none_row(d)).push(Some(cell@)));
                assert((row_pre + none_row(d)).push(Some(cell@)) =~= row_pre + none_row(d)
                    + seq![Some(cell@)] + none_row(0));
            }
            let mut off: usize = 1;
            while off < span.cols
                invariant
                    1 <= off,
                    off <= span.cols,
                    row@.len() as int == target + off,
                    active_row_spans@ == multi_track(t_anchor, target, off as int, span.rows),
                    row_view(row@) == row_pre + none_row(d) + seq![Some(cell@)] + none_row(
                        (off - 1) as nat,
                    ),
                decreases span.cols - off,
            {
                active_row_spans.track(row.len(), span.rows);
                let ghost prev = row@;
                row.push(None);
                off = off + 1;
                proof {
                    lemma_row_view_push(prev, None::<String>);
                    lemma_none_row_grow(
                        row_pre + none_row(d) + seq![Some(cell@)],
                        (off - 2) as nat,
                    );
                }
            }
            proof {
                let pa = place_anchor(m, t_anchor, row_pre, cell@);
                assert(pa.0 == row_view(row@));
                assert(pa.1 == active_row_spans@);
                assert(ids.skip(k as int)[0] == ids[k as int]);
                assert(ids.skip(k as int).first() == cell@);
                assert(ids.skip(k as int).drop_first() =~= ids.skip(k as int + 1));
                assert(place_anchors(m, t_anchor, ids.skip(k as int), row_pre) == place_anchors(
                    m,
                    active_row_spans@,
                    ids.skip(k as int + 1),
                    row_view(row@),
                ));
            }
            k = k + 1;
        }
        let ghost row_done = row_view(row@);
        let ghost t_done = active_row_spans@;
        proof {
            assert(ids.skip(ids.len() as int) =~= Seq::<Seq<char>>::empty());
            assert(place_anchors(m, t_row, ids, Seq::<Option<Seq<char>>>::empty()) == (
                row_done,
                t_done,
            ));
        }
        let ghost table_head = table@;
        let ghost row_val = row;
        table.push(row);
        active_row_spans.dec();
        proof {
            lemma_grid_view_push(table_head, row_val);
            assert(rows_v.skip(i as int)[0] == rows_v[i as int]);
            assert(rows_v.skip(i as int).first() == ids);
            assert(rows_v.skip(i as int).drop_first() =~= rows_v.skip(i as int + 1));
            assert(layout_rows(m, t_row, rows_v.skip(i as int), grid_view(table_head))
                == layout_rows(
                m,
                active_row_spans@,
                rows_v.skip(i as int + 1),
                grid_view(table@),
            ));
        }
        i = i + 1;
    }
    proof {
        assert(rows_v.skip(rows_v.len() as int) =~= Seq::<Seq<Seq<char>>>::empty());
        assert(layout_rows(
            m,
            Seq::<usize>::empty(),
            rows_v,
            Seq::<Seq<Option<Seq<char>>>>::empty(),
        ) == (grid_view(table@), active_row_spans@));
        assert(spec_layout(m, rows_v) == trailing(active_row_spans@, grid_view(table@)));
    }
    let mut mb = active_row_spans.max_spanned();
    while mb.is_some()
        invariant
            mb is Some <==> max_blocked(active_row_spans@) is Some,
            mb is Some ==> max_blocked(active_row_spans@) == Some(mb->0 as int),
            spec_layout(m, rows_v) == trailing(active_row_spans@, grid_view(table@)),
        decreases max_count(active_row_spans@),
    {
        let ghost t_head = active_row_spans@;
        let col = match mb {
            Some(col) => col,
            None => unreached(),
        };
        proof {
            lemma_max_blocked_spec(t_head);
            assert(max_blocked(t_head) == Some(col as int));
            assert(blocked(t_head, col as int));
            lemma_max_count_zero(t_head);
            lemma_max_count_props(t_head);
            lemma_dec_all_max_count(t_head);
        }
        let tracked_cols = active_row_spans.tracked_columns();
        proof {
            assert(col < tracked_cols);
        }
        let width = col + 1;
        let mut empty_row: Vec<Option<String>> = Vec::new();
        let mut c: usize = 0;
        while c < width
            invariant
                c <= width,
                row_view(empty_row@) == none_row(c as nat),
            decreases width - c,
        {
            let ghost prev = empty_row@;
            empty_row.push(None);
            proof {
                lemma_row_view_push(prev, None::<String>);
                assert(none_row(c as nat).push(None::<Seq<char>>) =~= none_row(c as nat + 1));
            }
            c = c + 1;
        }
        let ghost table_head = table@;
        let ghost row_val = empty_row;
        table.push(empty_row);
        active_row_spans.dec();
        proof {
            lemma_grid_view_push(table_head, row_val);
            assert(trailing(t_head, grid_view(table_head)) == trailing(
                active_row_spans@,
                grid_view(table@),
            ));
        }
        mb = active_row_spans.max_spanned();
    }
    proof {
        assert(max_blocked(active_row_spans@) is None);
        assert(trailing(active_row_spans@, grid_view(table@)) == grid_view(table@));
    }
    table
}

} // verus!
