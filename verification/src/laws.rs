//! Properties of the layout, proved from the spec model.
//!
//! These proof functions state, once and for all inputs, what the layout
//! guarantees: an all-default span table reproduces the input, every output
//! row carries exactly its input row's anchors as present cells, the count
//! of present cells equals the count of anchors, and trailing rows are
//! appended exactly when a rowspan outlives the input.

use vstd::prelude::*;

use crate::engine::fit_from;
use crate::engine::layout_rows;
use crate::engine::multi_track;
use crate::engine::none_row;
use crate::engine::place_anchor;
use crate::engine::place_anchors;
use crate::engine::spec_layout;
use crate::engine::trailing;
use crate::span::span_of;
use crate::span::Span;
use crate::tracker::dec_all;
use crate::tracker::lemma_dec_all_max_count;
use crate::tracker::lemma_max_count_props;
use crate::tracker::lemma_max_count_zero;
use crate::tracker::max_blocked;
use crate::tracker::max_count;
use crate::tracker::spec_track;

verus! {

/// A row of anchors wrapped as present cells, unchanged otherwise.
pub open spec fn all_present(r: Seq<Seq<char>>) -> Seq<Option<Seq<char>>> {
    Seq::new(r.len(), |i: int| Some(r[i]))
}

/// A whole input table wrapped as present cells.
pub open spec fn rows_present(rows: Seq<Seq<Seq<char>>>) -> Seq<Seq<Option<Seq<char>>>> {
    Seq::new(rows.len(), |i: int| all_present(rows[i]))
}

/// The present cells of an output row, in order.
pub open spec fn present_of(r: Seq<Option<Seq<char>>>) -> Seq<Seq<char>>
    decreases r.len(),
{
    if r.len() == 0 {
        Seq::empty()
    } else {
        match r.last() {
            Some(id) => present_of(r.drop_last()).push(id),
            None => present_of(r.drop_last()),
        }
    }
}

/// Does every identifier have the default single-cell span under `m`?
pub open spec fn all_spans_unit(m: Map<Seq<char>, Span>) -> bool {
    forall|id: Seq<char>| #[trigger] span_of(m, id) == (Span { rows: 1, cols: 1 })
}

proof fn lemma_place_anchors_unit(
    m: Map<Seq<char>, Span>,
    ids: Seq<Seq<char>>,
    row: Seq<Option<Seq<char>>>,
)
    requires
        all_spans_unit(m),
    ensures
        place_anchors(m, Seq::empty(), ids, row) == ((row + all_present(ids)), Seq::<
            usize,
        >::empty()),
    decreases ids.len(),
{
    if ids.len() == 0 {
        assert(row + all_present(ids) =~= row);
    } else {
        let pa = place_anchor(m, Seq::empty(), row, ids.first());
        assert(span_of(m, ids.first()) == (Span { rows: 1, cols: 1 }));
        assert(fit_from(Seq::<usize>::empty(), row.len() as int, 1) == row.len() as int);
        assert(multi_track(Seq::<usize>::empty(), row.len() as int, 0, 1) == Seq::<
            usize,
        >::empty());
        assert(multi_track(Seq::<usize>::empty(), row.len() as int, 1, 1) == Seq::<
            usize,
        >::empty());
        let row2 = row.push(Some(ids.first()));
        assert(pa.0 =~= row2);
        assert(pa.1 == Seq::<usize>::empty());
        lemma_place_anchors_unit(m, ids.drop_first(), row2);
        assert(row2 + all_present(ids.drop_first()) =~= row + all_present(ids));
    }
}

proof fn lemma_layout_rows_unit(
    m: Map<Seq<char>, Span>,
    rows: Seq<Seq<Seq<char>>>,
    acc: Seq<Seq<Option<Seq<char>>>>,
)
    requires
        all_spans_unit(m),
    ensures
        layout_rows(m, Seq::empty(), rows, acc) == ((acc + rows_present(rows)), Seq::<
            usize,
        >::empty()),
    decreases rows.len(),
{
    if rows.len() == 0 {
        assert(acc + rows_present(rows) =~= acc);
    } else {
        lemma_place_anchors_unit(m, rows.first(), Seq::empty());
        let r = all_present(rows.first());
        assert(Seq::<Option<Seq<char>>>::empty() + all_present(rows.first()) =~= r);
        assert(dec_all(Seq::<usize>::empty()) =~= Seq::<usize>::empty());
        lemma_layout_rows_unit(m, rows.drop_first(), acc.push(r));
        assert(acc.push(r) + rows_present(rows.drop_first()) =~= acc + rows_present(rows));
    }
}

/// When every identifier has the default or an explicit single-cell span,
/// the layout is the input with every cell wrapped as present.
pub proof fn lemma_identity_layout(m: Map<Seq<char>, Span>, rows: Seq<Seq<Seq<char>>>)
    requires
        all_spans_unit(m),
    ensures
        spec_layout(m, rows) == rows_present(rows),
{
    lemma_layout_rows_unit(m, rows, Seq::empty());
    let pair = layout_rows(m, Seq::empty(), rows, Seq::empty());
    assert(Seq::<Seq<Option<Seq<char>>>>::empty() + rows_present(rows) =~= rows_present(rows));
    assert(max_blocked(Seq::<usize>::empty()) is None);
    assert(trailing(pair.1, pair.0) == pair.0);
}

proof fn lemma_present_of_concat(a: Seq<Option<Seq<char>>>, b: Seq<Option<Seq<char>>>)
    ensures
        present_of(a + b) == present_of(a) + present_of(b),
    decreases b.len(),
{
    if b.len() == 0 {
        assert(a + b =~= a);
        assert(present_of(a) + present_of(b) =~= present_of(a));
    } else {
        assert((a + b).drop_last() =~= a + b.drop_last());
        assert((a + b).last() == b.last());
        lemma_present_of_concat(a, b.drop_last());
        match b.last() {
            Some(id) => {
                assert(present_of(a) + present_of(b.drop_last()).push(id) =~= (present_of(a)
                    + present_of(b.drop_last())).push(id));
            },
            None => {},
        }
    }
}

proof fn lemma_present_of_none_row(n: nat)
    ensures
        present_of(none_row(n)) == Seq::<Seq<char>>::empty(),
    decreases n,
{
    if n > 0 {
        assert(none_row(n).last() is None);
        assert(none_row(n).drop_last() =~= none_row((n - 1) as nat));
        lemma_present_of_none_row((n - 1) as nat);
    }
}

proof fn lemma_present_of_one(id: Seq<char>)
    ensures
        present_of(seq![Some(id)]) == seq![id],
{
    assert(seq![Some(id)].drop_last() =~= Seq::<Option<Seq<char>>>::empty());
    assert(present_of(Seq::<Option<Seq<char>>>::empty()).push(id) =~= seq![id]);
}

proof fn lemma_place_anchors_present(
    m: Map<Seq<char>, Span>,
    t: Seq<usize>,
    ids: Seq<Seq<char>>,
    row: Seq<Option<Seq<char>>>,
)
    ensures
        present_of(place_anchors(m, t, ids, row).0) == present_of(row) + ids,
    decreases ids.len(),
{
    if ids.len() == 0 {
        assert(present_of(row) + ids =~= present_of(row));
    } else {
        let pa = place_anchor(m, t, row, ids.first());
        let sp = span_of(m, ids.first());
        let c = fit_from(t, row.len() as int, sp.cols as int);
        crate::engine::lemma_fit_from_props(t, row.len() as int, sp.cols as int);
        let part1 = row + none_row((c - row.len()) as nat);
        let part2 = part1 + seq![Some(ids.first())];
        lemma_present_of_concat(row, none_row((c - row.len()) as nat));
        lemma_present_of_none_row((c - row.len()) as nat);
        lemma_present_of_concat(part1, seq![Some(ids.first())]);
        lemma_present_of_one(ids.first());
        lemma_present_of_concat(part2, none_row((sp.cols - 1) as nat));
        lemma_present_of_none_row((sp.cols - 1) as nat);
        assert(present_of(part1) =~= present_of(row));
        assert(present_of(pa.0) =~= present_of(row).push(ids.first()));
        lemma_place_anchors_present(m, pa.1, ids.drop_first(), pa.0);
        assert(present_of(row).push(ids.first()) + ids.drop_first() =~= present_of(row) + ids);
    }
}

/// The shape that laying out the rows guarantees: `acc` is kept, one output
/// row per input row is appended, and each appended row's present cells are
/// its input row's anchors.
pub proof fn lemma_layout_rows_shape(
    m: Map<Seq<char>, Span>,
    t: Seq<usize>,
    rows: Seq<Seq<Seq<char>>>,
    acc: Seq<Seq<Option<Seq<char>>>>,
)
    ensures
        layout_rows(m, t, rows, acc).0.len() == acc.len() + rows.len(),
        forall|i: int| 0 <= i < acc.len() ==> layout_rows(m, t, rows, acc).0[i] == acc[i],
        forall|i: int|
            0 <= i < rows.len() ==> present_of(layout_rows(m, t, rows, acc).0[acc.len() + i])
                == rows[i],
    decreases rows.len(),
{
    if rows.len() > 0 {
        let pa = place_anchors(m, t, rows.first(), Seq::empty());
        lemma_place_anchors_present(m, t, rows.first(), Seq::empty());
        assert(present_of(Seq::<Option<Seq<char>>>::empty()) + rows.first() =~= rows.first());
        lemma_layout_rows_shape(m, dec_all(pa.1), rows.drop_first(), acc.push(pa.0));
        let out = layout_rows(m, t, rows, acc).0;
        assert forall|i: int| 0 <= i < acc.len() implies out[i] == acc[i] by {
            assert(out[i] == acc.push(pa.0)[i]);
        }
        assert forall|i: int| 0 <= i < rows.len() implies present_of(out[acc.len() + i])
            == rows[i] by {
            if i == 0 {
                assert(out[acc.len() as int] == acc.push(pa.0)[acc.len() as int]);
            } else {
                assert(present_of(out[(acc.len() + 1) + (i - 1)]) == rows.drop_first()[i - 1]);
            }
        }
    }
}

/// The shape that the trailing phase guarantees: `acc` is kept, every
/// appended row holds no present cell, and a row is appended exactly when
/// some rowspan is still active.
pub proof fn lemma_trailing_shape(t: Seq<usize>, acc: Seq<Seq<Option<Seq<char>>>>)
    ensures
        trailing(t, acc).len() >= acc.len(),
        forall|i: int| 0 <= i < acc.len() ==> trailing(t, acc)[i] == acc[i],
        forall|i: int|
            acc.len() <= i < trailing(t, acc).len() ==> present_of(trailing(t, acc)[i]) == Seq::<
                Seq<char>,
            >::empty(),
        (trailing(t, acc).len() == acc.len()) <==> (max_blocked(t) is None),
    decreases max_count(t),
{
    match max_blocked(t) {
        None => {},
        Some(c) => {
            lemma_max_count_zero(t);
            lemma_max_count_props(t);
            lemma_dec_all_max_count(t);
            lemma_present_of_none_row((c + 1) as nat);
            lemma_trailing_shape(dec_all(t), acc.push(none_row((c + 1) as nat)));
            let out = trailing(t, acc);
            assert forall|i: int| 0 <= i < acc.len() implies out[i] == acc[i] by {
                assert(out[i] == acc.push(none_row((c + 1) as nat))[i]);
            }
            assert forall|i: int| acc.len() <= i < out.len() implies present_of(out[i]) == Seq::<
                Seq<char>,
            >::empty() by {
                if i == acc.len() {
                    assert(out[i] == acc.push(none_row((c + 1) as nat))[i]);
                }
            }
        },
    }
}

/// Each laid-out input row lists exactly its input row's anchors, in order,
/// as its present cells, and rows appended for trailing rowspans hold no
/// present cell; entries are dense from column zero, so every column
/// touched by a row is covered without gaps.
pub proof fn lemma_rows_carry_their_anchors(m: Map<Seq<char>, Span>, rows: Seq<Seq<Seq<char>>>)
    ensures
        spec_layout(m, rows).len() >= rows.len(),
        forall|i: int|
            0 <= i < rows.len() ==> present_of(#[trigger] spec_layout(m, rows)[i]) == rows[i],
        forall|i: int|
            rows.len() <= i < spec_layout(m, rows).len() ==> present_of(
                #[trigger] spec_layout(m, rows)[i],
            ) == Seq::<Seq<char>>::empty(),
{
    let pair = layout_rows(m, Seq::empty(), rows, Seq::empty());
    lemma_layout_rows_shape(m, Seq::empty(), rows, Seq::empty());
    lemma_trailing_shape(pair.1, pair.0);
}

/// The total number of present cells in a grid.
pub open spec fn present_count(g: Seq<Seq<Option<Seq<char>>>>) -> int
    decreases g.len(),
{
    if g.len() == 0 {
        0
    } else {
        present_count(g.drop_last()) + present_of(g.last()).len()
    }
}

/// The total number of anchors in an input table.
pub open spec fn anchor_count(rows: Seq<Seq<Seq<char>>>) -> int
    decreases rows.len(),
{
    if rows.len() == 0 {
        0
    } else {
        anchor_count(rows.drop_last()) + rows.last().len()
    }
}

proof fn lemma_present_count_from_shape(g: Seq<Seq<Option<Seq<char>>>>, rows: Seq<Seq<Seq<char>>>)
    requires
        g.len() >= rows.len(),
        forall|i: int| 0 <= i < rows.len() ==> present_of(#[trigger] g[i]) == rows[i],
        forall|i: int|
            rows.len() <= i < g.len() ==> present_of(#[trigger] g[i]) == Seq::<Seq<char>>::empty(),
    ensures
        present_count(g) == anchor_count(rows),
    decreases g.len(),
{
    if g.len() == 0 {
    } else if g.len() > rows.len() {
        assert(present_of(g.last()) == Seq::<Seq<char>>::empty());
        assert(forall|i: int| 0 <= i < g.len() - 1 ==> #[trigger] g.drop_last()[i] == g[i]);
        lemma_present_count_from_shape(g.drop_last(), rows);
    } else {
        assert(present_of(g.last()) == rows.last());
        assert(forall|i: int| 0 <= i < g.len() - 1 ==> #[trigger] g.drop_last()[i] == g[i]);
        assert(forall|i: int|
            0 <= i < rows.len() - 1 ==> #[trigger] rows.drop_last()[i] == rows[i]);
        lemma_present_count_from_shape(g.drop_last(), rows.drop_last());
    }
}

/// Spans never duplicate an identifier: the number of present cells in the
/// layout equals the number of anchors in the input.
pub proof fn lemma_present_cells_match_anchors(m: Map<Seq<char>, Span>, rows: Seq<Seq<Seq<char>>>)
    ensures
        present_count(spec_layout(m, rows)) == anchor_count(rows),
{
    lemma_rows_carry_their_anchors(m, rows);
    lemma_present_count_from_shape(spec_layout(m, rows), rows);
}

/// After the input rows are processed, the tracker reports no blocked
/// column exactly when no rowspan outlived the input: the layout then has
/// exactly one output row per input row and no trailing row is appended.
pub proof fn lemma_no_trailing_rows_iff(m: Map<Seq<char>, Span>, rows: Seq<Seq<Seq<char>>>)
    ensures
        ({
            let pair = layout_rows(m, Seq::empty(), rows, Seq::empty());
            (max_blocked(pair.1) is None) <==> (spec_layout(m, rows).len() == rows.len())
        }),
{
    let pair = layout_rows(m, Seq::empty(), rows, Seq::empty());
    lemma_layout_rows_shape(m, Seq::empty(), rows, Seq::empty());
    lemma_trailing_shape(pair.1, pair.0);
}

} // verus!
