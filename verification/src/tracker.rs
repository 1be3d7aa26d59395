//! Per-column rowspan occupancy tracking.
//!
//! While rows are laid out, each column may be reserved by a rowspan
//! anchored in an earlier row. The tracker records, per column, how many
//! rows (counting the current one) remain reserved; zero means the column
//! is free. The model of the state is the sequence of those counts.

use vstd::prelude::*;

verus! {

/// Is column `c` currently reserved by an active rowspan?
pub open spec fn blocked(t: Seq<usize>, c: int) -> bool {
    0 <= c < t.len() && t[c] > 0
}

/// The tracker state after recording a span of `row_count` rows at column
/// `c`: a single-row span records nothing, a taller span sets the column's
/// count, extending the tracked range with free columns as needed.
pub open spec fn spec_track(t: Seq<usize>, c: int, row_count: usize) -> Seq<usize> {
    if row_count > 1 {
        pad_set(t, c, row_count)
    } else {
        t
    }
}

/// `t` with position `c` set to `v`, padded with zeroes up to `c` when `t`
/// is shorter.
pub open spec fn pad_set(t: Seq<usize>, c: int, v: usize) -> Seq<usize> {
    Seq::new(
        if c + 1 > t.len() {
            (c + 1) as nat
        } else {
            t.len()
        },
        |i: int|
            if i == c {
                v
            } else if 0 <= i < t.len() {
                t[i]
            } else {
                0usize
            },
    )
}

/// The tracker state once a row has been completed: every active count
/// loses one remaining row.
pub open spec fn dec_all(t: Seq<usize>) -> Seq<usize> {
    Seq::new(
        t.len(),
        |i: int|
            if t[i] > 0 {
                (t[i] - 1) as usize
            } else {
                0usize
            },
    )
}

/// The largest remaining-row count over all columns; zero when no column is
/// reserved.
pub open spec fn max_count(t: Seq<usize>) -> int
    decreases t.len(),
{
    if t.len() == 0 {
        0
    } else if t.last() as int > max_count(t.drop_last()) {
        t.last() as int
    } else {
        max_count(t.drop_last())
    }
}

/// The highest column currently reserved by an active rowspan, if any.
pub open spec fn max_blocked(t: Seq<usize>) -> Option<int>
    decreases t.len(),
{
    if t.len() == 0 {
        None
    } else if t.last() > 0 {
        Some(t.len() - 1)
    } else {
        max_blocked(t.drop_last())
    }
}

/// What `max_blocked` reports: the highest blocked column when one exists,
/// and `None` exactly when no column is blocked.
pub proof fn lemma_max_blocked_spec(t: Seq<usize>)
    ensures
        match max_blocked(t) {
            Some(c) => blocked(t, c) && (forall|j: int| c < j < t.len() ==> !blocked(t, j)),
            None => forall|j: int| !blocked(t, j),
        },
    decreases t.len(),
{
    if t.len() > 0 && !(t.last() > 0) {
        lemma_max_blocked_spec(t.drop_last());
        match max_blocked(t.drop_last()) {
            Some(c) => {
                assert(blocked(t, c)) by {
                    assert(t.drop_last()[c] == t[c]);
                }
                assert forall|j: int| c < j < t.len() implies !blocked(t, j) by {
                    if j < t.len() - 1 {
                        assert(!blocked(t.drop_last(), j));
                        assert(t.drop_last()[j] == t[j]);
                    }
                }
            },
            None => {
                assert forall|j: int| !blocked(t, j) by {
                    if 0 <= j < t.len() - 1 {
                        assert(!blocked(t.drop_last(), j));
                        assert(t.drop_last()[j] == t[j]);
                    }
                }
            },
        }
    }
}

/// The maximum count bounds every column's count, is attained somewhere
/// whenever it is positive, and is never negative.
pub proof fn lemma_max_count_props(t: Seq<usize>)
    ensures
        max_count(t) >= 0,
        forall|i: int| 0 <= i < t.len() ==> #[trigger] t[i] as int <= max_count(t),
        max_count(t) > 0 ==> exists|i: int|
            0 <= i < t.len() && #[trigger] t[i] as int == max_count(t),
    decreases t.len(),
{
    if t.len() > 0 {
        lemma_max_count_props(t.drop_last());
        assert forall|i: int| 0 <= i < t.len() implies #[trigger] t[i] as int <= max_count(t) by {
            if i < t.len() - 1 {
                assert(t.drop_last()[i] == t[i]);
                assert(t.drop_last()[i] as int <= max_count(t.drop_last()));
            }
        }
        if max_count(t) > 0 {
            if t.last() as int == max_count(t) {
                assert(t[t.len() - 1] as int == max_count(t));
            } else {
                let i = choose|i: int|
                    0 <= i < t.drop_last().len() && #[trigger] t.drop_last()[i] as int
                        == max_count(t.drop_last());
                assert(t.drop_last()[i] == t[i]);
                assert(t[i] as int == max_count(t));
            }
        }
    }
}

/// No column is blocked exactly when the maximum count is zero.
pub proof fn lemma_max_count_zero(t: Seq<usize>)
    ensures
        (max_count(t) == 0) <==> (max_blocked(t) is None),
{
    lemma_max_count_props(t);
    lemma_max_blocked_spec(t);
    if max_count(t) == 0 {
        if max_blocked(t) is Some {
            let c = max_blocked(t)->0;
            assert(blocked(t, c));
            assert(t[c] as int <= max_count(t));
            assert(false);
        }
    } else {
        let i = choose|i: int| 0 <= i < t.len() && #[trigger] t[i] as int == max_count(t);
        assert(blocked(t, i));
        if max_blocked(t) is None {
            assert(!blocked(t, i));
            assert(false);
        }
    }
}

/// Completing a row lowers a positive maximum count by exactly one.
pub proof fn lemma_dec_all_max_count(t: Seq<usize>)
    requires
        max_count(t) > 0,
    ensures
        max_count(dec_all(t)) == max_count(t) - 1,
{
    let d = dec_all(t);
    let m = max_count(t);
    lemma_max_count_props(t);
    lemma_max_count_props(d);
    assert(forall|i: int| 0 <= i < d.len() ==> #[trigger] d[i] as int <= m - 1);
    if max_count(d) > m - 1 {
        let i = choose|i: int| 0 <= i < d.len() && #[trigger] d[i] as int == max_count(d);
        assert(false);
    }
    let w = choose|i: int| 0 <= i < t.len() && #[trigger] t[i] as int == m;
    assert(d[w] as int == m - 1);
}

/// Mutable per-column state recording which columns are still reserved by
/// in-progress rowspans anchored in earlier rows.
///
/// The tracker is unaware of multi-column spans: the caller records every
/// column of such a span separately. It never records which cell reserved a
/// column, only for how many more rows the column stays reserved.
pub struct RowSpanTracker {
    /// `counts[c]` is the number of rows, counting the current one, for
    /// which column `c` remains reserved; zero means the column is free.
    pub counts: Vec<usize>,
}

impl View for RowSpanTracker {
    type V = Seq<usize>;

    open spec fn view(&self) -> Seq<usize> {
        self.counts@
    }
}

impl RowSpanTracker {
    /// Create a tracker with no active rowspan.
    pub fn new() -> (r: RowSpanTracker)
        ensures
            r@ == Seq::<usize>::empty(),
    {
        RowSpanTracker { counts: Vec::new() }
    }

    /// Record a rowspan of `row_count` total rows anchored at the current
    /// row in the given column. A single-row span never blocks a future row
    /// and is not recorded.
    pub fn track(&mut self, col_index: usize, row_count: usize)
        ensures
            final(self)@ == spec_track(old(self)@, col_index as int, row_count),
    {
        if row_count > 1 {
            let ghost pre = self.counts@;
            while self.counts.len() <= col_index
                invariant
                    pre.len() <= self.counts@.len(),
                    self.counts@.len() <= col_index + 1 || self.counts@ == pre,
                    forall|i: int| 0 <= i < pre.len() ==> self.counts@[i] == pre[i],
                    forall|i: int|
                        pre.len() <= i < self.counts@.len() ==> self.counts@[i] == 0usize,
                decreases col_index + 1 - self.counts@.len(),
            {
                self.counts.push(0);
            }
            self.counts[col_index] = row_count;
            proof {
                assert(self.counts@ =~= pad_set(pre, col_index as int, row_count));
            }
        }
    }

    /// A fully processed row is behind us: every active count loses one
    /// remaining row, freeing the columns whose count reaches zero.
    pub fn dec(&mut self)
        ensures
            final(self)@ == dec_all(old(self)@),
    {
        let n = self.counts.len();
        let mut i: usize = 0;
        while i < n
            invariant
                i <= n,
                n == self.counts@.len(),
                n == old(self)@.len(),
                forall|j: int| 0 <= j < i ==> self.counts@[j] == dec_all(old(self)@)[j],
                forall|j: int| i <= j < n ==> self.counts@[j] == old(self)@[j],
            decreases n - i,
        {
            let v = self.counts[i];
            if v > 0 {
                self.counts[i] = v - 1;
            }
            i = i + 1;
        }
        proof {
            assert(self.counts@ =~= dec_all(old(self)@));
        }
    }

    /// One past the highest column the tracker has ever recorded; every
    /// column at or beyond it is free.
    pub fn tracked_columns(&self) -> (r: usize)
        ensures
            r == self@.len(),
    {
        self.counts.len()
    }

    /// Is the given column part of an active rowspan from an earlier row?
    pub fn spanned(&self, col_index: usize) -> (r: bool)
        ensures
            r == blocked(self@, col_index as int),
    {
        col_index < self.counts.len() && self.counts[col_index] > 0
    }

    /// The highest column that is part of an active rowspan, or `None` when
    /// no rowspan is active.
    pub fn max_spanned(&self) -> (r: Option<usize>)
        ensures
            r is Some <==> max_blocked(self@) is Some,
            r is Some ==> max_blocked(self@) == Some(r->0 as int),
    {
        proof {
            lemma_max_blocked_spec(self@);
        }
        let mut i: usize = self.counts.len();
        while i > 0
            invariant
                i <= self.counts@.len(),
                forall|j: int| i <= j < self.counts@.len() ==> !blocked(self@, j),
            decreases i,
        {
            i = i - 1;
            if self.counts[i] > 0 {
                proof {
                    lemma_max_blocked_spec(self@);
                    assert(blocked(self@, i as int));
                    match max_blocked(self@) {
                        Some(c) => {
                            if c > i as int {
                                assert(!blocked(self@, c));
                            }
                            if c < i as int {
                                assert(!blocked(self@, i as int));
                            }
                        },
                        None => {
                            assert(!blocked(self@, i as int));
                        },
                    }
                }
                return Some(i);
            }
        }
        proof {
            lemma_max_blocked_spec(self@);
            if max_blocked(self@) is Some {
                assert(blocked(self@, max_blocked(self@)->0));
            }
        }
        None
    }
}

} // verus!
