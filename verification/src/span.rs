//! Cell spans and the validated span table.
//!
//! A [`Span`] records how many rows and columns a cell occupies; both
//! dimensions are at least one, and constructing a span with a zero
//! dimension fails with a [`ConfigError`]. A [`SpanTable`] maps cell
//! identifiers to their spans; identifiers absent from the table default to
//! the single-cell span.

use vstd::prelude::*;

verus! {

/// The configuration failure raised when a span dimension of zero is
/// supplied at construction time.
#[derive(Clone, Copy, PartialEq, Eq, Structural, Debug)]
pub enum ConfigError {
    /// The row count of a span was zero.
    ZeroRows,
    /// The column count of a span was zero.
    ZeroCols,
}

/// The number of rows and columns occupied by a table cell.
#[derive(Clone, Copy, PartialEq, Eq, Structural, Debug)]
pub struct Span {
    /// How many rows the cell covers, counting its own.
    pub rows: usize,
    /// How many columns the cell covers, counting its own.
    pub cols: usize,
}

impl Span {
    /// Both dimensions of a valid span are strictly positive.
    pub open spec fn wf(self) -> bool {
        self.rows >= 1 && self.cols >= 1
    }

    /// Create a span with the given dimensions, rejecting a zero row or
    /// column count.
    pub fn new(rows: usize, cols: usize) -> (r: Result<Span, ConfigError>)
        ensures
            r is Ok <==> rows >= 1 && cols >= 1,
            rows >= 1 && cols >= 1 ==> r == Ok::<Span, ConfigError>((Span { rows, cols })),
            rows == 0 ==> r == Err::<Span, ConfigError>(ConfigError::ZeroRows),
            rows >= 1 && cols == 0 ==> r == Err::<Span, ConfigError>(ConfigError::ZeroCols),
    {
        if rows == 0 {
            Err(ConfigError::ZeroRows)
        } else if cols == 0 {
            Err(ConfigError::ZeroCols)
        } else {
            Ok(Span { rows, cols })
        }
    }

    /// Create a span from a `(rows, cols)` pair, with the same validation as
    /// [`Span::new`].
    pub fn from_pair(pair: (usize, usize)) -> (r: Result<Span, ConfigError>)
        ensures
            r is Ok <==> pair.0 >= 1 && pair.1 >= 1,
            pair.0 >= 1 && pair.1 >= 1 ==> r == Ok::<Span, ConfigError>(
                (Span { rows: pair.0, cols: pair.1 }),
            ),
            pair.0 == 0 ==> r == Err::<Span, ConfigError>(ConfigError::ZeroRows),
            pair.0 >= 1 && pair.1 == 0 ==> r == Err::<Span, ConfigError>(ConfigError::ZeroCols),
    {
        Span::new(pair.0, pair.1)
    }
}

impl Default for Span {
    /// The default span covers a single cell.
    fn default() -> (r: Span)
        ensures
            r == (Span { rows: 1, cols: 1 }),
    {
        Span { rows: 1, cols: 1 }
    }
}

/// The mapping a list of span-table entries denotes: each identifier's
/// character sequence paired with its span, later entries overwriting
/// earlier ones.
pub open spec fn span_map_of(entries: Seq<(String, Span)>) -> Map<Seq<char>, Span>
    decreases entries.len(),
{
    if entries.len() == 0 {
        Map::empty()
    } else {
        span_map_of(entries.drop_last()).insert(entries.last().0@, entries.last().1)
    }
}

/// Span lookup with the single-cell default for identifiers absent from the
/// mapping.
pub open spec fn span_of(m: Map<Seq<char>, Span>, id: Seq<char>) -> Span {
    if m.contains_key(id) {
        m[id]
    } else {
        Span { rows: 1, cols: 1 }
    }
}

/// An immutable mapping from cell identifier to its span, validated so that
/// every recorded span dimension is at least one.
pub struct SpanTable {
    /// The recorded bindings, in insertion order; for a repeated identifier
    /// the later entry wins.
    pub entries: Vec<(String, Span)>,
}

impl View for SpanTable {
    type V = Map<Seq<char>, Span>;

    open spec fn view(&self) -> Map<Seq<char>, Span> {
        span_map_of(self.entries@)
    }
}

impl SpanTable {
    /// Every entry of the table holds a well-formed span.
    pub open spec fn wf(self) -> bool {
        forall|i: int| 0 <= i < self.entries@.len() ==> (#[trigger] self.entries@[i]).1.wf()
    }

    /// Create an empty table: every identifier then has the default span.
    pub fn new() -> (r: SpanTable)
        ensures
            r@ == Map::<Seq<char>, Span>::empty(),
            r.wf(),
    {
        SpanTable { entries: Vec::new() }
    }

    /// Record `span` for `id`; a later binding for the same identifier wins.
    pub fn insert(&mut self, id: String, span: Span)
        requires
            old(self).wf(),
            span.wf(),
        ensures
            final(self)@ == old(self)@.insert(id@, span),
            final(self).wf(),
    {
        let ghost pre = self.entries@;
        self.entries.push((id, span));
        proof {
            assert(self.entries@.drop_last() =~= pre);
        }
    }

    /// Look up an identifier's span; identifiers absent from the table have
    /// the default single-cell span.
    pub fn lookup(&self, id: &String) -> (r: Span)
        requires
            self.wf(),
        ensures
            r == span_of(self@, id@),
            r.wf(),
    {
        proof {
            assert(self.entries@.take(self.entries@.len() as int) =~= self.entries@);
        }
        let mut j: usize = self.entries.len();
        while j > 0
            invariant
                j <= self.entries@.len(),
                self.wf(),
                span_of(self@, id@) == span_of(span_map_of(self.entries@.take(j as int)), id@),
            decreases j,
        {
            j = j - 1;
            let e = &self.entries[j];
            proof {
                assert(self.entries@.take(j as int + 1).drop_last() =~= self.entries@.take(
                    j as int,
                ));
                assert(self.entries@.take(j as int + 1).last() == self.entries@[j as int]);
            }
            if e.0 == *id {
                return e.1;
            }
        }
        proof {
            assert(self.entries@.take(0) =~= Seq::<(String, Span)>::empty());
        }
        Span { rows: 1, cols: 1 }
    }

    /// Build a table from `(identifier, (rows, cols))` pairs, validating
    /// every span; for a repeated identifier the later pair wins. The first
    /// pair with a zero dimension, in order, determines the error.
    pub fn from_pairs(pairs: &Vec<(String, (usize, usize))>) -> (r: Result<SpanTable, ConfigError>)
        ensures
            r is Ok <==> (forall|i: int|
                0 <= i < pairs@.len() ==> valid_pair(#[trigger] pairs@[i])),
            r is Ok ==> r->Ok_0@ == pairs_map(pairs@) && r->Ok_0.wf(),
            forall|i: int|
                0 <= i < pairs@.len() && !valid_pair(#[trigger] pairs@[i]) && (forall|j: int|
                    0 <= j < i ==> valid_pair(#[trigger] pairs@[j])) ==> r == Err::<
                    SpanTable,
                    ConfigError,
                >(
                    if pairs@[i].1.0 == 0 {
                        ConfigError::ZeroRows
                    } else {
                        ConfigError::ZeroCols
                    },
                ),
    {
        let mut table = SpanTable::new();
        let mut i: usize = 0;
        while i < pairs.len()
            invariant
                i <= pairs@.len(),
                table.wf(),
                table@ == pairs_map(pairs@.take(i as int)),
                forall|j: int| 0 <= j < i ==> valid_pair(#[trigger] pairs@[j]),
            decreases pairs@.len() - i,
        {
            let p = &pairs[i];
            let span = match Span::from_pair(p.1) {
                Ok(span) => span,
                Err(e) => {
                    return Err(e);
                },
            };
            let id = p.0.clone();
            proof {
                assert(pairs@.take(i as int + 1).drop_last() =~= pairs@.take(i as int));
                assert(pairs@.take(i as int + 1).last() == pairs@[i as int]);
            }
            table.insert(id, span);
            i = i + 1;
        }
        proof {
            assert(pairs@.take(pairs@.len() as int) =~= pairs@);
        }
        Ok(table)
    }
}

/// Does the pair carry strictly positive dimensions?
pub open spec fn valid_pair(p: (String, (usize, usize))) -> bool {
    p.1.0 >= 1 && p.1.1 >= 1
}

/// The mapping that a list of raw pairs denotes, later pairs overwriting
/// earlier ones.
pub open spec fn pairs_map(pairs: Seq<(String, (usize, usize))>) -> Map<Seq<char>, Span>
    decreases pairs.len(),
{
    if pairs.len() == 0 {
        Map::empty()
    } else {
        pairs_map(pairs.drop_last()).insert(
            pairs.last().0@,
            (Span { rows: pairs.last().1.0, cols: pairs.last().1.1 }),
        )
    }
}

/// Recording two bindings for distinct identifiers yields the same mapping
/// in either order: span-table construction does not depend on the order of
/// pairs with distinct identifiers.
pub proof fn lemma_insert_order_irrelevant(
    m: Map<Seq<char>, Span>,
    id1: Seq<char>,
    s1: Span,
    id2: Seq<char>,
    s2: Span,
)
    requires
        id1 != id2,
    ensures
        m.insert(id1, s1).insert(id2, s2) == m.insert(id2, s2).insert(id1, s1),
{
    assert(m.insert(id1, s1).insert(id2, s2) =~= m.insert(id2, s2).insert(id1, s1));
}

/// Swapping two adjacent pairs with distinct identifiers leaves the denoted
/// mapping unchanged; since every permutation is a product of adjacent
/// transpositions, building a table from pairs with pairwise distinct
/// identifiers yields the same mapping whatever their order.
pub proof fn lemma_pairs_map_swap_adjacent(pairs: Seq<(String, (usize, usize))>, i: int)
    requires
        0 <= i,
        i + 1 < pairs.len(),
        pairs[i].0@ != pairs[i + 1].0@,
    ensures
        pairs_map(pairs.update(i, pairs[i + 1]).update(i + 1, pairs[i])) == pairs_map(pairs),
    decreases pairs.len(),
{
    let swapped = pairs.update(i, pairs[i + 1]).update(i + 1, pairs[i]);
    if i + 2 == pairs.len() {
        assert(swapped.drop_last().drop_last() =~= pairs.drop_last().drop_last());
        assert(swapped.drop_last().last() == pairs[i + 1]);
        assert(swapped.last() == pairs[i]);
        assert(pairs.drop_last().last() == pairs[i]);
        let base = pairs_map(pairs.drop_last().drop_last());
        let k1 = pairs[i].0@;
        let v1 = (Span { rows: pairs[i].1.0, cols: pairs[i].1.1 });
        let k2 = pairs[i + 1].0@;
        let v2 = (Span { rows: pairs[i + 1].1.0, cols: pairs[i + 1].1.1 });
        assert(pairs_map(pairs.drop_last()) == base.insert(k1, v1));
        assert(pairs_map(pairs) == base.insert(k1, v1).insert(k2, v2));
        assert(pairs_map(swapped.drop_last()) == pairs_map(swapped.drop_last().drop_last()).insert(
            k2,
            v2,
        ));
        assert(pairs_map(swapped.drop_last()) == base.insert(k2, v2));
        assert(pairs_map(swapped) == base.insert(k2, v2).insert(k1, v1));
        lemma_insert_order_irrelevant(base, k2, v2, k1, v1);
    } else {
        assert(swapped.drop_last() =~= pairs.drop_last().update(i, pairs[i + 1]).update(
            i + 1,
            pairs[i],
        ));
        assert(swapped.last() == pairs.last());
        lemma_pairs_map_swap_adjacent(pairs.drop_last(), i);
    }
}

} // verus!
