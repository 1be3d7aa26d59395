//! Textual encoding of a computed layout.
//!
//! A layout is rendered as a JSON-style array of arrays: absent markers
//! become `null`, present cells the identifier between double quotes,
//! emitted exactly as given.

use vstd::prelude::*;
use vstd::string::StringExecFns;

use crate::engine::grid_view;
use crate::engine::opt_view;
use crate::engine::row_view;
use crate::engine::TableLayout;

verus! {

/// The textual form of one cell: `null` when absent, the identifier
/// between double quotes when present.
pub open spec fn json_cell(o: Option<Seq<char>>) -> Seq<char> {
    match o {
        None => seq!['n', 'u', 'l', 'l'],
        Some(id) => seq!['"'] + id + seq!['"'],
    }
}

/// The cells of one row, joined with commas.
pub open spec fn json_cells(r: Seq<Option<Seq<char>>>) -> Seq<char>
    decreases r.len(),
{
    if r.len() == 0 {
        Seq::empty()
    } else if r.len() == 1 {
        json_cell(r[0])
    } else {
        json_cells(r.drop_last()) + seq![','] + json_cell(r.last())
    }
}

/// One output row between brackets.
pub open spec fn json_row(r: Seq<Option<Seq<char>>>) -> Seq<char> {
    seq!['['] + json_cells(r) + seq![']']
}

/// The rows of a grid, joined with commas.
pub open spec fn json_rows(g: Seq<Seq<Option<Seq<char>>>>) -> Seq<char>
    decreases g.len(),
{
    if g.len() == 0 {
        Seq::empty()
    } else if g.len() == 1 {
        json_row(g[0])
    } else {
        json_rows(g.drop_last()) + seq![','] + json_row(g.last())
    }
}

/// A whole grid between brackets.
pub open spec fn json_grid(g: Seq<Seq<Option<Seq<char>>>>) -> Seq<char> {
    seq!['['] + json_rows(g) + seq![']']
}

fn append_cell(out: &mut String, cell: &Option<String>)
    ensures
        final(out)@ == old(out)@ + json_cell(opt_view(*cell)),
{
    match cell {
        None => {
            out.append("null");
            proof {
                reveal_strlit("null");
                assert("null"@ =~= seq!['n', 'u', 'l', 'l']);
            }
        },
        Some(id) => {
            let ghost start = out@;
            out.append("\"");
            out.append(id.as_str());
            out.append("\"");
            proof {
                reveal_strlit("\"");
                assert("\""@ =~= seq!['"']);
                assert(out@ =~= start + (seq!['"'] + id@ + seq!['"']));
            }
        },
    }
}

fn append_row(out: &mut String, row: &Vec<Option<String>>)
    ensures
        final(out)@ == old(out)@ + json_row(row_view(row@)),
{
    let ghost start = out@;
    out.append("[");
    proof {
        reveal_strlit("[");
        assert("["@ =~= seq!['[']);
        assert(row_view(row@).take(0) =~= Seq::<Option<Seq<char>>>::empty());
        assert(out@ =~= start + seq!['['] + json_cells(row_view(row@).take(0)));
    }
    let mut i: usize = 0;
    while i < row.len()
        invariant
            i <= row@.len(),
            out@ == start + seq!['['] + json_cells(row_view(row@).take(i as int)),
        decreases row@.len() - i,
    {
        if i > 0 {
            out.append(",");
        }
        append_cell(out, &row[i]);
        i = i + 1;
        proof {
            reveal_strlit(",");
            assert(","@ =~= seq![',']);
            let rv = row_view(row@);
            assert(rv.take(i as int).last() == opt_view(row@[i - 1]));
            if i == 1 {
                assert(json_cells(rv.take(1)) == json_cell(rv.take(1)[0]));
                assert(rv.take(1)[0] == opt_view(row@[0]));
            } else {
                assert(rv.take(i as int).drop_last() =~= rv.take(i as int - 1));
                assert(json_cells(rv.take(i as int)) == json_cells(rv.take(i as int - 1))
                    + seq![','] + json_cell(rv.take(i as int).last()));
            }
            assert(out@ =~= start + seq!['['] + json_cells(rv.take(i as int)));
        }
    }
    out.append("]");
    proof {
        reveal_strlit("]");
        assert("]"@ =~= seq![']']);
        assert(row_view(row@).take(row@.len() as int) =~= row_view(row@));
        assert(out@ =~= start + (seq!['['] + json_cells(row_view(row@)) + seq![']']));
    }
}

/// Encode a computed layout as a JSON array of arrays: `null` for every
/// position a span covers without anchoring, and each present cell's
/// identifier between double quotes, exactly as given.
pub fn render_to_json(layout: TableLayout) -> (r: String)
    ensures
        r@ == json_grid(grid_view(layout@)),
{
    let mut out = String::new();
    out.append("[");
    proof {
        reveal_strlit("[");
        assert("["@ =~= seq!['[']);
        assert(grid_view(layout@).take(0) =~= Seq::<Seq<Option<Seq<char>>>>::empty());
        assert(out@ =~= seq!['['] + json_rows(grid_view(layout@).take(0)));
    }
    let mut i: usize = 0;
    while i < layout.len()
        invariant
            i <= layout@.len(),
            out@ == seq!['['] + json_rows(grid_view(layout@).take(i as int)),
        decreases layout@.len() - i,
    {
        if i > 0 {
            out.append(",");
        }
        append_row(&mut out, &layout[i]);
        i = i + 1;
        proof {
            reveal_strlit(",");
            assert(","@ =~= seq![',']);
            let gv = grid_view(layout@);
            assert(gv.take(i as int).last() == row_view(layout@[i - 1]@));
            if i == 1 {
                assert(json_rows(gv.take(1)) == json_row(gv.take(1)[0]));
                assert(gv.take(1)[0] == row_view(layout@[0]@));
            } else {
                assert(gv.take(i as int).drop_last() =~= gv.take(i as int - 1));
                assert(json_rows(gv.take(i as int)) == json_rows(gv.take(i as int - 1)) + seq![',']
                    + json_row(gv.take(i as int).last()));
            }
            assert(out@ =~= seq!['['] + json_rows(gv.take(i as int)));
        }
    }
    out.append("]");
    proof {
        reveal_strlit("]");
        assert("]"@ =~= seq![']']);
        assert(grid_view(layout@).take(layout@.len() as int) =~= grid_view(layout@));
        assert(out@ =~= seq!['['] + json_rows(grid_view(layout@)) + seq![']']);
    }
    out
}

} // verus!
