//! The JSON rendering of a simulation result: the configuration plus the
//! cells nested as one array per row.

use vstd::prelude::*;
use crate::automaton::SimulationResult;
use crate::decimal::{decimal, push_u64, push_usize};
use crate::sim::boundary_name;

verus! {

/// The cells of one row, separated by `", "`.
pub open spec fn cells_json(cells: Seq<u8>) -> Seq<char>
    decreases cells.len(),
{
    if cells.len() == 0 {
        Seq::empty()
    } else if cells.len() == 1 {
        decimal(cells[0] as nat)
    } else {
        cells_json(cells.drop_last()) + ", "@ + decimal(cells.last() as nat)
    }
}

/// The number of complete rows of `width` cells in `rows`.
pub open spec fn row_count(rows: Seq<u8>, width: nat) -> nat {
    if width == 0 {
        0
    } else {
        rows.len() / width
    }
}

/// Row `y` of a row-major grid.
pub open spec fn grid_row(rows: Seq<u8>, width: nat, y: int) -> Seq<u8> {
    rows.subrange(y * width, (y + 1) * width)
}

/// The first `h` rows, one JSON array per line.
pub open spec fn rows_json(rows: Seq<u8>, width: nat, h: nat) -> Seq<char>
    decreases h,
{
    if h == 0 {
        Seq::empty()
    } else {
        rows_json(rows, width, (h - 1) as nat) + (if h > 1 {
            ","@
        } else {
            Seq::empty()
        }) + "\n    ["@ + cells_json(grid_row(rows, width, h - 1)) + "]"@
    }
}

/// The complete JSON document for a simulation result.
pub open spec fn json_document(r: SimulationResult) -> Seq<char> {
    "{\n  \"config\": {\n    \"rule\": "@ + decimal(r.config.rule as nat) + ",\n    \"width\": "@
        + decimal(r.config.width as nat) + ",\n    \"generations\": "@ + decimal(
        r.config.generations as nat,
    ) + ",\n    \"boundary\": \""@ + boundary_name(r.config.boundary) + "\"\n  },\n  \"rows\": ["@
        + rows_json(r.rows@, r.width as nat, row_count(r.rows@, r.width as nat))
        + "\n  ]\n}\n"@
}

/// Append one row's cells.
fn push_cells(s: &mut String, rows: &[u8], start: usize, width: usize)
    requires
        start + width <= rows@.len(),
    ensures
        final(s)@ == old(s)@ + cells_json(rows@.subrange(start as int, start + width)),
{
    let n = rows.len();
    let mut x: usize = 0;
    while x < width
        invariant
            x <= width,
            n == rows@.len(),
            start + width <= rows@.len(),
            s@ == old(s)@ + cells_json(rows@.subrange(start as int, start + x)),
        decreases width - x,
    {
        let ghost before = rows@.subrange(start as int, start + x);
        if x > 0 {
            s.append(", ");
        }
        push_u64(s, rows[start + x] as u64);
        proof {
            let after = rows@.subrange(start as int, start + x + 1);
            assert(after.drop_last() =~= before);
            assert(after.last() == rows@[start + x]);
        }
        x = x + 1;
    }
}

/// Pretty-printed JSON for a simulation result.
pub fn to_json(r: &SimulationResult) -> (s: String)
    ensures
        s@ == json_document(*r),
{
    let width = r.width;
    let h: usize = if width == 0 {
        0
    } else {
        r.rows.len() / width
    };
    let mut s = String::new();
    s.append("{\n  \"config\": {\n    \"rule\": ");
    push_u64(&mut s, r.config.rule as u64);
    s.append(",\n    \"width\": ");
    push_usize(&mut s, r.config.width);
    s.append(",\n    \"generations\": ");
    push_usize(&mut s, r.config.generations);
    s.append(",\n    \"boundary\": \"");
    s.append(r.config.boundary.name());
    s.append("\"\n  },\n  \"rows\": [");
    let ghost head = s@;
    let len = r.rows.len();
    proof {
        if width > 0 {
            assert(h * width <= len) by (nonlinear_arith)
                requires
                    h == len / width,
                    width > 0,
            ;
        }
    }
    let mut y: usize = 0;
    while y < h
        invariant
            y <= h,
            width == r.width,
            len == r.rows@.len(),
            h == row_count(r.rows@, width as nat),
            width > 0 ==> h * width <= r.rows@.len(),
            s@ == head + rows_json(r.rows@, width as nat, y as nat),
        decreases h - y,
    {
        if y > 0 {
            s.append(",");
        }
        s.append("\n    [");
        proof {
            assert((y + 1) * width <= h * width) by (nonlinear_arith)
                requires
                    y < h,
            ;
            assert(y * width <= (y + 1) * width) by (nonlinear_arith);
            assert(y * width + width == (y + 1) * width) by (nonlinear_arith);
        }
        push_cells(&mut s, r.rows.as_slice(), y * width, width);
        s.append("]");
        y = y + 1;
    }
    s.append("\n  ]\n}\n");
    s
}


/// The cells of a row are written in order, separated by ", ": one cell
/// is its decimal notation, and one more cell adds ", " and its notation.
pub proof fn lemma_cells_json_in_order(cells: Seq<u8>, x: u8)
    ensures
        cells_json(seq![x]) == decimal(x as nat),
        cells.len() > 0 ==> cells_json(cells.push(x)) == cells_json(cells) + ", "@ + decimal(x as nat),
{
    assert(seq![x].len() == 1 && seq![x][0] == x);
    if cells.len() > 0 {
        assert(cells.push(x).drop_last() =~= cells);
    }
}

proof fn lemma_rows_json_prefix(rows: Seq<u8>, width: nat, h: nat, y: nat)
    requires
        y < h,
    ensures
        rows_json(rows, width, y + 1).len() <= rows_json(rows, width, h).len(),
        rows_json(rows, width, h).take(rows_json(rows, width, y + 1).len() as int) == rows_json(
            rows,
            width,
            y + 1,
        ),
    decreases h,
{
    let a = rows_json(rows, width, (h - 1) as nat);
    let b = rows_json(rows, width, h);
    if y + 1 < h {
        lemma_rows_json_prefix(rows, width, (h - 1) as nat, y);
        let p = rows_json(rows, width, y + 1);
        assert(b.take(a.len() as int) =~= a);
        assert(b.take(p.len() as int) =~= a.take(p.len() as int));
    } else {
        assert(b.take(b.len() as int) =~= b);
    }
}

/// The JSON output holds the run's configuration, then under "rows" one
/// array per generation, in order: the array after the first `y` lists
/// exactly the cells `rows[y * width .. (y + 1) * width]`, grid row `y` as
/// a simulation result lays it out.
pub proof fn lemma_json_lists_each_generation(r: SimulationResult, y: nat)
    requires
        r.width > 0,
        y < r.rows@.len() / (r.width as nat),
    ensures
        ({
            let w = r.width as nat;
            let head = "{\n  \"config\": {\n    \"rule\": "@ + decimal(r.config.rule as nat)
                + ",\n    \"width\": "@ + decimal(r.config.width as nat) + ",\n    \"generations\": "@
                + decimal(r.config.generations as nat) + ",\n    \"boundary\": \""@ + boundary_name(
                r.config.boundary,
            ) + "\"\n  },\n  \"rows\": ["@;
            let before = rows_json(r.rows@, w, y) + (if y > 0 { ","@ } else { Seq::empty() });
            let row_y = "\n    ["@ + cells_json(r.rows@.subrange((y * w) as int, ((y + 1) * w) as int)) + "]"@;
            let prefix = head + before + row_y;
            &&& prefix.len() <= json_document(r).len()
            &&& json_document(r).take(prefix.len() as int) == prefix
        }),
{
    let w = r.width as nat;
    let h = row_count(r.rows@, w);
    lemma_rows_json_prefix(r.rows@, w, h, y);
    let head = "{\n  \"config\": {\n    \"rule\": "@ + decimal(r.config.rule as nat)
        + ",\n    \"width\": "@ + decimal(r.config.width as nat) + ",\n    \"generations\": "@
        + decimal(r.config.generations as nat) + ",\n    \"boundary\": \""@ + boundary_name(
        r.config.boundary,
    ) + "\"\n  },\n  \"rows\": ["@;
    let all = rows_json(r.rows@, w, h);
    let p = rows_json(r.rows@, w, y + 1);
    assert(p == rows_json(r.rows@, w, y) + (if y + 1 > 1 { ","@ } else { Seq::empty() }) + "\n    ["@
        + cells_json(grid_row(r.rows@, w, y as int)) + "]"@);
    let doc = json_document(r);
    assert(doc == head + all + "\n  ]\n}\n"@);
    assert(doc.take((head + p).len() as int) =~= head + p);
    let before = rows_json(r.rows@, w, y) + (if y > 0 { ","@ } else { Seq::empty() });
    let row_y = "\n    ["@ + cells_json(r.rows@.subrange((y * w) as int, ((y + 1) * w) as int)) + "]"@;
    assert(head + before + row_y =~= head + p);
}

} // verus!
