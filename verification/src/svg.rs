//! The integer-coordinate parts of the SVG rendering: the document head,
//! one `<rect>` per maximal horizontal run of black cells, and the
//! per-cell grid drawn when borders have a whole-pixel width.

use vstd::prelude::*;
use crate::decimal::{decimal, push_usize};

verus! {

/// The document head: XML declaration, the `<svg>` element and its
/// background rectangle (dark grey behind a bordered grid, else white).
/// Fractional border widths switch rendering from crisp edges to
/// anti-aliased.
pub open spec fn svg_prologue_text(total_w: nat, total_h: nat, with_borders: bool, fractional: bool) -> Seq<
    char,
> {
    "<?xml version=\"1.0\" encoding=\"UTF-8\"?>\n<svg xmlns=\"http://www.w3.org/2000/svg\" width=\""@
        + decimal(total_w) + "\" height=\""@ + decimal(total_h) + "\" viewBox=\"0 0 "@ + decimal(
        total_w,
    ) + " "@ + decimal(total_h) + "\" shape-rendering=\""@ + (if fractional {
        "auto"@
    } else {
        "crispEdges"@
    }) + "\">\n<rect width=\""@ + decimal(total_w) + "\" height=\""@ + decimal(total_h)
        + "\" fill=\""@ + (if with_borders {
        "#4d4d4d"@
    } else {
        "#ffffff"@
    }) + "\"/>\n"@
}

/// Append the document head; see [`svg_prologue_text`].
#[verifier::rlimit(40)]
pub fn svg_prologue(s: &mut String, total_w: usize, total_h: usize, with_borders: bool, fractional: bool)
    ensures
        final(s)@ == old(s)@ + svg_prologue_text(total_w as nat, total_h as nat, with_borders, fractional),
{
    s.append("<?xml version=\"1.0\" encoding=\"UTF-8\"?>\n<svg xmlns=\"http://www.w3.org/2000/svg\" width=\"");
    push_usize(s, total_w);
    s.append("\" height=\"");
    push_usize(s, total_h);
    s.append("\" viewBox=\"0 0 ");
    push_usize(s, total_w);
    s.append(" ");
    push_usize(s, total_h);
    s.append("\" shape-rendering=\"");
    s.append(if fractional { "auto" } else { "crispEdges" });
    s.append("\">\n<rect width=\"");
    push_usize(s, total_w);
    s.append("\" height=\"");
    push_usize(s, total_h);
    s.append("\" fill=\"");
    s.append(if with_borders { "#4d4d4d" } else { "#ffffff" });
    s.append("\"/>\n");
}

/// One past the last cell of the run of 1s starting at `x`.
pub open spec fn run_end(row: Seq<u8>, x: int) -> int
    decreases row.len() - x,
{
    if x < 0 || x >= row.len() || row[x] != 1 {
        x
    } else {
        run_end(row, x + 1)
    }
}

/// A black rectangle covering cells `start..end` of row `y`.
pub open spec fn run_rect(start: nat, end: nat, y: nat, cs: nat) -> Seq<char> {
    "<rect x=\""@ + decimal(start * cs) + "\" y=\""@ + decimal(y * cs) + "\" width=\""@ + decimal(
        ((end - start) * cs) as nat,
    ) + "\" height=\""@ + decimal(cs) + "\"/>\n"@
}

/// The rectangles of the maximal runs of 1s in `row` from position `x` on.
pub open spec fn row_runs(row: Seq<u8>, x: int, y: nat, cs: nat) -> Seq<char>
    decreases row.len() - x,
{
    if x < 0 || x >= row.len() {
        Seq::empty()
    } else if row[x] != 1 {
        row_runs(row, x + 1, y, cs)
    } else {
        let e = run_end(row, x);
        if e <= x || e > row.len() {
            Seq::empty()
        } else {
            run_rect(x as nat, e as nat, y, cs) + row_runs(row, e, y, cs)
        }
    }
}

/// The rectangles of all rows `0..h` of a grid `width` cells wide.
pub open spec fn grid_runs(rows: Seq<u8>, width: nat, h: nat, cs: nat) -> Seq<char>
    decreases h,
{
    if h == 0 {
        Seq::empty()
    } else {
        grid_runs(rows, width, (h - 1) as nat, cs) + row_runs(
            rows.subrange((h - 1) * width, (h * width) as int),
            0,
            (h - 1) as nat,
            cs,
        )
    }
}

proof fn lemma_run_end(row: Seq<u8>, x: int)
    requires
        0 <= x <= row.len(),
    ensures
        x <= run_end(row, x) <= row.len(),
        forall|k: int| x <= k < run_end(row, x) ==> row[k] == 1,
        run_end(row, x) < row.len() ==> row[run_end(row, x)] != 1,
    decreases row.len() - x,
{
    if x < row.len() && row[x] == 1 {
        lemma_run_end(row, x + 1);
    }
}

/// Append one `<rect>` per maximal run of black cells, row by row, for the
/// `height` rows of a grid `width` cells wide drawn at `cs` pixels a cell.
/// White cells show the white background; the rectangles carry no fill
/// because SVG's default fill is black.
pub fn svg_black_runs(s: &mut String, rows: &[u8], width: usize, height: usize, cs: usize)
    requires
        height * width <= rows@.len(),
        width * cs <= usize::MAX,
        height * cs <= usize::MAX,
    ensures
        final(s)@ == old(s)@ + grid_runs(rows@, width as nat, height as nat, cs as nat),
{
    let len = rows.len();
    let mut y: usize = 0;
    while y < height
        invariant
            len == rows@.len(),
            y <= height,
            height * width <= rows@.len(),
            width * cs <= usize::MAX,
            height * cs <= usize::MAX,
            s@ == old(s)@ + grid_runs(rows@, width as nat, y as nat, cs as nat),
        decreases height - y,
    {
        proof {
            assert((y + 1) * width <= height * width) by (nonlinear_arith)
                requires
                    y < height,
            ;
            assert(y * width + width == (y + 1) * width) by (nonlinear_arith);
            assert(y * cs <= height * cs) by (nonlinear_arith)
                requires
                    y < height,
            ;
        }
        let base = y * width;
        let y_px = y * cs;
        let ghost row = rows@.subrange(base as int, base + width);
        let ghost before = s@;
        let mut x: usize = 0;
        while x < width
            invariant
                x <= width,
                len == rows@.len(),
                base + width <= rows@.len(),
                row == rows@.subrange(base as int, base + width),
                width * cs <= usize::MAX,
                y_px == y * cs,
                before + row_runs(row, 0, y as nat, cs as nat) == s@ + row_runs(row, x as int, y as nat, cs as nat),
            decreases width - x,
        {
            if rows[base + x] == 1 {
                let start = x;
                proof {
                    lemma_run_end(row, x as int);
                }
                while x < width && rows[base + x] == 1
                    invariant
                        start <= x <= width,
                        len == rows@.len(),
                        base + width <= rows@.len(),
                        row == rows@.subrange(base as int, base + width),
                        start < width,
                        row[start as int] == 1,
                        run_end(row, start as int) == run_end(row, x as int),
                    decreases width - x,
                {
                    x = x + 1;
                }
                proof {
                    lemma_run_end(row, start as int);
                    assert(run_end(row, x as int) == x);
                    assert(x * cs <= width * cs) by (nonlinear_arith)
                        requires
                            x <= width,
                    ;
                    assert(start * cs <= x * cs) by (nonlinear_arith)
                        requires
                            start <= x,
                    ;
                    assert((x - start) * cs == x * cs - start * cs) by (nonlinear_arith);
                }
                let run_len = x - start;
                s.append("<rect x=\"");
                push_usize(s, start * cs);
                s.append("\" y=\"");
                push_usize(s, y_px);
                s.append("\" width=\"");
                push_usize(s, run_len * cs);
                s.append("\" height=\"");
                push_usize(s, cs);
                s.append("\"/>\n");
            } else {
                x = x + 1;
            }
        }
        proof {
            assert(grid_runs(rows@, width as nat, (y + 1) as nat, cs as nat) == grid_runs(
                rows@,
                width as nat,
                y as nat,
                cs as nat,
            ) + row_runs(row, 0, y as nat, cs as nat));
        }
        y = y + 1;
    }
}


/// One bordered cell: a square of side `cs - bw` set `bw` pixels into its
/// `cs`-pixel box, black for a 1 cell and white otherwise.
pub open spec fn cell_rect(x: nat, y: nat, cs: nat, bw: nat, cell: u8) -> Seq<char> {
    square_text(x * cs + bw, y * cs + bw, (cs - bw) as nat, cell == 1)
}

/// A filled square at `(x_px, y_px)` of side `side`.
pub open spec fn square_text(x_px: nat, y_px: nat, side: nat, black: bool) -> Seq<char> {
    "<rect x=\""@ + decimal(x_px) + "\" y=\""@ + decimal(y_px) + "\" width=\""@ + decimal(side)
        + "\" height=\""@ + decimal(side) + "\" fill=\""@ + (if black {
        "#000000"@
    } else {
        "#ffffff"@
    }) + "\"/>\n"@
}

fn push_square(s: &mut String, x_px: usize, y_px: usize, side: usize, black: bool)
    ensures
        final(s)@ == old(s)@ + square_text(x_px as nat, y_px as nat, side as nat, black),
{
    s.append("<rect x=\"");
    push_usize(s, x_px);
    s.append("\" y=\"");
    push_usize(s, y_px);
    s.append("\" width=\"");
    push_usize(s, side);
    s.append("\" height=\"");
    push_usize(s, side);
    s.append("\" fill=\"");
    s.append(if black { "#000000" } else { "#ffffff" });
    s.append("\"/>\n");
}

/// The bordered cells `0..n` of row `y`.
pub open spec fn row_cells(row: Seq<u8>, n: nat, y: nat, cs: nat, bw: nat) -> Seq<char>
    decreases n,
{
    if n == 0 {
        Seq::empty()
    } else {
        row_cells(row, (n - 1) as nat, y, cs, bw) + cell_rect(
            (n - 1) as nat,
            y,
            cs,
            bw,
            row[n - 1],
        )
    }
}

/// The bordered cells of rows `0..h`.
pub open spec fn grid_cells(rows: Seq<u8>, width: nat, h: nat, cs: nat, bw: nat) -> Seq<char>
    decreases h,
{
    if h == 0 {
        Seq::empty()
    } else {
        grid_cells(rows, width, (h - 1) as nat, cs, bw) + row_cells(
            rows.subrange((h - 1) * width, (h * width) as int),
            width,
            (h - 1) as nat,
            cs,
            bw,
        )
    }
}

/// Append one `<rect>` per cell for a grid with whole-pixel borders of
/// width `bw`: the dark background shows through as the grid lines.
pub fn svg_cell_grid(s: &mut String, rows: &[u8], width: usize, height: usize, cs: usize, bw: usize)
    requires
        height * width <= rows@.len(),
        width * cs <= usize::MAX,
        height * cs <= usize::MAX,
        bw <= cs,
    ensures
        final(s)@ == old(s)@ + grid_cells(rows@, width as nat, height as nat, cs as nat, bw as nat),
{
    let len = rows.len();
    let inset = cs - bw;
    let mut y: usize = 0;
    while y < height
        invariant
            len == rows@.len(),
            y <= height,
            height * width <= rows@.len(),
            width * cs <= usize::MAX,
            height * cs <= usize::MAX,
            bw <= cs,
            inset == cs - bw,
            s@ == old(s)@ + grid_cells(rows@, width as nat, y as nat, cs as nat, bw as nat),
        decreases height - y,
    {
        proof {
            assert((y + 1) * width <= height * width) by (nonlinear_arith)
                requires
                    y < height,
            ;
            assert(y * width + width == (y + 1) * width) by (nonlinear_arith);
            assert((y + 1) * cs <= height * cs) by (nonlinear_arith)
                requires
                    y < height,
            ;
            assert(y * cs + cs == (y + 1) * cs) by (nonlinear_arith);
        }
        let base = y * width;
        let y_px = y * cs + bw;
        let ghost row = rows@.subrange(base as int, base + width);
        let ghost before = s@;
        let mut x: usize = 0;
        while x < width
            invariant
                x <= width,
                len == rows@.len(),
                base + width <= rows@.len(),
                row == rows@.subrange(base as int, base + width),
                width * cs <= usize::MAX,
                bw <= cs,
                inset == cs - bw,
                y_px == y * cs + bw,
                s@ == before + row_cells(row, x as nat, y as nat, cs as nat, bw as nat),
            decreases width - x,
        {
            proof {
                assert((x + 1) * cs <= width * cs) by (nonlinear_arith)
                    requires
                        x < width,
                ;
                assert(x * cs + cs == (x + 1) * cs) by (nonlinear_arith);
            }
            let black = rows[base + x] == 1;
            push_square(s, x * cs + bw, y_px, inset, black);
            proof {
                assert(row[x as int] == rows@[base + x]);
                assert(row_cells(row, (x + 1) as nat, y as nat, cs as nat, bw as nat) == row_cells(
                    row,
                    x as nat,
                    y as nat,
                    cs as nat,
                    bw as nat,
                ) + cell_rect(x as nat, y as nat, cs as nat, bw as nat, row[x as int]));
            }
            x = x + 1;
        }
        proof {
            assert(grid_cells(rows@, width as nat, (y + 1) as nat, cs as nat, bw as nat) == grid_cells(
                rows@,
                width as nat,
                y as nat,
                cs as nat,
                bw as nat,
            ) + row_cells(row, width as nat, y as nat, cs as nat, bw as nat));
        }
        y = y + 1;
    }
}

/// The closing tag.
pub fn svg_close(s: &mut String)
    ensures
        final(s)@ == old(s)@ + "</svg>\n"@,
{
    s.append("</svg>\n");
}


/// The cell size the SVG draws with: the requested size, at least 1.
pub open spec fn svg_cell_size(cell_size: u32) -> nat {
    if cell_size == 0 { 1 } else { cell_size as nat }
}

/// Are inter-cell borders drawn? Only when asked for and cells are larger
/// than one pixel.
pub open spec fn svg_with_borders(cell_size: u32, show_borders: bool) -> bool {
    show_borders && svg_cell_size(cell_size) > 1
}

/// The SVG of a grid whose border width is a whole number of pixels `bw`
/// (0 without borders): head, then one bordered square per cell or one
/// rectangle per run of black cells, then the outer `frame` and the closing
/// tag. An empty grid gets the head and the closing tag only.
pub open spec fn svg_document_text(
    rows: Seq<u8>,
    width: nat,
    cell_size: u32,
    show_borders: bool,
    bw: nat,
    frame: Seq<char>,
) -> Seq<char> {
    let h = crate::export::full_rows(rows.len(), width);
    let cs = svg_cell_size(cell_size);
    let with_borders = svg_with_borders(cell_size, show_borders);
    let head = svg_prologue_text(width * cs, h * cs, with_borders, false);
    if width == 0 || h == 0 {
        head + "</svg>\n"@
    } else {
        head + (if with_borders {
            grid_cells(rows, width, h, cs, bw)
        } else {
            grid_runs(rows, width, h, cs)
        }) + frame + "</svg>\n"@
    }
}

/// The SVG document of a grid drawn with whole-pixel borders; the caller
/// supplies the outer frame element, whose coordinates are fractional.
pub fn svg_whole_pixel_document(
    rows: &[u8],
    width: usize,
    cell_size: u32,
    show_borders: bool,
    bw: usize,
    frame: &str,
) -> (s: String)
    requires
        width * svg_cell_size(cell_size) <= usize::MAX,
        crate::export::full_rows(rows@.len(), width as nat) * svg_cell_size(cell_size) <= usize::MAX,
        svg_with_borders(cell_size, show_borders) ==> bw <= svg_cell_size(cell_size),
    ensures
        s@ == svg_document_text(
            rows@,
            width as nat,
            cell_size,
            show_borders,
            if svg_with_borders(cell_size, show_borders) { bw as nat } else { 0 },
            frame@,
        ),
{
    let height: usize = if width == 0 { 0 } else { rows.len() / width };
    let cs: usize = if cell_size == 0 { 1 } else { cell_size as usize };
    let with_borders = show_borders && cs > 1;
    let mut s = String::new();
    svg_prologue(&mut s, width * cs, height * cs, with_borders, false);
    if width == 0 || height == 0 {
        svg_close(&mut s);
        return s;
    }
    proof {
        assert(height * width <= rows@.len()) by (nonlinear_arith)
            requires
                width > 0,
                height == rows@.len() as int / width as int,
        ;
    }
    if with_borders {
        svg_cell_grid(&mut s, rows, width, height, cs, bw);
    } else {
        svg_black_runs(&mut s, rows, width, height, cs);
    }
    s.append(frame);
    svg_close(&mut s);
    s
}


/// How the SVG treats its options: a cell size of 0 draws the same picture
/// as a cell size of 1; at a cell size of 1 the borders flag changes
/// nothing; and when no borders are drawn the border width changes nothing.
pub proof fn lemma_svg_options(
    rows: Seq<u8>,
    width: nat,
    cell_size: u32,
    show_borders: bool,
    bw: nat,
    other_bw: nat,
    frame: Seq<char>,
)
    ensures
        svg_document_text(rows, width, 0, show_borders, bw, frame) == svg_document_text(
            rows,
            width,
            1,
            show_borders,
            bw,
            frame,
        ),
        svg_document_text(rows, width, 1, true, bw, frame) == svg_document_text(
            rows,
            width,
            1,
            false,
            other_bw,
            frame,
        ),
        !svg_with_borders(cell_size, show_borders) ==> svg_document_text(
            rows,
            width,
            cell_size,
            show_borders,
            bw,
            frame,
        ) == svg_document_text(rows, width, cell_size, show_borders, other_bw, frame),
{
}


/// The SVG's head: an `<svg>` element and background rectangle exactly as
/// large as the grid drawn, `width * cs` pixels wide and, for the complete
/// rows `rows.len() / width`, `(rows.len() / width) * cs` high, where `cs`
/// is the cell size with 0 drawn as 1. The background is dark grey behind a
/// bordered grid and white otherwise.
pub proof fn lemma_svg_document_size(
    rows: Seq<u8>,
    width: nat,
    cell_size: u32,
    show_borders: bool,
    bw: nat,
    frame: Seq<char>,
)
    ensures
        ({
            let cs: nat = if cell_size == 0 { 1 } else { cell_size as nat };
            let w = width * cs;
            let h: nat = if width == 0 { 0 } else { (rows.len() / width) * cs };
            let head = "<?xml version=\"1.0\" encoding=\"UTF-8\"?>\n<svg xmlns=\"http://www.w3.org/2000/svg\" width=\""@
                + decimal(w) + "\" height=\""@ + decimal(h) + "\" viewBox=\"0 0 "@ + decimal(w) + " "@
                + decimal(h) + "\" shape-rendering=\""@ + "crispEdges"@ + "\">\n<rect width=\""@ + decimal(w)
                + "\" height=\""@ + decimal(h) + "\" fill=\""@ + (if show_borders && cs > 1 {
                "#4d4d4d"@
            } else {
                "#ffffff"@
            }) + "\"/>\n"@;
            let doc = svg_document_text(rows, width, cell_size, show_borders, bw, frame);
            &&& head.len() <= doc.len()
            &&& doc.take(head.len() as int) == head
            &&& doc.last() == '\n'
        }),
{
    let cs: nat = if cell_size == 0 { 1 } else { cell_size as nat };
    let hrows = crate::export::full_rows(rows.len(), width);
    assert(width == 0 || hrows * cs == (rows.len() / width) * cs);
    let doc = svg_document_text(rows, width, cell_size, show_borders, bw, frame);
    let head = svg_prologue_text(width * cs, hrows * cs, svg_with_borders(cell_size, show_borders), false);
    reveal_strlit("</svg>\n");
    if width == 0 || hrows == 0 {
        assert(doc == head + "</svg>\n"@);
    } else {
        let body = if svg_with_borders(cell_size, show_borders) {
            grid_cells(rows, width, hrows, cs, bw)
        } else {
            grid_runs(rows, width, hrows, cs)
        };
        assert(doc == head + body + frame + "</svg>\n"@);
        assert(doc =~= head + (body + frame + "</svg>\n"@));
    }
    assert(doc.take(head.len() as int) =~= head);
    let w = width * cs;
    let h: nat = if width == 0 { 0 } else { (rows.len() / width) * cs };
    assert(hrows * cs == h);
    assert(svg_with_borders(cell_size, show_borders) == (show_borders && cs > 1));
    assert(head == svg_prologue_text(w, h, show_borders && cs > 1, false));
    assert(doc.last() == '\n');
}


/// Without borders, row `y` is drawn as one black rectangle per maximal run
/// of 1 cells, left to right: from a 0 cell the drawing goes on at the next
/// cell; from a 1 cell that starts a run `x..e` (all 1, ending at the row's
/// end or a cell that is not 1) it is a rectangle at `(x * cs, y * cs)`,
/// `(e - x) * cs` wide and `cs` high, then the drawing from `e`. Each grid
/// row `y` is drawn from cells `y * width .. (y + 1) * width`, after the
/// rows above it.
pub proof fn lemma_svg_black_runs(rows: Seq<u8>, width: nat, h: nat, row: Seq<u8>, x: int, y: nat, cs: nat)
    requires
        0 <= x < row.len(),
    ensures
        row[x] != 1 ==> row_runs(row, x, y, cs) == row_runs(row, x + 1, y, cs),
        row[x] == 1 ==> exists|e: int|
            #![trigger row_runs(row, e, y, cs)]
            x < e <= row.len() && (forall|k: int| x <= k < e ==> #[trigger] row[k] == 1) && (e == row.len()
                || row[e] != 1) && row_runs(row, x, y, cs) == "<rect x=\""@ + decimal((x * cs) as nat)
                + "\" y=\""@ + decimal(y * cs) + "\" width=\""@ + decimal(((e - x) * cs) as nat)
                + "\" height=\""@ + decimal(cs) + "\"/>\n"@ + row_runs(row, e, y, cs),
        grid_runs(rows, width, h + 1, cs) == grid_runs(rows, width, h, cs) + row_runs(
            rows.subrange((h * width) as int, ((h + 1) * width) as int),
            0,
            h,
            cs,
        ),
{
    if row[x] == 1 {
        lemma_run_end(row, x);
        lemma_run_end(row, x + 1);
        let e = run_end(row, x);
        assert(e == run_end(row, x + 1));
        assert(x < e);
        assert(row_runs(row, x, y, cs) == run_rect(x as nat, e as nat, y, cs) + row_runs(row, e, y, cs));
        assert(((x as nat) * cs) as nat == (x * cs) as nat);
        assert((((e as nat) - (x as nat)) * cs) as nat == ((e - x) * cs) as nat);
        assert(row_runs(row, x, y, cs) == "<rect x=\""@ + decimal((x * cs) as nat) + "\" y=\""@
            + decimal(y * cs) + "\" width=\""@ + decimal(((e - x) * cs) as nat) + "\" height=\""@
            + decimal(cs) + "\"/>\n"@ + row_runs(row, e, y, cs));
        assert(x < e <= row.len() && (forall|k: int| x <= k < e ==> #[trigger] row[k] == 1) && (e
            == row.len() || row[e] != 1));
    }
    assert((h + 1 - 1) as nat == h);
    assert(((h + 1) * width) as int == (h + 1) * width);
}

/// With borders, row `y` is drawn as one square per cell, left to right:
/// cell `x` is a square of side `cs - bw` at `(x * cs + bw, y * cs + bw)`,
/// black when the cell is 1 and white otherwise, so the dark background
/// shows `bw` pixels of grid line around each cell. Grid row `y` is drawn
/// from cells `y * width .. (y + 1) * width`, after the rows above it.
pub proof fn lemma_svg_bordered_cells(
    rows: Seq<u8>,
    width: nat,
    h: nat,
    row: Seq<u8>,
    n: nat,
    y: nat,
    cs: nat,
    bw: nat,
)
    requires
        n < row.len(),
        bw <= cs,
    ensures
        row_cells(row, n + 1, y, cs, bw) == row_cells(row, n, y, cs, bw) + "<rect x=\""@ + decimal(
            n * cs + bw,
        ) + "\" y=\""@ + decimal(y * cs + bw) + "\" width=\""@ + decimal((cs - bw) as nat)
            + "\" height=\""@ + decimal((cs - bw) as nat) + "\" fill=\""@ + (if row[n as int] == 1 {
            "#000000"@
        } else {
            "#ffffff"@
        }) + "\"/>\n"@,
        grid_cells(rows, width, h + 1, cs, bw) == grid_cells(rows, width, h, cs, bw) + row_cells(
            rows.subrange((h * width) as int, ((h + 1) * width) as int),
            width,
            h,
            cs,
            bw,
        ),
{
    assert((n + 1 - 1) as nat == n);
    assert((h + 1 - 1) as nat == h);
}

} // verus!
