//! The stand-alone HTML page of one run: its file name, its tiling into
//! stacked canvases, and its text.

use vstd::prelude::*;
use base64::Engine;
use crate::bits::{pack_bits_range, pack_height, packed_bytes};
use crate::decimal::{decimal, push_u64, push_usize};
use crate::sim::{boundary_name, BoundaryMode, PaddingAlign, PaddingFill};
use crate::text::{chars_of, push_char};
use crate::page::{PAGE_BEFORE_TITLE, PAGE_BEFORE_HEADING, PAGE_BEFORE_JOB_ID, PAGE_BEFORE_RULE, PAGE_BEFORE_WIDTH, PAGE_BEFORE_PROGRESS, PAGE_BEFORE_GENERATIONS, PAGE_BEFORE_BOUNDARY, PAGE_BEFORE_STATUS, PAGE_BEFORE_EXPORTED, PAGE_BEFORE_PREVIEW, PAGE_BEFORE_META_W, PAGE_BEFORE_META_H, PAGE_BEFORE_META_CS, PAGE_BEFORE_META_BORDERS, PAGE_BEFORE_META_BW, PAGE_BEFORE_META_TILES, PAGE_BEFORE_META_FILL, PAGE_BEFORE_META_ALIGN, PAGE_BEFORE_META_IC, PAGE_BEFORE_TILE_DATA, PAGE_SCRIPT};

verus! {

/// Per-canvas cell cap of an exported page.
pub const MAX_EXPORT_CELLS: usize = 200_000_000;

/// Per-canvas height cap, in pixels.
pub const MAX_EXPORT_HEIGHT: usize = 32_000;

/// The label of a padding fill: "0" or "1".
pub open spec fn fill_label_text(f: PaddingFill) -> Seq<char> {
    match f {
        PaddingFill::Zero => "0"@,
        PaddingFill::One => "1"@,
    }
}

/// The label of a padding alignment: "before", "after" or "centered".
pub open spec fn align_label_text(a: PaddingAlign) -> Seq<char> {
    match a {
        PaddingAlign::Before => "before"@,
        PaddingAlign::After => "after"@,
        PaddingAlign::Center => "centered"@,
    }
}

/// "0" or "1".
pub fn fill_label(f: PaddingFill) -> (s: &'static str)
    ensures
        s@ == fill_label_text(f),
{
    match f {
        PaddingFill::Zero => "0",
        PaddingFill::One => "1",
    }
}

/// "before", "after" or "centered".
pub fn align_label(a: PaddingAlign) -> (s: &'static str)
    ensures
        s@ == align_label_text(a),
{
    match a {
        PaddingAlign::Before => "before",
        PaddingAlign::After => "after",
        PaddingAlign::Center => "centered",
    }
}

/// How `html_escape` writes one character.
pub open spec fn html_escape_char(c: char) -> Seq<char> {
    if c == '&' {
        "&amp;"@
    } else if c == '<' {
        "&lt;"@
    } else if c == '>' {
        "&gt;"@
    } else if c == '"' {
        "&quot;"@
    } else if c == '\'' {
        "&#39;"@
    } else {
        seq![c]
    }
}

/// Each character of `s` escaped for HTML text and attribute values.
pub open spec fn html_escaped(s: Seq<char>) -> Seq<char>
    decreases s.len(),
{
    if s.len() == 0 {
        Seq::empty()
    } else {
        html_escaped(s.drop_last()) + html_escape_char(s.last())
    }
}

/// Append `s`, escaped for HTML, to `out`.
pub fn push_html_escaped(out: &mut String, s: &str)
    ensures
        final(out)@ == old(out)@ + html_escaped(s@),
{
    let v = chars_of(s);
    let mut i: usize = 0;
    while i < v.len()
        invariant
            i <= v@.len(),
            out@ == old(out)@ + html_escaped(v@.take(i as int)),
        decreases v@.len() - i,
    {
        let c = v[i];
        let ghost before = out@;
        if c == '&' {
            out.append("&amp;");
        } else if c == '<' {
            out.append("&lt;");
        } else if c == '>' {
            out.append("&gt;");
        } else if c == '"' {
            out.append("&quot;");
        } else if c == '\'' {
            out.append("&#39;");
        } else {
            push_char(out, c);
        }
        proof {
            assert(v@.take(i + 1).drop_last() =~= v@.take(i as int));
            assert(out@ =~= before + html_escape_char(c));
        }
        i = i + 1;
    }
    proof {
        assert(v@.take(i as int) =~= v@);
    }
}

/// Escape `s` for HTML text and attribute values.
pub fn html_escape(s: &str) -> (r: String)
    ensures
        r@ == html_escaped(s@),
{
    let mut r = String::new();
    push_html_escaped(&mut r, s);
    r
}

/// The rule number written with at least three digits.
pub open spec fn rule_digits(rule: u8) -> Seq<char> {
    if rule < 10 {
        "00"@ + decimal(rule as nat)
    } else if rule < 100 {
        "0"@ + decimal(rule as nat)
    } else {
        decimal(rule as nat)
    }
}

/// The boundary as the file name spells it.
pub open spec fn boundary_short(b: BoundaryMode) -> Seq<char> {
    match b {
        BoundaryMode::ZeroPadded => "padded"@,
        BoundaryMode::Wrap => "wraparound"@,
    }
}

/// `rule{rule:03}_w{width}_g{generations}_{boundary}_{timestamp}_job{id}.html`.
pub open spec fn export_file_name_text(
    rule: u8,
    width: usize,
    generations: usize,
    boundary: BoundaryMode,
    timestamp: Seq<char>,
    job_id: u64,
) -> Seq<char> {
    "rule"@ + rule_digits(rule) + "_w"@ + decimal(width as nat) + "_g"@ + decimal(
        generations as nat,
    ) + "_"@ + boundary_short(boundary) + "_"@ + timestamp + "_job"@ + decimal(job_id as nat)
        + ".html"@
}

/// The file name of an exported run.
pub fn export_file_name(
    rule: u8,
    width: usize,
    generations: usize,
    boundary: BoundaryMode,
    timestamp: &str,
    job_id: u64,
) -> (s: String)
    ensures
        s@ == export_file_name_text(rule, width, generations, boundary, timestamp@, job_id),
{
    let mut s = String::new();
    s.append("rule");
    if rule < 10 {
        s.append("00");
    } else if rule < 100 {
        s.append("0");
    }
    push_u64(&mut s, rule as u64);
    s.append("_w");
    push_usize(&mut s, width);
    s.append("_g");
    push_usize(&mut s, generations);
    s.append("_");
    match boundary {
        BoundaryMode::ZeroPadded => s.append("padded"),
        BoundaryMode::Wrap => s.append("wraparound"),
    }
    s.append("_");
    s.append(timestamp);
    s.append("_job");
    push_u64(&mut s, job_id);
    s.append(".html");
    s
}

/// The smaller of `a` and `b`.
pub open spec fn min(a: int, b: int) -> int {
    if a < b { a } else { b }
}

/// The larger of `a` and `b`.
pub open spec fn max(a: int, b: int) -> int {
    if a < b { b } else { a }
}

/// `v` clamped to `lo..=hi`.
pub open spec fn clamp(v: int, lo: int, hi: int) -> int {
    if v < lo { lo } else if v > hi { hi } else { v }
}

/// The initial cell size of an exported page: about 1600 pixels across,
/// between 1 and 16 pixels per cell.
pub open spec fn export_cell_size_spec(width: nat) -> int {
    clamp(1600int / max(width as int, 1), 1, 16)
}

/// The exported page's initial cell size; see [`export_cell_size_spec`].
pub fn export_cell_size(width: usize) -> (cs: usize)
    ensures
        cs == export_cell_size_spec(width as nat),
        1 <= cs <= 16,
{
    let w = if width < 1 { 1 } else { width };
    let q = 1600 / w;
    if q < 1 {
        1
    } else if q > 16 {
        16
    } else {
        q
    }
}

/// Rows per canvas: at most `MAX_EXPORT_CELLS` cells and `MAX_EXPORT_HEIGHT`
/// pixels high, and at least one row.
pub open spec fn tile_rows_spec(width: nat, cs: nat) -> int {
    let by_cells: int = if width == 0 { 1 } else { max((MAX_EXPORT_CELLS as int) / (width as int), 1) };
    max(min(by_cells, (MAX_EXPORT_HEIGHT as int) / max(cs as int, 1)), 1)
}

/// Rows per canvas; see [`tile_rows_spec`].
pub fn tile_rows(width: usize, cs: usize) -> (r: usize)
    ensures
        r == tile_rows_spec(width as nat, cs as nat),
        r >= 1,
{
    let by_cells: usize = if width == 0 {
        1
    } else {
        let q = MAX_EXPORT_CELLS / width;
        if q < 1 { 1 } else { q }
    };
    let c = if cs < 1 { 1 } else { cs };
    let by_height = MAX_EXPORT_HEIGHT / c;
    let m = if by_cells < by_height { by_cells } else { by_height };
    if m < 1 { 1 } else { m }
}

/// How many canvases `height` rows need at `rows_per_tile` rows each.
pub open spec fn tile_count_spec(height: nat, rows_per_tile: nat) -> nat {
    if rows_per_tile == 0 {
        0
    } else {
        ((height + rows_per_tile - 1) / (rows_per_tile as int)) as nat
    }
}

/// How many canvases `height` rows need; see [`tile_count_spec`].
pub fn tile_count(height: usize, rows_per_tile: usize) -> (n: usize)
    requires
        rows_per_tile >= 1,
    ensures
        n == tile_count_spec(height as nat, rows_per_tile as nat),
        n * rows_per_tile >= height,
        n > 0 ==> (n - 1) * rows_per_tile < height,
{
    let q = height / rows_per_tile;
    proof {
        assert(q * rows_per_tile + height % rows_per_tile == height) by (nonlinear_arith)
            requires
                q == height / rows_per_tile,
                rows_per_tile >= 1,
        ;
        if height % rows_per_tile != 0 {
            assert(rows_per_tile >= 2);
            assert(q < height) by (nonlinear_arith)
                requires
                    q * rows_per_tile + height % rows_per_tile == height,
                    rows_per_tile >= 2,
                    height % rows_per_tile > 0,
            ;
        }
    }
    let n = if height % rows_per_tile != 0 { q + 1 } else { q };
    proof {
        assert(q * rows_per_tile + height % rows_per_tile == height) by (nonlinear_arith)
            requires
                q == height / rows_per_tile,
                rows_per_tile >= 1,
        ;
        assert(n == (height + rows_per_tile - 1) / (rows_per_tile as int)) by (nonlinear_arith)
            requires
                q == height / rows_per_tile,
                rows_per_tile >= 1,
                n == (if height % rows_per_tile != 0 { q + 1 } else { q as int }),
                q * rows_per_tile + height % rows_per_tile == height,
        ;
        assert(n * rows_per_tile >= height) by (nonlinear_arith)
            requires
                q * rows_per_tile + height % rows_per_tile == height,
                n == (if height % rows_per_tile != 0 { q + 1 } else { q as int }),
                height % rows_per_tile < rows_per_tile,
        ;
        assert(n > 0 ==> (n - 1) * rows_per_tile < height) by (nonlinear_arith)
            requires
                q * rows_per_tile + height % rows_per_tile == height,
                n == (if height % rows_per_tile != 0 { q + 1 } else { q as int }),
                height % rows_per_tile < rows_per_tile,
                rows_per_tile >= 1,
        ;
    }
    n
}

/// The first row of tile `i`.
pub open spec fn tile_start(i: nat, rows_per_tile: nat) -> nat {
    i * rows_per_tile
}

/// One past the last row of tile `i`.
pub open spec fn tile_end(i: nat, rows_per_tile: nat, height: nat) -> nat {
    if (i + 1) * rows_per_tile < height {
        (i + 1) * rows_per_tile
    } else {
        height
    }
}

/// The base64 digit for a six-bit value: 'A'..'Z', 'a'..'z', '0'..'9',
/// '+', '/' (RFC 4648's standard alphabet).
pub open spec fn base64_digit(v: nat) -> char {
    if v < 26 {
        (65 + v) as char
    } else if v < 52 {
        (97 + (v - 26)) as char
    } else if v < 62 {
        (48 + (v - 52)) as char
    } else if v == 62 {
        '+'
    } else {
        '/'
    }
}

/// The standard base64 text of some bytes (RFC 4648, section 4): each
/// group of three bytes, most significant bit first, becomes four digits of
/// six bits; a last group of one or two bytes is filled with zero bits and
/// padded with '=' to four characters.
pub open spec fn base64_text(bytes: Seq<u8>) -> Seq<char>
    decreases bytes.len(),
{
    if bytes.len() == 0 {
        Seq::empty()
    } else if bytes.len() == 1 {
        let a = bytes[0] as nat;
        seq![base64_digit(a / 4), base64_digit((a % 4) * 16), '=', '=']
    } else if bytes.len() == 2 {
        let a = bytes[0] as nat;
        let b = bytes[1] as nat;
        seq![base64_digit(a / 4), base64_digit((a % 4) * 16 + b / 16), base64_digit((b % 16) * 4), '=']
    } else {
        let a = bytes[0] as nat;
        let b = bytes[1] as nat;
        let c = bytes[2] as nat;
        seq![
            base64_digit(a / 4),
            base64_digit((a % 4) * 16 + b / 16),
            base64_digit((b % 16) * 4 + c / 64),
            base64_digit(c % 64),
        ] + base64_text(bytes.skip(3))
    }
}

/// `base64::engine::general_purpose::STANDARD.encode`: the standard
/// (RFC 4648) alphabet with '=' padding, as [`base64_text`] spells it. The
/// call panics only when the encoded length overflows `usize`, which the
/// bound on the input rules out.
#[verifier::external_body]
pub(crate) fn base64_encode(bytes: &[u8]) -> (s: String)
    requires
        bytes@.len() <= usize::MAX / 2,
    ensures
        s@ == base64_text(bytes@),
{
    base64::engine::general_purpose::STANDARD.encode(bytes)
}


/// The base64 text of the packed cells of tile `i`.
pub open spec fn tile_data(rows: Seq<u8>, width: nat, height: nat, rows_per_tile: nat, i: nat) -> Seq<
    char,
> {
    base64_text(
        packed_bytes(
            rows,
            width,
            tile_start(i, rows_per_tile),
            tile_end(i, rows_per_tile, height),
        ),
    )
}

/// The row range and the base64 text of the packed cells of tile `i`.
pub fn tile_payload(rows: &[u8], width: usize, height: usize, rows_per_tile: usize, i: usize) -> (r: (
    usize,
    usize,
    String,
))
    requires
        rows_per_tile >= 1,
        i * rows_per_tile < height,
    ensures
        r.0 == tile_start(i as nat, rows_per_tile as nat),
        r.1 == tile_end(i as nat, rows_per_tile as nat, height as nat),
        r.2@ == tile_data(rows@, width as nat, height as nat, rows_per_tile as nat, i as nat),
{
    let start = i * rows_per_tile;
    let end = if height - start > rows_per_tile {
        start + rows_per_tile
    } else {
        height
    };
    proof {
        assert((i + 1) * rows_per_tile == start + rows_per_tile) by (nonlinear_arith)
            requires
                start == i * rows_per_tile,
        ;
    }
    let packed = pack_bits_range(rows, width, start, end);
    let len = rows.len();
    proof {
        let n = width * pack_height(rows@.len(), width as nat, start as nat, end as nat);
        assert(packed@.len() <= usize::MAX / 2) by (nonlinear_arith)
            requires
                packed@.len() == (n + 7) / 8,
                n <= rows@.len(),
                rows@.len() <= usize::MAX,
        ;
    }
    let data = base64_encode(packed.as_slice());
    (start, end, data)
}

/// One run as the exporter sees it.
pub struct ExportInput<'a> {
    pub job_id: u64,
    pub rule: u8,
    pub width: usize,
    pub generations: usize,
    pub progress: usize,
    pub boundary: BoundaryMode,
    pub status: &'a str,
    /// Flat row-major grid: cell (y, x) lives at `rows[y * width + x]`.
    pub rows: &'a [u8],
    pub show_borders: bool,
    /// The inter-cell border width as the page's JSON metadata spells it.
    pub border_width: &'a str,
    pub padding_fill: PaddingFill,
    pub padding_align: PaddingAlign,
}

/// The complete rows of `width` cells in `rows` (none for width 0).
pub open spec fn full_rows(len: nat, width: nat) -> nat {
    if width == 0 { 0 } else { len / width }
}

/// The JSON entries describing tiles `0..n`.
pub open spec fn tiles_meta(height: nat, rows_per_tile: nat, n: nat) -> Seq<char>
    decreases n,
{
    if n == 0 {
        Seq::empty()
    } else {
        let i = (n - 1) as nat;
        tiles_meta(height, rows_per_tile, i) + (if n > 1 { ","@ } else { Seq::empty() })
            + "{\"id\":\"bits"@ + decimal(i) + "\",\"start\":"@ + decimal(
            tile_start(i, rows_per_tile),
        ) + ",\"end\":"@ + decimal(tile_end(i, rows_per_tile, height)) + "}"@
    }
}

/// The script elements carrying the packed cells of tiles `0..n`.
pub open spec fn tiles_scripts(rows: Seq<u8>, width: nat, height: nat, rows_per_tile: nat, n: nat) -> Seq<
    char,
>
    decreases n,
{
    if n == 0 {
        Seq::empty()
    } else {
        let i = (n - 1) as nat;
        tiles_scripts(rows, width, height, rows_per_tile, i) + "<script id=\"bits"@ + decimal(i)
            + "\" type=\"application/octet-stream\">"@ + tile_data(
            rows,
            width,
            height,
            rows_per_tile,
            i,
        ) + "</script>\n"@
    }
}

/// The page title: rule, grid size and job.
pub open spec fn page_title(rule: u8, width: nat, height: nat, job_id: u64) -> Seq<char> {
    "Rule "@ + decimal(rule as nat) + " - "@ + decimal(width) + "x"@ + decimal(height)
        + " - job "@ + decimal(job_id as nat)
}

/// The preview line: one canvas, or how many tiles of how many rows.
pub open spec fn preview_text(tiles: nat, rows_per_tile: nat) -> Seq<char> {
    if tiles <= 1 {
        "full fidelity (single canvas)"@
    } else {
        "full fidelity: "@ + decimal(tiles) + " tiles ("@ + decimal(rows_per_tile)
            + " rows each, last shorter)"@
    }
}

/// "true" or "false".
pub open spec fn bool_text(b: bool) -> Seq<char> {
    if b { "true"@ } else { "false"@ }
}

/// The visible part of the page head: title, heading and the run's facts.
pub open spec fn page_summary(
    input: ExportInput,
    exported_at: Seq<char>,
    title: Seq<char>,
    preview: Seq<char>,
) -> Seq<char> {
    PAGE_BEFORE_TITLE@ + html_escaped(title) + PAGE_BEFORE_HEADING@ + html_escaped(title)
        + PAGE_BEFORE_JOB_ID@ + decimal(input.job_id as nat) + PAGE_BEFORE_RULE@ + decimal(
        input.rule as nat,
    ) + PAGE_BEFORE_WIDTH@ + decimal(input.width as nat) + PAGE_BEFORE_PROGRESS@ + decimal(
        input.progress as nat,
    ) + PAGE_BEFORE_GENERATIONS@ + decimal(input.generations as nat) + PAGE_BEFORE_BOUNDARY@
        + html_escaped(boundary_name(input.boundary)) + PAGE_BEFORE_STATUS@ + html_escaped(
        input.status@,
    ) + PAGE_BEFORE_EXPORTED@ + html_escaped(exported_at) + PAGE_BEFORE_PREVIEW@ + preview
}

/// `n`, or 1 when `n` is 0.
pub open spec fn at_least_one(n: nat) -> nat {
    if n == 0 { 1 } else { n }
}

/// The grid facts in the JSON metadata the viewer script reads.
pub open spec fn page_meta_grid(input: ExportInput, height: nat, cs: nat) -> Seq<char> {
    PAGE_BEFORE_META_W@ + decimal(at_least_one(input.width as nat)) + PAGE_BEFORE_META_H@
        + decimal(at_least_one(height)) + PAGE_BEFORE_META_CS@ + decimal(cs)
        + PAGE_BEFORE_META_BORDERS@ + bool_text(input.show_borders) + PAGE_BEFORE_META_BW@
        + input.border_width@
}

/// The tiles and labels in the JSON metadata the viewer script reads.
pub open spec fn page_meta_tiles(input: ExportInput, ic: Seq<char>, tiles: Seq<char>) -> Seq<char> {
    PAGE_BEFORE_META_TILES@ + tiles + PAGE_BEFORE_META_FILL@ + fill_label_text(input.padding_fill)
        + PAGE_BEFORE_META_ALIGN@ + align_label_text(input.padding_align) + PAGE_BEFORE_META_IC@
        + ic + PAGE_BEFORE_TILE_DATA@
}

/// The JSON metadata the viewer script reads.
pub open spec fn page_meta(
    input: ExportInput,
    ic: Seq<char>,
    height: nat,
    cs: nat,
    tiles: Seq<char>,
) -> Seq<char> {
    page_meta_grid(input, height, cs) + page_meta_tiles(input, ic, tiles)
}

/// The head of the page: everything before the viewer script.
pub open spec fn page_head(input: ExportInput, exported_at: Seq<char>, ic: Seq<char>) -> Seq<char> {
    let w = input.width as nat;
    let h = full_rows(input.rows@.len(), w);
    let cs = export_cell_size_spec(w) as nat;
    let rpt = tile_rows_spec(w, cs) as nat;
    let nt = tile_count_spec(h, rpt);
    let title = page_title(input.rule, w, h, input.job_id);
    page_summary(input, exported_at, title, preview_text(nt, rpt)) + page_meta(
        input,
        ic,
        h,
        cs,
        tiles_meta(h, rpt, nt),
    ) + tiles_scripts(input.rows@, w, h, rpt, nt)
}

/// The complete page.
pub open spec fn run_page(input: ExportInput, exported_at: Seq<char>, ic: Seq<char>) -> Seq<char> {
    page_head(input, exported_at, ic) + PAGE_SCRIPT@
}


/// Build the tile metadata entries and script elements for `n` tiles.
fn build_tiles(rows: &[u8], width: usize, height: usize, rows_per_tile: usize, n: usize) -> (r: (
    String,
    String,
))
    requires
        rows_per_tile >= 1,
        n > 0 ==> (n - 1) * rows_per_tile < height,
    ensures
        r.0@ == tiles_meta(height as nat, rows_per_tile as nat, n as nat),
        r.1@ == tiles_scripts(rows@, width as nat, height as nat, rows_per_tile as nat, n as nat),
{
    let mut meta = String::new();
    let mut scripts = String::new();
    let mut i: usize = 0;
    while i < n
        invariant
            i <= n,
            rows_per_tile >= 1,
            n > 0 ==> (n - 1) * rows_per_tile < height,
            meta@ == tiles_meta(height as nat, rows_per_tile as nat, i as nat),
            scripts@ == tiles_scripts(rows@, width as nat, height as nat, rows_per_tile as nat, i as nat),
        decreases n - i,
    {
        proof {
            assert(i * rows_per_tile <= (n - 1) * rows_per_tile) by (nonlinear_arith)
                requires
                    i <= n - 1,
            ;
        }
        let (start, end, data) = tile_payload(rows, width, height, rows_per_tile, i);
        if i > 0 {
            meta.append(",");
        }
        meta.append("{\"id\":\"bits");
        push_usize(&mut meta, i);
        meta.append("\",\"start\":");
        push_usize(&mut meta, start);
        meta.append(",\"end\":");
        push_usize(&mut meta, end);
        meta.append("}");
        scripts.append("<script id=\"bits");
        push_usize(&mut scripts, i);
        scripts.append("\" type=\"application/octet-stream\">");
        scripts.append(data.as_str());
        scripts.append("</script>\n");
        i = i + 1;
    }
    (meta, scripts)
}

fn push_summary(html: &mut String, input: &ExportInput, exported_at: &str, title: &str, preview: &str)
    ensures
        final(html)@ == old(html)@ + page_summary(*input, exported_at@, title@, preview@),
{
    html.append(PAGE_BEFORE_TITLE);
    push_html_escaped(html, title);
    html.append(PAGE_BEFORE_HEADING);
    push_html_escaped(html, title);
    html.append(PAGE_BEFORE_JOB_ID);
    push_u64(html, input.job_id);
    html.append(PAGE_BEFORE_RULE);
    push_u64(html, input.rule as u64);
    html.append(PAGE_BEFORE_WIDTH);
    push_usize(html, input.width);
    html.append(PAGE_BEFORE_PROGRESS);
    push_usize(html, input.progress);
    html.append(PAGE_BEFORE_GENERATIONS);
    push_usize(html, input.generations);
    html.append(PAGE_BEFORE_BOUNDARY);
    push_html_escaped(html, input.boundary.name());
    html.append(PAGE_BEFORE_STATUS);
    push_html_escaped(html, input.status);
    html.append(PAGE_BEFORE_EXPORTED);
    push_html_escaped(html, exported_at);
    html.append(PAGE_BEFORE_PREVIEW);
    html.append(preview);
}

fn push_meta_grid(html: &mut String, input: &ExportInput, height: usize, cs: usize)
    ensures
        final(html)@ == old(html)@ + page_meta_grid(*input, height as nat, cs as nat),
{
    let w1: usize = if input.width < 1 { 1 } else { input.width };
    let h1: usize = if height < 1 { 1 } else { height };
    let borders: &str = if input.show_borders { "true" } else { "false" };
    html.append(PAGE_BEFORE_META_W);
    push_usize(html, w1);
    html.append(PAGE_BEFORE_META_H);
    push_usize(html, h1);
    html.append(PAGE_BEFORE_META_CS);
    push_usize(html, cs);
    html.append(PAGE_BEFORE_META_BORDERS);
    html.append(borders);
    html.append(PAGE_BEFORE_META_BW);
    html.append(input.border_width);
}

fn push_meta_tiles(html: &mut String, input: &ExportInput, ic: &str, tiles: &str)
    ensures
        final(html)@ == old(html)@ + page_meta_tiles(*input, ic@, tiles@),
{
    html.append(PAGE_BEFORE_META_TILES);
    html.append(tiles);
    html.append(PAGE_BEFORE_META_FILL);
    html.append(fill_label(input.padding_fill));
    html.append(PAGE_BEFORE_META_ALIGN);
    html.append(align_label(input.padding_align));
    html.append(PAGE_BEFORE_META_IC);
    html.append(ic);
    html.append(PAGE_BEFORE_TILE_DATA);
}

/// The stand-alone HTML page of one run: metadata, the packed cells split
/// into stacked canvases, and the viewer script.
pub fn render_run_html(input: &ExportInput, exported_at: &str, ic: &str) -> (html: String)
    ensures
        html@ == run_page(*input, exported_at@, ic@),
{
    let rows = input.rows;
    let width = input.width;
    let height: usize = if width == 0 { 0 } else { rows.len() / width };
    let cs = export_cell_size(width);
    let rpt = tile_rows(width, cs);
    let nt = tile_count(height, rpt);
    let (tiles_meta_json, tile_scripts) = build_tiles(rows, width, height, rpt, nt);
    let mut title = String::new();
    title.append("Rule ");
    push_u64(&mut title, input.rule as u64);
    title.append(" - ");
    push_usize(&mut title, width);
    title.append("x");
    push_usize(&mut title, height);
    title.append(" - job ");
    push_u64(&mut title, input.job_id);
    let mut preview = String::new();
    if nt <= 1 {
        preview.append("full fidelity (single canvas)");
    } else {
        preview.append("full fidelity: ");
        push_usize(&mut preview, nt);
        preview.append(" tiles (");
        push_usize(&mut preview, rpt);
        preview.append(" rows each, last shorter)");
    }
    let ghost summary = page_summary(*input, exported_at@, title@, preview@);
    let ghost meta = page_meta(*input, ic@, height as nat, cs as nat, tiles_meta_json@);
    let mut html = String::new();
    push_summary(&mut html, input, exported_at, title.as_str(), preview.as_str());
    push_meta_grid(&mut html, input, height, cs);
    push_meta_tiles(&mut html, input, ic, tiles_meta_json.as_str());
    proof {
        assert(html@ =~= summary + meta);
    }
    html.append(tile_scripts.as_str());
    html.append(PAGE_SCRIPT);
    proof {
        assert(height == full_rows(input.rows@.len(), width as nat));
        assert(title@ == page_title(input.rule, width as nat, height as nat, input.job_id));
        assert(preview@ == preview_text(nt as nat, rpt as nat));
        assert(page_head(*input, exported_at@, ic@) == summary + meta + tile_scripts@);
    }
    html
}


/// Escaped text holds no markup character: no '<', '>', '"' or '\''.
pub proof fn lemma_html_escaped_is_inert(s: Seq<char>)
    ensures
        forall|i: int|
            0 <= i < html_escaped(s).len() ==> {
                let c = #[trigger] html_escaped(s)[i];
                c != '<' && c != '>' && c != '"' && c != '\''
            },
    decreases s.len(),
{
    if s.len() > 0 {
        lemma_html_escaped_is_inert(s.drop_last());
        let head = html_escaped(s.drop_last());
        let tail = html_escape_char(s.last());
        reveal_strlit("&amp;");
        reveal_strlit("&lt;");
        reveal_strlit("&gt;");
        reveal_strlit("&quot;");
        reveal_strlit("&#39;");
        assert forall|i: int| 0 <= i < html_escaped(s).len() implies {
            let c = #[trigger] html_escaped(s)[i];
            c != '<' && c != '>' && c != '"' && c != '\''
        } by {
            if i < head.len() {
                assert(html_escaped(s)[i] == head[i]);
            } else {
                assert(html_escaped(s)[i] == tail[i - head.len()]);
            }
        }
    }
}

/// The tiles of a page cover its rows once each, in order: the first starts
/// at row 0, each later one starts where the one before it ends, the last
/// ends at the last row, and none is empty.
pub proof fn lemma_tiles_cover_rows(height: nat, rows_per_tile: nat)
    requires
        rows_per_tile >= 1,
        height >= 1,
    ensures
        tile_count_spec(height, rows_per_tile) >= 1,
        tile_start(0, rows_per_tile) == 0,
        forall|i: nat|
            i + 1 < tile_count_spec(height, rows_per_tile) ==> #[trigger] tile_end(i, rows_per_tile, height)
                == tile_start(i + 1, rows_per_tile),
        tile_end((tile_count_spec(height, rows_per_tile) - 1) as nat, rows_per_tile, height) == height,
        forall|i: nat|
            i < tile_count_spec(height, rows_per_tile) ==> tile_start(i, rows_per_tile) < #[trigger] tile_end(
                i,
                rows_per_tile,
                height,
            ),
{
    let n = tile_count_spec(height, rows_per_tile);
    let r = rows_per_tile as int;
    let h = height as int;
    assert(n == (h + r - 1) / r);
    assert(n >= 1) by (nonlinear_arith)
        requires
            n == (h + r - 1) / r,
            h >= 1,
            r >= 1,
    ;
    assert((n - 1) * r < h && n * r >= h) by (nonlinear_arith)
        requires
            n == (h + r - 1) / r,
            h >= 1,
            r >= 1,
    ;
    assert(tile_start(0, rows_per_tile) == 0);
    assert forall|i: nat| i + 1 < n implies #[trigger] tile_end(i, rows_per_tile, height) == tile_start(
        i + 1,
        rows_per_tile,
    ) by {
        assert((i + 1) * r <= (n - 1) * r) by (nonlinear_arith)
            requires
                i + 1 <= n - 1,
                r >= 1,
        ;
    }
    assert(tile_end((n - 1) as nat, rows_per_tile, height) == height) by {
        assert(((n - 1) as nat + 1) * r == n * r);
    }
    assert forall|i: nat| i < n implies tile_start(i, rows_per_tile) < #[trigger] tile_end(
        i,
        rows_per_tile,
        height,
    ) by {
        assert(i * r <= (n - 1) * r) by (nonlinear_arith)
            requires
                i <= n - 1,
                r >= 1,
        ;
        assert((i + 1) * r == i * r + r) by (nonlinear_arith);
    }
}



/// The exported page shows the run's own facts, in order: its title and
/// heading "Rule {rule} - {width}x{height} - job {job id}" (height the
/// complete rows of the grid), then the job id, the rule, the width, the
/// progress out of the generations, the boundary, the status, the export
/// time and the preview line, each after its label.
pub proof fn lemma_page_shows_run_facts(input: ExportInput, exported_at: Seq<char>, ic: Seq<char>)
    ensures
        ({
            let w = input.width as nat;
            let h: nat = if w == 0 { 0 } else { input.rows@.len() / w };
            let title = "Rule "@ + decimal(input.rule as nat) + " - "@ + decimal(w) + "x"@ + decimal(h)
                + " - job "@ + decimal(input.job_id as nat);
            let cs = export_cell_size_spec(w) as nat;
            let rpt = tile_rows_spec(w, cs) as nat;
            let facts = PAGE_BEFORE_TITLE@ + html_escaped(title) + PAGE_BEFORE_HEADING@ + html_escaped(title)
                + PAGE_BEFORE_JOB_ID@ + decimal(input.job_id as nat) + PAGE_BEFORE_RULE@ + decimal(
                input.rule as nat,
            ) + PAGE_BEFORE_WIDTH@ + decimal(w) + PAGE_BEFORE_PROGRESS@ + decimal(input.progress as nat)
                + PAGE_BEFORE_GENERATIONS@ + decimal(input.generations as nat) + PAGE_BEFORE_BOUNDARY@
                + html_escaped(boundary_name(input.boundary)) + PAGE_BEFORE_STATUS@ + html_escaped(
                input.status@,
            ) + PAGE_BEFORE_EXPORTED@ + html_escaped(exported_at) + PAGE_BEFORE_PREVIEW@ + preview_text(
                tile_count_spec(h, rpt),
                rpt,
            );
            let page = run_page(input, exported_at, ic);
            &&& facts.len() <= page.len()
            &&& page.take(facts.len() as int) == facts
        }),
{
    let w = input.width as nat;
    let h = full_rows(input.rows@.len(), w);
    let cs = export_cell_size_spec(w) as nat;
    let rpt = tile_rows_spec(w, cs) as nat;
    let nt = tile_count_spec(h, rpt);
    let title = page_title(input.rule, w, h, input.job_id);
    let summary = page_summary(input, exported_at, title, preview_text(nt, rpt));
    let rest = page_meta(input, ic, h, cs, tiles_meta(h, rpt, nt)) + tiles_scripts(
        input.rows@,
        w,
        h,
        rpt,
        nt,
    ) + PAGE_SCRIPT@;
    let page = run_page(input, exported_at, ic);
    assert(page =~= summary + rest);
    assert(page.take(summary.len() as int) =~= summary);
}

/// The exported page's viewer metadata: after the run's facts it gives the
/// grid's width and height (at least 1), the cell size, whether borders
/// show, the border width, the tiles, the padding fill and alignment
/// labels and the initial-condition label, then one script element per
/// tile, then the viewer script.
pub proof fn lemma_page_metadata(input: ExportInput, exported_at: Seq<char>, ic: Seq<char>)
    ensures
        ({
            let w = input.width as nat;
            let h: nat = if w == 0 { 0 } else { input.rows@.len() / w };
            let cs = export_cell_size_spec(w) as nat;
            let rpt = tile_rows_spec(w, cs) as nat;
            let nt = tile_count_spec(h, rpt);
            let grid_facts = PAGE_BEFORE_META_W@ + decimal(if w == 0 { 1 } else { w }) + PAGE_BEFORE_META_H@
                + decimal(if h == 0 { 1 } else { h }) + PAGE_BEFORE_META_CS@ + decimal(cs)
                + PAGE_BEFORE_META_BORDERS@ + (if input.show_borders { "true"@ } else { "false"@ })
                + PAGE_BEFORE_META_BW@ + input.border_width@;
            let labels = PAGE_BEFORE_META_TILES@ + tiles_meta(h, rpt, nt) + PAGE_BEFORE_META_FILL@
                + fill_label_text(input.padding_fill) + PAGE_BEFORE_META_ALIGN@ + align_label_text(
                input.padding_align,
            ) + PAGE_BEFORE_META_IC@ + ic + PAGE_BEFORE_TILE_DATA@;
            let tail = grid_facts + labels + tiles_scripts(input.rows@, w, h, rpt, nt) + PAGE_SCRIPT@;
            let page = run_page(input, exported_at, ic);
            &&& tail.len() <= page.len()
            &&& page.skip(page.len() - tail.len()) == tail
        }),
{
    let w = input.width as nat;
    let h = full_rows(input.rows@.len(), w);
    let cs = export_cell_size_spec(w) as nat;
    let rpt = tile_rows_spec(w, cs) as nat;
    let nt = tile_count_spec(h, rpt);
    let title = page_title(input.rule, w, h, input.job_id);
    let summary = page_summary(input, exported_at, title, preview_text(nt, rpt));
    let tail = page_meta(input, ic, h, cs, tiles_meta(h, rpt, nt)) + tiles_scripts(
        input.rows@,
        w,
        h,
        rpt,
        nt,
    ) + PAGE_SCRIPT@;
    let page = run_page(input, exported_at, ic);
    assert(h == (if w == 0 { 0 } else { input.rows@.len() / w }));
    assert(page == summary + tail);
    assert(page.skip(page.len() - tail.len()) =~= tail);
}

/// Tile `i` of the exported page carries the packed cells of its own rows,
/// `i * rows_per_tile` up to the next tile's first row or the last row.
pub proof fn lemma_page_tile_data(rows: Seq<u8>, width: nat, height: nat, rows_per_tile: nat, i: nat)
    ensures
        tile_data(rows, width, height, rows_per_tile, i) == base64_text(
            packed_bytes(
                rows,
                width,
                i * rows_per_tile,
                if (i + 1) * rows_per_tile < height { (i + 1) * rows_per_tile } else { height },
            ),
        ),
{
}

} // verus!
