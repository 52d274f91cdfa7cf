use cellular_automata::export::{
    export_cell_size, export_file_name, html_escape, render_run_html, tile_count, tile_rows,
    ExportInput,
};
use cellular_automata::gallery::compute_tile_data;
use cellular_automata::automaton::{SimConfig, SimulationResult};
use cellular_automata::sim::{BoundaryMode, PaddingAlign, PaddingFill};
use cellular_automata::svg::{svg_black_runs, svg_cell_grid, svg_close, svg_prologue};

#[test]
fn svg_head_and_close() {
    let mut s = String::new();
    svg_prologue(&mut s, 84, 24, false, false);
    svg_close(&mut s);
    assert_eq!(
        s,
        "<?xml version=\"1.0\" encoding=\"UTF-8\"?>\n\
         <svg xmlns=\"http://www.w3.org/2000/svg\" width=\"84\" height=\"24\" viewBox=\"0 0 84 24\" shape-rendering=\"crispEdges\">\n\
         <rect width=\"84\" height=\"24\" fill=\"#ffffff\"/>\n\
         </svg>\n"
    );
    let mut t = String::new();
    svg_prologue(&mut t, 8, 8, true, true);
    assert!(t.contains("shape-rendering=\"auto\""));
    assert!(t.contains("fill=\"#4d4d4d\""));
}

#[test]
fn svg_coalesces_black_runs() {
    let rows = [1u8, 1, 0, 1, 0, 0, 0, 1, 1, 1];
    let mut s = String::new();
    svg_black_runs(&mut s, &rows, 5, 2, 4);
    assert_eq!(
        s,
        "<rect x=\"0\" y=\"0\" width=\"8\" height=\"4\"/>\n\
         <rect x=\"12\" y=\"0\" width=\"4\" height=\"4\"/>\n\
         <rect x=\"8\" y=\"4\" width=\"12\" height=\"4\"/>\n"
    );
}

#[test]
fn svg_bordered_grid_has_one_rect_per_cell() {
    let rows = [1u8, 0];
    let mut s = String::new();
    svg_cell_grid(&mut s, &rows, 2, 1, 4, 1);
    assert_eq!(
        s,
        "<rect x=\"1\" y=\"1\" width=\"3\" height=\"3\" fill=\"#000000\"/>\n\
         <rect x=\"5\" y=\"1\" width=\"3\" height=\"3\" fill=\"#ffffff\"/>\n"
    );
}

#[test]
fn html_escape_covers_markup_characters() {
    assert_eq!(html_escape("<a href='x'>&\"</a>"), "&lt;a href=&#39;x&#39;&gt;&amp;&quot;&lt;/a&gt;");
    assert_eq!(html_escape("plain"), "plain");
}

#[test]
fn export_file_names() {
    assert_eq!(
        export_file_name(30, 401, 100, BoundaryMode::ZeroPadded, "20260611_120000", 1),
        "rule030_w401_g100_padded_20260611_120000_job1.html"
    );
    assert_eq!(
        export_file_name(110, 5, 0, BoundaryMode::Wrap, "t", 12),
        "rule110_w5_g0_wraparound_t_job12.html"
    );
    assert_eq!(
        export_file_name(7, 5, 0, BoundaryMode::Wrap, "t", 0),
        "rule007_w5_g0_wraparound_t_job0.html"
    );
}

#[test]
fn tiling_of_exported_pages() {
    assert_eq!(export_cell_size(0), 16);
    assert_eq!(export_cell_size(401), 3);
    assert_eq!(export_cell_size(5000), 1);
    // 32_000 / 16 rows per canvas for narrow runs.
    assert_eq!(tile_rows(10, 16), 2000);
    // 200 M cells per canvas for wide runs.
    assert_eq!(tile_rows(10_000, 1), 20_000);
    assert_eq!(tile_count(0, 5), 0);
    assert_eq!(tile_count(10, 5), 2);
    assert_eq!(tile_count(11, 5), 3);
}

#[test]
fn exported_page_holds_metadata_and_tiles() {
    let rows = [0u8, 1, 0, 1, 1, 1];
    let input = ExportInput {
        job_id: 7,
        rule: 30,
        width: 3,
        generations: 1,
        progress: 1,
        boundary: BoundaryMode::ZeroPadded,
        status: "Done",
        rows: &rows,
        show_borders: false,
        border_width: "1",
        padding_fill: PaddingFill::Zero,
        padding_align: PaddingAlign::Center,
    };
    let html = render_run_html(&input, "2026-01-02 03:04:05", "1");
    assert!(html.starts_with("<!doctype html>"));
    assert!(html.contains("<title>Rule 30 - 3x2 - job 7</title>"));
    assert!(html.contains("<dt>generations</dt><dd>1 / 1</dd>"));
    assert!(html.contains("<dt>boundary</dt><dd>ZeroPadded</dd>"));
    assert!(html.contains("full fidelity (single canvas)"));
    assert!(html.contains(
        "{\"w\":3,\"h\":2,\"cs\":16,\"borders\":false,\"bw\":1,\"tiles\":[{\"id\":\"bits0\",\"start\":0,\"end\":2}],\"fill\":\"0\",\"align\":\"centered\",\"ic\":\"1\"}"
    ));
    // 010111 packs to 0b0101_1100 = 0x5c, base64 "XA==".
    assert!(html.contains("<script id=\"bits0\" type=\"application/octet-stream\">XA==</script>"));
    assert!(html.ends_with("</body></html>\n"));
}

#[test]
fn viewer_tiles_carry_base64_of_packed_rows() {
    let result = SimulationResult {
        config: SimConfig { rule: 30, width: 3, generations: 1, boundary: BoundaryMode::Wrap },
        width: 3,
        generations: 1,
        rows: vec![0, 1, 0, 1, 1, 1],
    };
    let t = compute_tile_data(&result, 0, PaddingFill::One, PaddingAlign::After);
    assert_eq!(t.w, 3);
    assert_eq!(t.h, 2);
    assert_eq!(t.cs, 16);
    assert_eq!(t.fill, "1");
    assert_eq!(t.align, "after");
    // The first row 010 complemented is 101.
    assert_eq!(t.ic, "5");
    assert_eq!(t.tiles.len(), 1);
    assert_eq!(t.tiles[0].id, "tile0");
    assert_eq!(t.tiles[0].start, 0);
    assert_eq!(t.tiles[0].end, 2);
    assert_eq!(t.tiles[0].data, "XA==");
}
