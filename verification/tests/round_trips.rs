use cellular_automata::decimal::u64_text;
use cellular_automata::export::{tile_count, tile_payload, tile_rows};
use cellular_automata::gallery::{json_str_escape, parse_boundary, parse_seed, parse_u64};
use cellular_automata::svg::svg_whole_pixel_document;
use cellular_automata::manifest::{
    manifest_without, parse_manifest, parse_manifest_line, ManifestEntry, MANIFEST_HEADER,
};
use cellular_automata::ic::compute_ic_with_fill;
use cellular_automata::sim::{make_initial_row, BoundaryMode, PaddingAlign, PaddingFill};

#[test]
fn boundary_names_parse_back() {
    for b in [BoundaryMode::ZeroPadded, BoundaryMode::Wrap] {
        assert_eq!(parse_boundary(b.name()), Some(b));
    }
}

#[test]
fn run_ids_parse_back() {
    for n in [0u64, 1, 9, 10, 12345, u64::MAX] {
        assert_eq!(parse_u64(&u64_text(n)), Some(n));
    }
}

#[test]
fn rewritten_manifest_reads_back_the_kept_entries() {
    let line = "5\t30\t8\t3\tWrap\tDone\t3\tts\tkeep.html\t1\tafter\t9";
    let kept = parse_manifest_line(line).unwrap();
    let gone = parse_manifest_line("6\t30\t8\t3\tWrap\tDone\t3\tts\tgone.html").unwrap();
    let text = manifest_without(&[kept.clone(), gone], "gone.html");
    let lines: Vec<String> = text.lines().map(|l| l.to_string()).collect();
    let back: Vec<ManifestEntry> = parse_manifest(&lines);
    assert_eq!(back.len(), 1);
    assert_eq!(back[0].filename, "keep.html");
    assert_eq!(back[0].ic, "9");
    assert_eq!(back[0].align, "after");
}

#[test]
fn tiles_cover_every_row_once() {
    assert_eq!(tile_rows(10_000, 1), 20_000);
    let rows = [1u8, 0, 0, 1, 1, 1, 0, 0, 1, 1];
    let (width, height, rpt) = (2, 5, 2);
    let n = tile_count(height, rpt);
    assert_eq!(n, 3);
    let mut next = 0;
    for i in 0..n {
        let (start, end, _) = tile_payload(&rows, width, height, rpt, i);
        assert_eq!(start, next);
        assert!(start < end);
        next = end;
    }
    assert_eq!(next, height);
    // The last, shorter tile packs its one row: 1, 1 -> 0b1100_0000.
    assert_eq!(tile_payload(&rows, width, height, rpt, 2).2, "wA==");
}

#[test]
fn initial_condition_label_depends_on_the_seed_only() {
    for (width, align) in [(3, PaddingAlign::Center), (9, PaddingAlign::Before), (10, PaddingAlign::After)] {
        let row = make_initial_row(width, &[1, 0, 1], align, 0);
        assert_eq!(compute_ic_with_fill(&row, PaddingFill::Zero), "5");
        let row = make_initial_row(width, &[1, 0, 1], align, 1);
        assert_eq!(compute_ic_with_fill(&row, PaddingFill::One), "1");
    }
}

/// A JSON string-body decoder, as JSON reads the text between the quotes.
fn decode_json_body(t: &str) -> Option<String> {
    let mut out = String::new();
    let mut it = t.chars();
    while let Some(c) = it.next() {
        if c == '\\' {
            match it.next()? {
                '"' => out.push('"'),
                '\\' => out.push('\\'),
                '/' => out.push('/'),
                'b' => out.push('\u{8}'),
                'f' => out.push('\u{c}'),
                'n' => out.push('\n'),
                'r' => out.push('\r'),
                't' => out.push('\t'),
                'u' => {
                    let hex: String = (0..4).map(|_| it.next()).collect::<Option<String>>()?;
                    out.push(char::from_u32(u32::from_str_radix(&hex, 16).ok()?)?);
                }
                _ => return None,
            }
        } else if c == '"' || (c as u32) < 0x20 {
            return None;
        } else {
            out.push(c);
        }
    }
    Some(out)
}

#[test]
fn escaped_json_text_decodes_to_the_input() {
    for s in ["", "plain", "a\"b\\c", "</script>", "\u{1}\u{1f}\n\r\t", "é→ok"] {
        let e = json_str_escape(s);
        assert!(!e.contains('<') && !e.contains('>') && !e.contains('/'));
        assert_eq!(decode_json_body(&e).as_deref(), Some(s));
    }
}

#[test]
fn svg_cell_size_zero_draws_as_one_and_borders_need_two_pixels() {
    let rows = [1u8, 0, 1, 1, 1, 0];
    let frame = "<rect/>\n";
    assert_eq!(
        svg_whole_pixel_document(&rows, 3, 0, true, 1, frame),
        svg_whole_pixel_document(&rows, 3, 1, true, 1, frame)
    );
    assert_eq!(
        svg_whole_pixel_document(&rows, 3, 1, true, 1, frame),
        svg_whole_pixel_document(&rows, 3, 1, false, 0, frame)
    );
    assert_eq!(
        svg_whole_pixel_document(&rows, 3, 4, false, 2, frame),
        svg_whole_pixel_document(&rows, 3, 4, false, 0, frame)
    );
    assert_ne!(
        svg_whole_pixel_document(&rows, 3, 4, true, 1, frame),
        svg_whole_pixel_document(&rows, 3, 4, false, 1, frame)
    );
}

#[test]
fn non_digit_seed_characters_are_zero_cells() {
    let seed = parse_seed("1a1");
    assert_eq!(seed, vec![1, 0, 1]);
    let row = make_initial_row(3, &seed, PaddingAlign::Before, 0);
    assert_eq!(compute_ic_with_fill(&row, PaddingFill::Zero), "5");
}

#[test]
fn manifest_header_names_the_initial_condition_column() {
    assert!(MANIFEST_HEADER.ends_with("\tfill\talign\tinitial_condition"));
    assert!(MANIFEST_HEADER.starts_with("id\trule\t"));
}

#[test]
fn tile_data_is_standard_base64_of_the_packed_cells() {
    // The cells of the bytes "Man" (0x4d 0x61 0x6e), most significant bit first.
    let mut rows = Vec::new();
    for byte in [0x4du8, 0x61, 0x6e] {
        for k in (0..8).rev() {
            rows.push((byte >> k) & 1);
        }
    }
    assert_eq!(tile_payload(&rows, 24, 1, 1, 0).2, "TWFu");
    assert_eq!(tile_payload(&rows[..16], 16, 1, 1, 0).2, "TWE=");
    assert_eq!(tile_payload(&rows[..8], 8, 1, 1, 0).2, "TQ==");
}
