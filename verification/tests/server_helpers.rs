use cellular_automata::gallery::{
    admit_session_run, boundary_label, check_run_size, friendly_json_error, host_is_local,
    is_safe_filename, json_str_escape, parse_align, parse_boundary, parse_fill, parse_seed,
    parse_u64, run_file_route, sanitize_tsv, viewer_cell_size, Admission, RunFileRoute,
    MAX_SESSIONS,
};
use cellular_automata::sim::{BoundaryMode, PaddingAlign, PaddingFill};

#[test]
fn safe_filename_accepts_exported_names() {
    assert!(is_safe_filename("rule030_w401_g100_padded_20260611_120000_job1.html"));
    assert!(is_safe_filename("a-b_c.1.html"));
}

#[test]
fn safe_filename_rejects_traversal_and_separators() {
    assert!(!is_safe_filename(""));
    assert!(!is_safe_filename("."));
    assert!(!is_safe_filename(".."));
    assert!(!is_safe_filename("..."));
    assert!(!is_safe_filename("a/b.html"));
    assert!(!is_safe_filename("a\\b.html"));
    assert!(!is_safe_filename("..\\x.html"));
    assert!(!is_safe_filename(&"a".repeat(201)));
}

#[test]
fn safe_filename_rejects_windows_device_names() {
    assert!(!is_safe_filename("CON"));
    assert!(!is_safe_filename("con.html"));
    assert!(!is_safe_filename("Nul.html"));
    assert!(!is_safe_filename("COM1.html"));
    assert!(!is_safe_filename("lpt9"));
    // Similar-looking but legal names stay allowed.
    assert!(is_safe_filename("CONFIG.html"));
    assert!(is_safe_filename("COM10.html"));
}

#[test]
fn safe_filename_length_limit_and_non_ascii() {
    assert!(is_safe_filename(&"a".repeat(200)));
    assert!(!is_safe_filename("caf\u{e9}.html"));
    assert!(!is_safe_filename("a b.html"));
    assert!(is_safe_filename(".x"));
}

#[test]
fn friendly_json_error_strips_serde_noise() {
    let raw = "Failed to deserialize the JSON body into the target type: \
               rule: invalid value: integer `300`, expected u8 at line 1 column 22";
    assert_eq!(
        friendly_json_error(raw),
        "Invalid input — rule: invalid value: integer `300`, \
         expected a whole number between 0 and 255"
    );
    let raw2 = "Failed to deserialize the JSON body into the target type: \
                generations: invalid type: null, expected usize at line 1 column 40";
    assert_eq!(
        friendly_json_error(raw2),
        "Invalid input — generations: the field is empty; \
         expected a non-negative whole number"
    );
}

#[test]
fn friendly_json_error_keeps_unknown_text() {
    assert_eq!(friendly_json_error("EOF while parsing"), "Invalid input — EOF while parsing");
    // Only the last " at line " is cut.
    assert_eq!(
        friendly_json_error("a at line b at line 3 column 1"),
        "Invalid input — a at line b"
    );
    assert_eq!(
        friendly_json_error("width: expected u32 at line 1 column 9"),
        "Invalid input — width: expected a non-negative whole number"
    );
}

#[test]
fn host_header_check_accepts_loopback_only() {
    assert!(host_is_local("127.0.0.1:3000"));
    assert!(host_is_local("127.0.0.1"));
    assert!(host_is_local("localhost:3000"));
    assert!(host_is_local("LOCALHOST"));
    assert!(host_is_local("[::1]:3000"));
    assert!(!host_is_local("evil.example.com:3000"));
    assert!(!host_is_local("localhost.evil.com:3000"));
    assert!(!host_is_local("[2001:db8::1]:3000"));
    assert!(!host_is_local(""));
}

#[test]
fn host_check_edge_cases() {
    assert!(!host_is_local("[::1"));
    assert!(host_is_local("[::1]"));
    assert!(!host_is_local("127.0.0.2:3000"));
}

#[test]
fn sanitize_tsv_blanks_tabs_and_line_breaks() {
    assert_eq!(sanitize_tsv("a\tb\nc\rd"), "a b c d");
    assert_eq!(sanitize_tsv("plain"), "plain");
}

#[test]
fn json_str_escape_escapes_markup_and_controls() {
    assert_eq!(
        json_str_escape("a\"b\\c\n\r\t</x>"),
        "a\\\"b\\\\c\\n\\r\\t\\u003c\\u002fx\\u003e"
    );
    assert_eq!(json_str_escape("\u{1}\u{1f}"), "\\u0001\\u001f");
    assert_eq!(json_str_escape("é"), "é");
}

#[test]
fn form_values_parse_by_name() {
    assert_eq!(parse_boundary("ZeroPadded"), Some(BoundaryMode::ZeroPadded));
    assert_eq!(parse_boundary("Wrap"), Some(BoundaryMode::Wrap));
    assert_eq!(parse_boundary("wrap"), None);
    assert_eq!(parse_align("Before"), Some(PaddingAlign::Before));
    assert_eq!(parse_align("After"), Some(PaddingAlign::After));
    assert_eq!(parse_align("Center"), Some(PaddingAlign::Center));
    assert_eq!(parse_align("centered"), None);
    assert_eq!(parse_fill("Zero"), Some(PaddingFill::Zero));
    assert_eq!(parse_fill("One"), Some(PaddingFill::One));
    assert_eq!(parse_fill("1"), None);
    assert_eq!(boundary_label(BoundaryMode::ZeroPadded), "Padded");
    assert_eq!(boundary_label(BoundaryMode::Wrap), "Wrap-around");
}

#[test]
fn seed_text_reads_non_digits_as_zero() {
    assert_eq!(parse_seed("1 0 7x0"), vec![1, 0, 0, 0, 1, 0, 0]);
    assert_eq!(parse_seed("1a1"), vec![1, 0, 1]);
    assert_eq!(parse_seed(""), Vec::<u8>::new());
}

#[test]
fn run_size_limits() {
    assert_eq!(check_run_size(0, 10).as_deref(), Some("width must be between 1 and 10000"));
    assert_eq!(check_run_size(10_001, 10).as_deref(), Some("width must be between 1 and 10000"));
    assert_eq!(check_run_size(10, 100_001).as_deref(), Some("generations must be at most 100000"));
    assert_eq!(
        check_run_size(10_000, 50_000).as_deref(),
        Some("simulation too large: width × (generations + 1) exceeds 500 M cells")
    );
    assert_eq!(check_run_size(10_000, 49_999), None);
    assert_eq!(check_run_size(1, 0), None);
}

#[test]
fn session_admission() {
    assert_eq!(admit_session_run(&[], 5), Admission::Admit);
    assert_eq!(admit_session_run(&[1_000_000_000, 999_999_999], 1), Admission::Admit);
    assert_eq!(admit_session_run(&[1_000_000_000, 999_999_999], 2), Admission::MemoryLimit);
    let full = vec![1usize; MAX_SESSIONS];
    assert_eq!(admit_session_run(&full, 1), Admission::SessionLimit);
    assert_eq!(Admission::SessionLimit.message(), "session limit reached");
    assert_eq!(
        Admission::MemoryLimit.message(),
        "session memory limit reached; remove some session runs and retry"
    );
}

#[test]
fn run_file_routes() {
    assert_eq!(run_file_route("gallery.js"), RunFileRoute::GalleryScript);
    assert_eq!(run_file_route("manifest.tsv"), RunFileRoute::Manifest);
    assert_eq!(run_file_route("rule030_w4_g1_padded_x_job1.html"), RunFileRoute::RunPage);
    assert_eq!(run_file_route("notes.txt"), RunFileRoute::BadRequest);
    assert_eq!(run_file_route("../x.html"), RunFileRoute::BadRequest);
    assert_eq!(run_file_route("CON.html"), RunFileRoute::BadRequest);
}

#[test]
fn run_ids_parse_as_u64() {
    assert_eq!(parse_u64("42"), Some(42));
    assert_eq!(parse_u64("+7"), Some(7));
    assert_eq!(parse_u64("18446744073709551615"), Some(u64::MAX));
    assert_eq!(parse_u64("18446744073709551616"), None);
    assert_eq!(parse_u64(""), None);
    assert_eq!(parse_u64("+"), None);
    assert_eq!(parse_u64("-1"), None);
    assert_eq!(parse_u64("1a"), None);
}

#[test]
fn viewer_cell_size_auto_and_clamped() {
    assert_eq!(viewer_cell_size(0, 100), 16);
    assert_eq!(viewer_cell_size(0, 400), 4);
    assert_eq!(viewer_cell_size(0, 5000), 1);
    assert_eq!(viewer_cell_size(0, 0), 1);
    assert_eq!(viewer_cell_size(100, 10), 64);
    assert_eq!(viewer_cell_size(7, 10), 7);
}
