use cellular_automata::automaton::{SimConfig, SimulationResult};
use cellular_automata::manifest::{
    find_duplicate, gallery_json, manifest_line, manifest_without, parse_manifest,
    parse_manifest_line, run_key, saved_entry, ManifestEntry, MANIFEST_HEADER,
};
use cellular_automata::sim::{BoundaryMode, PaddingAlign, PaddingFill};

fn entry(id: &str, filename: &str, ic: &str) -> ManifestEntry {
    ManifestEntry {
        id: id.to_string(),
        rule: "30".to_string(),
        width: "21".to_string(),
        generations: "5".to_string(),
        boundary: "ZeroPadded".to_string(),
        status: "Done".to_string(),
        progress: "5".to_string(),
        timestamp: "2026-01-02 03:04:05".to_string(),
        filename: filename.to_string(),
        fill: "0".to_string(),
        align: "centered".to_string(),
        ic: ic.to_string(),
    }
}

fn fields(e: &ManifestEntry) -> Vec<String> {
    vec![
        e.id.clone(),
        e.rule.clone(),
        e.width.clone(),
        e.generations.clone(),
        e.boundary.clone(),
        e.status.clone(),
        e.progress.clone(),
        e.timestamp.clone(),
        e.filename.clone(),
        e.fill.clone(),
        e.align.clone(),
        e.ic.clone(),
    ]
}

#[test]
fn manifest_line_is_tab_separated_and_sanitised() {
    let mut e = entry("1", "a.html", "1");
    e.status = "Do\tne\n".to_string();
    assert_eq!(
        manifest_line(&e),
        "1\t30\t21\t5\tZeroPadded\tDo ne \t5\t2026-01-02 03:04:05\ta.html\t0\tcentered\t1\n"
    );
}

#[test]
fn manifest_line_reads_back() {
    let mut e = entry("3", "r.html", "42");
    e.timestamp = "with\ttab".to_string();
    let line = manifest_line(&e);
    let back = parse_manifest_line(line.trim_end_matches('\n')).unwrap();
    let mut want = fields(&e);
    want[7] = "with tab".to_string();
    assert_eq!(fields(&back), want);
}

#[test]
fn manifest_lines_skip_header_blank_and_short() {
    let lines: Vec<String> = vec![
        MANIFEST_HEADER.to_string(),
        "1\t30\t21\t5\tZeroPadded\tDone\t5\tts\tone.html".to_string(),
        "   ".to_string(),
        "2\t30\t21".to_string(),
        "3\t90\t8\t2\tWrap\tDone\t2\tts\ttwo.html\t1\tafter\t7\textra".to_string(),
    ];
    let entries = parse_manifest(&lines);
    assert_eq!(entries.len(), 2);
    assert_eq!(entries[0].filename, "one.html");
    assert_eq!(entries[0].fill, "");
    assert_eq!(entries[0].ic, "");
    assert_eq!(entries[1].rule, "90");
    assert_eq!(entries[1].ic, "7");
    assert!(parse_manifest_line("").is_none());
    assert!(parse_manifest(&[]).is_empty());
}

#[test]
fn deleting_a_saved_run_rewrites_the_manifest() {
    let entries = vec![entry("1", "a.html", "1"), entry("2", "b.html", "2"), entry("3", "a.html", "3")];
    let text = manifest_without(&entries, "a.html");
    assert_eq!(
        text,
        format!(
            "{}\n2\t30\t21\t5\tZeroPadded\tDone\t5\t2026-01-02 03:04:05\tb.html\t0\tcentered\t2\n",
            MANIFEST_HEADER
        )
    );
    assert_eq!(manifest_without(&[], "x"), format!("{}\n", MANIFEST_HEADER));
}

#[test]
fn duplicate_runs_are_found_by_key() {
    let result = SimulationResult {
        config: SimConfig { rule: 30, width: 3, generations: 5, boundary: BoundaryMode::ZeroPadded },
        width: 3,
        generations: 5,
        rows: vec![0, 1, 1, 0, 0, 0],
    };
    let k = run_key(&result, PaddingFill::Zero, PaddingAlign::Center);
    assert_eq!(k.rule, "30");
    assert_eq!(k.width, "3");
    assert_eq!(k.generations, "5");
    assert_eq!(k.boundary, "ZeroPadded");
    assert_eq!(k.fill, "0");
    assert_eq!(k.align, "centered");
    assert_eq!(k.ic, "3");
    let mut other = entry("1", "x.html", "3");
    other.width = "3".to_string();
    let mut same = other.clone();
    same.filename = "y.html".to_string();
    other.align = "after".to_string();
    let entries = vec![other, same];
    assert_eq!(find_duplicate(&entries, &k), Some(1));
    assert_eq!(find_duplicate(&entries[..1], &k), None);

    let saved = saved_entry(k, 9, 5, "ts".to_string(), "z.html".to_string());
    assert_eq!(
        fields(&saved),
        vec!["9", "30", "3", "5", "ZeroPadded", "Done", "5", "ts", "z.html", "0", "centered", "3"]
    );
}

#[test]
fn gallery_json_escapes_every_value() {
    let mut e = entry("1", "a.html", "1");
    e.status = "</script>".to_string();
    let text = gallery_json(&[&e]);
    assert_eq!(
        text,
        "[{\"id\":\"1\",\"rule\":\"30\",\"width\":\"21\",\"generations\":\"5\",\"boundary\":\"ZeroPadded\",\"status\":\"\\u003c\\u002fscript\\u003e\",\"progress\":\"5\",\"timestamp\":\"2026-01-02 03:04:05\",\"filename\":\"a.html\",\"fill\":\"0\",\"align\":\"centered\",\"ic\":\"1\"}]"
    );
    assert_eq!(gallery_json(&[]), "[]");
    let e2 = entry("2", "b.html", "2");
    assert!(gallery_json(&[&e, &e2]).contains("},{\"id\":\"2\""));
}

#[test]
fn appending_a_line_then_reading_adds_the_sanitised_entry() {
    let mut lines: Vec<String> = vec![
        MANIFEST_HEADER.to_string(),
        "1\t30\t21\t5\tZeroPadded\tDone\t5\tts\tone.html".to_string(),
    ];
    let before = parse_manifest(&lines);
    let mut e = entry("2", "two.html", "5");
    e.status = "Do\tne".to_string();
    let written = manifest_line(&e);
    lines.push(written.strip_suffix('\n').unwrap().to_string());
    let after = parse_manifest(&lines);
    assert_eq!(after.len(), before.len() + 1);
    assert_eq!(fields(&after[0]), fields(&before[0]));
    let mut want = fields(&e);
    want[5] = "Do ne".to_string();
    assert_eq!(fields(&after[1]), want);
}
