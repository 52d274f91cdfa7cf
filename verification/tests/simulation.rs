use cellular_automata::automaton::{
    build_initial_row, run_simulation, simulate, Error, InitialRow, SimConfig,
};
use cellular_automata::decimal::push_usize;
use cellular_automata::json::to_json;
use cellular_automata::sim::{
    check_explicit_row, make_initial_row, step_row, BoundaryMode, ExplicitRowError,
    PaddingAlign, PaddingFill, Rule,
};

fn rule30_config() -> (SimConfig, InitialRow) {
    let config = SimConfig {
        rule: 30,
        width: 21,
        generations: 5,
        boundary: BoundaryMode::ZeroPadded,
    };
    let initial = InitialRow::FromSeed {
        seed: vec![1],
        align: PaddingAlign::Center,
        fill: PaddingFill::Zero,
    };
    (config, initial)
}

#[test]
fn structured_run_produces_expected_grid_size() {
    let (config, initial) = rule30_config();
    let (r, _, _) = run_simulation(config, initial).unwrap();
    assert_eq!(r.rows.len(), (config.generations + 1) * config.width);
    for &b in &r.rows {
        assert!(b == 0 || b == 1);
    }
}

#[test]
fn width_zero_is_rejected() {
    let config = SimConfig {
        rule: 30,
        width: 0,
        generations: 1,
        boundary: BoundaryMode::ZeroPadded,
    };
    let initial = InitialRow::Explicit(Vec::new());
    assert!(matches!(run_simulation(config, initial), Err(Error::WidthZero)));
}

#[test]
fn explicit_length_mismatch_is_rejected() {
    let config = SimConfig {
        rule: 30,
        width: 4,
        generations: 1,
        boundary: BoundaryMode::ZeroPadded,
    };
    let initial = InitialRow::Explicit(vec![0, 1, 1]);
    let err = run_simulation(config, initial).unwrap_err();
    assert!(matches!(err, Error::InitialRowLengthMismatch { expected: 4, got: 3 }));
}

#[test]
fn explicit_non_binary_is_rejected() {
    let config = SimConfig {
        rule: 30,
        width: 3,
        generations: 1,
        boundary: BoundaryMode::ZeroPadded,
    };
    let initial = InitialRow::Explicit(vec![0, 2, 1]);
    let err = run_simulation(config, initial).unwrap_err();
    assert!(matches!(err, Error::NonBinaryCellValue { position: 1, value: 2 }));
}

#[test]
fn seed_wider_than_width_is_rejected() {
    let config = SimConfig {
        rule: 30,
        width: 3,
        generations: 1,
        boundary: BoundaryMode::ZeroPadded,
    };
    let initial = InitialRow::FromSeed {
        seed: vec![1, 1, 1, 1],
        align: PaddingAlign::Center,
        fill: PaddingFill::Zero,
    };
    let err = run_simulation(config, initial).unwrap_err();
    assert!(matches!(err, Error::SeedWiderThanWidth { width: 3, seed_len: 4 }));
}

#[test]
fn generations_zero_is_valid() {
    let config = SimConfig {
        rule: 30,
        width: 4,
        generations: 0,
        boundary: BoundaryMode::Wrap,
    };
    let initial = InitialRow::Explicit(vec![1, 0, 0, 0]);
    let (r, _, _) = run_simulation(config, initial).unwrap();
    assert_eq!(r.rows, vec![1, 0, 0, 0]);
}

#[test]
fn json_contains_config_and_rows() {
    let (config, initial) = rule30_config();
    let (r, _, _) = run_simulation(config, initial).unwrap();
    let s = to_json(&r);
    assert!(s.contains("\"rule\""));
    assert!(s.contains("\"rows\""));
    assert!(s.contains("\"ZeroPadded\""));
}

#[test]
fn push_usize_matches_display() {
    for n in [0usize, 1, 9, 10, 99, 100, 12345, 987654321, usize::MAX] {
        let mut got = String::new();
        push_usize(&mut got, n);
        assert_eq!(got, n.to_string(), "value {n}");
    }
}

#[test]
fn rule_30_from_a_single_cell() {
    let config = SimConfig { rule: 30, width: 7, generations: 3, boundary: BoundaryMode::ZeroPadded };
    let initial = InitialRow::FromSeed { seed: vec![1], align: PaddingAlign::Center, fill: PaddingFill::Zero };
    let (r, align, fill) = run_simulation(config, initial).unwrap();
    assert_eq!(align, PaddingAlign::Center);
    assert_eq!(fill, PaddingFill::Zero);
    assert_eq!(
        r.rows,
        vec![
            0, 0, 0, 1, 0, 0, 0, //
            0, 0, 1, 1, 1, 0, 0, //
            0, 1, 1, 0, 0, 1, 0, //
            1, 1, 0, 1, 1, 1, 1,
        ]
    );
}

#[test]
fn wrap_boundary_joins_the_edges() {
    // Rule 2 sets a cell only when its right neighbour alone is set.
    let rule = Rule::new(2);
    assert_eq!(step_row(&rule, &[1, 0, 0, 0], BoundaryMode::Wrap), vec![0, 0, 0, 1]);
    assert_eq!(step_row(&rule, &[1, 0, 0, 0], BoundaryMode::ZeroPadded), vec![0, 0, 0, 0]);
    // Rule 90: each cell is the xor of its neighbours.
    let r90 = Rule::new(90);
    assert_eq!(step_row(&r90, &[0, 0, 1, 0, 0], BoundaryMode::ZeroPadded), vec![0, 1, 0, 1, 0]);
    assert_eq!(step_row(&r90, &[1, 0, 0, 0, 0], BoundaryMode::Wrap), vec![0, 1, 0, 0, 1]);
}

#[test]
fn rule_lookup_by_neighbourhood() {
    let rule = Rule::new(30);
    // 30 = 0b0001_1110: neighbourhoods 1, 2, 3, 4 give 1.
    let expected = [0u8, 1, 1, 1, 1, 0, 0, 0];
    for n in 0u8..8 {
        assert_eq!(rule.apply((n >> 2) & 1, (n >> 1) & 1, n & 1), expected[n as usize]);
    }
}

#[test]
fn initial_row_alignment_and_fill() {
    assert_eq!(make_initial_row(6, &[1, 1], PaddingAlign::Before, 0), vec![0, 0, 0, 0, 1, 1]);
    assert_eq!(make_initial_row(6, &[1, 1], PaddingAlign::After, 0), vec![1, 1, 0, 0, 0, 0]);
    assert_eq!(make_initial_row(6, &[1, 0, 1], PaddingAlign::Center, 1), vec![1, 1, 0, 1, 1, 1]);
    // Any nonzero seed cell counts as 1.
    assert_eq!(make_initial_row(3, &[7, 0, 2], PaddingAlign::Center, 0), vec![1, 0, 1]);
}

#[test]
fn explicit_row_checks() {
    assert_eq!(check_explicit_row(3, &[0, 1, 0]), Ok(()));
    assert_eq!(
        check_explicit_row(3, &[0, 1]),
        Err(ExplicitRowError::LengthMismatch { expected: 3, got: 2 })
    );
    assert_eq!(
        check_explicit_row(3, &[0, 5, 9]),
        Err(ExplicitRowError::NonBinary { position: 1, value: 5 })
    );
}

#[test]
fn initial_row_of_an_explicit_row_is_centered_zero() {
    let config = SimConfig { rule: 0, width: 2, generations: 0, boundary: BoundaryMode::Wrap };
    let (row, align, fill) = build_initial_row(&config, InitialRow::Explicit(vec![1, 0])).unwrap();
    assert_eq!(row, vec![1, 0]);
    assert_eq!(align, PaddingAlign::Center);
    assert_eq!(fill, PaddingFill::Zero);
}

#[test]
fn simulate_keeps_the_config() {
    let config = SimConfig { rule: 204, width: 3, generations: 2, boundary: BoundaryMode::ZeroPadded };
    let r = simulate(config, vec![1, 0, 1]).unwrap();
    assert_eq!(r.config, config);
    assert_eq!(r.width, 3);
    assert_eq!(r.generations, 2);
    // Rule 204 is the identity.
    assert_eq!(r.rows, vec![1, 0, 1, 1, 0, 1, 1, 0, 1]);
}

#[test]
fn json_layout() {
    let config = SimConfig { rule: 204, width: 2, generations: 1, boundary: BoundaryMode::Wrap };
    let r = simulate(config, vec![1, 0]).unwrap();
    assert_eq!(
        to_json(&r),
        "{\n  \"config\": {\n    \"rule\": 204,\n    \"width\": 2,\n    \"generations\": 1,\n    \"boundary\": \"Wrap\"\n  },\n  \"rows\": [\n    [1, 0],\n    [1, 0]\n  ]\n}\n"
    );
}

#[test]
fn error_messages() {
    assert_eq!(Error::WidthZero.message(), "width must be greater than 0");
    assert_eq!(
        Error::InitialRowLengthMismatch { expected: 4, got: 3 }.message(),
        "initial row length 3 does not match config.width 4"
    );
    assert_eq!(
        Error::SeedWiderThanWidth { width: 3, seed_len: 4 }.message(),
        "seed length 4 is wider than config.width 3"
    );
    assert_eq!(
        Error::NonBinaryCellValue { position: 1, value: 2 }.message(),
        "cell at position 1 has value 2; only 0 or 1 are allowed"
    );
    assert_eq!(
        Error::AllocationFailed { bytes_requested: 10 }.message(),
        "could not allocate 10 bytes for the simulation grid; reduce generations or width"
    );
    let io = std::io::Error::other("disk full");
    let e = Error::HtmlExportFailed(io);
    assert_eq!(e.message(), "HTML export failed: disk full");
    assert!(e.source_io().is_some());
    assert!(Error::WidthZero.source_io().is_none());
}

#[test]
fn a_grid_too_large_to_reserve_is_refused() {
    let config = SimConfig {
        rule: 30,
        width: 2,
        generations: usize::MAX - 1,
        boundary: BoundaryMode::ZeroPadded,
    };
    let err = simulate(config, vec![0, 0]).unwrap_err();
    assert!(matches!(err, Error::AllocationFailed { bytes_requested: usize::MAX }));
}
