//! Simulation-level inputs and outputs: configuration, initial rows, the
//! full grid of generations, and the errors a run can end in.

use vstd::prelude::*;
use crate::decimal::{decimal, push_u64, push_usize};
use crate::sim::{
    check_explicit_row, grid, initial_row, is_binary, lemma_grid, make_initial_row,
    step_row_into, fill_value, BoundaryMode, ExplicitRowError, PaddingAlign, PaddingFill, Rule,
};

verus! {

#[verifier::external_type_specification]
#[verifier::external_body]
pub struct ExPathBuf(std::path::PathBuf);

#[verifier::external_type_specification]
#[verifier::external_body]
pub struct ExIoError(std::io::Error);

/// Simulation-level inputs: which rule, how wide, how many generations, and
/// how the row's edges connect. `width` must be greater than zero; the grid
/// holds `(generations + 1) * width` cells.
#[derive(Clone, Copy, Debug, PartialEq, Eq, Structural)]
pub struct SimConfig {
    /// Wolfram rule number, 0-255.
    pub rule: u8,
    /// Number of cells in each row. Must be >= 1.
    pub width: usize,
    /// How many rows to compute after the initial row.
    pub generations: usize,
    /// How the leftmost and rightmost cells see their off-grid neighbours.
    pub boundary: BoundaryMode,
}

/// How to construct the initial row.
#[derive(Clone, Debug)]
pub enum InitialRow {
    /// A complete row of `config.width` cells, each 0 or 1.
    Explicit(Vec<u8>),
    /// A short seed aligned inside a `config.width`-cell row, the other
    /// cells set to `fill`; `seed.len()` must not exceed `config.width`.
    FromSeed { seed: Vec<u8>, align: PaddingAlign, fill: PaddingFill },
}

/// Which output kind a run produces.
#[derive(Debug)]
pub enum OutputKind {
    /// The cells as a [`SimulationResult`].
    Structured,
    /// A pretty-printed JSON document.
    Json,
    /// A self-contained SVG document.
    Svg,
    /// A stand-alone HTML page written into `dir`.
    Html { dir: std::path::PathBuf },
}

/// What a run returns; the variant matches the requested [`OutputKind`].
#[derive(Debug)]
pub enum Output {
    Structured(SimulationResult),
    Json(String),
    Svg(String),
    /// Path of the HTML file written.
    Html(std::path::PathBuf),
}

/// The complete cell grid plus the inputs that produced it. `rows` is
/// row-major: cell `(y, x)` lives at `rows[y * width + x]`.
#[derive(Clone, Debug)]
pub struct SimulationResult {
    pub config: SimConfig,
    pub width: usize,
    pub generations: usize,
    pub rows: Vec<u8>,
}

/// Anything that can go wrong in a run.
#[derive(Debug)]
pub enum Error {
    /// `config.width == 0`.
    WidthZero,
    /// An explicit row whose length is not `config.width`.
    InitialRowLengthMismatch { expected: usize, got: usize },
    /// A seed wider than `config.width`.
    SeedWiderThanWidth { width: usize, seed_len: usize },
    /// A cell of an explicit row that is neither 0 nor 1.
    NonBinaryCellValue { position: usize, value: u8 },
    /// Writing the HTML page failed.
    HtmlExportFailed(std::io::Error),
    /// The grid's backing buffer could not be reserved.
    AllocationFailed { bytes_requested: usize },
}

/// The position of the first non-binary cell of a row that is not binary.
pub open spec fn first_non_binary(s: Seq<u8>) -> int {
    choose|p: int| 0 <= p < s.len() && s[p] > 1 && is_binary(s.take(p))
}

proof fn lemma_first_non_binary_unique(s: Seq<u8>, p: int)
    requires
        0 <= p < s.len(),
        s[p] > 1,
        is_binary(s.take(p)),
    ensures
        first_non_binary(s) == p,
{
    let q = first_non_binary(s);
    assert(0 <= q < s.len() && s[q] > 1 && is_binary(s.take(q)));
    if q < p {
        assert(s.take(p)[q] == s[q]);
    } else if p < q {
        assert(s.take(q)[p] == s[p]);
    }
}

/// What the initial row of a run is, or why it is refused.
pub open spec fn initial_outcome(config: SimConfig, initial: InitialRow) -> Result<
    (Seq<u8>, PaddingAlign, PaddingFill),
    Error,
> {
    match initial {
        InitialRow::Explicit(v) => {
            if v@.len() != config.width {
                Err(Error::InitialRowLengthMismatch { expected: config.width, got: v@.len() as usize })
            } else if is_binary(v@) {
                Ok((v@, PaddingAlign::Center, PaddingFill::Zero))
            } else {
                let p = first_non_binary(v@);
                Err(Error::NonBinaryCellValue { position: p as usize, value: v@[p] })
            }
        },
        InitialRow::FromSeed { seed, align, fill } => {
            if seed@.len() > config.width {
                Err(Error::SeedWiderThanWidth { width: config.width, seed_len: seed@.len() as usize })
            } else {
                Ok((initial_row(config.width as nat, seed@, align, fill_value(fill)), align, fill))
            }
        },
    }
}

/// Build the initial row of a run, with the padding alignment and fill that
/// describe it (`Center` and `Zero` for an explicit row).
pub fn build_initial_row(config: &SimConfig, initial: InitialRow) -> (res: Result<
    (Vec<u8>, PaddingAlign, PaddingFill),
    Error,
>)
    ensures
        res matches Ok((row, align, fill)) ==> initial_outcome(*config, initial) == Ok::<
            (Seq<u8>, PaddingAlign, PaddingFill),
            Error,
        >((row@, align, fill)),
        res matches Err(e) ==> initial_outcome(*config, initial) == Err::<
            (Seq<u8>, PaddingAlign, PaddingFill),
            Error,
        >(e),
        res matches Ok((row, _, _)) ==> is_binary(row@) && row@.len() == config.width,
{
    match initial {
        InitialRow::Explicit(v) => match check_explicit_row(config.width, v.as_slice()) {
            Ok(()) => Ok((v, PaddingAlign::Center, PaddingFill::Zero)),
            Err(ExplicitRowError::LengthMismatch { expected, got }) => {
                Err(Error::InitialRowLengthMismatch { expected, got })
            },
            Err(ExplicitRowError::NonBinary { position, value }) => {
                proof {
                    lemma_first_non_binary_unique(v@, position as int);
                }
                Err(Error::NonBinaryCellValue { position, value })
            },
        },
        InitialRow::FromSeed { seed, align, fill } => {
            if seed.len() > config.width {
                return Err(Error::SeedWiderThanWidth { width: config.width, seed_len: seed.len() });
            }
            let row = make_initial_row(config.width, seed.as_slice(), align, fill.value());
            Ok((row, align, fill))
        },
    }
}


/// `Vec::try_reserve_exact`: asks the allocator for room for `additional`
/// more cells. Whether it succeeds depends on the machine; the contents are
/// untouched either way.
#[verifier::external_body]
fn try_reserve_cells(v: &mut Vec<u8>, additional: usize) -> (ok: bool)
    ensures
        final(v)@ == old(v)@,
{
    v.try_reserve_exact(additional).is_ok()
}

/// Append `row` to `flat`.
fn append_row(flat: &mut Vec<u8>, row: &[u8])
    ensures
        final(flat)@ == old(flat)@ + row@,
{
    let mut i: usize = 0;
    while i < row.len()
        invariant
            i <= row@.len(),
            flat@ == old(flat)@ + row@.take(i as int),
        decreases row@.len() - i,
    {
        proof {
            assert(row@.take(i + 1) =~= row@.take(i as int).push(row@[i as int]));
        }
        flat.push(row[i]);
        i = i + 1;
    }
    proof {
        assert(row@.take(i as int) =~= row@);
    }
}

/// Append generations `0..=generations` of `initial_row` to `flat`.
pub fn append_grid(
    rule: u8,
    initial_row: &[u8],
    boundary: BoundaryMode,
    generations: usize,
    flat: &mut Vec<u8>,
)
    requires
        is_binary(initial_row@),
    ensures
        final(flat)@ == old(flat)@ + grid(rule, initial_row@, boundary, generations as nat),
{
    let r = Rule::new(rule);
    let width = initial_row.len();
    append_row(flat, initial_row);
    let mut prev: Vec<u8> = Vec::new();
    append_row(&mut prev, initial_row);
    let mut next: Vec<u8> = Vec::new();
    append_row(&mut next, initial_row);
    let mut g: usize = 0;
    proof {
        assert(old(flat)@ + initial_row@ =~= old(flat)@ + grid(rule, initial_row@, boundary, 0));
    }
    while g < generations
        invariant
            g <= generations,
            r.number == rule,
            width == initial_row@.len(),
            is_binary(initial_row@),
            prev@ == crate::sim::evolve(rule, initial_row@, boundary, g as nat),
            is_binary(prev@),
            prev@.len() == width,
            next@.len() == width,
            flat@ == old(flat)@ + grid(rule, initial_row@, boundary, g as nat),
        decreases generations - g,
    {
        step_row_into(&r, prev.as_slice(), &mut next, boundary);
        append_row(flat, next.as_slice());
        std::mem::swap(&mut prev, &mut next);
        g = g + 1;
        proof {
            crate::sim::lemma_next_row(
                rule,
                crate::sim::evolve(rule, initial_row@, boundary, (g - 1) as nat),
                boundary,
            );
            assert(flat@ =~= old(flat)@ + grid(rule, initial_row@, boundary, g as nat));
        }
    }
}

/// `(generations + 1) * width`, saturating at `usize::MAX`.
pub open spec fn requested_cells(config: SimConfig) -> usize {
    let rows: int = if config.generations + 1 > usize::MAX {
        usize::MAX as int
    } else {
        config.generations + 1
    };
    if rows * config.width > usize::MAX {
        usize::MAX
    } else {
        (rows * config.width) as usize
    }
}

/// Run the automaton from `initial_row` for `config.generations` steps.
/// Fails only when the grid's buffer cannot be reserved, which depends on
/// the machine; otherwise the result holds every generation.
pub fn simulate(config: SimConfig, initial_row: Vec<u8>) -> (res: Result<SimulationResult, Error>)
    requires
        initial_row@.len() == config.width,
        is_binary(initial_row@),
    ensures
        res matches Ok(r) ==> {
            &&& r.config == config
            &&& r.width == config.width
            &&& r.generations == config.generations
            &&& r.rows@ == grid(config.rule, initial_row@, config.boundary, config.generations as nat)
        },
        res matches Err(e) ==> (e == Error::AllocationFailed { bytes_requested: requested_cells(config) }),
{
    let total_rows = config.generations.saturating_add(1);
    let total_cells: usize = match total_rows.checked_mul(config.width) {
        Some(c) => c,
        None => usize::MAX,
    };
    assert(total_cells == requested_cells(config));
    let mut flat: Vec<u8> = Vec::new();
    if !try_reserve_cells(&mut flat, total_cells) {
        return Err(Error::AllocationFailed { bytes_requested: total_cells });
    }
    append_grid(config.rule, initial_row.as_slice(), config.boundary, config.generations, &mut flat);
    proof {
        assert(flat@ =~= grid(config.rule, initial_row@, config.boundary, config.generations as nat));
    }
    Ok(SimulationResult {
        config,
        width: config.width,
        generations: config.generations,
        rows: flat,
    })
}


/// `r` is the full simulation of `config` from the initial row `row`.
pub open spec fn is_simulation_of(r: SimulationResult, config: SimConfig, row: Seq<u8>) -> bool {
    &&& r.config == config
    &&& r.width == config.width
    &&& r.generations == config.generations
    &&& r.rows@ == grid(config.rule, row, config.boundary, config.generations as nat)
}

/// Check the inputs of a run, build its initial row and simulate it. The
/// padding alignment and fill of the initial row come back with the result
/// (`Center` and `Zero` for an explicit row).
pub fn run_simulation(config: SimConfig, initial: InitialRow) -> (res: Result<
    (SimulationResult, PaddingAlign, PaddingFill),
    Error,
>)
    ensures
        config.width == 0 ==> (res matches Err(Error::WidthZero)),
        config.width > 0 ==> (match initial_outcome(config, initial) {
            Err(e0) => (res matches Err(e) && e == e0),
            Ok((row, align, fill)) => match res {
                Ok((r, a, f)) => is_simulation_of(r, config, row) && a == align && f == fill,
                Err(e) => e == Error::AllocationFailed { bytes_requested: requested_cells(config) },
            },
        }),
{
    if config.width == 0 {
        return Err(Error::WidthZero);
    }
    let (row, align, fill) = match build_initial_row(&config, initial) {
        Ok(t) => t,
        Err(e) => return Err(e),
    };
    match simulate(config, row) {
        Ok(r) => Ok((r, align, fill)),
        Err(e) => Err(e),
    }
}


/// The layout promised of a simulation result: `(generations + 1) * width`
/// binary cells, row 0 the initial row, and each row the next generation of
/// the row above it.
pub proof fn lemma_simulation_layout(r: SimulationResult, config: SimConfig, row: Seq<u8>)
    requires
        is_simulation_of(r, config, row),
        row.len() == config.width,
        is_binary(row),
    ensures
        r.rows@.len() == (config.generations + 1) * config.width,
        is_binary(r.rows@),
        r.rows@.subrange(0, config.width as int) == row,
        forall|y: int|
            0 <= y < config.generations ==> #[trigger] r.rows@.subrange(
                (y + 1) * config.width,
                (y + 2) * config.width,
            ) == crate::sim::next_row(
                config.rule,
                r.rows@.subrange(y * config.width, (y + 1) * config.width),
                config.boundary,
            ),
{
    let w = config.width as int;
    let n = config.generations as nat;
    lemma_grid(config.rule, row, config.boundary, n);
    assert(r.rows@.subrange(0int * row.len(), (0int + 1) * row.len()) == crate::sim::evolve(
        config.rule,
        row,
        config.boundary,
        0,
    ));
    assert(0int * row.len() == 0 && (0int + 1) * row.len() == w);
    assert forall|y: int| 0 <= y < config.generations implies #[trigger] r.rows@.subrange(
        (y + 1) * w,
        (y + 2) * w,
    ) == crate::sim::next_row(config.rule, r.rows@.subrange(y * w, (y + 1) * w), config.boundary) by {
        assert(r.rows@.subrange(y * w, (y + 1) * w) == crate::sim::evolve(
            config.rule,
            row,
            config.boundary,
            y as nat,
        ));
        assert((y + 1 + 1) * w == (y + 2) * w);
        assert(r.rows@.subrange((y + 1) * w, (y + 1 + 1) * w) == crate::sim::evolve(
            config.rule,
            row,
            config.boundary,
            (y + 1) as nat,
        ));
    }
}

/// The message of an error, except the text of an I/O error.
pub open spec fn error_message(e: Error) -> Seq<char> {
    match e {
        Error::WidthZero => "width must be greater than 0"@,
        Error::InitialRowLengthMismatch { expected, got } => "initial row length "@ + decimal(
            got as nat,
        ) + " does not match config.width "@ + decimal(expected as nat),
        Error::SeedWiderThanWidth { width, seed_len } => "seed length "@ + decimal(seed_len as nat)
            + " is wider than config.width "@ + decimal(width as nat),
        Error::NonBinaryCellValue { position, value } => "cell at position "@ + decimal(
            position as nat,
        ) + " has value "@ + decimal(value as nat) + "; only 0 or 1 are allowed"@,
        Error::HtmlExportFailed(_) => "HTML export failed: "@,
        Error::AllocationFailed { bytes_requested } => "could not allocate "@ + decimal(
            bytes_requested as nat,
        ) + " bytes for the simulation grid; reduce generations or width"@,
    }
}

impl Error {
    /// A sentence describing the error. For `HtmlExportFailed` the I/O
    /// error's own text (its `Display`) follows the fixed prefix.
    pub fn message(&self) -> (m: String)
        ensures
            !(*self is HtmlExportFailed) ==> m@ == error_message(*self),
            *self is HtmlExportFailed ==> exists|t: String|
                vstd::string::to_string_from_display_ensures::<std::io::Error>(&self->0, t) && m@
                    == error_message(*self) + t@,
    {
        let mut m = String::new();
        match self {
            Error::WidthZero => {
                m.append("width must be greater than 0");
            },
            Error::InitialRowLengthMismatch { expected, got } => {
                m.append("initial row length ");
                push_usize(&mut m, *got);
                m.append(" does not match config.width ");
                push_usize(&mut m, *expected);
            },
            Error::SeedWiderThanWidth { width, seed_len } => {
                m.append("seed length ");
                push_usize(&mut m, *seed_len);
                m.append(" is wider than config.width ");
                push_usize(&mut m, *width);
            },
            Error::NonBinaryCellValue { position, value } => {
                m.append("cell at position ");
                push_usize(&mut m, *position);
                m.append(" has value ");
                push_u64(&mut m, *value as u64);
                m.append("; only 0 or 1 are allowed");
            },
            Error::HtmlExportFailed(e) => {
                m.append("HTML export failed: ");
                let t = e.to_string();
                m.append(t.as_str());
            },
            Error::AllocationFailed { bytes_requested } => {
                m.append("could not allocate ");
                push_usize(&mut m, *bytes_requested);
                m.append(" bytes for the simulation grid; reduce generations or width");
            },
        }
        m
    }

    /// The I/O error behind a failed HTML export.
    pub fn source_io(&self) -> (src: Option<&std::io::Error>)
        ensures
            *self is HtmlExportFailed ==> src == Some(&self->0),
            !(*self is HtmlExportFailed) ==> src is None,
    {
        match self {
            Error::HtmlExportFailed(e) => Some(e),
            _ => None,
        }
    }
}

} // verus!
