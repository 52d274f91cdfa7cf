//! The automaton itself: Wolfram rules, boundary handling, initial rows and
//! the row stepper.

use vstd::prelude::*;

verus! {

/// A row is binary when every cell is 0 or 1.
pub open spec fn is_binary(row: Seq<u8>) -> bool {
    forall|i: int| 0 <= i < row.len() ==> #[trigger] row[i] <= 1
}

/// Wolfram's lookup: the neighbourhood `(l, c, r)` read as the three-bit
/// number `4l + 2c + r` selects one bit of the rule number.
pub open spec fn rule_output(rule: u8, l: u8, c: u8, r: u8) -> u8 {
    (rule >> ((4 * l + 2 * c + r) as u8)) & 1u8
}

/// How the leftmost and rightmost cells see their off-grid neighbours.
#[derive(Clone, Copy, Debug, PartialEq, Eq, Structural)]
pub enum BoundaryMode {
    /// Off-grid neighbours read as 0.
    ZeroPadded,
    /// The row is a ring: the left neighbour of cell 0 is the last cell.
    Wrap,
}

/// The variant name of a boundary mode, as the JSON output spells it.
pub open spec fn boundary_name(b: BoundaryMode) -> Seq<char> {
    match b {
        BoundaryMode::ZeroPadded => "ZeroPadded"@,
        BoundaryMode::Wrap => "Wrap"@,
    }
}

impl BoundaryMode {
    /// The variant name: `"ZeroPadded"` or `"Wrap"`.
    pub fn name(&self) -> (s: &'static str)
        ensures
            s@ == boundary_name(*self),
    {
        match self {
            BoundaryMode::ZeroPadded => "ZeroPadded",
            BoundaryMode::Wrap => "Wrap",
        }
    }
}

/// The cell at position `i` of `row`, where `i` may lie one step off the row.
pub open spec fn cell_at(row: Seq<u8>, i: int, boundary: BoundaryMode) -> u8 {
    if 0 <= i < row.len() {
        row[i]
    } else {
        match boundary {
            BoundaryMode::ZeroPadded => 0u8,
            BoundaryMode::Wrap => row[i % (row.len() as int)],
        }
    }
}

/// One generation of the automaton.
pub open spec fn next_row(rule: u8, row: Seq<u8>, boundary: BoundaryMode) -> Seq<u8> {
    Seq::new(
        row.len(),
        |i: int|
            rule_output(
                rule,
                cell_at(row, i - 1, boundary),
                row[i],
                cell_at(row, i + 1, boundary),
            ),
    )
}

/// The row after `n` generations.
pub open spec fn evolve(rule: u8, row: Seq<u8>, boundary: BoundaryMode, n: nat) -> Seq<u8>
    decreases n,
{
    if n == 0 {
        row
    } else {
        next_row(rule, evolve(rule, row, boundary, (n - 1) as nat), boundary)
    }
}

/// Rows `0..=n` laid end to end, row-major.
pub open spec fn grid(rule: u8, row: Seq<u8>, boundary: BoundaryMode, n: nat) -> Seq<u8>
    decreases n,
{
    if n == 0 {
        row
    } else {
        grid(rule, row, boundary, (n - 1) as nat) + evolve(rule, row, boundary, n)
    }
}

/// A Wolfram rule number, 0-255.
#[derive(Clone, Copy, Debug, PartialEq, Eq, Structural)]
pub struct Rule {
    pub number: u8,
}

impl Rule {
    /// The rule with Wolfram number `number`.
    pub fn new(number: u8) -> (r: Rule)
        ensures
            r.number == number,
    {
        Rule { number }
    }

    /// The next state of a cell whose neighbourhood is `(l, c, r)`.
    pub fn apply(&self, l: u8, c: u8, r: u8) -> (out: u8)
        requires
            l <= 1,
            c <= 1,
            r <= 1,
        ensures
            out == rule_output(self.number, l, c, r),
            out <= 1,
    {
        let idx: u8 = 4 * l + 2 * c + r;
        let n = self.number;
        assert((n >> idx) & 1u8 <= 1) by (bit_vector);
        (n >> idx) & 1u8
    }
}


/// Where a short seed sits inside a wider row.
#[derive(Clone, Copy, Debug, PartialEq, Eq, Structural)]
pub enum PaddingAlign {
    /// Padding before the seed: the seed ends at the last cell.
    Before,
    /// Padding after the seed: the seed starts at cell 0.
    After,
    /// The seed sits in the middle; an odd leftover cell goes after it.
    Center,
}

/// The value of the cells around the seed.
#[derive(Clone, Copy, Debug, PartialEq, Eq, Structural)]
pub enum PaddingFill {
    Zero,
    One,
}

/// The cell value of a padding fill.
pub open spec fn fill_value(fill: PaddingFill) -> u8 {
    match fill {
        PaddingFill::Zero => 0u8,
        PaddingFill::One => 1u8,
    }
}

impl PaddingFill {
    /// The cell value the fill stands for.
    pub fn value(&self) -> (v: u8)
        ensures
            v == fill_value(*self),
    {
        match self {
            PaddingFill::Zero => 0,
            PaddingFill::One => 1,
        }
    }
}

/// The index of the seed's first cell in a row of `width` cells.
pub open spec fn seed_offset(width: nat, seed_len: nat, align: PaddingAlign) -> int {
    match align {
        PaddingAlign::Before => width - seed_len,
        PaddingAlign::After => 0,
        PaddingAlign::Center => (width - seed_len) / 2,
    }
}

/// A seed cell as a binary cell: any non-zero value counts as 1.
pub open spec fn seed_cell(b: u8) -> u8 {
    if b == 0 { 0u8 } else { 1u8 }
}

/// The initial row built from `seed`, aligned by `align`, other cells `fill`.
pub open spec fn initial_row(width: nat, seed: Seq<u8>, align: PaddingAlign, fill: u8) -> Seq<u8> {
    let off = seed_offset(width, seed.len(), align);
    Seq::new(
        width,
        |i: int|
            if off <= i < off + seed.len() {
                seed_cell(seed[i - off])
            } else {
                fill
            },
    )
}

/// Build a `width`-cell row with `seed` placed according to `align` and
/// every other cell set to `fill`.
pub fn make_initial_row(width: usize, seed: &[u8], align: PaddingAlign, fill: u8) -> (row: Vec<u8>)
    requires
        seed@.len() <= width,
    ensures
        row@ == initial_row(width as nat, seed@, align, fill),
        fill <= 1 ==> is_binary(row@),
{
    let len = seed.len();
    let off: usize = match align {
        PaddingAlign::Before => width - len,
        PaddingAlign::After => 0,
        PaddingAlign::Center => (width - len) / 2,
    };
    let mut row: Vec<u8> = Vec::new();
    let mut i: usize = 0;
    while i < width
        invariant
            i <= width,
            len == seed@.len(),
            len <= width,
            off == seed_offset(width as nat, len as nat, align),
            off + len <= width,
            row@ =~= initial_row(width as nat, seed@, align, fill).take(i as int),
        decreases width - i,
    {
        let v: u8 = if off <= i && i < off + len {
            if seed[i - off] == 0 { 0 } else { 1 }
        } else {
            fill
        };
        row.push(v);
        i = i + 1;
    }
    row
}

/// Why an explicitly given initial row was refused.
#[derive(Clone, Copy, Debug, PartialEq, Eq, Structural)]
pub enum ExplicitRowError {
    /// The row does not have `expected` cells.
    LengthMismatch { expected: usize, got: usize },
    /// The first cell that is neither 0 nor 1.
    NonBinary { position: usize, value: u8 },
}

/// Check an explicit initial row: it must have `width` cells, each 0 or 1.
pub fn check_explicit_row(width: usize, row: &[u8]) -> (res: Result<(), ExplicitRowError>)
    ensures
        row@.len() != width ==> res == Err::<(), ExplicitRowError>(
            ExplicitRowError::LengthMismatch { expected: width, got: row@.len() as usize },
        ),
        row@.len() == width ==> (res is Ok <==> is_binary(row@)),
        res matches Err(ExplicitRowError::LengthMismatch { .. }) ==> row@.len() != width,
        res matches Err(ExplicitRowError::NonBinary { position, value }) ==> {
            &&& row@.len() == width
            &&& position < row@.len()
            &&& value == row@[position as int]
            &&& value > 1
            &&& is_binary(row@.take(position as int))
        },
{
    if row.len() != width {
        return Err(ExplicitRowError::LengthMismatch { expected: width, got: row.len() });
    }
    let mut i: usize = 0;
    while i < row.len()
        invariant
            i <= row@.len(),
            row@.len() == width,
            is_binary(row@.take(i as int)),
        decreases row@.len() - i,
    {
        if row[i] > 1 {
            return Err(ExplicitRowError::NonBinary { position: i, value: row[i] });
        }
        assert(row@.take(i + 1) =~= row@.take(i as int).push(row@[i as int]));
        i = i + 1;
    }
    assert(row@.take(i as int) =~= row@);
    Ok(())
}


proof fn lemma_wrap_ends(w: int)
    requires
        w > 0,
    ensures
        (-1int) % w == w - 1,
        w % w == 0,
{
    assert((-1int) % w == w - 1) by (nonlinear_arith)
        requires
            w > 0,
    ;
    assert(w % w == 0) by (nonlinear_arith)
        requires
            w > 0,
    ;
}

/// Write the next generation of `prev` into `next`, which must already hold
/// as many cells as `prev`.
pub fn step_row_into(rule: &Rule, prev: &[u8], next: &mut Vec<u8>, boundary: BoundaryMode)
    requires
        old(next)@.len() == prev@.len(),
        is_binary(prev@),
    ensures
        final(next)@ == next_row(rule.number, prev@, boundary),
        is_binary(final(next)@),
{
    let w = prev.len();
    let ghost target = next_row(rule.number, prev@, boundary);
    let mut i: usize = 0;
    while i < w
        invariant
            w == prev@.len(),
            next@.len() == w,
            i <= w,
            is_binary(prev@),
            target == next_row(rule.number, prev@, boundary),
            forall|j: int| 0 <= j < i ==> #[trigger] next@[j] == target[j],
            forall|j: int| 0 <= j < i ==> #[trigger] next@[j] <= 1,
        decreases w - i,
    {
        proof {
            lemma_wrap_ends(w as int);
        }
        let l: u8 = if i == 0 {
            match boundary {
                BoundaryMode::ZeroPadded => 0,
                BoundaryMode::Wrap => prev[w - 1],
            }
        } else {
            prev[i - 1]
        };
        let r: u8 = if i + 1 == w {
            match boundary {
                BoundaryMode::ZeroPadded => 0,
                BoundaryMode::Wrap => prev[0],
            }
        } else {
            prev[i + 1]
        };
        assert(l == cell_at(prev@, i - 1, boundary));
        assert(r == cell_at(prev@, i + 1, boundary));
        let v = rule.apply(l, prev[i], r);
        next.set(i, v);
        i = i + 1;
    }
    assert(next@ =~= target);
}

/// The next generation of `prev` as a fresh row.
pub fn step_row(rule: &Rule, prev: &[u8], boundary: BoundaryMode) -> (next: Vec<u8>)
    requires
        is_binary(prev@),
    ensures
        next@ == next_row(rule.number, prev@, boundary),
        is_binary(next@),
{
    let mut next: Vec<u8> = Vec::new();
    let mut i: usize = 0;
    while i < prev.len()
        invariant
            i <= prev@.len(),
            next@.len() == i,
        decreases prev@.len() - i,
    {
        next.push(0);
        i = i + 1;
    }
    step_row_into(rule, prev, &mut next, boundary);
    next
}


/// Every rule maps binary neighbourhoods to a binary cell.
pub proof fn lemma_rule_output_binary(rule: u8, l: u8, c: u8, r: u8)
    ensures
        rule_output(rule, l, c, r) <= 1,
{
    let idx = (4 * l + 2 * c + r) as u8;
    assert((rule >> idx) & 1u8 <= 1) by (bit_vector);
}

/// One generation keeps the width and yields a binary row.
pub proof fn lemma_next_row(rule: u8, row: Seq<u8>, boundary: BoundaryMode)
    ensures
        next_row(rule, row, boundary).len() == row.len(),
        is_binary(next_row(rule, row, boundary)),
{
    let n = next_row(rule, row, boundary);
    assert forall|i: int| 0 <= i < n.len() implies #[trigger] n[i] <= 1 by {
        lemma_rule_output_binary(
            rule,
            cell_at(row, i - 1, boundary),
            row[i],
            cell_at(row, i + 1, boundary),
        );
    }
}

/// Every generation has the width of the initial row; after the first
/// generation every row is binary, whatever the initial row held.
pub proof fn lemma_evolve(rule: u8, row: Seq<u8>, boundary: BoundaryMode, n: nat)
    ensures
        evolve(rule, row, boundary, n).len() == row.len(),
        is_binary(row) ==> is_binary(evolve(rule, row, boundary, n)),
    decreases n,
{
    if n > 0 {
        lemma_evolve(rule, row, boundary, (n - 1) as nat);
        lemma_next_row(rule, evolve(rule, row, boundary, (n - 1) as nat), boundary);
    }
}

/// The grid of generations `0..=n` holds `(n + 1) * width` cells, row `y`
/// of it is generation `y`, and it is binary when the initial row is.
pub proof fn lemma_grid(rule: u8, row: Seq<u8>, boundary: BoundaryMode, n: nat)
    ensures
        grid(rule, row, boundary, n).len() == (n + 1) * row.len(),
        forall|y: int|
            0 <= y <= n ==> #[trigger] grid(rule, row, boundary, n).subrange(
                y * row.len(),
                (y + 1) * row.len(),
            ) == evolve(rule, row, boundary, y as nat),
        is_binary(row) ==> is_binary(grid(rule, row, boundary, n)),
    decreases n,
{
    let w = row.len() as int;
    let g = grid(rule, row, boundary, n);
    lemma_evolve(rule, row, boundary, n);
    if n == 0 {
        assert((n + 1) * w == w) by (nonlinear_arith)
            requires
                n == 0,
        ;
        assert forall|y: int| 0 <= y <= n implies #[trigger] g.subrange(y * w, (y + 1) * w)
            == evolve(rule, row, boundary, y as nat) by {
            assert(y * w == 0 && (y + 1) * w == w) by (nonlinear_arith)
                requires
                    y == 0,
            ;
            assert(g.subrange(0, w) =~= g);
        }
    } else {
        let m = (n - 1) as nat;
        lemma_grid(rule, row, boundary, m);
        let p = grid(rule, row, boundary, m);
        let e = evolve(rule, row, boundary, n);
        assert(p.len() == n * w) by (nonlinear_arith)
            requires
                p.len() == (m + 1) * w,
                m == n - 1,
        ;
        assert(g.len() == (n + 1) * w) by (nonlinear_arith)
            requires
                g.len() == p.len() + w,
                p.len() == n * w,
        ;
        assert forall|y: int| 0 <= y <= n implies #[trigger] g.subrange(y * w, (y + 1) * w)
            == evolve(rule, row, boundary, y as nat) by {
            if y < n {
                assert((y + 1) * w <= n * w) by (nonlinear_arith)
                    requires
                        y < n,
                        w >= 0,
                ;
                assert(0 <= y * w <= (y + 1) * w) by (nonlinear_arith)
                    requires
                        y >= 0,
                        w >= 0,
                ;
                assert(g.subrange(y * w, (y + 1) * w) =~= p.subrange(y * w, (y + 1) * w));
                assert(y <= m);
            } else {
                assert(y * w == n * w && (y + 1) * w == n * w + w) by (nonlinear_arith)
                    requires
                        y == n,
                ;
                assert(g.subrange(y * w, (y + 1) * w) =~= e);
            }
        }
        if is_binary(row) {
            assert forall|i: int| 0 <= i < g.len() implies #[trigger] g[i] <= 1 by {
                if i < p.len() {
                    assert(g[i] == p[i]);
                } else {
                    assert(g[i] == e[i - p.len()]);
                }
            }
        }
    }
}


proof fn lemma_rule_bits(l: u8, c: u8, r: u8)
    requires
        l <= 1,
        c <= 1,
        r <= 1,
    ensures
        rule_output(204, l, c, r) == c,
        rule_output(51, l, c, r) == 1 - c,
        rule_output(170, l, c, r) == r,
        rule_output(240, l, c, r) == l,
        rule_output(0, l, c, r) == 0,
        rule_output(255, l, c, r) == 1,
{
    let idx = (4 * l + 2 * c + r) as u8;
    assert(idx == 4 * l + 2 * c + r);
    assert((204u8 >> idx) & 1u8 == c) by (bit_vector)
        requires
            l <= 1 && c <= 1 && r <= 1,
            idx == 4 * l + 2 * c + r,
    ;
    assert((51u8 >> idx) & 1u8 == 1 - c) by (bit_vector)
        requires
            l <= 1 && c <= 1 && r <= 1,
            idx == 4 * l + 2 * c + r,
    ;
    assert((170u8 >> idx) & 1u8 == r) by (bit_vector)
        requires
            l <= 1 && c <= 1 && r <= 1,
            idx == 4 * l + 2 * c + r,
    ;
    assert((240u8 >> idx) & 1u8 == l) by (bit_vector)
        requires
            l <= 1 && c <= 1 && r <= 1,
            idx == 4 * l + 2 * c + r,
    ;
    assert((0u8 >> idx) & 1u8 == 0) by (bit_vector);
    assert((255u8 >> idx) & 1u8 == 1) by (bit_vector)
        requires
            idx <= 7,
    ;
}

/// Each cell looks at its left neighbour, itself and its right neighbour,
/// through Wolfram's numbering: rule 204 keeps every binary row, rule 51
/// complements it, rule 0 clears it and rule 255 fills it; rule 170 gives
/// each cell its right neighbour's value and rule 240 its left
/// neighbour's, so on a ring the row turns one step left or right, and
/// with zero padding a 0 enters at the edge.
pub proof fn lemma_rule_examples(row: Seq<u8>, boundary: BoundaryMode)
    requires
        is_binary(row),
        row.len() > 0,
    ensures
        next_row(204, row, boundary) == row,
        next_row(51, row, boundary) == Seq::new(row.len(), |i: int| (1 - row[i]) as u8),
        next_row(0, row, boundary) == Seq::new(row.len(), |i: int| 0u8),
        next_row(255, row, boundary) == Seq::new(row.len(), |i: int| 1u8),
        next_row(170, row, BoundaryMode::Wrap) == Seq::new(
            row.len(),
            |i: int| row[(i + 1) % (row.len() as int)],
        ),
        next_row(240, row, BoundaryMode::Wrap) == Seq::new(
            row.len(),
            |i: int| row[(i + row.len() - 1) % (row.len() as int)],
        ),
        next_row(170, row, BoundaryMode::ZeroPadded) == Seq::new(
            row.len(),
            |i: int| if i + 1 < row.len() { row[i + 1] } else { 0u8 },
        ),
        next_row(240, row, BoundaryMode::ZeroPadded) == Seq::new(
            row.len(),
            |i: int| if i > 0 { row[i - 1] } else { 0u8 },
        ),
{
    let n = row.len() as int;
    lemma_wrap_ends(n);
    assert forall|i: int| 0 <= i < n implies #[trigger] next_row(204, row, boundary)[i] == row[i] && next_row(
        51,
        row,
        boundary,
    )[i] == (1 - row[i]) as u8 && next_row(0, row, boundary)[i] == 0u8 && next_row(255, row, boundary)[i]
        == 1u8 && next_row(170, row, BoundaryMode::Wrap)[i] == row[(i + 1) % n] && next_row(
        240,
        row,
        BoundaryMode::Wrap,
    )[i] == row[(i + n - 1) % n] && next_row(170, row, BoundaryMode::ZeroPadded)[i] == (if i + 1 < n {
        row[i + 1]
    } else {
        0u8
    }) && next_row(240, row, BoundaryMode::ZeroPadded)[i] == (if i > 0 { row[i - 1] } else { 0u8 }) by {
        if i == 0 {
            assert((i + n - 1) % n == n - 1) by (nonlinear_arith)
                requires
                    i == 0,
                    n > 0,
            ;
        } else {
            assert((i + n - 1) % n == i - 1) by (nonlinear_arith)
                requires
                    0 < i < n,
            ;
        }
        if i + 1 < n {
            assert((i + 1) % n == i + 1) by (nonlinear_arith)
                requires
                    0 <= i,
                    i + 1 < n,
            ;
        } else {
            assert((i + 1) % n == 0) by (nonlinear_arith)
                requires
                    i + 1 == n,
                    n > 0,
            ;
        }
            lemma_rule_bits(cell_at(row, i - 1, boundary), row[i], cell_at(row, i + 1, boundary));
        lemma_rule_bits(
            cell_at(row, i - 1, BoundaryMode::Wrap),
            row[i],
            cell_at(row, i + 1, BoundaryMode::Wrap),
        );
        lemma_rule_bits(
            cell_at(row, i - 1, BoundaryMode::ZeroPadded),
            row[i],
            cell_at(row, i + 1, BoundaryMode::ZeroPadded),
        );
    }
    assert(next_row(204, row, boundary) =~= row);
    assert(next_row(51, row, boundary) =~= Seq::new(row.len(), |i: int| (1 - row[i]) as u8));
    assert(next_row(0, row, boundary) =~= Seq::new(row.len(), |i: int| 0u8));
    assert(next_row(255, row, boundary) =~= Seq::new(row.len(), |i: int| 1u8));
    assert(next_row(170, row, BoundaryMode::Wrap) =~= Seq::new(
        row.len(),
        |i: int| row[(i + 1) % (row.len() as int)],
    ));
    assert(next_row(240, row, BoundaryMode::Wrap) =~= Seq::new(
        row.len(),
        |i: int| row[(i + row.len() - 1) % (row.len() as int)],
    ));
    assert(next_row(170, row, BoundaryMode::ZeroPadded) =~= Seq::new(
        row.len(),
        |i: int| if i + 1 < row.len() { row[i + 1] } else { 0u8 },
    ));
    assert(next_row(240, row, BoundaryMode::ZeroPadded) =~= Seq::new(
        row.len(),
        |i: int| if i > 0 { row[i - 1] } else { 0u8 },
    ));
}

} // verus!
