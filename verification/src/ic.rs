//! The "initial condition" label of a run: the initial row read as a binary
//! number, written in decimal.

use vstd::prelude::*;
use crate::decimal::{decimal, digit, digit_char};
use crate::sim::{fill_value, initial_row, seed_cell, seed_offset, PaddingAlign, PaddingFill};
use crate::text::push_char;

verus! {

/// The cell's low bit.
pub open spec fn cell_bit(x: u8) -> nat {
    (x % 2) as nat
}

/// The cells' low bits read as a big-endian binary number.
pub open spec fn binary_value(s: Seq<u8>) -> nat
    decreases s.len(),
{
    if s.len() == 0 {
        0
    } else {
        2 * binary_value(s.drop_last()) + cell_bit(s.last())
    }
}

/// `s` without the cells after its last 1 bit.
pub open spec fn trim_trailing_zeros(s: Seq<u8>) -> Seq<u8>
    decreases s.len(),
{
    if s.len() > 0 && cell_bit(s.last()) == 0 {
        trim_trailing_zeros(s.drop_last())
    } else {
        s
    }
}

/// The decimal label of a row: the bits from its first 1 to its last 1 read
/// as a big-endian binary number; "0" when the row has no 1.
pub open spec fn ic_text(row: Seq<u8>) -> Seq<char> {
    decimal(binary_value(trim_trailing_zeros(row)))
}

/// Ten to the power `n`.
pub open spec fn pow10(n: nat) -> nat
    decreases n,
{
    if n == 0 {
        1
    } else {
        10 * pow10((n - 1) as nat)
    }
}

/// The value of little-endian decimal digits.
pub open spec fn digits_value(s: Seq<u8>) -> nat
    decreases s.len(),
{
    if s.len() == 0 {
        0
    } else {
        digits_value(s.drop_last()) + (s.last() as nat) * pow10((s.len() - 1) as nat)
    }
}

/// Little-endian decimal digits with no leading zero.
pub open spec fn canonical_digits(s: Seq<u8>) -> bool {
    &&& s.len() >= 1
    &&& forall|i: int| 0 <= i < s.len() ==> #[trigger] s[i] < 10
    &&& s.len() > 1 ==> s.last() != 0
}

/// The digits, most significant first, as characters.
pub open spec fn digits_text(s: Seq<u8>) -> Seq<char> {
    Seq::new(s.len(), |i: int| digit_char(s[s.len() - 1 - i] as nat))
}

proof fn lemma_pow10_pos(n: nat)
    ensures
        pow10(n) >= 1,
    decreases n,
{
    if n > 0 {
        lemma_pow10_pos((n - 1) as nat);
    }
}

proof fn lemma_digits_value_front(s: Seq<u8>)
    requires
        s.len() > 0,
    ensures
        digits_value(s) == s[0] + 10 * digits_value(s.drop_first()),
    decreases s.len(),
{
    if s.len() == 1 {
        assert(s.drop_first().len() == 0);
        assert(s.drop_last().len() == 0);
        assert(digits_value(s.drop_first()) == 0);
        assert(digits_value(s.drop_last()) == 0);
        assert(pow10(0) == 1);
        assert(s.last() == s[0]);
    } else {
        let dl = s.drop_last();
        lemma_digits_value_front(dl);
        let df = s.drop_first();
        assert(df.len() == s.len() - 1);
        assert(digits_value(df) == digits_value(df.drop_last()) + (df.last() as nat) * pow10(
            (df.len() - 1) as nat,
        ));
        assert(dl[0] == s[0]);
        assert(s.drop_first().drop_last() =~= dl.drop_first());
        assert(s.drop_first().last() == s.last());
        let p = pow10((s.len() - 2) as nat);
        assert(pow10((s.len() - 1) as nat) == 10 * p);
        let a = digits_value(dl.drop_first());
        let l = s.last() as nat;
        assert(10 * (a + l * p) == 10 * a + l * (10 * p)) by (nonlinear_arith);
    }
}

proof fn lemma_digits_text(s: Seq<u8>)
    requires
        canonical_digits(s),
    ensures
        decimal(digits_value(s)) == digits_text(s),
    decreases s.len(),
{
    lemma_digits_value_front(s);
    if s.len() == 1 {
        assert(digits_value(s.drop_first()) == 0);
        assert(decimal(digits_value(s)) =~= digits_text(s));
    } else {
        let df = s.drop_first();
        assert(df.last() == s.last());
        assert(canonical_digits(df)) by {
            assert forall|i: int| 0 <= i < df.len() implies #[trigger] df[i] < 10 by {
                assert(df[i] == s[i + 1]);
            }
        }
        lemma_digits_text(df);
        lemma_pow10_pos((df.len() - 1) as nat);
        assert(digits_value(df) >= df.last() * pow10((df.len() - 1) as nat));
        assert(df.last() * pow10((df.len() - 1) as nat) >= 1) by (nonlinear_arith)
            requires
                df.last() >= 1,
                pow10((df.len() - 1) as nat) >= 1,
        ;
        let v = digits_value(s);
        let w = digits_value(df);
        assert(s[0] < 10);
        assert(v / 10 == w && v % 10 == s[0]) by (nonlinear_arith)
            requires
                v == s[0] + 10 * w,
                s[0] < 10,
        ;
        assert(v >= 10);
        assert(decimal(v) == decimal(v / 10).push(digit_char(v % 10)));
        assert(digits_text(s) =~= digits_text(df).push(digit_char(s[0] as nat)));
    }
}

/// `digits := digits * factor + carry_in`, in place on little-endian digits.
fn scale_add(digits: &mut Vec<u8>, factor: u8, carry_in: u8)
    requires
        canonical_digits(old(digits)@),
        1 <= factor <= 2,
        carry_in <= 1,
    ensures
        canonical_digits(final(digits)@),
        digits_value(final(digits)@) == factor * digits_value(old(digits)@) + carry_in,
{
    let ghost old_d = digits@;
    let n = digits.len();
    let mut carry: u8 = carry_in;
    let mut i: usize = 0;
    proof {
        assert(digits@.take(0) =~= Seq::<u8>::empty());
        assert(old_d.take(0) =~= Seq::<u8>::empty());
        assert(digits_value(Seq::<u8>::empty()) == 0);
        assert(pow10(0) == 1);
        assert(factor * 0 == 0);
        assert(carry_in * 1 == carry_in);
    }
    while i < n
        invariant
            n == old_d.len(),
            digits@.len() == n,
            canonical_digits(old_d),
            1 <= factor <= 2,
            carry_in <= 1,
            i <= n,
            carry <= 1,
            forall|j: int| i <= j < n ==> #[trigger] digits@[j] == old_d[j],
            forall|j: int| 0 <= j < i ==> #[trigger] digits@[j] < 10,
            digits_value(digits@.take(i as int)) + carry * pow10(i as nat) == factor
                * digits_value(old_d.take(i as int)) + carry_in,
            i > 0 && carry == 0 ==> digits@[i - 1] >= old_d[i - 1],
            i == 0 ==> carry == carry_in,
        decreases n - i,
    {
        let d = digits[i];
        proof {
            assert(d < 10);
            assert(d <= d * factor <= 18) by (nonlinear_arith)
                requires
                    d < 10,
                    1 <= factor <= 2,
            ;
        }
        let v: u8 = d * factor + carry;
        let ghost prev = digits@;
        digits.set(i, v % 10);
        let ghost c0 = carry;
        carry = v / 10;
        proof {
            let p = pow10(i as nat);
            assert(digits@.take(i as int) =~= prev.take(i as int));
            assert(digits@.take(i + 1).drop_last() =~= digits@.take(i as int));
            assert(old_d.take(i + 1).drop_last() =~= old_d.take(i as int));
            assert(pow10((i + 1) as nat) == 10 * p);
            let a = digits_value(digits@.take(i as int));
            let b = digits_value(old_d.take(i as int));
            assert(a + c0 * p == factor * b + carry_in);
            assert((v % 10) as nat + 10 * (v / 10) as nat == v as nat);
            assert(a + ((v % 10) as nat) * p + carry * (10 * p) == factor * (b + d * p) + carry_in)
                by (nonlinear_arith)
                requires
                    a + c0 * p == factor * b + carry_in,
                    (v % 10) as nat + 10 * (v / 10) as nat == v as nat,
                    v == d * factor + c0,
                    carry == v / 10,
            ;
        }
        i = i + 1;
    }
    proof {
        assert(digits@.take(n as int) =~= digits@);
        assert(old_d.take(n as int) =~= old_d);
    }
    if carry > 0 {
        let ghost before = digits@;
        digits.push(carry);
        proof {
            assert(digits@.drop_last() =~= before);
        }
    }
}

proof fn lemma_low_bit(x: u8)
    ensures
        (x & 1 == 1) == (cell_bit(x) == 1),
        (x & 1 == 1) || cell_bit(x) == 0,
{
    assert((x & 1 == 1) == (x % 2 == 1)) by (bit_vector);
}

proof fn lemma_zero_bits_value(s: Seq<u8>)
    requires
        forall|j: int| 0 <= j < s.len() ==> #[trigger] cell_bit(s[j]) == 0,
    ensures
        binary_value(s) == 0,
        trim_trailing_zeros(s).len() == 0,
    decreases s.len(),
{
    if s.len() > 0 {
        let d = s.drop_last();
        assert forall|j: int| 0 <= j < d.len() implies #[trigger] cell_bit(d[j]) == 0 by {
            assert(d[j] == s[j]);
        }
        lemma_zero_bits_value(d);
        assert(cell_bit(s.last()) == 0);
    }
}

proof fn lemma_trim_at(s: Seq<u8>, m: int)
    requires
        0 <= m < s.len(),
        cell_bit(s[m]) == 1,
        forall|j: int| m < j < s.len() ==> #[trigger] cell_bit(s[j]) == 0,
    ensures
        trim_trailing_zeros(s) == s.take(m + 1),
    decreases s.len(),
{
    if m == s.len() - 1 {
        assert(s.take(m + 1) =~= s);
    } else {
        let d = s.drop_last();
        assert(cell_bit(s.last()) == 0);
        assert forall|j: int| m < j < d.len() implies #[trigger] cell_bit(d[j]) == 0 by {
            assert(d[j] == s[j]);
        }
        lemma_trim_at(d, m);
        assert(d.take(m + 1) =~= s.take(m + 1));
    }
}

proof fn lemma_leading_zeros(s: Seq<u8>, f: int, m: int)
    requires
        0 <= f <= m <= s.len(),
        forall|j: int| 0 <= j < f ==> #[trigger] cell_bit(s[j]) == 0,
    ensures
        binary_value(s.take(m)) == binary_value(s.subrange(f, m)),
    decreases m,
{
    if m == f {
        let t = s.take(m);
        assert forall|j: int| 0 <= j < t.len() implies #[trigger] cell_bit(t[j]) == 0 by {
            assert(t[j] == s[j]);
        }
        lemma_zero_bits_value(t);
        assert(s.subrange(f, m).len() == 0);
    } else {
        lemma_leading_zeros(s, f, m - 1);
        assert(s.take(m).drop_last() =~= s.take(m - 1));
        assert(s.subrange(f, m).drop_last() =~= s.subrange(f, m - 1));
    }
}

/// The decimal label of a row: the bits from its first 1 to its last 1 read
/// as a big-endian binary number; "0" when the row has no 1.
pub fn compute_ic(row: &[u8]) -> (s: String)
    ensures
        s@ == ic_text(row@),
{
    let n = row.len();
    let mut first: usize = 0;
    while first < n && row[first] & 1 != 1
        invariant
            n == row@.len(),
            first <= n,
            forall|j: int| 0 <= j < first ==> #[trigger] cell_bit(row@[j]) == 0,
        decreases n - first,
    {
        proof {
            lemma_low_bit(row@[first as int]);
        }
        first = first + 1;
    }
    if first == n {
        proof {
            lemma_zero_bits_value(row@);
            assert(trim_trailing_zeros(row@) =~= Seq::<u8>::empty());
            assert(decimal(0) =~= seq![digit_char(0)]);
        }
        let mut s = String::new();
        push_char(&mut s, '0');
        return s;
    }
    proof {
        lemma_low_bit(row@[first as int]);
    }
    let mut last: usize = n - 1;
    while row[last] & 1 != 1
        invariant
            n == row@.len(),
            first <= last < n,
            cell_bit(row@[first as int]) == 1,
            forall|j: int| last < j < n ==> #[trigger] cell_bit(row@[j]) == 0,
        decreases last,
    {
        proof {
            lemma_low_bit(row@[last as int]);
        }
        last = last - 1;
    }
    proof {
        lemma_low_bit(row@[last as int]);
        lemma_trim_at(row@, last as int);
        lemma_leading_zeros(row@, first as int, last + 1);
    }
    let mut digits: Vec<u8> = Vec::new();
    digits.push(0);
    proof {
        assert(digits_value(digits@) == 0) by {
            assert(digits@.drop_last().len() == 0);
            assert(digits_value(digits@.drop_last()) == 0);
            assert(digits@.last() == 0);
        }
        assert(row@.subrange(first as int, first as int).len() == 0);
    }
    let mut k: usize = first;
    while k <= last
        invariant
            n == row@.len(),
            first <= k <= last + 1,
            last < n,
            canonical_digits(digits@),
            digits_value(digits@) == binary_value(row@.subrange(first as int, k as int)),
        decreases last + 1 - k,
    {
        let ghost before = binary_value(row@.subrange(first as int, k as int));
        scale_add(&mut digits, 2, 0);
        proof {
            lemma_low_bit(row@[k as int]);
            assert(row@.subrange(first as int, k + 1).drop_last() =~= row@.subrange(
                first as int,
                k as int,
            ));
        }
        if row[k] & 1 == 1 {
            scale_add(&mut digits, 1, 1);
        }
        k = k + 1;
    }
    proof {
        lemma_digits_text(digits@);
    }
    let mut s = String::new();
    let mut j: usize = digits.len();
    while j > 0
        invariant
            j <= digits@.len(),
            canonical_digits(digits@),
            s@ =~= digits_text(digits@).take(digits@.len() - j),
        decreases j,
    {
        j = j - 1;
        push_char(&mut s, digit(digits[j]));
    }
    proof {
        assert(digits_text(digits@).take(digits@.len() as int) =~= digits_text(digits@));
    }
    s
}

/// The label of a row against its background: with a fill of 1 the row is
/// complemented first, so the label describes the pattern rather than the
/// padding; with a fill of 0 it is [`compute_ic`].
pub fn compute_ic_with_fill(row: &[u8], fill: PaddingFill) -> (s: String)
    ensures
        fill == PaddingFill::Zero ==> s@ == ic_text(row@),
        fill == PaddingFill::One ==> s@ == ic_text(complement(row@)),
{
    match fill {
        PaddingFill::Zero => compute_ic(row),
        PaddingFill::One => {
            let mut notted: Vec<u8> = Vec::new();
            let mut i: usize = 0;
            while i < row.len()
                invariant
                    i <= row@.len(),
                    notted@ =~= complement(row@).take(i as int),
                decreases row@.len() - i,
            {
                notted.push((row[i] & 1) ^ 1);
                i = i + 1;
            }
            proof {
                assert(notted@ =~= complement(row@));
            }
            compute_ic(notted.as_slice())
        },
    }
}

/// Each cell replaced by the complement of its low bit.
pub open spec fn complement(row: Seq<u8>) -> Seq<u8> {
    Seq::new(row.len(), |i: int| (row[i] & 1u8) ^ 1u8)
}


/// The label of a run's initial row against its background fill: "0" when
/// the grid is empty or has no width.
pub open spec fn first_row_ic_text(rows: Seq<u8>, width: nat, fill: PaddingFill) -> Seq<char> {
    if width == 0 || rows.len() == 0 {
        "0"@
    } else {
        match fill {
            PaddingFill::Zero => ic_text(rows.take(width as int)),
            PaddingFill::One => ic_text(complement(rows.take(width as int))),
        }
    }
}

/// The label of the first row of a row-major grid; see [`compute_ic_with_fill`].
pub fn first_row_ic(rows: &[u8], width: usize, fill: PaddingFill) -> (s: String)
    requires
        width == 0 || rows@.len() == 0 || rows@.len() >= width,
    ensures
        s@ == first_row_ic_text(rows@, width as nat, fill),
{
    if width == 0 || rows.len() == 0 {
        return String::from_str("0");
    }
    let mut first: Vec<u8> = Vec::new();
    let mut i: usize = 0;
    while i < width
        invariant
            i <= width,
            width <= rows@.len(),
            first@ =~= rows@.take(i as int),
        decreases width - i,
    {
        first.push(rows[i]);
        i = i + 1;
    }
    compute_ic_with_fill(first.as_slice(), fill)
}


/// Every cell of `s` has a low bit of 0.
pub open spec fn all_zero_bits(s: Seq<u8>) -> bool {
    forall|i: int| 0 <= i < s.len() ==> #[trigger] cell_bit(s[i]) == 0
}

proof fn lemma_zero_cells_value(z: Seq<u8>)
    requires
        all_zero_bits(z),
    ensures
        binary_value(z) == 0,
        trim_trailing_zeros(z).len() == 0,
    decreases z.len(),
{
    if z.len() > 0 {
        assert(cell_bit(z[z.len() - 1]) == 0);
        lemma_zero_cells_value(z.drop_last());
    }
}

proof fn lemma_leading_zero_cells(z: Seq<u8>, s: Seq<u8>)
    requires
        all_zero_bits(z),
    ensures
        binary_value(z + s) == binary_value(s),
    decreases s.len(),
{
    if s.len() == 0 {
        assert(z + s =~= z);
        lemma_zero_cells_value(z);
    } else {
        lemma_leading_zero_cells(z, s.drop_last());
        assert((z + s).drop_last() =~= z + s.drop_last());
        assert((z + s).last() == s.last());
    }
}

proof fn lemma_trim_leading(z: Seq<u8>, s: Seq<u8>)
    requires
        all_zero_bits(z),
    ensures
        binary_value(trim_trailing_zeros(z + s)) == binary_value(trim_trailing_zeros(s)),
    decreases s.len(),
{
    if s.len() == 0 {
        assert(z + s =~= z);
        lemma_zero_cells_value(z);
        assert(trim_trailing_zeros(z) =~= Seq::<u8>::empty());
    } else {
        assert((z + s).drop_last() =~= z + s.drop_last());
        assert((z + s).last() == s.last());
        if cell_bit(s.last()) == 0 {
            lemma_trim_leading(z, s.drop_last());
        } else {
            lemma_leading_zero_cells(z, s);
        }
    }
}

proof fn lemma_trim_trailing(s: Seq<u8>, t: Seq<u8>)
    requires
        all_zero_bits(t),
    ensures
        trim_trailing_zeros(s + t) == trim_trailing_zeros(s),
    decreases t.len(),
{
    if t.len() == 0 {
        assert(s + t =~= s);
    } else {
        assert((s + t).drop_last() =~= s + t.drop_last());
        assert((s + t).last() == t[t.len() - 1]);
        lemma_trim_trailing(s, t.drop_last());
    }
}

/// The label of a pattern does not depend on the zero padding around it:
/// cells whose low bit is 0 before or after the pattern change nothing.
pub proof fn lemma_ic_ignores_zero_padding(before: Seq<u8>, pattern: Seq<u8>, after: Seq<u8>)
    requires
        all_zero_bits(before),
        all_zero_bits(after),
    ensures
        ic_text(before + pattern + after) == ic_text(pattern),
{
    lemma_trim_trailing(before + pattern, after);
    lemma_trim_leading(before, pattern);
}


/// The initial-condition label describes the seed, not where it sits: the
/// label of a row built from a seed (with `make_initial_row`), taken
/// against the padding fill as `compute_ic_with_fill` takes it, is the
/// label of the seed's cells, complemented for a fill of 1. Width and
/// alignment do not change it.
pub proof fn lemma_ic_describes_seed(width: nat, seed: Seq<u8>, align: PaddingAlign, fill: PaddingFill)
    requires
        seed.len() <= width,
    ensures
        ({
            let row = initial_row(width, seed, align, fill_value(fill));
            let cells = seed.map_values(|b: u8| seed_cell(b));
            &&& fill == PaddingFill::Zero ==> ic_text(row) == ic_text(cells)
            &&& fill == PaddingFill::One ==> ic_text(complement(row)) == ic_text(complement(cells))
        }),
{
    let row = initial_row(width, seed, align, fill_value(fill));
    let cells = seed.map_values(|b: u8| seed_cell(b));
    let len = seed.len() as int;
    let off = seed_offset(width, seed.len(), align);
    assert(0 <= off && off + len <= width);
    let before = row.take(off);
    let after = row.skip(off + len);
    assert(row.subrange(off, off + len) =~= cells);
    assert(row =~= before + cells + after);
    assert((1u8 & 1u8) ^ 1u8 == 0u8) by (bit_vector);
    match fill {
        PaddingFill::Zero => {
            assert(all_zero_bits(before));
            assert(all_zero_bits(after));
            lemma_ic_ignores_zero_padding(before, cells, after);
        },
        PaddingFill::One => {
            let cb = complement(before);
            let ca = complement(after);
            assert(complement(row) =~= cb + complement(cells) + ca);
            assert(all_zero_bits(cb));
            assert(all_zero_bits(ca));
            lemma_ic_ignores_zero_padding(cb, complement(cells), ca);
        },
    }
}

} // verus!
