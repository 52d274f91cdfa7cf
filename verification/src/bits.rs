//! Packing grid rows into a bit stream, eight cells per byte, most
//! significant bit first: the format the exported pages decode.

use vstd::prelude::*;

verus! {

/// Bit `j` of `b`, counting from the most significant bit (`j = 0`).
pub open spec fn bit_at(b: u8, j: int) -> u8 {
    (b >> ((7 - j) as u8)) & 1u8
}

/// Bit `i` of a packed stream.
pub open spec fn packed_bit(out: Seq<u8>, i: int) -> u8 {
    bit_at(out[i / 8], i % 8)
}

/// How many rows `pack_bits_range` packs: the rows `start..end` of the
/// grid, clipped to the complete rows present; none when `width` is 0 or the
/// range is empty.
pub open spec fn pack_height(len: nat, width: nat, start: nat, end: nat) -> nat {
    if width == 0 {
        0
    } else {
        let total = len / width;
        if start >= end || start >= total {
            0
        } else if end < total {
            (end - start) as nat
        } else {
            (total - start) as nat
        }
    }
}

proof fn lemma_compose_bits(v: u8, a: u8, b: u8, c: u8, d: u8, e: u8, f: u8, g: u8, h: u8)
    requires
        v == ((a & 1) << 7u8) | ((b & 1) << 6u8) | ((c & 1) << 5u8) | ((d & 1) << 4u8) | ((e
            & 1) << 3u8) | ((f & 1) << 2u8) | ((g & 1) << 1u8) | (h & 1),
    ensures
        bit_at(v, 0) == a & 1,
        bit_at(v, 1) == b & 1,
        bit_at(v, 2) == c & 1,
        bit_at(v, 3) == d & 1,
        bit_at(v, 4) == e & 1,
        bit_at(v, 5) == f & 1,
        bit_at(v, 6) == g & 1,
        bit_at(v, 7) == h & 1,
{
    assert((v >> 7u8) & 1u8 == a & 1) by (bit_vector)
        requires
            v == ((a & 1) << 7u8) | ((b & 1) << 6u8) | ((c & 1) << 5u8) | ((d & 1) << 4u8) | ((e
                & 1) << 3u8) | ((f & 1) << 2u8) | ((g & 1) << 1u8) | (h & 1),
    ;
    assert((v >> 6u8) & 1u8 == b & 1) by (bit_vector)
        requires
            v == ((a & 1) << 7u8) | ((b & 1) << 6u8) | ((c & 1) << 5u8) | ((d & 1) << 4u8) | ((e
                & 1) << 3u8) | ((f & 1) << 2u8) | ((g & 1) << 1u8) | (h & 1),
    ;
    assert((v >> 5u8) & 1u8 == c & 1) by (bit_vector)
        requires
            v == ((a & 1) << 7u8) | ((b & 1) << 6u8) | ((c & 1) << 5u8) | ((d & 1) << 4u8) | ((e
                & 1) << 3u8) | ((f & 1) << 2u8) | ((g & 1) << 1u8) | (h & 1),
    ;
    assert((v >> 4u8) & 1u8 == d & 1) by (bit_vector)
        requires
            v == ((a & 1) << 7u8) | ((b & 1) << 6u8) | ((c & 1) << 5u8) | ((d & 1) << 4u8) | ((e
                & 1) << 3u8) | ((f & 1) << 2u8) | ((g & 1) << 1u8) | (h & 1),
    ;
    assert((v >> 3u8) & 1u8 == e & 1) by (bit_vector)
        requires
            v == ((a & 1) << 7u8) | ((b & 1) << 6u8) | ((c & 1) << 5u8) | ((d & 1) << 4u8) | ((e
                & 1) << 3u8) | ((f & 1) << 2u8) | ((g & 1) << 1u8) | (h & 1),
    ;
    assert((v >> 2u8) & 1u8 == f & 1) by (bit_vector)
        requires
            v == ((a & 1) << 7u8) | ((b & 1) << 6u8) | ((c & 1) << 5u8) | ((d & 1) << 4u8) | ((e
                & 1) << 3u8) | ((f & 1) << 2u8) | ((g & 1) << 1u8) | (h & 1),
    ;
    assert((v >> 1u8) & 1u8 == g & 1) by (bit_vector)
        requires
            v == ((a & 1) << 7u8) | ((b & 1) << 6u8) | ((c & 1) << 5u8) | ((d & 1) << 4u8) | ((e
                & 1) << 3u8) | ((f & 1) << 2u8) | ((g & 1) << 1u8) | (h & 1),
    ;
    assert((v >> 0u8) & 1u8 == h & 1) by (bit_vector)
        requires
            v == ((a & 1) << 7u8) | ((b & 1) << 6u8) | ((c & 1) << 5u8) | ((d & 1) << 4u8) | ((e
                & 1) << 3u8) | ((f & 1) << 2u8) | ((g & 1) << 1u8) | (h & 1),
    ;
}

proof fn lemma_set_bit(b: u8, k: u8, j: u8)
    requires
        k < 8,
        j < 8,
    ensures
        bit_at(b | (1u8 << (7 - k) as u8), j as int) == if j == k {
            1u8
        } else {
            bit_at(b, j as int)
        },
{
    assert(((b | (1u8 << (7 - k) as u8)) >> (7 - j) as u8) & 1u8 == if j == k {
        1u8
    } else {
        (b >> (7 - j) as u8) & 1u8
    }) by (bit_vector)
        requires
            k < 8,
            j < 8,
    ;
}

proof fn lemma_zero_bits(j: int)
    requires
        0 <= j < 8,
    ensures
        bit_at(0u8, j) == 0,
{
    let jj = (7 - j) as u8;
    assert((0u8 >> jj) & 1u8 == 0u8) by (bit_vector);
}


/// The byte whose bits, most significant first, are the low bits of
/// `a`..`h`.
pub open spec fn byte_of(a: u8, b: u8, c: u8, d: u8, e: u8, f: u8, g: u8, h: u8) -> u8 {
    ((a & 1) << 7u8) | ((b & 1) << 6u8) | ((c & 1) << 5u8) | ((d & 1) << 4u8) | ((e & 1) << 3u8)
        | ((f & 1) << 2u8) | ((g & 1) << 1u8) | (h & 1)
}

/// Cell `i` of the packed stream: the cell's value, 0 past the end.
pub open spec fn stream_cell(rows: Seq<u8>, first: int, n: int, i: int) -> u8 {
    if i < n {
        rows[first + i]
    } else {
        0u8
    }
}

/// The bytes `pack_bits_range` returns, byte by byte.
pub open spec fn packed_bytes(rows: Seq<u8>, width: nat, start: nat, end: nat) -> Seq<u8> {
    let n: int = (width * pack_height(rows.len(), width, start, end)) as int;
    let first: int = (start * width) as int;
    Seq::new(
        ((n + 7) / 8) as nat,
        |k: int|
            byte_of(
                stream_cell(rows, first, n, 8 * k),
                stream_cell(rows, first, n, 8 * k + 1),
                stream_cell(rows, first, n, 8 * k + 2),
                stream_cell(rows, first, n, 8 * k + 3),
                stream_cell(rows, first, n, 8 * k + 4),
                stream_cell(rows, first, n, 8 * k + 5),
                stream_cell(rows, first, n, 8 * k + 6),
                stream_cell(rows, first, n, 8 * k + 7),
            ),
    )
}

proof fn lemma_bits_determine_byte(x: u8, y: u8)
    requires
        bit_at(x, 0) == bit_at(y, 0),
        bit_at(x, 1) == bit_at(y, 1),
        bit_at(x, 2) == bit_at(y, 2),
        bit_at(x, 3) == bit_at(y, 3),
        bit_at(x, 4) == bit_at(y, 4),
        bit_at(x, 5) == bit_at(y, 5),
        bit_at(x, 6) == bit_at(y, 6),
        bit_at(x, 7) == bit_at(y, 7),
    ensures
        x == y,
{
    assert(x == y) by (bit_vector)
        requires
            (x >> 7u8) & 1u8 == (y >> 7u8) & 1u8,
            (x >> 6u8) & 1u8 == (y >> 6u8) & 1u8,
            (x >> 5u8) & 1u8 == (y >> 5u8) & 1u8,
            (x >> 4u8) & 1u8 == (y >> 4u8) & 1u8,
            (x >> 3u8) & 1u8 == (y >> 3u8) & 1u8,
            (x >> 2u8) & 1u8 == (y >> 2u8) & 1u8,
            (x >> 1u8) & 1u8 == (y >> 1u8) & 1u8,
            (x >> 0u8) & 1u8 == (y >> 0u8) & 1u8,
    ;
}

proof fn lemma_low_bit_of_zero()
    ensures
        0u8 & 1u8 == 0u8,
{
    assert(0u8 & 1u8 == 0u8) by (bit_vector);
}

/// A stream described bit by bit is the stream of [`packed_bytes`].
proof fn lemma_packed_bytes(out: Seq<u8>, rows: Seq<u8>, width: nat, start: nat, end: nat)
    requires
        ({
            let n = width * pack_height(rows.len(), width, start, end);
            &&& out.len() == (n + 7) / 8
            &&& forall|i: int|
                0 <= i < 8 * out.len() ==> #[trigger] packed_bit(out, i) == if i < n {
                    rows[start * width + i] & 1u8
                } else {
                    0u8
                }
        }),
    ensures
        out == packed_bytes(rows, width, start, end),
{
    let n = width * pack_height(rows.len(), width, start, end);
    let first = start * width;
    let p = packed_bytes(rows, width, start, end);
    lemma_low_bit_of_zero();
    assert forall|k: int| 0 <= k < out.len() implies out[k] == #[trigger] p[k] by {
        let a = stream_cell(rows, first as int, n as int, 8 * k);
        let b = stream_cell(rows, first as int, n as int, 8 * k + 1);
        let c = stream_cell(rows, first as int, n as int, 8 * k + 2);
        let d = stream_cell(rows, first as int, n as int, 8 * k + 3);
        let e = stream_cell(rows, first as int, n as int, 8 * k + 4);
        let f = stream_cell(rows, first as int, n as int, 8 * k + 5);
        let g = stream_cell(rows, first as int, n as int, 8 * k + 6);
        let h = stream_cell(rows, first as int, n as int, 8 * k + 7);
        lemma_compose_bits(p[k], a, b, c, d, e, f, g, h);
        assert(packed_bit(out, 8 * k) == a & 1);
        assert(packed_bit(out, 8 * k + 1) == b & 1);
        assert(packed_bit(out, 8 * k + 2) == c & 1);
        assert(packed_bit(out, 8 * k + 3) == d & 1);
        assert(packed_bit(out, 8 * k + 4) == e & 1);
        assert(packed_bit(out, 8 * k + 5) == f & 1);
        assert(packed_bit(out, 8 * k + 6) == g & 1);
        assert(packed_bit(out, 8 * k + 7) == h & 1);
        lemma_bits_determine_byte(out[k], p[k]);
    }
    assert(out =~= p);
}

/// The packed stream holds `n` cells: cell `i` is `cells(i) & 1`, the bits
/// after them are 0.
pub open spec fn packs(out: Seq<u8>, rows: Seq<u8>, first: int, n: int, upto: int) -> bool {
    &&& forall|i: int| 0 <= i < upto ==> #[trigger] packed_bit(out, i) == rows[first + i] & 1u8
    &&& forall|i: int| upto <= i < 8 * out.len() ==> #[trigger] packed_bit(out, i) == 0
}

fn zero_bytes(n: usize) -> (out: Vec<u8>)
    ensures
        out@.len() == n,
        forall|i: int| 0 <= i < n ==> #[trigger] out@[i] == 0,
{
    let mut out: Vec<u8> = Vec::new();
    let mut i: usize = 0;
    while i < n
        invariant
            i <= n,
            out@.len() == i,
            forall|j: int| 0 <= j < i ==> #[trigger] out@[j] == 0,
        decreases n - i,
    {
        out.push(0);
        i = i + 1;
    }
    out
}

/// Pack rows `start_row..end_row` of the row-major grid `rows` (rows of
/// `width` cells) into bytes, eight cells per byte, most significant bit
/// first. Only the low bit of each cell is used; the last byte is padded
/// with zeros. The rows are clipped to the complete rows of the grid; a zero
/// width or an empty range gives no bytes.
pub fn pack_bits_range(rows: &[u8], width: usize, start_row: usize, end_row: usize) -> (out: Vec<u8>)
    ensures
        ({
            let n = width * pack_height(rows@.len(), width as nat, start_row as nat, end_row as nat);
            &&& out@.len() == (n + 7) / 8
            &&& forall|i: int|
                0 <= i < 8 * out@.len() ==> #[trigger] packed_bit(out@, i) == if i < n {
                    rows@[start_row * width + i] & 1u8
                } else {
                    0u8
                }
        }),
        out@ == packed_bytes(rows@, width as nat, start_row as nat, end_row as nat),
        width * pack_height(rows@.len(), width as nat, start_row as nat, end_row as nat)
            <= rows@.len(),
{
    let out = pack_bits_checked(rows, width, start_row, end_row);
    proof {
        lemma_packed_bytes(out@, rows@, width as nat, start_row as nat, end_row as nat);
    }
    out
}

fn pack_bits_checked(rows: &[u8], width: usize, start_row: usize, end_row: usize) -> (out: Vec<u8>)
    ensures
        width * pack_height(rows@.len(), width as nat, start_row as nat, end_row as nat)
            <= rows@.len(),
        ({
            let n = width * pack_height(rows@.len(), width as nat, start_row as nat, end_row as nat);
            &&& out@.len() == (n + 7) / 8
            &&& forall|i: int|
                0 <= i < 8 * out@.len() ==> #[trigger] packed_bit(out@, i) == if i < n {
                    rows@[start_row * width + i] & 1u8
                } else {
                    0u8
                }
        }),
{
    if width == 0 {
        proof {
            assert(pack_height(rows@.len(), width as nat, start_row as nat, end_row as nat) == 0);
            assert(width * 0 == 0);
        }
        return Vec::new();
    }
    let len = rows.len();
    let total_rows = len / width;
    if start_row >= end_row || start_row >= total_rows {
        proof {
            assert(pack_height(rows@.len(), width as nat, start_row as nat, end_row as nat) == 0);
            assert(width * 0 == 0);
        }
        return Vec::new();
    }
    let clamped_end = if end_row < total_rows {
        end_row
    } else {
        total_rows
    };
    let rendered_h = clamped_end - start_row;
    proof {
        assert(total_rows * width <= len) by (nonlinear_arith)
            requires
                total_rows == len / width,
                width > 0,
        ;
        assert(clamped_end * width <= total_rows * width) by (nonlinear_arith)
            requires
                clamped_end <= total_rows,
        ;
        assert(width * rendered_h + start_row * width == clamped_end * width) by (nonlinear_arith)
            requires
                rendered_h == clamped_end - start_row,
        ;
    }
    let total_bits = width * rendered_h;
    let out_len = total_bits / 8 + if total_bits % 8 != 0 {
        1
    } else {
        0
    };
    let mut out = zero_bytes(out_len);
    let sw: usize = start_row * width;
    let ghost n = total_bits as int;
    proof {
        assert(rendered_h * width == width * rendered_h) by (nonlinear_arith);
        assert(out_len == (n + 7) / 8);
        assert forall|i: int| 0 <= i < 8 * out@.len() implies #[trigger] packed_bit(out@, i)
            == 0 by {
            lemma_zero_bits(i % 8);
        }
    }
    let mut bit_cursor: usize = 0;
    let mut ry: usize = 0;
    while ry < rendered_h
        invariant
            width > 0,
            len == rows@.len(),
            rendered_h * width == total_bits,
            sw + total_bits <= len,
            n == total_bits,
            out@.len() == out_len,
            out_len == (n + 7) / 8,
            ry <= rendered_h,
            bit_cursor == ry * width,
            sw == start_row * width,
            packs(out@, rows@, sw as int, n, bit_cursor as int),
        decreases rendered_h - ry,
    {
        proof {
            assert((ry + 1) * width <= rendered_h * width) by (nonlinear_arith)
                requires
                    ry < rendered_h,
            ;
            assert((ry + 1) * width == ry * width + width) by (nonlinear_arith);
        }
        let base = sw + bit_cursor;
        let mut x: usize = 0;
        while width - x >= 8 && bit_cursor % 8 == 0
            invariant
                width > 0,
                len == rows@.len(),
                sw + total_bits <= len,
                n == total_bits,
                out@.len() == out_len,
                out_len == (n + 7) / 8,
                x <= width,
                bit_cursor == ry * width + x,
                ry * width + width <= total_bits,
                base == sw + ry * width,
                packs(out@, rows@, sw as int, n, bit_cursor as int),
            decreases width - x,
        {
            let a = rows[base + x];
            let b = rows[base + x + 1];
            let c = rows[base + x + 2];
            let d = rows[base + x + 3];
            let e = rows[base + x + 4];
            let f = rows[base + x + 5];
            let g = rows[base + x + 6];
            let h = rows[base + x + 7];
            let byte_val: u8 = ((a & 1) << 7) | ((b & 1) << 6) | ((c & 1) << 5) | ((d & 1) << 4)
                | ((e & 1) << 3) | ((f & 1) << 2) | ((g & 1) << 1) | (h & 1);
            let k = bit_cursor / 8;
            let ghost old_out = out@;
            out.set(k, byte_val);
            proof {
                lemma_compose_bits(byte_val, a, b, c, d, e, f, g, h);
                let cur = bit_cursor as int;
                assert forall|i: int| 0 <= i < 8 * out@.len() implies #[trigger] packed_bit(out@, i)
                    == if i < cur + 8 {
                    rows@[sw + i] & 1u8
                } else {
                    0u8
                } by {
                    if i < cur {
                        assert(i / 8 < k);
                        assert(packed_bit(old_out, i) == rows@[sw + i] & 1u8);
                    } else if i < cur + 8 {
                        assert(i / 8 == k);
                        assert(i % 8 == i - cur);
                    } else {
                        assert(i / 8 > k);
                        assert(packed_bit(old_out, i) == 0);
                    }
                }
            }
            bit_cursor = bit_cursor + 8;
            x = x + 8;
        }
        while x < width
            invariant
                width > 0,
                len == rows@.len(),
                sw + total_bits <= len,
                n == total_bits,
                out@.len() == out_len,
                out_len == (n + 7) / 8,
                x <= width,
                bit_cursor == ry * width + x,
                ry * width + width <= total_bits,
                base == sw + ry * width,
                packs(out@, rows@, sw as int, n, bit_cursor as int),
            decreases width - x,
        {
            let ghost old_out = out@;
            let cell = rows[base + x];
            if cell & 1 == 1 {
                let byte = bit_cursor / 8;
                let j = bit_cursor % 8;
                let shift: u8 = (7 - j) as u8;
                let old_byte = out[byte];
                out.set(byte, old_byte | (1u8 << shift));
                proof {
                    let cur = bit_cursor as int;
                    assert forall|i: int| 0 <= i < 8 * out@.len() implies #[trigger] packed_bit(
                        out@,
                        i,
                    ) == if i < cur + 1 {
                        rows@[sw + i] & 1u8
                    } else {
                        0u8
                    } by {
                        if i / 8 == byte {
                            lemma_set_bit(old_byte, j as u8, (i % 8) as u8);
                            if i < cur {
                                assert(packed_bit(old_out, i) == rows@[sw + i] & 1u8);
                            } else if i > cur {
                                assert(packed_bit(old_out, i) == 0);
                            }
                        } else {
                            assert(out@[i / 8] == old_out[i / 8]);
                            if i < cur {
                                assert(packed_bit(old_out, i) == rows@[sw + i] & 1u8);
                            } else {
                                assert(packed_bit(old_out, i) == 0);
                            }
                        }
                    }
                }
            } else {
                proof {
                    let cur = bit_cursor as int;
                    assert(packed_bit(out@, cur) == 0);
                    assert(cell & 1 == 0u8) by (bit_vector)
                        requires
                            cell & 1 != 1u8,
                    ;
                }
            }
            bit_cursor = bit_cursor + 1;
            x = x + 1;
        }
        ry = ry + 1;
    }
    proof {
        assert(pack_height(len as nat, width as nat, start_row as nat, end_row as nat) == rendered_h);
        assert(width * rendered_h == total_bits);
    }
    out
}

} // verus!
