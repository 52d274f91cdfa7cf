use cellular_automata::bits::pack_bits_range;

/// Naive bit packing, one cell at a time, to hold the packer against.
fn pack_bits_reference(rows: &[u8], width: usize, start: usize, end: usize) -> Vec<u8> {
    if width == 0 || start >= end {
        return Vec::new();
    }
    let total_rows = rows.len() / width;
    let end = end.min(total_rows);
    if start >= end {
        return Vec::new();
    }
    let h = end - start;
    let total_bits = width * h;
    let mut out = vec![0u8; total_bits.div_ceil(8)];
    for y in 0..h {
        for x in 0..width {
            if rows[(start + y) * width + x] & 1 == 1 {
                let idx = y * width + x;
                out[idx >> 3] |= 1 << (7 - (idx & 7));
            }
        }
    }
    out
}

#[test]
fn pack_bits_range_matches_reference_aligned_widths() {
    for &width in &[1usize, 2, 7, 8, 9, 15, 16, 31, 32, 33, 64, 1000] {
        let h = 5;
        let mut rows = vec![0u8; width * h];
        for (i, b) in rows.iter_mut().enumerate() {
            *b = ((i * 37) % 3 == 0) as u8;
        }
        let got = pack_bits_range(&rows, width, 0, h);
        let want = pack_bits_reference(&rows, width, 0, h);
        assert_eq!(got, want, "width={width}");
    }
}

#[test]
fn pack_bits_range_handles_partial_tile() {
    let width = 13;
    let h = 4;
    let rows: Vec<u8> = (0..(width * h) as u8).map(|n| n & 1).collect();
    let got = pack_bits_range(&rows, width, 1, 3);
    let want = pack_bits_reference(&rows, width, 1, 3);
    assert_eq!(got, want);
}

#[test]
fn pack_bits_range_uses_only_the_low_bit_and_pads_with_zeros() {
    // 0b1010_1011 0b1000_0000: ten cells, high bits of each cell ignored.
    let rows = [3u8, 0, 1, 2, 5, 0, 1, 1, 1, 0];
    assert_eq!(pack_bits_range(&rows, 10, 0, 1), vec![0b1010_1011, 0b1000_0000]);
}

#[test]
fn pack_bits_range_empty_cases() {
    let rows = [1u8; 12];
    assert!(pack_bits_range(&rows, 0, 0, 3).is_empty());
    assert!(pack_bits_range(&rows, 4, 2, 2).is_empty());
    assert!(pack_bits_range(&rows, 4, 3, 5).is_empty());
    // End past the last complete row is clipped.
    assert_eq!(pack_bits_range(&rows, 4, 2, 9), vec![0b1111_0000]);
}
