use locate::buffer::ComplexBits;
use locate::spill::{
    decode_cell, decode_count, encode_cell, encode_count, freeze_bytes, unfreeze_bytes, SpillError,
};

fn cell(re: f32, im: f32) -> ComplexBits {
    ComplexBits { re: re.to_bits(), im: im.to_bits() }
}

#[test]
fn record_layout_is_little_endian() {
    let bytes = freeze_bytes(&vec![cell(1.0, -2.0)]);
    let mut expected = vec![1u8, 0, 0, 0, 0, 0, 0, 0];
    expected.extend_from_slice(&1.0f32.to_le_bytes());
    expected.extend_from_slice(&(-2.0f32).to_le_bytes());
    assert_eq!(bytes, expected);
    assert_eq!(freeze_bytes(&vec![]), vec![0u8; 8]);
}

#[test]
fn record_count_header() {
    let buf = vec![cell(0.0, 0.0); 300];
    let bytes = freeze_bytes(&buf);
    assert_eq!(bytes.len(), 8 + 8 * 300);
    assert_eq!(&bytes[..8], &300u64.to_le_bytes());
}

#[test]
fn round_trip_is_bit_exact() {
    let special = [
        0.0f32, -0.0, 1.0, -1.0, f32::MIN_POSITIVE, f32::MAX, f32::MIN, f32::INFINITY,
        f32::NEG_INFINITY, f32::NAN, 1e-45, 3.14159,
    ];
    let mut buf = Vec::new();
    for (i, a) in special.iter().enumerate() {
        buf.push(cell(*a, special[(i + 5) % special.len()]));
    }
    buf.push(ComplexBits { re: 0xffff_ffff, im: 0x7fc0_1234 });
    let back = unfreeze_bytes(&freeze_bytes(&buf)).unwrap();
    assert_eq!(back, buf);
}

#[test]
fn round_trip_many_lengths() {
    for len in [1usize, 2, 3, 17, 1024, 40000] {
        let buf: Vec<ComplexBits> = (0..len)
            .map(|i| ComplexBits {
                re: (i as u32).wrapping_mul(2654435761),
                im: (i as u32) ^ 0xdead_beef,
            })
            .collect();
        let back = unfreeze_bytes(&freeze_bytes(&buf)).unwrap();
        assert_eq!(back.len(), len);
        assert_eq!(back, buf);
    }
}

#[test]
fn empty_buffer_round_trips() {
    assert_eq!(unfreeze_bytes(&freeze_bytes(&vec![])).unwrap(), vec![]);
}

#[test]
fn short_record_has_no_header() {
    assert_eq!(unfreeze_bytes(&vec![]), Err(SpillError::MissingHeader));
    assert_eq!(unfreeze_bytes(&vec![1, 0, 0, 0, 0, 0, 0]), Err(SpillError::MissingHeader));
}

#[test]
fn truncated_record_is_refused() {
    let mut bytes = freeze_bytes(&vec![cell(1.0, 2.0), cell(3.0, 4.0)]);
    bytes.pop();
    assert_eq!(unfreeze_bytes(&bytes), Err(SpillError::Truncated));
    let mut huge = u64::MAX.to_le_bytes().to_vec();
    huge.extend_from_slice(&[0u8; 16]);
    assert_eq!(unfreeze_bytes(&huge), Err(SpillError::Truncated));
}

#[test]
fn bytes_after_declared_values_are_ignored() {
    let mut bytes = freeze_bytes(&vec![cell(1.0, 2.0)]);
    bytes.push(0);
    assert_eq!(unfreeze_bytes(&bytes), Ok(vec![cell(1.0, 2.0)]));
    let mut bytes = freeze_bytes(&vec![cell(1.0, 2.0)]);
    bytes.extend_from_slice(&[0xffu8; 8]);
    assert_eq!(unfreeze_bytes(&bytes), Ok(vec![cell(1.0, 2.0)]));
    assert_eq!(unfreeze_bytes(&vec![0u8; 9]), Ok(vec![]));
}

#[test]
fn streamed_pieces_match_whole_record() {
    let buf = vec![cell(0.25, -8.0), cell(f32::NAN, 1e-40), cell(-0.0, 65504.0)];
    let mut streamed = encode_count(buf.len() as u64);
    for c in &buf {
        streamed.extend_from_slice(&encode_cell(*c));
    }
    assert_eq!(streamed, freeze_bytes(&buf));
    assert_eq!(decode_count(&streamed[..8]), 3);
    for (i, c) in buf.iter().enumerate() {
        assert_eq!(decode_cell(&streamed[8 + 8 * i..16 + 8 * i]), *c);
    }
}

#[test]
fn cell_bytes_exact_values() {
    let c = ComplexBits { re: 0x0403_0201, im: 0x8877_6655 };
    assert_eq!(encode_cell(c), vec![1, 2, 3, 4, 0x55, 0x66, 0x77, 0x88]);
    assert_eq!(decode_cell(&[1, 2, 3, 4, 0x55, 0x66, 0x77, 0x88]), c);
    assert_eq!(encode_count(0x0102), vec![2, 1, 0, 0, 0, 0, 0, 0]);
    assert_eq!(decode_count(&[0, 0, 0, 0, 0, 0, 0, 0x80]), 1u64 << 63);
}
