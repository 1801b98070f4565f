use varmint::wire::MAX_LEN;
use varmint::{write_u64_varint, write_usize_varint, ReadVarInt};

#[test]
fn write_zero() {
    let expected: &[u8] = &[0];
    let bytes = write_u64_varint(vec![], 0);
    assert_eq!(&bytes[..], expected);
}

#[test]
fn write_one() {
    let expected: &[u8] = &[1];
    let bytes = write_u64_varint(vec![], 1);
    assert_eq!(&bytes[..], expected);
}

#[test]
fn write_some() {
    let expected: &[u8] = &[0xAC, 0x02];
    let bytes = write_u64_varint(vec![], 0x12C);
    assert_eq!(&bytes[..], expected);
}

#[test]
fn write_many() {
    let expected: &[u8] = &[0xB5, 0xFF, 0xAC, 0x02];
    let bytes = write_u64_varint(vec![], 0x4B3FB5);
    assert_eq!(&bytes[..], expected);
}

#[test]
fn write_half() {
    let expected: &[u8] = &[
        0xFF, 0xFF, 0xFF, 0xFF,
        0xFF, 0xFF, 0xFF, 0xFF,
        0x7F,
    ];
    let bytes = write_u64_varint(vec![], 0x7FFFFFFFFFFFFFFF);
    assert_eq!(&bytes[..], expected);
}

#[test]
fn write_all() {
    let expected: &[u8] = &[
        0xFF, 0xFF, 0xFF, 0xFF,
        0xFF, 0xFF, 0xFF, 0xFF,
        0xFF, 0x01,
    ];
    let bytes = write_u64_varint(vec![], 0xFFFFFFFFFFFFFFFF);
    assert_eq!(&bytes[..], expected);
}

#[test]
fn write_goes_behind_what_the_sink_holds() {
    let sink = write_u64_varint(vec![0xAA, 0xBB], 0x12C);
    assert_eq!(sink, vec![0xAA, 0xBB, 0xAC, 0x02]);
    let sink = write_u64_varint(sink, 0);
    assert_eq!(sink, vec![0xAA, 0xBB, 0xAC, 0x02, 0x00]);
}

#[test]
fn write_group_boundaries() {
    assert_eq!(write_u64_varint(vec![], 0x7F), vec![0x7F]);
    assert_eq!(write_u64_varint(vec![], 0x80), vec![0x80, 0x01]);
    assert_eq!(write_u64_varint(vec![], 0x3FFF), vec![0xFF, 0x7F]);
    assert_eq!(write_u64_varint(vec![], 0x4000), vec![0x80, 0x80, 0x01]);
    assert_eq!(
        write_u64_varint(vec![], 0x8000_0000_0000_0000),
        vec![0x80, 0x80, 0x80, 0x80, 0x80, 0x80, 0x80, 0x80, 0x80, 0x01]
    );
}

#[test]
fn write_usize_some() {
    assert_eq!(write_usize_varint(vec![], 0x4B3FB5), vec![0xB5, 0xFF, 0xAC, 0x02]);
    assert_eq!(write_usize_varint(vec![0x01], 0), vec![0x01, 0x00]);
    assert_eq!(write_usize_varint(vec![], usize::MAX), write_u64_varint(vec![], usize::MAX as u64));
}

fn bit_length(value: u64) -> usize {
    (64 - value.leading_zeros()) as usize
}

fn samples() -> Vec<u64> {
    let mut values = vec![0u64, 1, 0x12C, 0x4B3FB5, u64::MAX];
    for shift in 0..64 {
        let bit = 1u64 << shift;
        values.push(bit);
        values.push(bit - 1);
        values.push(bit | 1);
        values.push(bit.wrapping_mul(0x9E37_79B9_7F4A_7C15));
    }
    values
}

#[test]
fn written_length_is_minimal() {
    for value in samples() {
        let bytes = write_u64_varint(vec![], value);
        let groups = (bit_length(value) + 6) / 7;
        assert_eq!(bytes.len(), std::cmp::max(1, groups));
        assert!(bytes.len() <= MAX_LEN);
    }
}

#[test]
fn written_bytes_continue_up_to_the_last() {
    for value in samples() {
        let bytes = write_u64_varint(vec![], value);
        let (last, front) = bytes.split_last().unwrap();
        assert!(front.iter().all(|byte| byte & 0x80 != 0));
        assert_eq!(last & 0x80, 0);
    }
}

#[test]
fn written_value_reads_back() {
    for value in samples() {
        let bytes = write_u64_varint(vec![], value);
        let mut source: &[u8] = &bytes;
        assert_eq!(source.read_u64_varint(), Ok(value));
        assert!(source.is_empty());
        let mut source: &[u8] = &bytes;
        assert_eq!(source.try_read_u64_varint(), Ok(Some(value)));
    }
}
