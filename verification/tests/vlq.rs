use bun_binary_extractor::bytes::{read_u16_le, read_u32_le, read_u64_le};
use bun_binary_extractor::vlq::{push_vlq, read_varint, zigzag_decode};
use bun_binary_extractor::ExtractError;

fn vlq(value: i32) -> String {
    let mut out = String::new();
    push_vlq(&mut out, value);
    out
}

fn reason(error: ExtractError) -> &'static str {
    match error {
        ExtractError::SourceMapParseFailed { reason } => reason,
        other => panic!("{other:?}"),
    }
}

#[test]
fn zigzag_alternates_signs() {
    assert_eq!(zigzag_decode(0), 0);
    assert_eq!(zigzag_decode(1), -1);
    assert_eq!(zigzag_decode(2), 1);
    assert_eq!(zigzag_decode(3), -2);
    assert_eq!(zigzag_decode(u32::MAX - 1), i32::MAX);
    assert_eq!(zigzag_decode(u32::MAX), i32::MIN);
}

#[test]
fn vlq_texts() {
    assert_eq!(vlq(0), "A");
    assert_eq!(vlq(1), "C");
    assert_eq!(vlq(-1), "D");
    assert_eq!(vlq(15), "e");
    assert_eq!(vlq(16), "gB");
    assert_eq!(vlq(-16), "hB");
    assert_eq!(vlq(123), "2H");
    assert_eq!(vlq(123456789), "qxmvrH");
    assert_eq!(vlq(i32::MAX), "+/////D");
    assert_eq!(vlq(-i32::MAX), "//////D");
    assert_eq!(vlq(i32::MIN), "B");
}

#[test]
fn vlq_text_goes_behind_what_is_there() {
    let mut out = String::from("AAAA,");
    push_vlq(&mut out, 16);
    assert_eq!(out, "AAAA,gB");
}

#[test]
fn varints_are_read_in_place() {
    let bytes = [0x05, 0x80, 0x01, 0xff, 0xff, 0xff, 0xff, 0x0f, 0x02];
    let mut pos = 0;
    assert_eq!(read_varint(&bytes, &mut pos).unwrap(), -3);
    assert_eq!(pos, 1);
    assert_eq!(read_varint(&bytes, &mut pos).unwrap(), 64);
    assert_eq!(pos, 3);
    assert_eq!(read_varint(&bytes, &mut pos).unwrap(), i32::MIN);
    assert_eq!(pos, 8);
    assert_eq!(read_varint(&bytes, &mut pos).unwrap(), 1);
    assert_eq!(pos, 9);
    assert_eq!(
        reason(read_varint(&bytes, &mut pos).unwrap_err()),
        "internal sourcemap varint out of bounds"
    );
    assert_eq!(pos, 9);
}

#[test]
fn varints_are_cut_to_32_bits() {
    let mut pos = 0;
    assert_eq!(read_varint(&[0x82, 0x80, 0x80, 0x80, 0x70], &mut pos).unwrap(), 1);
    assert_eq!(pos, 5);
}

#[test]
fn varints_end_in_time() {
    let mut pos = 0;
    assert_eq!(
        reason(read_varint(&[0x80, 0x80, 0x80, 0x80, 0x80, 0x00], &mut pos).unwrap_err()),
        "internal sourcemap varint too long"
    );
    assert_eq!(pos, 5);
    pos = 1;
    assert_eq!(
        reason(read_varint(&[0, 0x80, 0x80], &mut pos).unwrap_err()),
        "internal sourcemap varint out of bounds"
    );
    assert_eq!(pos, 3);
}

#[test]
fn numbers_are_read_inside_the_data_only() {
    let data = [1u8, 2, 3, 4, 5, 6, 7, 8, 9];
    assert_eq!(read_u16_le(&data, 7, ExtractError::InvalidElf).unwrap(), 0x0908);
    assert_eq!(read_u32_le(&data, 5, ExtractError::InvalidElf).unwrap(), 0x0908_0706);
    assert_eq!(read_u64_le(&data, 1, ExtractError::InvalidElf).unwrap(), 0x0908_0706_0504_0302);
    assert!(matches!(
        read_u16_le(&data, 8, ExtractError::InvalidElf),
        Err(ExtractError::InvalidElf)
    ));
    assert!(matches!(
        read_u32_le(&data, 6, ExtractError::InvalidPe),
        Err(ExtractError::InvalidPe)
    ));
    assert!(matches!(
        read_u64_le(&data, 2, ExtractError::InvalidMachO),
        Err(ExtractError::InvalidMachO)
    ));
    assert!(matches!(
        read_u64_le(&data, usize::MAX - 7, ExtractError::InvalidMachO),
        Err(ExtractError::InvalidMachO)
    ));
    assert!(matches!(
        read_u32_le(&data, usize::MAX - 1, ExtractError::InvalidPe),
        Err(ExtractError::InvalidPe)
    ));
    assert!(matches!(
        read_u16_le(&[1, 2], usize::MAX, ExtractError::InvalidElf),
        Err(ExtractError::InvalidElf)
    ));
}
