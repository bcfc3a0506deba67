use bitio::{BitError, BitReader, FromU32};

#[test]
fn budget_zero_fails_end_of_budget() {
    let mut r = BitReader::new(vec![0xAB, 0xCD], 0);
    assert_eq!(r.read_bit(), Err(BitError::EndOfBudget));
}

#[test]
fn empty_source_fails_source_exhausted() {
    let mut r = BitReader::new(vec![], 5);
    assert_eq!(r.read_bit(), Err(BitError::SourceExhausted));
}

#[test]
fn reads_bits_msb_first() {
    let mut r = BitReader::new(vec![0b1010_0000], 1);
    assert_eq!(r.read_bit(), Ok(1));
    assert_eq!(r.read_bit(), Ok(0));
    assert_eq!(r.read_bit(), Ok(1));
    assert_eq!(r.read_bit(), Ok(0));
}

#[test]
fn field_read_scenario_splits_byte() {
    let mut r = BitReader::new(vec![0b1010_1100], 1);
    assert_eq!(r.f::<u8>(4), Ok(0b1010));
    assert_eq!(r.f::<u8>(4), Ok(0b1100));
    assert_eq!(r.read_bit(), Err(BitError::EndOfBudget));
}

#[test]
fn field_read_all_ones() {
    for n in 1..=32usize {
        let mut r = BitReader::new(vec![0xFF; 4], 4);
        let got: u64 = r.f::<u64>(n).unwrap();
        assert_eq!(got, (1u64 << n) - 1);
    }
}

#[test]
fn field_read_truncates_to_narrow_type() {
    let mut r = BitReader::new(vec![0xFF, 0xFF], 2);
    assert_eq!(r.f::<u8>(9), Ok(0xFF));
    let mut r2 = BitReader::new(vec![0b1010_1010, 0b1000_0000], 2);
    assert_eq!(r2.f::<u8>(9), Ok(0b0101_0101));
}

#[test]
fn zero_width_field_consumes_nothing() {
    let mut r = BitReader::new(vec![0b0100_0000], 1);
    assert_eq!(r.f::<u32>(0), Ok(0));
    assert_eq!(r.read_bit(), Ok(0));
    assert_eq!(r.f::<u32>(0), Ok(0));
    assert_eq!(r.read_bit(), Ok(1));
}

#[test]
fn conversions_cover_every_result_type() {
    let mut r = BitReader::new(vec![0b1000_0000], 1);
    assert_eq!(r.f::<bool>(1), Ok(true));
    let mut r2 = BitReader::new(vec![0x12, 0x34], 2);
    assert_eq!(r2.f::<u16>(16), Ok(0x1234));
    let mut r3 = BitReader::new(vec![0x12, 0x34, 0x56, 0x78], 4);
    assert_eq!(r3.f::<u64>(32), Ok(0x1234_5678));
    let mut r4 = BitReader::new(vec![0xFE], 1);
    assert_eq!(r4.f::<usize>(8), Ok(0xFE));
    let mut r5 = BitReader::new(vec![0x00], 1);
    assert_eq!(r5.f::<bool>(2), Ok(false));
}

#[test]
fn from_u32_conversions() {
    assert_eq!(<bool as FromU32>::from_u32(0), false);
    assert_eq!(<bool as FromU32>::from_u32(7), true);
    assert_eq!(<u8 as FromU32>::from_u32(0x1FF), 0xFF);
    assert_eq!(<u16 as FromU32>::from_u32(0x1_2345), 0x2345);
    assert_eq!(<u32 as FromU32>::from_u32(0xDEAD_BEEF), 0xDEAD_BEEF);
    assert_eq!(<u64 as FromU32>::from_u32(42), 42u64);
    assert_eq!(<usize as FromU32>::from_u32(42), 42usize);
}

#[test]
fn failed_field_read_propagates() {
    let mut r = BitReader::new(vec![0xFF], 1);
    assert_eq!(r.f::<u32>(16), Err(BitError::EndOfBudget));
    let mut r2 = BitReader::new(vec![0xFF], 4);
    assert_eq!(r2.f::<u32>(16), Err(BitError::SourceExhausted));
}

#[test]
fn budget_and_source_length_limit_reads_independently() {
    let mut r = BitReader::new(vec![0xAB], 9);
    assert_eq!(r.f::<u8>(8), Ok(0xAB));
    assert_eq!(r.read_bit(), Err(BitError::SourceExhausted));
    let mut r2 = BitReader::new(vec![0xAB, 0xCD], 1);
    assert_eq!(r2.f::<u8>(8), Ok(0xAB));
    assert_eq!(r2.read_bit(), Err(BitError::EndOfBudget));
}

#[test]
fn fields_cross_byte_boundaries() {
    let mut r = BitReader::new(vec![0b1010_1100, 0b0101_0011], 2);
    assert_eq!(r.f::<u16>(12), Ok(0b1010_1100_0101));
    assert_eq!(r.f::<u8>(4), Ok(0b0011));
}
