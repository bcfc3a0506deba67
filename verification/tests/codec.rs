use bitio::{BitError, BitReader};

#[test]
fn ns_one_reads_nothing() {
    let mut r = BitReader::new(vec![], 0);
    assert_eq!(r.ns(1), Ok(0));
    let mut r2 = BitReader::new(vec![0b1100_0000], 1);
    assert_eq!(r2.ns(1), Ok(0));
    assert_eq!(r2.read_bit(), Ok(1));
}

#[test]
fn ns_six_short_code_scenario() {
    let mut r = BitReader::new(vec![0b0000_0000], 1);
    assert_eq!(r.ns(6), Ok(0));
    for _ in 0..6 {
        assert!(r.read_bit().is_ok());
    }
    assert!(r.read_bit().is_err());
}

#[test]
fn ns_six_long_code_scenario() {
    let mut r = BitReader::new(vec![0b1010_0000], 1);
    assert_eq!(r.ns(6), Ok(3));
    for _ in 0..5 {
        assert!(r.read_bit().is_ok());
    }
    assert!(r.read_bit().is_err());
}

#[test]
fn ns_six_decodes_every_value() {
    let cases: [(u8, u32); 6] = [
        (0b0000_0000, 0),
        (0b0100_0000, 1),
        (0b1000_0000, 2),
        (0b1010_0000, 3),
        (0b1100_0000, 4),
        (0b1110_0000, 5),
    ];
    for (byte, want) in cases {
        let mut r = BitReader::new(vec![byte], 1);
        assert_eq!(r.ns(6), Ok(want));
    }
}

#[test]
fn ns_power_of_two_range_uses_fixed_width() {
    for v in 0..8u32 {
        let mut r = BitReader::new(vec![(v as u8) << 5], 1);
        assert_eq!(r.ns(8), Ok(v));
    }
}

#[test]
fn ns_largest_range_in_bounds() {
    let mut r = BitReader::new(vec![0, 0, 0, 0], 4);
    assert_eq!(r.ns(0x7FFF_FFFF), Ok(0));
    let mut r2 = BitReader::new(vec![0, 0, 0, 0x04], 4);
    assert_eq!(r2.ns(0x7FFF_FFFF), Ok(1));
}

#[test]
fn ns_propagates_exhaustion() {
    let mut r = BitReader::new(vec![], 0);
    assert_eq!(r.ns(6), Err(BitError::EndOfBudget));
    let mut r2 = BitReader::new(vec![0b0000_0011], 1);
    assert_eq!(r2.f::<u8>(6), Ok(0));
    assert_eq!(r2.ns(6), Err(BitError::EndOfBudget));
    let mut r3 = BitReader::new(vec![], 2);
    assert_eq!(r3.ns(6), Err(BitError::SourceExhausted));
}
