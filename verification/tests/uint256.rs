use chain_primitives::uint256::U256;

const TOP: u128 = 1 << 127;

#[test]
fn halves_make_the_number() {
    let x = U256::from_halves(3, 9);
    assert_eq!((x.hi, x.lo), (3, 9));
    assert_eq!(U256::from_u32(7), U256::from_halves(0, 7));
    assert_eq!(U256::from_u128(u128::MAX), U256::from_halves(0, u128::MAX));
    assert_eq!(U256::zero(), U256::from_halves(0, 0));
}

#[test]
fn zero_is_zero() {
    assert!(U256::zero().is_zero());
    assert!(!U256::from_u32(1).is_zero());
    assert!(!U256::from_halves(1, 0).is_zero());
}

#[test]
fn order_goes_by_the_upper_half_first() {
    let small = U256::from_halves(1, u128::MAX);
    let large = U256::from_halves(2, 0);
    assert!(large.at_least(&small));
    assert!(!small.at_least(&large));
    assert!(small.at_least(&small));
    assert!(U256::from_halves(2, 5).at_least(&U256::from_halves(2, 4)));
    assert!(!U256::from_halves(2, 3).at_least(&U256::from_halves(2, 4)));
}

#[test]
fn low_word() {
    assert_eq!(U256::from_halves(5, 0x1234_5678_9abc_def0).low_u32(), 0x9abc_def0);
    assert_eq!(U256::from_halves(u128::MAX, 0).low_u32(), 0);
}

#[test]
fn byte_lengths() {
    assert_eq!(U256::zero().byte_len(), 0);
    assert_eq!(U256::from_u32(1).byte_len(), 1);
    assert_eq!(U256::from_u32(0xff).byte_len(), 1);
    assert_eq!(U256::from_u32(0x100).byte_len(), 2);
    assert_eq!(U256::from_u32(0xffff_ffff).byte_len(), 4);
    assert_eq!(U256::from_u128(u128::MAX).byte_len(), 16);
    assert_eq!(U256::from_halves(1, 0).byte_len(), 17);
    assert_eq!(U256::from_halves(TOP, 0).byte_len(), 32);
    assert_eq!(U256::from_halves(u128::MAX, u128::MAX).byte_len(), 32);
}

#[test]
fn shifting_up_by_bytes() {
    let x = U256::from_u32(0x00ab_cdef);
    assert_eq!(x.shl_bytes(0), x);
    assert_eq!(x.shl_bytes(1), U256::from_u128(0xabcd_ef00));
    assert_eq!(x.shl_bytes(16), U256::from_halves(0x00ab_cdef, 0));
    assert_eq!(x.shl_bytes(15), U256::from_halves(0xabcd, 0xef << 120));
    assert_eq!(x.shl_bytes(29), U256::from_halves(0x00ab_cdef << 104, 0));
    assert_eq!(x.shl_bytes(30), U256::from_halves(0xcdef << 112, 0));
    assert_eq!(x.shl_bytes(31), U256::from_halves(0xef << 120, 0));
    assert_eq!(x.shl_bytes(32), U256::zero());
    assert_eq!(x.shl_bytes(252), U256::zero());
    assert_eq!(x.shl_bytes(u32::MAX), U256::zero());
}

#[test]
fn shifting_down_by_bytes() {
    let x = U256::from_halves(0x0102_0304 << 96, 0xaabb);
    assert_eq!(x.shr_bytes(0), x);
    assert_eq!(x.shr_bytes(1), U256::from_halves(0x0102_0304 << 88, 0xaa));
    assert_eq!(x.shr_bytes(16), U256::from_u128(0x0102_0304 << 96));
    assert_eq!(x.shr_bytes(28), U256::from_u32(0x0102_0304));
    assert_eq!(x.shr_bytes(31), U256::from_u32(0x01));
    assert_eq!(x.shr_bytes(32), U256::zero());
    assert_eq!(x.shr_bytes(u32::MAX), U256::zero());
    let y = U256::from_halves(0x12, 0);
    assert_eq!(y.shr_bytes(1), U256::from_u128(0x12 << 120));
}

#[test]
fn division_by_zero_has_no_result() {
    assert_eq!(U256::from_u32(9).checked_div(&U256::zero()), None);
    assert_eq!(U256::zero().checked_div(&U256::zero()), None);
}

#[test]
fn division_of_small_numbers() {
    let cases: [(u128, u128); 8] = [
        (0, 1),
        (1, 1),
        (7, 2),
        (100, 7),
        (6, 9),
        (u128::MAX, 1),
        (u128::MAX, u128::MAX),
        (0xffff_ffff_ffff_ffff_ffff, 0x1_0000_0001),
    ];
    for (a, b) in cases {
        assert_eq!(U256::from_u128(a).checked_div(&U256::from_u128(b)), Some(U256::from_u128(a / b)));
    }
}

#[test]
fn division_of_large_numbers() {
    let max = U256::from_halves(u128::MAX, u128::MAX);
    assert_eq!(max.checked_div(&max), Some(U256::from_u32(1)));
    assert_eq!(max.checked_div(&U256::from_u32(1)), Some(max));
    assert_eq!(max.checked_div(&U256::from_u32(2)), Some(U256::from_halves(u128::MAX >> 1, u128::MAX)));
    assert_eq!(max.checked_div(&U256::from_halves(1, 0)), Some(U256::from_u128(u128::MAX)));
    assert_eq!(max.checked_div(&U256::from_halves(TOP, 0)), Some(U256::from_u32(1)));
    let high = U256::from_halves(TOP, 0);
    assert_eq!(high.checked_div(&U256::from_u32(3)), Some(U256::from_halves(TOP / 3, 0xaaaa_aaaa_aaaa_aaaa_aaaa_aaaa_aaaa_aaaa)));
    assert_eq!(high.checked_div(&U256::from_halves(0, TOP)), Some(U256::from_halves(1, 0)));
    assert_eq!(U256::from_halves(5, 3).checked_div(&U256::from_halves(5, 4)), Some(U256::zero()));
    assert_eq!(U256::from_halves(6, 0).checked_div(&U256::from_halves(2, 0)), Some(U256::from_u32(3)));
    assert_eq!(U256::from_halves(6, 0).checked_div(&U256::from_halves(0, 3)), Some(U256::from_halves(2, 0)));
}
