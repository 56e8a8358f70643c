use thunder_book_game_search::fixed_point::{isqrt, ln_fp};

#[test]
fn isqrt_exact_values() {
    assert_eq!(isqrt(0), 0);
    assert_eq!(isqrt(1), 1);
    assert_eq!(isqrt(2), 1);
    assert_eq!(isqrt(3), 1);
    assert_eq!(isqrt(4), 2);
    assert_eq!(isqrt(144), 12);
    assert_eq!(isqrt(145), 12);
    assert_eq!(isqrt(u64::MAX), 4294967295);
}

#[test]
fn ln_fp_exact_values() {
    // ln(1) = 0.
    assert_eq!(ln_fp(1), 0);
    // ln(2) in Q16 is exactly the scaled ln(2) constant.
    assert_eq!(ln_fp(2), 45426);
    // ln(2^16) = 16 * ln(2).
    assert_eq!(ln_fp(65536), 16 * 45426);
    // ln(2^32) = 32 * ln(2).
    assert_eq!(ln_fp(1 << 32), 32 * 45426);
}

#[test]
fn ln_fp_is_monotone_on_powers() {
    let mut prev = ln_fp(1);
    for k in 1..20u32 {
        let next = ln_fp(1u64 << k);
        assert!(next > prev);
        prev = next;
    }
}

#[test]
fn ln_fp_approximates_e() {
    // e ~ 2.71828: ln should land close to one unit (65536).
    let v = ln_fp(271828) as i64 - ln_fp(100000) as i64;
    assert!((v - 65536).abs() < 200);
}
