use mcts::score::FP_ONE;
use mcts::score::LN2_FP;
use mcts::score::SQRT2_FP;
use mcts::score::confidence_bound;
use mcts::score::isqrt;
use mcts::score::ln_fp;

#[test]
fn isqrt_small_values() {
    assert_eq!(isqrt(0), 0);
    assert_eq!(isqrt(1), 1);
    assert_eq!(isqrt(3), 1);
    assert_eq!(isqrt(4), 2);
    assert_eq!(isqrt(15), 3);
    assert_eq!(isqrt(16), 4);
    assert_eq!(isqrt(65535), 255);
    assert_eq!(isqrt(65536), 256);
}

#[test]
fn isqrt_large_values() {
    assert_eq!(isqrt(u64::MAX), 0xFFFF_FFFF);
    assert_eq!(isqrt(1 << 33), 92681);
    assert_eq!(isqrt(65537 * 65537), 65537);
    assert_eq!(isqrt(65537 * 65537 - 1), 65536);
}

#[test]
fn ln_of_powers_of_two() {
    // ln(1) = 0; ln(2) = LN2; ln(2^16) = 16 * LN2, all in fixed point.
    assert_eq!(ln_fp(1), 0);
    assert_eq!(ln_fp(2), LN2_FP);
    assert_eq!(ln_fp(4), 2 * LN2_FP);
    assert_eq!(ln_fp(65536), 16 * LN2_FP);
}

#[test]
fn ln_is_monotone_on_a_sample() {
    let mut last = ln_fp(1);
    for n in 2..200u64 {
        let cur = ln_fp(n);
        assert!(cur >= last, "ln_fp({}) = {} < {}", n, cur, last);
        last = cur;
    }
}

#[test]
fn fixed_point_constants() {
    assert_eq!(FP_ONE, 65536);
    // floor(sqrt(2) * 2^16) and floor(ln(2) * 2^16)
    assert_eq!(SQRT2_FP, 92681);
    assert_eq!(LN2_FP, 45426);
    assert_eq!(isqrt(2 * 65536 * 65536), SQRT2_FP);
}

#[test]
fn confidence_bound_exact_value() {
    // w = 2, n = 2, N = 2:
    // sqrt(2)*ln(2)/sqrt(2) + 2/2 = ln(2) + 1 = 45426 + 65536 in fixed point.
    assert_eq!(confidence_bound(2, 2, 2), 45426 + 65536);
}

#[test]
fn confidence_bound_grows_with_win_rate() {
    let low = confidence_bound(0, 4, 8);
    let high = confidence_bound(4, 4, 8);
    assert!(high > low);
    assert_eq!(high - low, 65536);
}
