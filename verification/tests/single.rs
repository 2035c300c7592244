use security_monitor::single::{
    minus, of_u64, over, plus, plus_signed, times, INFINITY, NOT_A_NUMBER, ONE,
};

fn next(x: &mut u32) -> u32 {
    *x = x.wrapping_mul(1664525).wrapping_add(1013904223);
    *x ^ (*x >> 15)
}

fn assert_agrees(a: u32, b: u32) {
    let (hi, lo) = if a < b { (b, a) } else { (a, b) };
    let (x, y) = (f32::from_bits(hi), f32::from_bits(lo));
    assert_eq!(plus(hi, lo), (x + y).to_bits());
    assert_eq!(plus(lo, hi), (x + y).to_bits());
    assert_eq!(minus(hi, lo), (x - y).to_bits());
    assert_eq!(times(hi, lo), (x * y).to_bits());
    assert_eq!(times(lo, hi), (x * y).to_bits());
    if lo > 0 {
        assert_eq!(over(hi, lo), (x / y).to_bits());
        assert_eq!(over(lo, hi), (y / x).to_bits());
    }
}

#[test]
fn arithmetic_agrees_with_the_hardware() {
    let mut seed: u32 = 12345;
    for _ in 0..20000 {
        let a = next(&mut seed) % INFINITY;
        let b = next(&mut seed) % INFINITY;
        assert_agrees(a, b);
        // Numbers of a similar size, and ties.
        assert_agrees(a, (a ^ (b % 64)) % INFINITY);
        assert_agrees(0x3f80_0000 + a % 0x100_0000, 0x3f80_0000 + b % 0x100_0000);
    }
}

#[test]
fn arithmetic_agrees_at_the_edges() {
    let edges = [
        0,
        1,
        2,
        0x7f_ffff,
        0x80_0000,
        0x80_0001,
        0xff_ffff,
        0x100_0000,
        0x3380_0000,
        0x3f7f_ffff,
        0x3f80_0000,
        0x3f80_0001,
        0x4b7f_ffff,
        0x4b80_0000,
        0x7f00_0000,
        0x7f7f_fffe,
        0x7f7f_ffff,
    ];
    for a in edges {
        for b in edges {
            assert_agrees(a, b);
        }
    }
    assert_eq!(plus(0x7f7f_ffff, 0x7f7f_ffff), INFINITY);
    assert_eq!(plus(INFINITY, 1), INFINITY);
}

#[test]
fn integers_are_rounded_to_nearest_even() {
    assert_eq!(of_u64(0), 0);
    assert_eq!(of_u64(1), ONE);
    assert_eq!(of_u64(30_000), 30_000f32.to_bits());
    assert_eq!(of_u64(16_777_217), 16_777_216f32.to_bits());
    assert_eq!(of_u64(16_777_219), 16_777_220f32.to_bits());
    assert_eq!(of_u64(u64::MAX), (u64::MAX as f32).to_bits());
    let mut seed: u32 = 99;
    for _ in 0..20000 {
        let n = ((next(&mut seed) as u64) << 32 | next(&mut seed) as u64) >> (next(&mut seed) % 64);
        assert_eq!(of_u64(n), (n as f32).to_bits());
    }
}

#[test]
fn signed_sums_agree_with_the_hardware() {
    let mut seed: u32 = 7;
    let mut patterns = vec![
        0,
        0x8000_0000,
        INFINITY,
        INFINITY | 0x8000_0000,
        NOT_A_NUMBER,
        1,
        0x8000_0001,
        0x7f7f_ffff,
        0xff7f_ffff,
    ];
    for _ in 0..200 {
        patterns.push(next(&mut seed));
    }
    for a in &patterns {
        for b in &patterns {
            let expected = f32::from_bits(*a) + f32::from_bits(*b);
            let found = plus_signed(*a, *b);
            if expected.is_nan() {
                assert_eq!(found, NOT_A_NUMBER);
            } else {
                assert_eq!(found, expected.to_bits());
            }
        }
    }
}
