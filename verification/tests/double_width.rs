use redc::double_width::DoubleWidth;
use rug::Integer;

fn next(state: &mut u64) -> u64 {
    *state = state
        .wrapping_mul(6_364_136_223_846_793_005)
        .wrapping_add(1_442_695_040_888_963_407);
    *state >> 7
}

/// A word with a random number of leading zeros, so that short and long
/// operands both occur.
fn word(state: &mut u64) -> u128 {
    let full =
        u128::from(next(state)) << 71 ^ u128::from(next(state)) << 14 ^ u128::from(next(state));
    match next(state) % 4 {
        0 => 0,
        1 => full >> (next(state) % 128),
        2 => u128::MAX - (full >> (next(state) % 128)),
        _ => full,
    }
}

fn big(value: DoubleWidth) -> Integer {
    (Integer::from(value.higher) << 128u32) + value.lower
}

#[test]
fn double_width_product_against_arbitrary_precision() {
    let mut state = 21;
    for _ in 0..2000 {
        let (a, b) = (word(&mut state), word(&mut state));
        assert_eq!(big(DoubleWidth::mult(a, b)), Integer::from(a) * Integer::from(b));
    }
}

#[test]
fn double_width_sum_against_arbitrary_precision() {
    let mut state = 22;
    let limit = Integer::from(1) << 256u32;
    for _ in 0..2000 {
        let a = DoubleWidth { higher: word(&mut state), lower: word(&mut state) };
        let b = DoubleWidth { higher: word(&mut state), lower: word(&mut state) };
        let (sum, carry) = a.overflowing_add(&b);
        let expected = big(a) + big(b);
        assert_eq!(carry, expected >= limit);
        assert_eq!(big(sum), expected % &limit);
    }
}

#[test]
fn double_width_remainder_against_arbitrary_precision() {
    let mut state = 23;
    let mut done = 0;
    while done < 2000 {
        let a = DoubleWidth { higher: word(&mut state), lower: word(&mut state) };
        let b = DoubleWidth { higher: word(&mut state), lower: word(&mut state) };
        if b.higher == 0 && b.lower == 0 {
            continue;
        }
        assert_eq!(big(a.rem(b)), big(a) % big(b));
        done += 1;
    }
    let largest = DoubleWidth { higher: u128::MAX, lower: u128::MAX };
    let one = DoubleWidth::from_word(1);
    assert_eq!(largest.rem(one), DoubleWidth::from_word(0));
    assert_eq!(largest.rem(largest), DoubleWidth::from_word(0));
    assert_eq!(one.rem(largest), one);
    assert_eq!(largest.rem(DoubleWidth::from_word(u128::MAX)), DoubleWidth::from_word(0));
}
