use redc::double_width::DoubleWidth;
use redc::element::{Element, PrimIntElement, RugElement};
use redc::field128::p_calc_r_squared_u128;
use redc::field64::p_calc_r_squared_u64;
use redc::field_big::rug_calc_prime_inverse;
use redc::{Field, Redc, SetupError, U128, U256};
use rug::Integer;

/// Modular exponentiation by repeated squaring on plain residues.
fn naive_pow(base: u64, mut exponent: u64, modulus: u64) -> u64 {
    let modulus = u128::from(modulus);
    let mut power = u128::from(base) % modulus;
    let mut result = 1 % modulus;
    while exponent != 0 {
        if exponent % 2 == 1 {
            result = result * power % modulus;
        }
        power = power * power % modulus;
        exponent /= 2;
    }
    result as u64
}

/// A small generator of test inputs.
fn next(state: &mut u64) -> u64 {
    *state = state
        .wrapping_mul(6_364_136_223_846_793_005)
        .wrapping_add(1_442_695_040_888_963_407);
    *state >> 11
}

#[test]
fn prime_inverse_u128_of_23() {
    assert_eq!(
        redc::field128::p_calc_prime_inverse(23u128),
        236_718_168_292_826_757_191_912_770_387_317_016_665
    );
}

#[test]
fn prime_inverse_negates_the_inverse() {
    for prime in [1u64, 3, 23, 1_000_003, u64::MAX - 58, u64::MAX] {
        let inverse = redc::field64::p_calc_prime_inverse(prime);
        assert_eq!(prime.wrapping_mul(inverse), u64::MAX);
    }
    for prime in [1u128, 3, 23, u128::MAX - 158, u128::MAX] {
        let inverse = redc::field128::p_calc_prime_inverse(prime);
        assert_eq!(prime.wrapping_mul(inverse), u128::MAX);
    }
}

#[test]
fn prime_inverse_rug_of_23() {
    // the radix of 23 is 32, and 23 * 25 = 575 = 18 * 32 - 1
    assert_eq!(rug_calc_prime_inverse(Integer::from(23)), 25);
}

#[test]
fn prime_inverse_rug_of_one() {
    // the radix of 1 is 1, modulo which every integer is an inverse
    assert_eq!(rug_calc_prime_inverse(Integer::from(1)), 1);
}

#[test]
fn r_squared_exact_values() {
    assert_eq!(p_calc_r_squared_u64(23), 13);
    assert_eq!(p_calc_r_squared_u64(18_446_744_073_709_551_533), 6889);
    assert_eq!(p_calc_r_squared_u64(1), 0);
    assert_eq!(p_calc_r_squared_u128(23), 8);
    assert_eq!(p_calc_r_squared_u128(1), 0);
    // 2^128 = 159 modulo 2^128 - 159
    assert_eq!(p_calc_r_squared_u128(u128::MAX - 158), 159 * 159);
}

#[test]
fn setup_refuses_even_moduli() {
    for modulus in [0u64, 2, 24, u64::MAX - 1] {
        assert_eq!(modulus.setup_field().unwrap_err(), SetupError::EvenModulus);
    }
    for modulus in [0u128, 2, 24, u128::MAX - 1] {
        assert_eq!(modulus.setup_field().unwrap_err(), SetupError::EvenModulus);
    }
    for modulus in [0u32, 2, 24, 4_294_967_294] {
        let refused = Integer::from(modulus).setup_field();
        assert_eq!(refused.unwrap_err(), SetupError::EvenModulus);
    }
}

#[test]
fn setup_accepts_odd_moduli() {
    for modulus in [1u64, 3, 23, u64::MAX] {
        assert!(modulus.setup_field().is_ok());
    }
    for modulus in [1u128, 3, 23, u128::MAX] {
        assert!(modulus.setup_field().is_ok());
    }
    for modulus in [1u32, 3, 23, 4_294_967_295] {
        assert!(Integer::from(modulus).setup_field().is_ok());
    }
}

#[test]
fn setup_error_message() {
    assert_eq!(
        SetupError::EvenModulus.message(),
        "the modulus is even: it must be coprime to the power-of-two radix"
    );
}

#[test]
fn montgomery_form_exact_values() {
    let field = 23u64.setup_field().unwrap();
    // 2^64 = 6 modulo 23
    assert_eq!(7u64.to_montgomery(&field), 19);
    assert_eq!(17u64.to_montgomery(&field), 10);
    assert_eq!(7u64.to_montgomery_unchecked(&field), 19);
    assert_eq!((7u64 + 23 * 1000).to_montgomery(&field), 19);
    let field = 23u128.setup_field().unwrap();
    // 2^128 = 13 modulo 23
    assert_eq!(7u128.to_montgomery(&field), 22);
    assert_eq!(7u128.to_montgomery_unchecked(&field), 22);
    let field = Integer::from(23).setup_field().unwrap();
    // the radix is 32
    assert_eq!(Integer::from(7).to_montgomery_unchecked(&field), 17);
    assert_eq!(Integer::from(7 + 23 * 1000).to_montgomery(&field), 17);
}

#[test]
fn unchecked_conversion_of_an_unreduced_word() {
    // a fixed-width word is below the radix, which is all the reduction needs
    let field = 23u64.setup_field().unwrap();
    assert_eq!(1000u64.to_montgomery_unchecked(&field), 1000u64.to_montgomery(&field));
    assert_eq!(u64::MAX.to_montgomery_unchecked(&field), u64::MAX.to_montgomery(&field));
    let field = 23u128.setup_field().unwrap();
    assert_eq!(1000u128.to_montgomery_unchecked(&field), 1000u128.to_montgomery(&field));
    // an integer may exceed what one subtraction of the modulus brings back
    let field = Integer::from(23).setup_field().unwrap();
    let unreduced = Integer::from(1000).to_montgomery_unchecked(&field);
    assert_eq!(unreduced, 352);
    assert_eq!(Integer::from(1000).to_montgomery(&field), 7);
    assert_eq!(unreduced % 23, 7);
    // 30 * 12 is still below 23 * 32
    assert_eq!(Integer::from(30).to_montgomery_unchecked(&field), 17);
}

#[test]
fn conversion_of_a_negative_integer() {
    let field = Integer::from(23).setup_field().unwrap();
    // -16 = 7 modulo 23
    assert_eq!(Integer::from(-16).to_montgomery(&field), 17);
    assert_eq!(Integer::from(-23).to_montgomery(&field), 0);
    assert_eq!(field.wrap_element(Integer::from(-16)).to_normal(), 7);
}

#[test]
fn round_trip_u64() {
    let mut state = 1;
    for modulus in [1u64, 3, 23, 1_000_003, u64::MAX - 82, u64::MAX - 58, u64::MAX] {
        let field = modulus.setup_field().unwrap();
        for _ in 0..200 {
            let x = next(&mut state) % modulus;
            assert_eq!(x.to_montgomery(&field).to_normal(&field), x);
        }
        assert_eq!((modulus - 1).to_montgomery(&field).to_normal(&field), modulus - 1);
        assert_eq!(0u64.to_montgomery(&field).to_normal(&field), 0);
    }
}

#[test]
fn round_trip_u128() {
    let mut state = 2;
    for modulus in [1u128, 3, 23, (1 << 127) - 1, u128::MAX - 158, u128::MAX] {
        let field = modulus.setup_field().unwrap();
        for _ in 0..100 {
            let x = (u128::from(next(&mut state)) << 64 | u128::from(next(&mut state))) % modulus;
            assert_eq!(x.to_montgomery(&field).to_normal(&field), x);
        }
        assert_eq!((modulus - 1).to_montgomery(&field).to_normal(&field), modulus - 1);
    }
}

#[test]
fn round_trip_rug() {
    let mut state = 3;
    for modulus in [1u64, 3, 23, 1_000_003, u64::MAX] {
        let field = Integer::from(modulus).setup_field().unwrap();
        for _ in 0..50 {
            let x = next(&mut state) % modulus;
            let there = Integer::from(x).to_montgomery(&field);
            assert_eq!(there.to_normal(&field), x);
        }
    }
    // a modulus of more than one machine word
    let modulus = (Integer::from(1) << 200u32) - 75u32;
    let field = modulus.clone().setup_field().unwrap();
    let x = (Integer::from(1) << 199u32) + 12345u32;
    assert_eq!(x.clone().to_montgomery(&field).to_normal(&field), x);
}

#[test]
fn homomorphism_u64() {
    let mut state = 4;
    for modulus in [3u64, 23, 1_000_003, u64::MAX - 82, u64::MAX - 58, u64::MAX] {
        let field = modulus.setup_field().unwrap();
        for _ in 0..200 {
            let a = next(&mut state) % modulus;
            let b = next(&mut state) % modulus;
            let product = u128::from(a.to_montgomery(&field)) * u128::from(b.to_montgomery(&field));
            let expected = (u128::from(a) * u128::from(b) % u128::from(modulus)) as u64;
            assert_eq!(field.redc(product).to_normal(&field), expected);
        }
    }
}

#[test]
fn homomorphism_u128_against_arbitrary_precision() {
    let mut state = 5;
    for modulus in [23u128, (1 << 127) - 1, u128::MAX - 158, u128::MAX - 172, u128::MAX] {
        let field = modulus.setup_field().unwrap();
        for _ in 0..100 {
            let a = (u128::from(next(&mut state)) << 64 | u128::from(next(&mut state))) % modulus;
            let b = (u128::from(next(&mut state)) << 64 | u128::from(next(&mut state))) % modulus;
            let product = DoubleWidth::mult(a.to_montgomery(&field), b.to_montgomery(&field));
            let expected = Integer::from(a) * Integer::from(b) % Integer::from(modulus);
            assert_eq!(Integer::from(field.redc(product).to_normal(&field)), expected);
        }
    }
}

#[test]
fn redc_near_the_word_limit_against_arbitrary_precision() {
    // the reduction of t is t * R^-1, so it times R is t again modulo the modulus
    let mut state = 6;
    for modulus in [u64::MAX - 82, u64::MAX - 58, u64::MAX - 2, u64::MAX] {
        let field = modulus.setup_field().unwrap();
        for _ in 0..200 {
            let a = next(&mut state) % modulus;
            let b = u64::MAX - next(&mut state) % 1000;
            let t = u128::from(a) * u128::from(b);
            let r = field.redc(t);
            assert!(r < modulus);
            let back = (Integer::from(r) << 64u32) % Integer::from(modulus);
            assert_eq!(back, Integer::from(t) % Integer::from(modulus));
        }
    }
}

#[test]
fn modulus_two_to_the_64_minus_83() {
    // modulo p = 2^64 - 83 the radix 2^64 is 83
    let modulus = u64::MAX - 82;
    let field = modulus.setup_field().unwrap();
    // 2^64 - 59 = 24 modulo p, and 24 * 83 = 1992
    let a = (u64::MAX - 58).to_montgomery(&field);
    assert_eq!(a, 1992);
    // p itself is 0 modulo p
    let b = (u64::MAX - 82).to_montgomery(&field);
    assert_eq!(b, 0);
    assert_eq!(field.redc(u128::from(a) * u128::from(b)), 0);
    // 24 * 24 = 576, whose Montgomery form is 576 * 83 = 47808
    let square = field.redc(u128::from(a) * u128::from(a));
    assert_eq!(square, 47_808);
    assert_eq!(square.to_normal(&field), 576);
}

#[test]
fn homomorphism_rug() {
    let mut state = 7;
    for modulus in [3u64, 23, 1_000_003, u64::MAX] {
        let field = Integer::from(modulus).setup_field().unwrap();
        for _ in 0..50 {
            let a = next(&mut state) % modulus;
            let b = next(&mut state) % modulus;
            let product = Integer::from(a).to_montgomery(&field)
                * Integer::from(b).to_montgomery(&field);
            let expected = (u128::from(a) * u128::from(b) % u128::from(modulus)) as u64;
            assert_eq!(field.redc(product).to_normal(&field), expected);
        }
    }
}

#[test]
fn mod_pow_exact_value() {
    let field = 1_000_003u64.setup_field().unwrap();
    let power = 5u64.to_montgomery(&field).mod_pow(117, &field);
    assert_eq!(power.to_normal(&field), 136_318);
    let field = 1_000_003u128.setup_field().unwrap();
    let power = 5u128.to_montgomery(&field).mod_pow(117, &field);
    assert_eq!(power.to_normal(&field), 136_318);
    let field = Integer::from(1_000_003).setup_field().unwrap();
    let power = Integer::from(5).to_montgomery(&field).mod_pow(Integer::from(117), &field);
    assert_eq!(power.to_normal(&field), 136_318);
}

#[test]
fn mod_pow_agrees_with_naive_exponentiation() {
    let mut state = 8;
    for _ in 0..300 {
        let modulus = next(&mut state) % 5000 * 2 + 1;
        let base = next(&mut state) % modulus;
        let exponent = next(&mut state) % 2000;
        let expected = naive_pow(base, exponent, modulus);

        let field = modulus.setup_field().unwrap();
        let power = base.to_montgomery(&field).mod_pow(exponent, &field);
        assert_eq!(power.to_normal(&field), expected);

        let field = u128::from(modulus).setup_field().unwrap();
        let power = u128::from(base).to_montgomery(&field).mod_pow(u128::from(exponent), &field);
        assert_eq!(power.to_normal(&field), u128::from(expected));

        let field = Integer::from(modulus).setup_field().unwrap();
        let power = Integer::from(base)
            .to_montgomery(&field)
            .mod_pow(Integer::from(exponent), &field);
        assert_eq!(power.to_normal(&field), expected);
    }
}

#[test]
fn mod_pow_with_exponent_zero_is_one() {
    let field = 23u64.setup_field().unwrap();
    assert_eq!(7u64.to_montgomery(&field).mod_pow(0, &field).to_normal(&field), 1);
    let field = 1u64.setup_field().unwrap();
    assert_eq!(0u64.mod_pow(0, &field).to_normal(&field), 0);
}

#[test]
fn inverse_u64() {
    for modulus in [3u64, 23, 1_000_003, (1 << 61) - 1, u64::MAX - 58] {
        let field = modulus.setup_field().unwrap();
        for x in [1u64, 2, 3, 22, 1234, modulus - 1] {
            let x = x % modulus;
            if x == 0 {
                continue;
            }
            let inverse = field.wrap_element(x).invert().to_normal();
            assert_eq!(u128::from(x) * u128::from(inverse) % u128::from(modulus), 1);
        }
    }
    let field = ((1u64 << 61) - 1).setup_field().unwrap();
    assert_eq!(field.wrap_element(3).invert().to_normal(), 1_537_228_672_809_129_301);
}

#[test]
fn inverse_u128() {
    let modulus = (1u128 << 127) - 1;
    let field = modulus.setup_field().unwrap();
    let inverse = field.wrap_element(3).invert();
    assert_eq!(
        inverse.to_normal(),
        113_427_455_640_312_821_154_458_202_477_256_070_485
    );
    let one = inverse * field.wrap_element(3);
    assert_eq!(one.to_normal(), 1);
}

#[test]
fn inverse_rug() {
    let modulus = (Integer::from(1) << 127u32) - 1u32;
    let field = modulus.setup_field().unwrap();
    let three = field.wrap_element(Integer::from(3));
    let one = three.clone().invert() * three;
    assert_eq!(one.to_normal(), 1);
}

#[test]
fn element_addition_with_and_without_overflow() {
    let modulus = u64::MAX - 58;
    let field = modulus.setup_field().unwrap();
    // the stored words are given directly, so the sums are sums of stored words
    let sum = field.raw_element(modulus - 1) + field.raw_element(modulus - 2);
    assert_eq!(*sum.internal(), modulus - 3);
    let sum = field.raw_element(5) + field.raw_element(modulus - 5);
    assert_eq!(*sum.internal(), 0);
    let sum = field.raw_element(5) + field.raw_element(6);
    assert_eq!(*sum.internal(), 11);
    let small = 23u64.setup_field().unwrap();
    let sum = small.raw_element(20) + small.raw_element(10);
    assert_eq!(*sum.internal(), 7);

    let modulus = u128::MAX - 158;
    let field = modulus.setup_field().unwrap();
    let sum = field.raw_element(modulus - 1) + field.raw_element(modulus - 2);
    assert_eq!(*sum.internal(), modulus - 3);
    let sum = field.raw_element(5) + field.raw_element(6);
    assert_eq!(*sum.internal(), 11);
    let small = 23u128.setup_field().unwrap();
    let sum = small.raw_element(20) + small.raw_element(10);
    assert_eq!(*sum.internal(), 7);
}

#[test]
fn element_subtraction_with_and_without_underflow() {
    let field = 23u64.setup_field().unwrap();
    let difference = field.raw_element(5) - field.raw_element(7);
    assert_eq!(*difference.internal(), 21);
    let difference = field.raw_element(7) - field.raw_element(5);
    assert_eq!(*difference.internal(), 2);
    let field = 23u128.setup_field().unwrap();
    let difference = field.raw_element(5) - field.raw_element(7);
    assert_eq!(*difference.internal(), 21);
    let difference = field.raw_element(7) - field.raw_element(7);
    assert_eq!(*difference.internal(), 0);
}

#[test]
fn element_arithmetic_is_modular_arithmetic() {
    let mut state = 9;
    for modulus in [3u64, 23, 1_000_003, u64::MAX - 58, u64::MAX] {
        let field = modulus.setup_field().unwrap();
        let wide = u128::from(modulus);
        for _ in 0..100 {
            let a = next(&mut state) % modulus;
            let b = next(&mut state) % modulus;
            let (x, y) = (field.wrap_element(a), field.wrap_element(b));
            let (a, b) = (u128::from(a), u128::from(b));
            assert_eq!(u128::from((x + y).to_normal()), (a + b) % wide);
            assert_eq!(u128::from((x - y).to_normal()), (a + wide - b) % wide);
            assert_eq!(u128::from((x * y).to_normal()), a * b % wide);
        }
    }
}

#[test]
fn element_arithmetic_u128_against_arbitrary_precision() {
    let mut state = 10;
    for modulus in [23u128, u128::MAX - 158, u128::MAX] {
        let field = modulus.setup_field().unwrap();
        let big_field = Integer::from(modulus).setup_field().unwrap();
        for _ in 0..50 {
            let a = (u128::from(next(&mut state)) << 64 | u128::from(next(&mut state))) % modulus;
            let b = (u128::from(next(&mut state)) << 64 | u128::from(next(&mut state))) % modulus;
            let (x, y) = (field.wrap_element(a), field.wrap_element(b));
            let u = big_field.wrap_element(Integer::from(a));
            let v = big_field.wrap_element(Integer::from(b));
            let (a, b, n) = (Integer::from(a), Integer::from(b), Integer::from(modulus));
            let sum = Integer::from(&a + &b) % &n;
            let difference = (Integer::from(&a - &b) + &n) % &n;
            let product = Integer::from(&a * &b) % &n;
            assert_eq!(Integer::from((x + y).to_normal()), sum);
            assert_eq!(Integer::from((x - y).to_normal()), difference);
            assert_eq!(Integer::from((x * y).to_normal()), product);
            assert_eq!((u.clone() + v.clone()).to_normal(), sum);
            assert_eq!((u.clone() - v.clone()).to_normal(), difference);
            assert_eq!((u * v).to_normal(), product);
        }
    }
}

#[test]
fn rug_element_addition_and_subtraction() {
    let field = Integer::from(23).setup_field().unwrap();
    let sum =
        RugElement::new(Integer::from(20), &field) + RugElement::new(Integer::from(10), &field);
    assert_eq!(*sum.internal(), 7);
    let sum = RugElement::new(Integer::from(2), &field) + RugElement::new(Integer::from(3), &field);
    assert_eq!(*sum.internal(), 5);
    let difference =
        RugElement::new(Integer::from(5), &field) - RugElement::new(Integer::from(7), &field);
    assert_eq!(*difference.internal(), 21);
    let difference =
        RugElement::new(Integer::from(7), &field) - RugElement::new(Integer::from(5), &field);
    assert_eq!(*difference.internal(), 2);
}

#[test]
fn element_power() {
    let field = 1_000_003u64.setup_field().unwrap();
    let power = field.wrap_element(5).pow(field.raw_element(117));
    assert_eq!(power.to_normal(), 136_318);
    let field = 1_000_003u128.setup_field().unwrap();
    let power = field.wrap_element(5).pow(field.raw_element(117));
    assert_eq!(power.to_normal(), 136_318);
    let field = Integer::from(1_000_003).setup_field().unwrap();
    let exponent = RugElement::new(Integer::from(117), &field);
    let power = field.wrap_element(Integer::from(5)).pow(exponent);
    assert_eq!(power.to_normal(), 136_318);
}

#[test]
fn new_element_keeps_the_word() {
    let field = 23u64.setup_field().unwrap();
    let element = PrimIntElement::new(19u64, &field);
    assert_eq!(*element.internal(), 19);
    assert_eq!(element.to_normal(), 7);
    assert_eq!(*field.raw_element(19).internal(), 19);
    assert_eq!(*field.wrap_element(7).internal(), 19);
}

#[test]
fn double_width_product() {
    let product = DoubleWidth::mult(u128::MAX, u128::MAX);
    assert_eq!(product, DoubleWidth { higher: u128::MAX - 1, lower: 1 });
    let product = DoubleWidth::mult(1 << 127, 6);
    assert_eq!(product, DoubleWidth { higher: 3, lower: 0 });
    assert_eq!(DoubleWidth::mult(0, u128::MAX), DoubleWidth { higher: 0, lower: 0 });
    assert_eq!(DoubleWidth::from_word(9), DoubleWidth { higher: 0, lower: 9 });
}

#[test]
fn double_width_addition_with_carry() {
    let a = DoubleWidth { higher: u128::MAX, lower: u128::MAX };
    let (sum, carry) = a.overflowing_add(&DoubleWidth { higher: 0, lower: 2 });
    assert_eq!(sum, DoubleWidth { higher: 0, lower: 1 });
    assert!(carry);
    let b = DoubleWidth { higher: 1, lower: u128::MAX };
    let (sum, carry) = b.overflowing_add(&DoubleWidth { higher: 2, lower: 1 });
    assert_eq!(sum, DoubleWidth { higher: 4, lower: 0 });
    assert!(!carry);
}

#[test]
fn double_width_remainder() {
    let a = DoubleWidth { higher: 1, lower: 6 };
    // 2^128 + 6 = 13 + 6 modulo 23
    assert_eq!(a.rem(DoubleWidth::from_word(23)), DoubleWidth { higher: 0, lower: 19 });
    let b = DoubleWidth { higher: 5, lower: 7 };
    assert_eq!(b.rem(DoubleWidth { higher: 2, lower: 0 }), DoubleWidth { higher: 1, lower: 7 });
}

#[test]
fn full_product_in_limbs() {
    let x = U128::from_u128(0xfedc_ba98_7654_3210_0123_4567_89ab_cdef);
    assert_eq!(x, U128([0x0123_4567_89ab_cdef, 0xfedc_ba98_7654_3210]));
    let product = x.full_mul_u128(0x0f1e_2d3c_4b5a_6978_8796_a5b4_c3d2_e1f0);
    assert_eq!(
        product,
        U256([
            0x196f_b4e9_0c1e_1f10,
            0xb5c8_ed22_68c0_28a2,
            0x21ba_641e_eac7_b5b3,
            0x0f0c_f9d5_a05a_029a,
        ])
    );
    assert_eq!(product.high_u128(), 0x0f0c_f9d5_a05a_029a_21ba_641e_eac7_b5b3);
    let largest = U128::from_u128(u128::MAX).full_mul_u128(u128::MAX);
    assert_eq!(largest, U256([1, 0, u64::MAX - 1, u64::MAX]));
    assert_eq!(largest.high_u128(), u128::MAX - 1);
}

#[test]
fn full_product_agrees_with_double_width() {
    let mut state = 11;
    for _ in 0..200 {
        let a = u128::from(next(&mut state)) << 64 | u128::from(next(&mut state));
        let b = u128::from(next(&mut state)) << 64 | u128::from(next(&mut state));
        let limbs = U128::from_u128(a).full_mul_u128(b);
        let words = DoubleWidth::mult(a, b);
        assert_eq!(limbs.high_u128(), words.higher);
        assert_eq!(u128::from(limbs.0[1]) << 64 | u128::from(limbs.0[0]), words.lower);
    }
}
