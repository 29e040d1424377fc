use fixed::types::I16F16;
use pcb_router::fixed_point::FixedPoint;
use pcb_router::vec2::{FixedVec2, IntVec2};

fn fx(bits: i32) -> FixedPoint {
    FixedPoint::from_bits(bits)
}

#[test]
fn constants_have_their_tick_counts() {
    assert_eq!(FixedPoint::zero().to_bits(), 0);
    assert_eq!(FixedPoint::delta().to_bits(), 1);
    assert_eq!(FixedPoint::one().to_bits(), 65536);
}

#[test]
fn from_int_covers_the_integer_bits() {
    assert_eq!(FixedPoint::from_int(3), Some(fx(3 * 65536)));
    assert_eq!(FixedPoint::from_int(-32768), Some(fx(i32::MIN)));
    assert_eq!(FixedPoint::from_int(32767), Some(fx(32767 * 65536)));
    assert_eq!(FixedPoint::from_int(32768), None);
    assert_eq!(FixedPoint::from_int(-32769), None);
}

#[test]
fn checked_mul_multiplies_and_rounds_down() {
    // 1.5 * 2.0 == 3.0
    assert_eq!(fx(98304).checked_mul(fx(131072)), Some(fx(196608)));
    // one tick times one tick rounds down to zero
    assert_eq!(fx(1).checked_mul(fx(1)), Some(fx(0)));
    // minus one tick times one tick rounds down to minus one tick
    assert_eq!(fx(-1).checked_mul(fx(1)), Some(fx(-1)));
    // -2.0 * 0.5 == -1.0
    assert_eq!(fx(-131072).checked_mul(fx(32768)), Some(fx(-65536)));
}

#[test]
fn checked_mul_reports_overflow() {
    // 256.0 * 256.0 does not fit 16 integer bits
    assert_eq!(fx(256 * 65536).checked_mul(fx(256 * 65536)), None);
    assert_eq!(fx(i32::MAX).checked_mul(fx(131072)), None);
    assert_eq!(fx(i32::MAX).checked_mul(fx(65536)), Some(fx(i32::MAX)));
}

#[test]
fn checked_div_divides_and_rounds_towards_zero() {
    // 1.0 / 3.0
    assert_eq!(fx(65536).checked_div(fx(196608)), Some(fx(21845)));
    // -1.0 / 3.0
    assert_eq!(fx(-65536).checked_div(fx(196608)), Some(fx(-21845)));
    // 3.0 / 2.0 == 1.5
    assert_eq!(fx(196608).checked_div(fx(131072)), Some(fx(98304)));
}

#[test]
fn checked_div_rejects_zero_and_overflow() {
    assert_eq!(fx(65536).checked_div(fx(0)), None);
    // 16384.0 / 0.25 does not fit
    assert_eq!(fx(16384 * 65536).checked_div(fx(16384)), None);
}

#[test]
fn checked_sqrt_rounds_down() {
    assert_eq!(fx(4 * 65536).checked_sqrt(), Some(fx(131072)));
    assert_eq!(fx(2 * 65536).checked_sqrt(), Some(fx(92681)));
    assert_eq!(fx(0).checked_sqrt(), Some(fx(0)));
    assert_eq!(fx(-1).checked_sqrt(), None);
}

#[test]
fn parity_of_points() {
    assert!(FixedVec2::from_bits(1, 3).is_x_odd_y_odd());
    assert!(FixedVec2::from_bits(-1, 3).is_x_odd_y_odd());
    assert!(!FixedVec2::from_bits(2, 3).is_x_odd_y_odd());
    assert!(FixedVec2::from_bits(1, 3).is_sum_even());
    assert!(FixedVec2::from_bits(-2, 4).is_sum_even());
    assert!(!FixedVec2::from_bits(-1, 4).is_sum_even());
    assert!(FixedVec2::from_bits(i32::MAX, i32::MAX).is_sum_even());
}

#[test]
fn to_nearest_even_even_rounds_odd_coordinates_down() {
    assert_eq!(FixedVec2::from_bits(3, 5).to_nearest_even_even(), FixedVec2::from_bits(2, 4));
    assert_eq!(FixedVec2::from_bits(-3, 4).to_nearest_even_even(), FixedVec2::from_bits(-4, 4));
    assert_eq!(FixedVec2::from_bits(6, -1).to_nearest_even_even(), FixedVec2::from_bits(6, -2));
    assert_eq!(FixedVec2::from_bits(8, 10).to_nearest_even_even(), FixedVec2::from_bits(8, 10));
}

#[test]
fn length_of_a_three_four_five_triangle() {
    let v = FixedVec2::from_bits(3 * 65536, 4 * 65536);
    assert_eq!(v.length(), Some(fx(5 * 65536)));
    let far = FixedVec2::from_bits(200 * 65536, 0);
    assert_eq!(far.length(), None);
}

#[test]
fn vector_arithmetic() {
    let a = FixedVec2::from_bits(10, -4);
    let b = FixedVec2::from_bits(3, 6);
    assert_eq!(a.plus(b), FixedVec2::from_bits(13, 2));
    assert_eq!(a.minus(b), FixedVec2::from_bits(7, -10));
    assert_eq!(a.negated(), FixedVec2::from_bits(-10, 4));
    assert_eq!(FixedVec2::new(fx(1), fx(2)), FixedVec2::from_bits(1, 2));
}

#[test]
fn int_vec_to_fixed() {
    assert_eq!(IntVec2::new(2, -3).to_fixed(), Some(FixedVec2::from_bits(131072, -196608)));
    assert_eq!(IntVec2::new(40000, 0).to_fixed(), None);
}

#[test]
fn a_float_comes_back_within_one_tick() {
    let samples = [
        0.0f64,
        1.0,
        -1.0,
        0.1,
        -0.1,
        123.456,
        -9876.54321,
        32767.99998,
        -32768.0,
        0.0000001,
    ];
    for v in samples {
        let raw = I16F16::saturating_from_num(v);
        let p = FixedPoint::from_bits(raw.to_bits());
        let back = p.to_bits() as f64 / 65536.0;
        assert!((back - v).abs() <= 1.0 / 65536.0, "{} came back as {}", v, back);
    }
}
