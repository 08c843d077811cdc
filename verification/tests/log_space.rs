use ctc_beam_decoder::log_space::{
    LogSpace, Scalar, INFINITY_ORDINAL, NEGATIVE_ZERO_BITS, NEG_INFINITY_ORDINAL,
};

#[test]
fn landmarks() {
    assert_eq!(Scalar::from_bits(f32::NEG_INFINITY.to_bits()), Scalar::neg_infinity());
    assert_eq!(Scalar::from_bits(f32::NEG_INFINITY.to_bits()).0, NEG_INFINITY_ORDINAL);
    assert_eq!(Scalar::from_bits(f32::INFINITY.to_bits()).0, INFINITY_ORDINAL);
    assert_eq!(Scalar::from_bits(0.0f32.to_bits()), Scalar::zero());
    assert_eq!(Scalar::from_bits((-0.0f32).to_bits()), Scalar::zero());
    assert_eq!((-0.0f32).to_bits(), NEGATIVE_ZERO_BITS);
    assert_eq!(Scalar::from_bits(1.0f32.to_bits()).0, 0x3F80_0000);
    assert_eq!(Scalar::from_bits((-1.0f32).to_bits()).0, -0x3F80_0000);
    assert_eq!(LogSpace::neg_infinity().0, Scalar::neg_infinity());
    assert_eq!(LogSpace::zero().0, Scalar::zero());
}

#[test]
fn numbers_come_back_from_their_scalars() {
    let xs = [
        0.0f32,
        1.0,
        -1.0,
        0.1,
        -0.1,
        f32::MIN_POSITIVE,
        -f32::MIN_POSITIVE,
        f32::MAX,
        f32::MIN,
        f32::INFINITY,
        f32::NEG_INFINITY,
        1e-45,
        -1e-45,
    ];
    for x in xs {
        let back = f32::from_bits(Scalar::from_bits(x.to_bits()).to_bits());
        assert_eq!(back.to_bits(), x.to_bits());
    }
    // Negative zero comes back as zero.
    let back = f32::from_bits(Scalar::from_bits((-0.0f32).to_bits()).to_bits());
    assert_eq!(back.to_bits(), 0.0f32.to_bits());
    assert_eq!(Scalar(i32::MIN).to_bits(), u32::MAX);
    assert_eq!(Scalar(-i32::MAX).to_bits(), u32::MAX);
}

#[test]
fn ordinals_order_as_the_numbers() {
    let xs = [
        f32::NEG_INFINITY,
        f32::MIN,
        -2.5,
        -1.0,
        -1e-30,
        -1e-45,
        -0.0,
        0.0,
        1e-45,
        1e-30,
        0.5,
        1.0,
        2.5,
        f32::MAX,
        f32::INFINITY,
    ];
    for a in xs {
        for b in xs {
            let sa = Scalar::from_bits(a.to_bits());
            let sb = Scalar::from_bits(b.to_bits());
            assert_eq!(sa.0 < sb.0, a < b);
            assert_eq!(sa.0 == sb.0, a == b);
            assert_eq!(sa < sb, a < b);
            assert_eq!(sa == sb, a == b);
            assert_eq!(LogSpace(sa) <= LogSpace(sb), a <= b);
        }
    }
}

#[test]
fn negative_infinity_is_the_least_number() {
    for x in [f32::MIN, -1.0, 0.0, 1.0, f32::MAX, f32::INFINITY] {
        assert!(Scalar::neg_infinity() < Scalar::from_bits(x.to_bits()));
        assert!(LogSpace(Scalar::from_bits(x.to_bits())).is_possible());
    }
    assert!(!LogSpace::neg_infinity().is_possible());
    assert!(LogSpace::zero().is_possible());
}
