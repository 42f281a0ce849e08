use akasha_core::binary32::{Real, INFINITY_BITS, MAX_BITS, ONE_BITS};
use akasha_core::config::{
    ACCUMULATION_STEPS, BATCH_SIZE, DIM, FFN_HIDDEN, HEAD_DIM, LR_RESTART_STEP, MAX_STEPS,
    NUM_HEADS, WARMUP_STEPS,
};
use akasha_core::nn::init::xavier_std;
use akasha_core::schedule::{lr_point, LrPoint};

fn num(x: f32) -> Real {
    Real { bits: x.to_bits() }
}

#[test]
fn xavier_std_is_the_float_formula() {
    for n in [0u32, 1, 2, 3, 64, 768, 3072, 50257, 16_777_215, 16_777_217, 16_777_219, u32::MAX] {
        let expected: f32 = 1.0 / (n as f32).sqrt();
        assert_eq!(xavier_std(n).bits, expected.to_bits());
    }
    for n in 1..20_000u32 {
        let expected: f32 = 1.0 / (n as f32).sqrt();
        assert_eq!(xavier_std(n).bits, expected.to_bits());
    }
}

#[test]
fn xavier_std_of_a_head_is_an_eighth() {
    assert_eq!(f32::from_bits(xavier_std(64).bits), 0.125);
}

#[test]
fn xavier_std_does_not_rise() {
    let samples = [0u32, 1, 2, 3, 63, 64, 65, 768, 3072, 16_777_216, 16_777_217, u32::MAX];
    for pair in samples.windows(2) {
        let (a, b) = (xavier_std(pair[0]), xavier_std(pair[1]));
        assert!(f32::from_bits(a.bits) >= f32::from_bits(b.bits));
        assert!(!a.less_than(b));
    }
}

#[test]
fn xavier_std_is_positive_and_at_most_one() {
    assert!(xavier_std(0).is_infinite());
    assert_eq!(xavier_std(1).bits, ONE_BITS);
    for n in [1u32, 2, 768, 50_257, u32::MAX] {
        let std = f32::from_bits(xavier_std(n).bits);
        assert!(0.0 < std && std <= 1.0);
    }
}

#[test]
fn xavier_std_halves_with_four_times_the_inputs() {
    for n in [1u32, 3, 64, 768, 5_000_000, 16_777_217, u32::MAX / 4] {
        let (one, four) = (xavier_std(n), xavier_std(4 * n));
        assert_eq!(f32::from_bits(one.bits), 2.0 * f32::from_bits(four.bits));
    }
}

#[test]
fn integers_are_converted_to_the_nearest_number() {
    for n in [1u32, 2, 3, 255, 16_777_216, 16_777_217, 16_777_219, 33_554_433, 4_294_967_295] {
        assert_eq!(Real::from_u32(n).bits, (n as f32).to_bits());
    }
}

#[test]
fn roots_and_reciprocals_are_rounded_to_nearest() {
    for x in [1.0f32, 2.0, 3.0, 1.5, 0.1, 7.25e-20, 3.4e20, 1.17549435e-38, f32::MAX] {
        assert_eq!(num(x).root().bits, x.sqrt().to_bits());
    }
    for x in [1.0f32, 2.0, 3.0, 1.5, 0.1, 7.25e-20, 3.4e20] {
        assert_eq!(num(x).reciprocal().bits, (1.0 / x).to_bits());
    }
}

#[test]
fn comparisons_are_those_of_floats() {
    let values = [
        0.0f32,
        -0.0,
        1.0,
        -1.0,
        1.0e-45,
        -1.0e-45,
        4.125,
        f32::MAX,
        f32::MIN,
        f32::INFINITY,
        f32::NEG_INFINITY,
        f32::NAN,
        -f32::NAN,
    ];
    for a in values {
        assert_eq!(num(a).is_nan(), a.is_nan());
        assert_eq!(num(a).is_infinite(), a.is_infinite());
        for b in values {
            assert_eq!(num(a).less_than(num(b)), a < b);
        }
    }
}

#[test]
fn named_encodings_are_those_of_floats() {
    assert_eq!(MAX_BITS, f32::MAX.to_bits());
    assert_eq!(INFINITY_BITS, f32::INFINITY.to_bits());
    assert_eq!(ONE_BITS, 1.0f32.to_bits());
}

#[test]
fn sizes_belong_together() {
    assert_eq!(HEAD_DIM, 64);
    assert_eq!(DIM % NUM_HEADS, 0);
    assert_eq!(FFN_HIDDEN, 4 * DIM);
    assert_eq!(BATCH_SIZE * ACCUMULATION_STEPS, 64);
}

#[test]
fn schedule_before_and_at_the_restart() {
    let zero = LrPoint::Warmup { step: 0, of: 200 };
    assert_eq!(lr_point(0, WARMUP_STEPS, MAX_STEPS), zero);
    assert_eq!(lr_point(194_999, WARMUP_STEPS, MAX_STEPS), zero);
    assert_eq!(lr_point(LR_RESTART_STEP, WARMUP_STEPS, MAX_STEPS), zero);
}

#[test]
fn schedule_warms_up_and_then_decays() {
    assert_eq!(
        lr_point(195_001, WARMUP_STEPS, MAX_STEPS),
        LrPoint::Warmup { step: 1, of: 200 }
    );
    assert_eq!(
        lr_point(195_199, WARMUP_STEPS, MAX_STEPS),
        LrPoint::Warmup { step: 199, of: 200 }
    );
    assert_eq!(
        lr_point(195_200, WARMUP_STEPS, MAX_STEPS),
        LrPoint::Decay { done: 0, of: 304_800 }
    );
    assert_eq!(
        lr_point(347_600, WARMUP_STEPS, MAX_STEPS),
        LrPoint::Decay { done: 152_400, of: 304_800 }
    );
    assert_eq!(
        lr_point(499_999, WARMUP_STEPS, MAX_STEPS),
        LrPoint::Decay { done: 304_799, of: 304_800 }
    );
}

#[test]
fn schedule_without_warmup_decays_at_once() {
    assert_eq!(lr_point(0, 0, 195_010), LrPoint::Decay { done: 0, of: 10 });
    assert_eq!(lr_point(195_003, 0, 195_010), LrPoint::Decay { done: 3, of: 10 });
}

#[test]
fn schedule_may_end_before_the_restart_during_warmup() {
    assert_eq!(lr_point(100, 5, 200), LrPoint::Warmup { step: 0, of: 5 });
}
