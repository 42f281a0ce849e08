//! Weight initialisation.
use crate::binary32::{
    is_nearest, is_nearest_to_root, law_conversion_is_monotone, law_conversion_is_nearest,
    law_conversion_scales, law_exponent_doubles, law_one_is_its_root_and_reciprocal,
    law_reciprocal_is_antitone, law_reciprocal_is_nearest, law_reciprocal_scales,
    law_root_is_monotone, law_root_is_nearest, law_root_scales, real_of, reciprocal_of, root_of,
    Real, INFINITY_BITS, ONE_BITS,
};
use vstd::arithmetic::power2::pow2;
use vstd::prelude::*;

verus! {

/// `1 / sqrt(fan_in)` in single precision: the conversion, the root and the quotient are each
/// rounded to nearest. The reciprocal of zero is infinite.
pub open spec fn inverse_root(fan_in: u32) -> Real {
    if fan_in == 0 {
        Real { bits: INFINITY_BITS }
    } else {
        reciprocal_of(root_of(real_of(fan_in as nat)))
    }
}

/// Standard deviation of a layer's initial weights.
pub fn xavier_std(fan_in: u32) -> (r: Real)
    ensures
        r == inverse_root(fan_in),
        fan_in == 0 <==> r.bits == 0x7f80_0000,
{
    if fan_in == 0 {
        Real { bits: INFINITY_BITS }
    } else {
        proof {
            lemma_inverse_root(fan_in);
        }
        Real::from_u32(fan_in).root().reciprocal()
    }
}

proof fn lemma_inverse_root(fan_in: u32)
    requires
        fan_in > 0,
    ensures
        ({
            let n = real_of(fan_in as nat);
            let s = root_of(n);
            &&& n.positive_normal()
            &&& 1 <= s.exponent_field() <= 252
            &&& inverse_root(fan_in) == reciprocal_of(s)
            &&& inverse_root(fan_in).positive_normal()
        }),
{
    let n = real_of(fan_in as nat);
    law_conversion_is_monotone(fan_in as nat, fan_in as nat);
    law_root_is_monotone(n, n);
    law_reciprocal_is_antitone(root_of(n), root_of(n));
}

/// A layer with more inputs does not start with wider weights.
pub proof fn law_std_does_not_rise(a: u32, b: u32)
    requires
        a <= b,
    ensures
        !inverse_root(a).below(inverse_root(b)),
        inverse_root(a).place() >= inverse_root(b).place(),
{
    if b > 0 {
        lemma_inverse_root(b);
    }
    if a > 0 {
        lemma_inverse_root(a);
        let (x, y) = (real_of(a as nat), real_of(b as nat));
        law_conversion_is_monotone(a as nat, b as nat);
        law_root_is_monotone(x, y);
        law_reciprocal_is_antitone(root_of(x), root_of(y));
    }
}

/// The standard deviation is positive. It is infinite without inputs, and at most one with any.
pub proof fn law_std_is_positive(fan_in: u32)
    ensures
        !inverse_root(fan_in).nan() && !inverse_root(fan_in).negative(),
        (Real { bits: 0 }).below(inverse_root(fan_in)),
        inverse_root(fan_in).infinite() <==> fan_in == 0,
        fan_in > 0 ==> !(Real { bits: ONE_BITS }).below(inverse_root(fan_in)),
{
    if fan_in > 0 {
        lemma_inverse_root(fan_in);
        lemma_inverse_root(1);
        law_std_does_not_rise(1, fan_in);
        law_one_is_its_root_and_reciprocal();
    }
}

/// Four times the inputs halve the standard deviation.
pub proof fn law_std_halves(fan_in: u32)
    requires
        0 < fan_in <= u32::MAX / 4,
    ensures
        inverse_root(fan_in).value() == 2 * inverse_root((4 * fan_in) as u32).value(),
{
    let four = (4 * fan_in) as u32;
    let (x, y) = (real_of(fan_in as nat), real_of(four as nat));
    lemma_inverse_root(fan_in);
    lemma_inverse_root(four);
    law_conversion_scales(fan_in as nat);
    law_root_scales(x, y);
    law_reciprocal_scales(root_of(x), root_of(y));
    law_exponent_doubles(inverse_root(four), inverse_root(fan_in));
}

/// The standard deviation is `1 / sqrt(fan_in)` in single precision: the input count is converted
/// to the nearest number, the nearest number to that one's square root is taken, and of that the
/// nearest number to its reciprocal.
pub proof fn law_std_is_the_reciprocal_of_the_root(fan_in: u32)
    requires
        fan_in > 0,
    ensures
        exists|n: Real, root: Real| #[trigger]
            is_nearest(n, (fan_in * pow2(149)) as int, 1) && #[trigger] is_nearest_to_root(root, n)
                && root.value() > 0 && is_nearest(
                inverse_root(fan_in),
                pow2(298) as int,
                root.value(),
            ),
{
    lemma_inverse_root(fan_in);
    let n = real_of(fan_in as nat);
    law_conversion_is_nearest(fan_in as nat);
    law_root_is_nearest(n);
    law_reciprocal_is_nearest(root_of(n));
    assert(is_nearest(n, (fan_in * pow2(149)) as int, 1) && is_nearest_to_root(root_of(n), n));
}

} // verus!
