use vstd::prelude::*;

verus! {

/// The fixed-point unit: the integer that stands for the real number 1. Hue, saturation,
/// value and the components of an embedded colour are counted in millionths.
pub const ONE: i32 = 1_000_000;

/// The quotient of `a` by a positive `d`, rounded down.
pub fn floor_div(a: i128, d: i128) -> (q: i128)
    requires
        d > 0,
    ensures
        q == a / d,
{
    if a >= 0 {
        a / d
    } else {
        let b: i128 = -(a + 1);
        let qb: i128 = b / d;
        proof {
            let rb = b as int % d as int;
            vstd::arithmetic::div_mod::lemma_fundamental_div_mod(b as int, d as int);
            assert(a == (-qb - 1) * d + (d - 1 - rb)) by (nonlinear_arith)
                requires
                    b == d * qb + rb,
                    a == -b - 1,
            ;
            vstd::arithmetic::div_mod::lemma_fundamental_div_mod_converse(
                a as int,
                d as int,
                -qb - 1,
                d - 1 - rb,
            );
        }
        -qb - 1
    }
}

} // verus!
