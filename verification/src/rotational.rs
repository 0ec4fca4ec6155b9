//! The rotational sampler: angular positions along a circular arc, one
//! sample per five degrees of arc (rounded up), from angle zero to the
//! stop angle. Angles are in micro-degrees; projecting an angle onto the
//! circle (center + radius by cosine and sine) is left to the caller.

use vstd::prelude::*;
use vstd::arithmetic::div_mod::{lemma_div_is_ordered, lemma_div_multiples_vanish};
use vstd::arithmetic::mul::lemma_mul_inequality;
use crate::geom::{RotationDirection, VALUE_LIMIT};
use crate::num::div_tz;

verus! {

/// Number of angular steps: the arc's extent in five-degree units,
/// rounded up (`MICRO` micro-degrees per degree, so five degrees is
/// five million micro-degrees).
pub open spec fn rot_steps(stop: int) -> int {
    let m = if stop >= 0 {
        stop
    } else {
        -stop
    };
    (m + 4_999_999) / 5_000_000
}

/// Sign with which the direction advances the angle: counterclockwise
/// increases it, clockwise decreases it.
pub open spec fn dir_sign(d: RotationDirection) -> int {
    match d {
        RotationDirection::Counterclockwise => 1,
        RotationDirection::Clockwise => -1,
    }
}

/// The `k`-th angular sample: `k/steps` of the stop angle, truncated
/// toward zero to whole micro-degrees, signed by the direction.
pub open spec fn arc_angle(stop: int, d: RotationDirection, k: int) -> int {
    let n = rot_steps(stop);
    if n == 0 {
        0
    } else {
        dir_sign(d) * div_tz(stop * k, n)
    }
}

/// The full angular sample sequence. A zero-degree motion yields the
/// single start angle.
pub open spec fn arc_angles(stop: int, d: RotationDirection) -> Seq<int> {
    let n = rot_steps(stop);
    if n == 0 {
        seq![0]
    } else {
        Seq::new((n + 1) as nat, |k: int| arc_angle(stop, d, k))
    }
}

/// Samples a rotational motion: the angular positions, in micro-degrees,
/// visited from angle zero to the stop angle. A zero-degree motion
/// yields the single angle zero.
pub fn calculate_rotational_positions(stop_angle: i64, direction: RotationDirection) -> (angles:
    Vec<i64>)
    requires
        -(VALUE_LIMIT as int) <= stop_angle as int <= VALUE_LIMIT as int,
    ensures
        angles@.map_values(|a: i64| a as int) == arc_angles(stop_angle as int, direction),
{
    let m: u64 = if stop_angle >= 0 {
        stop_angle as u64
    } else {
        (-(stop_angle as i128)) as u64
    };
    let n: u64 = (m + 4_999_999) / 5_000_000;
    proof {
        assert(n as int == rot_steps(stop_angle as int));
    }
    let mut angles: Vec<i64> = Vec::new();
    if n == 0 {
        angles.push(0);
        proof {
            assert(angles@.map_values(|a: i64| a as int) =~= arc_angles(
                stop_angle as int,
                direction,
            ));
        }
        return angles;
    }
    let positive = match direction {
        RotationDirection::Counterclockwise => stop_angle >= 0,
        RotationDirection::Clockwise => stop_angle < 0,
    };
    let mut k: u64 = 0;
    while k <= n
        invariant
            1 <= n <= 36_893_488_147_419u64,
            n as int == rot_steps(stop_angle as int),
            m == if stop_angle >= 0 {
                stop_angle as int
            } else {
                -(stop_angle as int)
            },
            m <= VALUE_LIMIT,
            positive == if direction is Counterclockwise {
                stop_angle >= 0
            } else {
                stop_angle < 0
            },
            0 <= k <= n + 1,
            angles@.len() == k,
            forall|j: int|
                0 <= j < k ==> angles@[j] as int == arc_angle(stop_angle as int, direction, j)
                    && -(VALUE_LIMIT as int) <= angles@[j] as int <= VALUE_LIMIT as int,
        decreases n + 1 - k,
    {
        proof {
            assert((m as int) * (k as int) <= u128::MAX) by (nonlinear_arith)
                requires
                    0 <= m as int <= u64::MAX as int,
                    0 <= k as int <= u64::MAX as int,
                    u128::MAX == (u64::MAX as int) * (u64::MAX as int) + 2 * (u64::MAX as int),
            ;
        }
        let prod: u128 = (m as u128) * (k as u128);
        let q: u128 = prod / (n as u128);
        proof {
            lemma_mul_inequality(k as int, n as int, m as int);
            assert((k as int) * (m as int) == (m as int) * (k as int)) by (nonlinear_arith);
            assert((n as int) * (m as int) == (m as int) * (n as int)) by (nonlinear_arith);
            lemma_div_is_ordered((m as int) * (k as int), (n as int) * (m as int), n as int);
            lemma_div_multiples_vanish(m as int, n as int);
            assert(q <= m);
            if stop_angle >= 0 {
                assert(div_tz(stop_angle as int * k as int, n as int) == q as int);
            } else {
                assert(stop_angle as int * k as int == -((m as int) * (k as int)))
                    by (nonlinear_arith)
                    requires
                        stop_angle < 0,
                        m as int == -(stop_angle as int),
                ;
                assert(div_tz(stop_angle as int * k as int, n as int) == -(q as int));
            }
        }
        let a: i64 = if positive {
            q as i64
        } else {
            -(q as i64)
        };
        proof {
            let tz = div_tz(stop_angle as int * k as int, n as int);
            match direction {
                RotationDirection::Counterclockwise => {
                    assert(arc_angle(stop_angle as int, direction, k as int) == 1 * tz);
                },
                RotationDirection::Clockwise => {
                    assert(arc_angle(stop_angle as int, direction, k as int) == -1 * tz);
                },
            }
            assert(a as int == arc_angle(stop_angle as int, direction, k as int));
        }
        angles.push(a);
        k = k + 1;
    }
    proof {
        assert(angles@.map_values(|a: i64| a as int) =~= arc_angles(stop_angle as int, direction));
    }
    angles
}

/// Clockwise and counterclockwise runs of the same stop angle visit
/// angle sequences that are sign-mirrored around zero, sample by sample.
pub proof fn lemma_direction_mirror(stop: int)
    ensures
        arc_angles(stop, RotationDirection::Clockwise).len() == arc_angles(
            stop,
            RotationDirection::Counterclockwise,
        ).len(),
        forall|k: int|
            0 <= k < arc_angles(stop, RotationDirection::Clockwise).len() ==> #[trigger] arc_angles(
                stop,
                RotationDirection::Clockwise,
            )[k] == -arc_angles(stop, RotationDirection::Counterclockwise)[k],
{
    let n = rot_steps(stop);
    if n != 0 {
        assert forall|k: int| 0 <= k < n + 1 implies arc_angles(
            stop,
            RotationDirection::Clockwise,
        )[k] == -arc_angles(stop, RotationDirection::Counterclockwise)[k] by {
            let tz = div_tz(stop * k, n);
            assert(arc_angle(stop, RotationDirection::Clockwise, k) == -1 * tz);
            assert(arc_angle(stop, RotationDirection::Counterclockwise, k) == 1 * tz);
        }
    }
}

} // verus!
