//! The linear sampler: one waypoint per unit of Euclidean distance along
//! the segment from start to end, endpoints included.

use vstd::prelude::*;
use vstd::arithmetic::div_mod::{
    lemma_div_is_ordered, lemma_div_multiples_vanish, lemma_fundamental_div_mod, lemma_mod_bound,
};
use vstd::arithmetic::mul::lemma_mul_inequality;
use crate::geom::{Point3D, MICRO, VALUE_LIMIT};
use crate::num::div_tz;

verus! {

/// `r` is the integer square root of `n`.
pub open spec fn is_floor_sqrt(n: int, r: int) -> bool {
    r >= 0 && r * r <= n < (r + 1) * (r + 1)
}

/// The integer square root (well defined for any `n >= 0`).
pub open spec fn floor_sqrt(n: int) -> int {
    choose|r: int| is_floor_sqrt(n, r)
}

pub proof fn lemma_floor_sqrt_unique(n: int, r1: int, r2: int)
    requires
        is_floor_sqrt(n, r1),
        is_floor_sqrt(n, r2),
    ensures
        r1 == r2,
{
    if r1 < r2 {
        lemma_mul_inequality(r1 + 1, r2, r2);
        lemma_mul_inequality(r2, r2, r2);
        assert((r1 + 1) * r2 <= r2 * r2);
        assert((r1 + 1) * (r1 + 1) <= (r1 + 1) * r2) by (nonlinear_arith)
            requires
                r1 + 1 <= r2,
                r1 + 1 > 0,
        ;
    }
    if r2 < r1 {
        assert((r2 + 1) * (r2 + 1) <= r1 * r1) by (nonlinear_arith)
            requires
                r2 + 1 <= r1,
                r2 >= 0,
        ;
    }
}

/// Binary search for the integer square root.
pub fn isqrt_u128(n: u128) -> (r: u64)
    ensures
        is_floor_sqrt(n as int, r as int),
        r as int == floor_sqrt(n as int),
{
    let mut lo: u64 = 0;
    let mut hi: u64 = u64::MAX;
    proof {
        assert((hi as int + 1) * (hi as int + 1) > u128::MAX);
    }
    while lo < hi
        invariant
            lo <= hi,
            (lo as int) * (lo as int) <= n as int,
            n < (hi as int + 1) * (hi as int + 1),
        decreases hi - lo,
    {
        let mid: u64 = hi - (hi - lo) / 2;
        proof {
            assert((mid as int) * (mid as int) <= (u64::MAX as int) * (u64::MAX as int))
                by (nonlinear_arith)
                requires
                    0 <= mid as int <= u64::MAX as int,
            ;
            assert((u64::MAX as int) * (u64::MAX as int) <= u128::MAX as int);
        }
        let sq: u128 = (mid as u128) * (mid as u128);
        if sq <= n {
            lo = mid;
        } else {
            hi = mid - 1;
        }
    }
    proof {
        let ghost r = lo as int;
        assert(is_floor_sqrt(n as int, r));
        lemma_floor_sqrt_unique(n as int, r, floor_sqrt(n as int));
    }
    lo
}

/// Squared Euclidean distance between two points, in squared micro-units.
pub open spec fn dist_sq(s: Point3D, e: Point3D) -> int {
    (e.x - s.x) * (e.x - s.x) + (e.y - s.y) * (e.y - s.y) + (e.z - s.z) * (e.z - s.z)
}

/// Number of interpolation steps of a linear motion: the Euclidean length
/// of the displacement, in whole coordinate units, truncated.
pub open spec fn lin_steps(s: Point3D, e: Point3D) -> int {
    floor_sqrt(dist_sq(s, e)) / (MICRO as int)
}

/// The `k`-th sample of a non-degenerate linear motion: the start plus
/// `k/steps` of the displacement, each coordinate truncated toward zero
/// to whole micro-units.
pub open spec fn lin_point(s: Point3D, e: Point3D, k: int) -> Point3D {
    let n = lin_steps(s, e);
    Point3D {
        x: (s.x + div_tz((e.x - s.x) * k, n)) as i64,
        y: (s.y + div_tz((e.y - s.y) * k, n)) as i64,
        z: (s.z + div_tz((e.z - s.z) * k, n)) as i64,
    }
}

/// The full sample sequence of a linear motion. A degenerate motion —
/// shorter than one coordinate unit, in particular a motion whose start
/// and end coincide — yields the start point alone.
pub open spec fn lin_points(s: Point3D, e: Point3D) -> Seq<Point3D> {
    let n = lin_steps(s, e);
    if n <= 0 {
        seq![s]
    } else {
        Seq::new((n + 1) as nat, |k: int| lin_point(s, e, k))
    }
}

proof fn lemma_dist_sq_bounds(s: Point3D, e: Point3D)
    requires
        s.wf(),
        e.wf(),
    ensures
        0 <= (e.x - s.x) * (e.x - s.x) <= (2 * VALUE_LIMIT as int) * (2 * VALUE_LIMIT as int),
        0 <= (e.y - s.y) * (e.y - s.y) <= (2 * VALUE_LIMIT as int) * (2 * VALUE_LIMIT as int),
        0 <= (e.z - s.z) * (e.z - s.z) <= (2 * VALUE_LIMIT as int) * (2 * VALUE_LIMIT as int),
        0 <= dist_sq(s, e) <= u128::MAX,
{
    let l = 2 * VALUE_LIMIT as int;
    assert(0 <= (e.x - s.x) * (e.x - s.x) <= l * l) by (nonlinear_arith)
        requires
            -l <= e.x - s.x <= l,
    ;
    assert(0 <= (e.y - s.y) * (e.y - s.y) <= l * l) by (nonlinear_arith)
        requires
            -l <= e.y - s.y <= l,
    ;
    assert(0 <= (e.z - s.z) * (e.z - s.z) <= l * l) by (nonlinear_arith)
        requires
            -l <= e.z - s.z <= l,
    ;
    assert(l == 200_000_000_000_000_000int);
    assert(3 * (200_000_000_000_000_000int * 200_000_000_000_000_000int) <= u128::MAX);
}

/// One truncated interpolation offset, computed from magnitudes.
fn lin_offset(base: i64, d: i64, k: u64, n: u64) -> (r: i64)
    requires
        n >= 1,
        k <= n,
        -(2 * VALUE_LIMIT as int) <= d as int <= 2 * VALUE_LIMIT as int,
        -(VALUE_LIMIT as int) <= base as int <= VALUE_LIMIT as int,
    ensures
        r as int == base + div_tz(d as int * k as int, n as int),
        -(3 * VALUE_LIMIT as int) <= r as int <= 3 * VALUE_LIMIT as int,
{
    let m: u64 = if d >= 0 {
        d as u64
    } else {
        (-(d as i128)) as u64
    };
    proof {
        assert((m as int) * (k as int) <= u128::MAX) by (nonlinear_arith)
            requires
                0 <= m as int <= u64::MAX as int,
                0 <= k as int <= u64::MAX as int,
                u128::MAX == (u64::MAX as int) * (u64::MAX as int) + 2 * (u64::MAX as int),
        ;
    }
    let prod: u128 = (m as u128) * (k as u128);
    let q: u128 = prod / (n as u128);
    proof {
        lemma_mul_inequality(k as int, n as int, m as int);
        assert((k as int) * (m as int) == (m as int) * (k as int)) by (nonlinear_arith);
        assert((n as int) * (m as int) == (m as int) * (n as int)) by (nonlinear_arith);
        lemma_div_is_ordered((m as int) * (k as int), (n as int) * (m as int), n as int);
        lemma_div_multiples_vanish(m as int, n as int);
        assert(q as int == ((m as int) * (k as int)) / (n as int));
        assert(q <= m);
    }
    if d >= 0 {
        base + (q as i64)
    } else {
        proof {
            assert(div_tz(d as int * k as int, n as int) == -(q as int)) by {
                assert(d as int * k as int == -((m as int) * (k as int))) by (nonlinear_arith)
                    requires
                        d < 0,
                        m as int == -(d as int),
                ;
            }
        }
        base - (q as i64)
    }
}

/// Samples a linear motion from `start` to `end`: the start point, then
/// one point per whole unit of distance, ending exactly at `end`; a
/// motion shorter than one unit yields the start point alone.
pub fn calculate_linear_positions(start: Point3D, end: Point3D) -> (pts: Vec<Point3D>)
    requires
        start.wf(),
        end.wf(),
    ensures
        pts@ == lin_points(start, end),
{
    proof {
        lemma_dist_sq_bounds(start, end);
    }
    let dx: i64 = end.x - start.x;
    let dy: i64 = end.y - start.y;
    let dz: i64 = end.z - start.z;
    let sx: u128 = sq_mag(dx);
    let sy: u128 = sq_mag(dy);
    let sz: u128 = sq_mag(dz);
    let root = isqrt_u128(sx + sy + sz);
    let n: u64 = root / (MICRO as u64);
    proof {
        assert(n as int == lin_steps(start, end));
        lemma_div_is_ordered(root as int, u64::MAX as int, 1_000_000);
        assert(n <= u64::MAX as int / 1_000_000);
    }
    let mut pts: Vec<Point3D> = Vec::new();
    if n == 0 {
        pts.push(start);
        proof {
            assert(pts@ =~= lin_points(start, end));
        }
        return pts;
    }
    let mut k: u64 = 0;
    while k <= n
        invariant
            start.wf(),
            end.wf(),
            n as int == lin_steps(start, end),
            1 <= n <= 18_446_744_073_709u64,
            dx as int == end.x - start.x,
            dy as int == end.y - start.y,
            dz as int == end.z - start.z,
            0 <= k <= n + 1,
            pts@.len() == k,
            forall|j: int| 0 <= j < k ==> pts@[j] == lin_point(start, end, j),
        decreases n + 1 - k,
    {
        let x = lin_offset(start.x, dx, k, n);
        let y = lin_offset(start.y, dy, k, n);
        let z = lin_offset(start.z, dz, k, n);
        pts.push(Point3D { x, y, z });
        k = k + 1;
    }
    proof {
        assert(pts@ =~= lin_points(start, end));
    }
    pts
}

/// A degenerate linear motion — its end at its start — has no extent to
/// divide by: it samples to exactly one point, the start itself.
pub proof fn lemma_degenerate_linear(s: Point3D)
    requires
        s.wf(),
    ensures
        lin_points(s, s) == seq![s],
{
    assert(dist_sq(s, s) == 0) by (nonlinear_arith);
    assert(is_floor_sqrt(0, 0));
    lemma_floor_sqrt_unique(0, 0, floor_sqrt(0));
    assert(lin_steps(s, s) == 0);
}

proof fn lemma_div_tz_exact(d: int, n: int)
    requires
        n >= 1,
    ensures
        div_tz(d * n, n) == d,
{
    if d >= 0 {
        lemma_div_multiples_vanish(d, n);
        assert(d * n == n * d) by (nonlinear_arith);
    } else {
        assert(-(d * n) == (-d) * n) by (nonlinear_arith);
        lemma_div_multiples_vanish(-d, n);
        assert((-d) * n == n * (-d)) by (nonlinear_arith);
    }
}

/// A non-degenerate linear motion starts exactly at `start` and ends
/// exactly at `end`: the first sample is the one, the last the other.
pub proof fn lemma_linear_endpoints(s: Point3D, e: Point3D)
    requires
        s.wf(),
        e.wf(),
        lin_steps(s, e) >= 1,
    ensures
        lin_points(s, e).len() == lin_steps(s, e) + 1,
        lin_points(s, e).first() == s,
        lin_points(s, e).last() == e,
{
    let n = lin_steps(s, e);
    assert((e.x - s.x) * 0 == 0) by (nonlinear_arith);
    assert((e.y - s.y) * 0 == 0) by (nonlinear_arith);
    assert((e.z - s.z) * 0 == 0) by (nonlinear_arith);
    lemma_div_multiples_vanish(0, n);
    assert(n * 0 == 0) by (nonlinear_arith);
    assert(div_tz(0, n) == 0);
    assert(lin_points(s, e).first() == lin_point(s, e, 0));
    assert(lin_point(s, e, 0) == s);
    lemma_div_tz_exact(e.x - s.x, n);
    lemma_div_tz_exact(e.y - s.y, n);
    lemma_div_tz_exact(e.z - s.z, n);
    assert(lin_points(s, e).last() == lin_point(s, e, n));
    assert(lin_point(s, e, n) == e);
}

proof fn lemma_div_tz_error(a: int, n: int)
    requires
        n >= 1,
    ensures
        -n < a - n * div_tz(a, n) < n,
{
    if a >= 0 {
        lemma_fundamental_div_mod(a, n);
        lemma_mod_bound(a, n);
    } else {
        lemma_fundamental_div_mod(-a, n);
        lemma_mod_bound(-a, n);
        assert(n * ((-a) / n) == -(n * (-((-a) / n)))) by (nonlinear_arith);
    }
}

/// Every sample of a non-degenerate linear motion lies on the segment:
/// the ideal offset from the start is the displacement scaled by
/// `k/steps` — so its cross product with the displacement vanishes —
/// and each emitted coordinate equals the ideal one truncated to a whole
/// micro-unit, an error of less than one micro-unit.
pub proof fn lemma_linear_on_segment(s: Point3D, e: Point3D, k: int)
    requires
        s.wf(),
        e.wf(),
        lin_steps(s, e) >= 1,
        0 <= k <= lin_steps(s, e),
    ensures
        ({
            let n = lin_steps(s, e);
            let p = lin_points(s, e)[k];
            // the ideal offsets are collinear with the displacement
            ((e.x - s.x) * k) * (e.y - s.y) == ((e.y - s.y) * k) * (e.x - s.x)
                && ((e.y - s.y) * k) * (e.z - s.z) == ((e.z - s.z) * k) * (e.y - s.y) && ((e.z
                - s.z) * k) * (e.x - s.x) == ((e.x - s.x) * k) * (e.z - s.z)
            // and each emitted coordinate is that offset over `n`, truncated
             && -n < (e.x - s.x) * k - n * (p.x - s.x) < n && -n < (e.y - s.y) * k - n * (p.y - s.y)
                < n && -n < (e.z - s.z) * k - n * (p.z - s.z) < n
        }),
{
    let n = lin_steps(s, e);
    assert(((e.x - s.x) * k) * (e.y - s.y) == ((e.y - s.y) * k) * (e.x - s.x))
        by (nonlinear_arith);
    assert(((e.y - s.y) * k) * (e.z - s.z) == ((e.z - s.z) * k) * (e.y - s.y))
        by (nonlinear_arith);
    assert(((e.z - s.z) * k) * (e.x - s.x) == ((e.x - s.x) * k) * (e.z - s.z))
        by (nonlinear_arith);
    lemma_div_tz_error((e.x - s.x) * k, n);
    lemma_div_tz_error((e.y - s.y) * k, n);
    lemma_div_tz_error((e.z - s.z) * k, n);
    lemma_lin_point_in_range(s, e, k);
    assert(lin_points(s, e)[k] == lin_point(s, e, k));
}

/// The truncated offsets never overshoot: each sample coordinate stays
/// between the corresponding start and end coordinates' envelope.
proof fn lemma_lin_point_in_range(s: Point3D, e: Point3D, k: int)
    requires
        s.wf(),
        e.wf(),
        lin_steps(s, e) >= 1,
        0 <= k <= lin_steps(s, e),
    ensures
        lin_point(s, e, k).x == s.x + div_tz((e.x - s.x) * k, lin_steps(s, e)),
        lin_point(s, e, k).y == s.y + div_tz((e.y - s.y) * k, lin_steps(s, e)),
        lin_point(s, e, k).z == s.z + div_tz((e.z - s.z) * k, lin_steps(s, e)),
{
    let n = lin_steps(s, e);
    lemma_div_tz_in_range(e.x - s.x, k, n);
    lemma_div_tz_in_range(e.y - s.y, k, n);
    lemma_div_tz_in_range(e.z - s.z, k, n);
}

proof fn lemma_div_tz_in_range(d: int, k: int, n: int)
    requires
        n >= 1,
        0 <= k <= n,
        -(2 * VALUE_LIMIT as int) <= d <= 2 * VALUE_LIMIT as int,
    ensures
        -(2 * VALUE_LIMIT as int) <= div_tz(d * k, n) <= 2 * VALUE_LIMIT as int,
{
    let m = if d >= 0 {
        d
    } else {
        -d
    };
    assert(m * k <= m * n) by (nonlinear_arith)
        requires
            0 <= k <= n,
            m >= 0,
    ;
    lemma_div_is_ordered(m * k, n * m, n);
    assert(n * m == m * n) by (nonlinear_arith);
    lemma_div_multiples_vanish(m, n);
    assert(m * k >= 0) by (nonlinear_arith)
        requires
            m >= 0,
            k >= 0,
    ;
    assert((m * k) / n >= 0);
    if d < 0 {
        assert(d * k == -(m * k)) by (nonlinear_arith)
            requires
                m == -d,
        ;
    }
}

/// Squared magnitude of a displacement component.
fn sq_mag(d: i64) -> (r: u128)
    ensures
        r as int == (d as int) * (d as int),
{
    let m: u64 = if d >= 0 {
        d as u64
    } else {
        (-(d as i128)) as u64
    };
    proof {
        assert((m as int) * (m as int) == (d as int) * (d as int)) by (nonlinear_arith)
            requires
                m as int == if d >= 0 {
                    d as int
                } else {
                    -(d as int)
                },
        ;
        assert((m as int) * (m as int) <= (u64::MAX as int) * (u64::MAX as int))
            by (nonlinear_arith)
            requires
                0 <= m as int <= u64::MAX as int,
        ;
        assert((u64::MAX as int) * (u64::MAX as int) <= u128::MAX as int) by (nonlinear_arith);
    }
    (m as u128) * (m as u128)
}

} // verus!
