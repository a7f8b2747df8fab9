//! The integer coordinate transform: scaling, optional inversion and
//! axis-projection.
//!
//! Every call site uses the same canonical order: each axis is divided by the
//! scale factor with truncating integer division first, and negated afterwards
//! if inversion is requested.

use vstd::prelude::*;

verus! {

use crate::objects::{PlanarPoint, SdeError, SdePoint};

/// Truncating integer division, the semantics of the `/` operator on the
/// machine integers: the quotient is rounded towards zero.
pub open spec fn div_trunc(a: int, b: int) -> int {
    if a >= 0 {
        a / b
    } else {
        -((-a) / b)
    }
}

/// One axis of the canonical transform: divide by the scale factor first,
/// then negate if inversion is requested.
pub open spec fn axis_transformed(a: int, factor: int, invert: bool) -> int {
    if invert {
        -div_trunc(a, factor)
    } else {
        div_trunc(a, factor)
    }
}

/// The whole-point image of [`scale_and_invert`].
pub open spec fn point_transformed(p: SdePoint, factor: int, invert: bool) -> SdePoint {
    SdePoint {
        x: axis_transformed(p.x as int, factor, invert) as i64,
        y: axis_transformed(p.y as int, factor, invert) as i64,
        z: axis_transformed(p.z as int, factor, invert) as i64,
    }
}

/// The whole-point image of [`scale_and_invert_planar`].
pub open spec fn planar_transformed(p: PlanarPoint, factor: int, invert: bool) -> PlanarPoint {
    PlanarPoint {
        x: axis_transformed(p.x as int, factor, invert) as i64,
        y: axis_transformed(p.y as int, factor, invert) as i64,
    }
}

/// Divides both axes of a planar point by `factor` with truncating
/// division, then negates both iff `invert` is set — the same canonical
/// order as [`scale_and_invert`].
pub fn scale_and_invert_planar(p: &PlanarPoint, factor: u64, invert: bool) -> (r: PlanarPoint)
    requires
        0 < factor <= i64::MAX,
        p.x > i64::MIN,
        p.y > i64::MIN,
    ensures
        r == planar_transformed(*p, factor as int, invert),
        r.x == axis_transformed(p.x as int, factor as int, invert),
        r.y == axis_transformed(p.y as int, factor as int, invert),
{
    let f = factor as i64;
    let x = scale_axis(p.x, f);
    let y = scale_axis(p.y, f);
    if invert {
        PlanarPoint { x: -x, y: -y }
    } else {
        PlanarPoint { x, y }
    }
}

/// How many axes of the point are exactly zero.
pub open spec fn num_zero_axes(p: SdePoint) -> int {
    (if p.x == 0 {
        1int
    } else {
        0int
    }) + (if p.y == 0 {
        1int
    } else {
        0int
    }) + (if p.z == 0 {
        1int
    } else {
        0int
    })
}

/// Divides every axis of `p` by `factor` with truncating division, then
/// negates every axis iff `invert` is set.  Division always happens before
/// negation; no call site may use the opposite order.
pub fn scale_and_invert(p: &SdePoint, factor: u64, invert: bool) -> (r: SdePoint)
    requires
        0 < factor <= i64::MAX,
        p.x > i64::MIN,
        p.y > i64::MIN,
        p.z > i64::MIN,
    ensures
        r == point_transformed(*p, factor as int, invert),
        r.x == axis_transformed(p.x as int, factor as int, invert),
        r.y == axis_transformed(p.y as int, factor as int, invert),
        r.z == axis_transformed(p.z as int, factor as int, invert),
        !invert ==> r.x == div_trunc(p.x as int, factor as int) && r.y == div_trunc(
            p.y as int,
            factor as int,
        ) && r.z == div_trunc(p.z as int, factor as int),
        invert ==> r.x == -div_trunc(p.x as int, factor as int) && r.y == -div_trunc(
            p.y as int,
            factor as int,
        ) && r.z == -div_trunc(p.z as int, factor as int),
{
    let f = factor as i64;
    let x = scale_axis(p.x, f);
    let y = scale_axis(p.y, f);
    let z = scale_axis(p.z, f);
    if invert {
        SdePoint { x: -x, y: -y, z: -z }
    } else {
        SdePoint { x, y, z }
    }
}

/// Divides one axis by a positive factor with truncating division.
fn scale_axis(a: i64, f: i64) -> (q: i64)
    requires
        f > 0,
        a > i64::MIN,
    ensures
        q == div_trunc(a as int, f as int),
        -abs_int(a as int) <= q <= abs_int(a as int),
        q > i64::MIN,
{
    proof {
        lemma_div_trunc_bounds(a as int, f as int);
    }
    a / f
}

/// The absolute value of a mathematical integer.
pub open spec fn abs_int(a: int) -> int {
    if a >= 0 {
        a
    } else {
        -a
    }
}

/// Truncating division by a positive factor never grows the magnitude.
proof fn lemma_div_trunc_bounds(a: int, f: int)
    requires
        f > 0,
    ensures
        -abs_int(a) <= div_trunc(a, f) <= abs_int(a),
        a >= 0 ==> 0 <= div_trunc(a, f) <= a,
        a < 0 ==> a <= div_trunc(a, f) <= 0,
{
    if a >= 0 {
        assert(0 <= a / f <= a) by (nonlinear_arith)
            requires
                a >= 0 && f > 0,
        ;
    } else {
        assert(0 <= (-a) / f <= -a) by (nonlinear_arith)
            requires
                -a >= 0 && f > 0,
        ;
    }
}

/// Projects the point onto the plane spanned by its two nonzero axes.
///
/// Exactly one axis must be structurally zero for the projection to be
/// unambiguous; the two remaining axes are returned in their original order.
/// With no zero axis, or with more than one, there is no unique camera plane
/// and the call fails with [`SdeError::ProjectionAmbiguous`].
pub fn project_nonzero_axes(p: &SdePoint) -> (r: Result<PlanarPoint, SdeError>)
    ensures
        r is Ok <==> num_zero_axes(*p) == 1,
        p.x == 0 && p.y != 0 && p.z != 0 ==> r == Ok::<PlanarPoint, SdeError>(
            PlanarPoint { x: p.y, y: p.z },
        ),
        p.y == 0 && p.x != 0 && p.z != 0 ==> r == Ok::<PlanarPoint, SdeError>(
            PlanarPoint { x: p.x, y: p.z },
        ),
        p.z == 0 && p.x != 0 && p.y != 0 ==> r == Ok::<PlanarPoint, SdeError>(
            PlanarPoint { x: p.x, y: p.y },
        ),
        r is Err ==> r == Err::<PlanarPoint, SdeError>(SdeError::ProjectionAmbiguous),
{
    let zeroes = (if p.x == 0 {
        1u8
    } else {
        0u8
    }) + (if p.y == 0 {
        1u8
    } else {
        0u8
    }) + (if p.z == 0 {
        1u8
    } else {
        0u8
    });
    if zeroes != 1 {
        Err(SdeError::ProjectionAmbiguous)
    } else if p.x == 0 {
        Ok(PlanarPoint { x: p.y, y: p.z })
    } else if p.y == 0 {
        Ok(PlanarPoint { x: p.x, y: p.z })
    } else {
        Ok(PlanarPoint { x: p.x, y: p.y })
    }
}

/// True when every axis of the point fits the symmetric range `[-bound, bound]`.
pub open spec fn within_bound(p: SdePoint, bound: int) -> bool {
    &&& abs_int(p.x as int) <= bound
    &&& abs_int(p.y as int) <= bound
    &&& abs_int(p.z as int) <= bound
}

/// Checks that the point can be narrowed to a representation whose axes are
/// limited to `[-bound, bound]`; a magnitude beyond the bound is reported as
/// [`SdeError::Overflow`] rather than silently truncated.
pub fn narrow_checked(p: &SdePoint, bound: i64) -> (r: Result<SdePoint, SdeError>)
    requires
        bound >= 0,
        p.x > i64::MIN,
        p.y > i64::MIN,
        p.z > i64::MIN,
    ensures
        r is Ok <==> within_bound(*p, bound as int),
        r is Ok ==> r == Ok::<SdePoint, SdeError>(*p),
        r is Err ==> r == Err::<SdePoint, SdeError>(SdeError::Overflow),
{
    if p.x > bound || p.x < -bound || p.y > bound || p.y < -bound || p.z > bound || p.z < -bound {
        Err(SdeError::Overflow)
    } else {
        Ok(*p)
    }
}

/// Narrows and projects in one step: the bound check runs first, so a point
/// that is both out of range and ambiguous reports [`SdeError::Overflow`].
pub fn project_checked(p: &SdePoint, bound: i64) -> (r: Result<PlanarPoint, SdeError>)
    requires
        bound >= 0,
        p.x > i64::MIN,
        p.y > i64::MIN,
        p.z > i64::MIN,
    ensures
        r is Ok <==> within_bound(*p, bound as int) && num_zero_axes(*p) == 1,
        !within_bound(*p, bound as int) ==> r == Err::<PlanarPoint, SdeError>(SdeError::Overflow),
        within_bound(*p, bound as int) && num_zero_axes(*p) != 1 ==> r == Err::<
            PlanarPoint,
            SdeError,
        >(SdeError::ProjectionAmbiguous),
        r is Ok && p.x == 0 ==> r == Ok::<PlanarPoint, SdeError>(PlanarPoint { x: p.y, y: p.z }),
        r is Ok && p.y == 0 ==> r == Ok::<PlanarPoint, SdeError>(PlanarPoint { x: p.x, y: p.z }),
        r is Ok && p.z == 0 ==> r == Ok::<PlanarPoint, SdeError>(PlanarPoint { x: p.x, y: p.y }),
{
    match narrow_checked(p, bound) {
        Ok(q) => project_nonzero_axes(&q),
        Err(e) => Err(e),
    }
}

} // verus!
