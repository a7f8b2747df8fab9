//! Coordinate transform behaviour: scaling, inversion, projection and
//! checked narrowing.

use sde::coords::{narrow_checked, project_checked, project_nonzero_axes, scale_and_invert};
use sde::objects::{PlanarPoint, SdeError, SdeLine, SdePoint};

#[test]
fn scale_divides_each_axis_truncating() {
    let p = SdePoint::new(-7, 9, 100);
    let r = scale_and_invert(&p, 2, false);
    assert_eq!(r, SdePoint::new(-3, 4, 50));
}

#[test]
fn scale_then_invert_negates_after_division() {
    let p = SdePoint::new(-7, 9, 100);
    let r = scale_and_invert(&p, 2, true);
    assert_eq!(r, SdePoint::new(3, -4, -50));
}

#[test]
fn scale_with_unit_factor_keeps_values() {
    let p = SdePoint::new(5, -6, 0);
    assert_eq!(scale_and_invert(&p, 1, false), p);
    assert_eq!(scale_and_invert(&p, 1, true), SdePoint::new(-5, 6, 0));
}

#[test]
fn scale_with_large_factor_collapses_small_values() {
    let p = SdePoint::new(999, -999, 1000);
    let r = scale_and_invert(&p, 1000, false);
    assert_eq!(r, SdePoint::new(0, 0, 1));
}

#[test]
fn projection_uses_the_single_zero_axis_as_pivot() {
    // A zero Y axis projects onto (x, z).
    let p = SdePoint::new(3, 0, 5);
    assert_eq!(project_nonzero_axes(&p), Ok(PlanarPoint::new(3, 5)));
    // A zero X axis projects onto (y, z).
    let p = SdePoint::new(0, 4, 5);
    assert_eq!(project_nonzero_axes(&p), Ok(PlanarPoint::new(4, 5)));
    // A zero Z axis projects onto (x, y).
    let p = SdePoint::new(3, 4, 0);
    assert_eq!(project_nonzero_axes(&p), Ok(PlanarPoint::new(3, 4)));
}

#[test]
fn projection_with_no_zero_axis_is_ambiguous() {
    let p = SdePoint::new(3, 4, 5);
    assert_eq!(project_nonzero_axes(&p), Err(SdeError::ProjectionAmbiguous));
}

#[test]
fn projection_with_two_zero_axes_is_ambiguous() {
    let p = SdePoint::new(0, 0, 5);
    assert_eq!(project_nonzero_axes(&p), Err(SdeError::ProjectionAmbiguous));
    let p = SdePoint::new(0, 0, 0);
    assert_eq!(project_nonzero_axes(&p), Err(SdeError::ProjectionAmbiguous));
}

#[test]
fn narrowing_rejects_values_beyond_the_bound() {
    let p = SdePoint::new(1000, -1001, 0);
    assert_eq!(narrow_checked(&p, 1000), Err(SdeError::Overflow));
    assert_eq!(narrow_checked(&p, 1001), Ok(p));
}

#[test]
fn checked_projection_reports_overflow_before_ambiguity() {
    let p = SdePoint::new(2000, 3000, 4000);
    assert_eq!(project_checked(&p, 1000), Err(SdeError::Overflow));
    assert_eq!(project_checked(&p, 5000), Err(SdeError::ProjectionAmbiguous));
    let q = SdePoint::new(2000, 0, 4000);
    assert_eq!(project_checked(&q, 5000), Ok(PlanarPoint::new(2000, 4000)));
}

#[test]
fn midpoint_averages_each_axis_towards_zero() {
    let l = SdeLine::new(SdePoint::new(0, 0, 0), SdePoint::new(5, -5, 3));
    assert_eq!(l.midpoint(), SdePoint::new(2, -2, 1));
}

#[test]
fn line_keeps_its_endpoints() {
    let a = SdePoint::new(1, 2, 3);
    let b = SdePoint::new(4, 5, 6);
    let l = SdeLine::new(a, b);
    assert_eq!(l.a, a);
    assert_eq!(l.b, b);
}

#[test]
fn point_constructors_set_all_axes() {
    let p = SdePoint::new(1, 2, 3);
    assert_eq!((p.x, p.y, p.z), (1, 2, 3));
    let d = SdePoint::default();
    assert_eq!(d, SdePoint::new(0, 0, 0));
    let f = PlanarPoint::new(7, 8);
    assert_eq!((f.x, f.y), (7, 8));
}
