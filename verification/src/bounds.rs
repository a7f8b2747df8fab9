//! The per-region bounding-box aggregation.
//!
//! [`compute_region_areas`] folds the projected coordinates of every solar
//! system into one axis-aligned box per region.  Minimum and maximum are
//! associative, so the box of a region equals the box of its constellation
//! boxes; the fold here runs over the member systems directly.  When
//! inversion is requested the corners are swapped first and then both are
//! negated — in that order; the opposite order would produce a degenerate
//! box.

use vstd::prelude::*;

verus! {

use crate::objects::{EveRegionArea, SdePoint};

/// One row of the region-bounds query: a solar system's projected point
/// joined with its region and constellation.
#[derive(Clone, Debug)]
pub struct AreaRow {
    /// Identifier of the region the system lies in
    pub region: u32,
    /// Display name of that region
    pub region_name: String,
    /// Identifier of the constellation the system lies in
    pub constellation: u32,
    /// The system's raw projected coordinates
    pub point: SdePoint,
}

/// The larger of two mathematical integers.
pub open spec fn max_int(a: int, b: int) -> int {
    if a >= b {
        a
    } else {
        b
    }
}

/// The smaller of two mathematical integers.
pub open spec fn min_int(a: int, b: int) -> int {
    if a <= b {
        a
    } else {
        b
    }
}

/// The largest value of a non-empty sequence.
pub open spec fn seq_max(s: Seq<int>) -> int
    recommends
        s.len() > 0,
    decreases s.len(),
{
    if s.len() <= 1 {
        s[0]
    } else {
        max_int(seq_max(s.drop_last()), s.last())
    }
}

/// The smallest value of a non-empty sequence.
pub open spec fn seq_min(s: Seq<int>) -> int
    recommends
        s.len() > 0,
    decreases s.len(),
{
    if s.len() <= 1 {
        s[0]
    } else {
        min_int(seq_min(s.drop_last()), s.last())
    }
}

/// The maximum of a non-empty sequence is one of its values and bounds all
/// of them from above; the minimum mirrors this from below.
pub proof fn lemma_seq_extremes(s: Seq<int>)
    requires
        s.len() > 0,
    ensures
        s.contains(seq_max(s)),
        s.contains(seq_min(s)),
        forall|i: int| 0 <= i < s.len() ==> s[i] <= seq_max(s),
        forall|i: int| 0 <= i < s.len() ==> s[i] >= seq_min(s),
        seq_min(s) <= seq_max(s),
    decreases s.len(),
{
    if s.len() == 1 {
        assert(s[0] == seq_max(s));
        assert(s.contains(s[0]));
    } else {
        let prefix = s.drop_last();
        lemma_seq_extremes(prefix);
        if seq_max(s) == s.last() {
            assert(s.contains(s.last()));
        } else {
            let i = choose|i: int| 0 <= i < prefix.len() && prefix[i] == seq_max(prefix);
            assert(s[i] == seq_max(s));
        }
        if seq_min(s) == s.last() {
            assert(s.contains(s.last()));
        } else {
            let i = choose|i: int| 0 <= i < prefix.len() && prefix[i] == seq_min(prefix);
            assert(s[i] == seq_min(s));
        }
        assert(forall|i: int| 0 <= i < prefix.len() ==> s[i] == prefix[i]);
    }
}

/// The distinct regions of the rows, in order of first appearance.
pub open spec fn regions_of(rows: Seq<AreaRow>) -> Seq<u32>
    decreases rows.len(),
{
    if rows.len() == 0 {
        Seq::empty()
    } else {
        let rest = regions_of(rows.drop_last());
        if rest.contains(rows.last().region) {
            rest
        } else {
            rest.push(rows.last().region)
        }
    }
}

/// No region appears twice in [`regions_of`].
proof fn lemma_regions_of_distinct(rows: Seq<AreaRow>)
    ensures
        forall|k1: int, k2: int|
            0 <= k1 < k2 < regions_of(rows).len() ==> regions_of(rows)[k1] != regions_of(rows)[k2],
        forall|k: int|
            0 <= k < regions_of(rows).len() ==> regions_of(rows).contains(
                #[trigger] regions_of(rows)[k],
            ),
    decreases rows.len(),
{
    if rows.len() > 0 {
        lemma_regions_of_distinct(rows.drop_last());
        let rest = regions_of(rows.drop_last());
        let r = regions_of(rows);
        assert forall|k: int| 0 <= k < r.len() implies r.contains(#[trigger] r[k]) by {
            assert(r[k] == r[k]);
        }
        if !rest.contains(rows.last().region) {
            assert forall|k1: int, k2: int| 0 <= k1 < k2 < r.len() implies r[k1] != r[k2] by {
                if k2 == r.len() - 1 {
                    assert(rest.contains(rest[k1]));
                }
            }
        }
    }
}

/// One axis of a point, chosen by the callers below.
pub open spec fn sel_x() -> spec_fn(SdePoint) -> int {
    |p: SdePoint| p.x as int
}

/// The Y axis selector.
pub open spec fn sel_y() -> spec_fn(SdePoint) -> int {
    |p: SdePoint| p.y as int
}

/// The Z axis selector.
pub open spec fn sel_z() -> spec_fn(SdePoint) -> int {
    |p: SdePoint| p.z as int
}

/// The chosen axis of every point of one region, in row order.
pub open spec fn region_axis_vals(rows: Seq<AreaRow>, reg: u32, sel: spec_fn(SdePoint) -> int) -> Seq<
    int,
>
    decreases rows.len(),
{
    if rows.len() == 0 {
        Seq::empty()
    } else {
        let rest = region_axis_vals(rows.drop_last(), reg, sel);
        if rows.last().region == reg {
            rest.push(sel(rows.last().point))
        } else {
            rest
        }
    }
}

/// The display name carried by the first row of the region.
pub open spec fn first_region_name(rows: Seq<AreaRow>, reg: u32) -> Seq<char>
    decreases rows.len(),
{
    if rows.len() == 0 {
        Seq::empty()
    } else if regions_of(rows.drop_last()).contains(reg) || (rows.last().region != reg) {
        first_region_name(rows.drop_last(), reg)
    } else {
        rows.last().region_name@
    }
}

/// A region's raw box: every corner axis is the exact extreme of that
/// region's points on that axis.
pub open spec fn raw_area_exact(rows: Seq<AreaRow>, reg: u32, area: EveRegionArea) -> bool {
    &&& area.region_id == reg
    &&& area.name@ == first_region_name(rows, reg)
    &&& area.max.x == seq_max(region_axis_vals(rows, reg, sel_x()))
    &&& area.max.y == seq_max(region_axis_vals(rows, reg, sel_y()))
    &&& area.max.z == seq_max(region_axis_vals(rows, reg, sel_z()))
    &&& area.min.x == seq_min(region_axis_vals(rows, reg, sel_x()))
    &&& area.min.y == seq_min(region_axis_vals(rows, reg, sel_y()))
    &&& area.min.z == seq_min(region_axis_vals(rows, reg, sel_z()))
}

/// The inverted box of a raw box: corners swapped, then both negated.
pub open spec fn inverted_area_exact(rows: Seq<AreaRow>, reg: u32, area: EveRegionArea) -> bool {
    &&& area.region_id == reg
    &&& area.name@ == first_region_name(rows, reg)
    &&& area.max.x == -seq_min(region_axis_vals(rows, reg, sel_x()))
    &&& area.max.y == -seq_min(region_axis_vals(rows, reg, sel_y()))
    &&& area.max.z == -seq_min(region_axis_vals(rows, reg, sel_z()))
    &&& area.min.x == -seq_max(region_axis_vals(rows, reg, sel_x()))
    &&& area.min.y == -seq_max(region_axis_vals(rows, reg, sel_y()))
    &&& area.min.z == -seq_max(region_axis_vals(rows, reg, sel_z()))
}

/// Finds the area already opened for the region, if any.
fn find_region(out: &Vec<EveRegionArea>, reg: u32) -> (r: Option<usize>)
    ensures
        r is Some ==> 0 <= r.unwrap() < out@.len() && out@[r.unwrap() as int].region_id == reg,
        r is None ==> forall|k: int| 0 <= k < out@.len() ==> out@[k].region_id != reg,
{
    let n = out.len();
    let mut i: usize = 0;
    while i < n
        invariant
            n == out@.len(),
            0 <= i <= n,
            forall|k: int| 0 <= k < i ==> out@[k].region_id != reg,
        decreases n - i,
    {
        if out[i].region_id == reg {
            return Some(i);
        }
        i += 1;
    }
    None
}

/// Aggregates one axis-aligned bounding box per region over the projected
/// coordinates of the rows, one box per distinct region in order of first
/// appearance.  Without inversion each corner axis is the exact extreme of
/// the region's points; with inversion the corners are swapped and then
/// negated.  Either way every box satisfies `max >= min` on every axis.
pub fn compute_region_areas(rows: &Vec<AreaRow>, invert: bool) -> (out: Vec<EveRegionArea>)
    requires
        forall|i: int|
            0 <= i < rows@.len() ==> (#[trigger] rows@[i]).point.x > i64::MIN
                && rows@[i].point.y > i64::MIN && rows@[i].point.z > i64::MIN,
    ensures
        out@.len() == regions_of(rows@).len(),
        forall|k: int|
            0 <= k < out@.len() ==> {
                let reg = regions_of(rows@)[k];
                &&& (!invert ==> raw_area_exact(rows@, reg, #[trigger] out@[k]))
                &&& (invert ==> inverted_area_exact(rows@, reg, out@[k]))
                &&& out@[k].max.x >= out@[k].min.x
                &&& out@[k].max.y >= out@[k].min.y
                &&& out@[k].max.z >= out@[k].min.z
            },
{
    let n = rows.len();
    let mut out: Vec<EveRegionArea> = Vec::new();
    let mut i: usize = 0;
    while i < n
        invariant
            n == rows@.len(),
            0 <= i <= n,
            forall|j: int|
                0 <= j < rows@.len() ==> (#[trigger] rows@[j]).point.x > i64::MIN
                    && rows@[j].point.y > i64::MIN && rows@[j].point.z > i64::MIN,
            out@.len() == regions_of(rows@.subrange(0, i as int)).len(),
            forall|k: int|
                0 <= k < out@.len() ==> raw_area_exact(
                    rows@.subrange(0, i as int),
                    regions_of(rows@.subrange(0, i as int))[k],
                    #[trigger] out@[k],
                ),
            forall|k1: int, k2: int| 0 <= k1 < k2 < out@.len() ==> out@[k1].region_id
                != out@[k2].region_id,
        decreases n - i,
    {
        let ghost prefix = rows@.subrange(0, i as int);
        let ghost longer = rows@.subrange(0, i + 1);
        proof {
            assert(longer.drop_last() =~= prefix);
            assert(longer.last() == rows@[i as int]);
            lemma_regions_of_distinct(prefix);
        }
        let reg = rows[i].region;
        match find_region(&out, reg) {
            Some(k) => {
                proof {
                    assert(regions_of(prefix).contains(reg)) by {
                        assert(regions_of(prefix)[k as int] == reg);
                    }
                    assert(regions_of(longer) == regions_of(prefix));
                }
                let x = rows[i].point.x;
                let y = rows[i].point.y;
                let z = rows[i].point.z;
                let old_area = &out[k];
                let updated = EveRegionArea {
                    region_id: old_area.region_id,
                    name: old_area.name.clone(),
                    min: SdePoint::new(
                        if x < old_area.min.x {
                            x
                        } else {
                            old_area.min.x
                        },
                        if y < old_area.min.y {
                            y
                        } else {
                            old_area.min.y
                        },
                        if z < old_area.min.z {
                            z
                        } else {
                            old_area.min.z
                        },
                    ),
                    max: SdePoint::new(
                        if x > old_area.max.x {
                            x
                        } else {
                            old_area.max.x
                        },
                        if y > old_area.max.y {
                            y
                        } else {
                            old_area.max.y
                        },
                        if z > old_area.max.z {
                            z
                        } else {
                            old_area.max.z
                        },
                    ),
                };
                let ghost out_before = out@;
                out.set(k, updated);
                proof {
                    lemma_region_occurs(prefix, reg);
                    let xi = rows@[i as int].point.x as int;
                    let yi = rows@[i as int].point.y as int;
                    let zi = rows@[i as int].point.z as int;
                    let vx = region_axis_vals(prefix, reg, sel_x());
                    let vy = region_axis_vals(prefix, reg, sel_y());
                    let vz = region_axis_vals(prefix, reg, sel_z());
                    assert(region_axis_vals(longer, reg, sel_x()) == vx.push(xi));
                    assert(region_axis_vals(longer, reg, sel_y()) == vy.push(yi));
                    assert(region_axis_vals(longer, reg, sel_z()) == vz.push(zi));
                    assert(vx.push(xi).drop_last() =~= vx);
                    assert(vy.push(yi).drop_last() =~= vy);
                    assert(vz.push(zi).drop_last() =~= vz);
                    assert(seq_max(vx.push(xi)) == max_int(seq_max(vx), xi));
                    assert(seq_max(vy.push(yi)) == max_int(seq_max(vy), yi));
                    assert(seq_max(vz.push(zi)) == max_int(seq_max(vz), zi));
                    assert(seq_min(vx.push(xi)) == min_int(seq_min(vx), xi));
                    assert(seq_min(vy.push(yi)) == min_int(seq_min(vy), yi));
                    assert(seq_min(vz.push(zi)) == min_int(seq_min(vz), zi));
                    assert forall|k2: int| 0 <= k2 < out@.len() implies raw_area_exact(
                        longer,
                        regions_of(longer)[k2],
                        #[trigger] out@[k2],
                    ) by {
                        let r2 = regions_of(longer)[k2];
                        assert(raw_area_exact(prefix, regions_of(prefix)[k2], out_before[k2]));
                        if k2 == k as int {
                            assert(r2 == reg);
                            assert(first_region_name(longer, reg) == first_region_name(
                                prefix,
                                reg,
                            ));
                        } else {
                            assert(out@[k2] == out_before[k2]);
                            assert(raw_area_exact(prefix, regions_of(prefix)[k2], out@[k2]));
                            assert(out@[k2].region_id != reg);
                            assert(r2 != reg);
                            assert(regions_of(prefix).contains(r2)) by {
                                assert(regions_of(prefix)[k2] == r2);
                            }
                            assert(region_axis_vals(longer, r2, sel_x()) == region_axis_vals(
                                prefix,
                                r2,
                                sel_x(),
                            ));
                            assert(first_region_name(longer, r2) == first_region_name(
                                prefix,
                                r2,
                            ));
                        }
                    }
                }
            },
            None => {
                proof {
                    assert(!regions_of(prefix).contains(reg)) by {
                        if regions_of(prefix).contains(reg) {
                            let k = choose|k: int|
                                0 <= k < regions_of(prefix).len() && regions_of(prefix)[k] == reg;
                            assert(out@[k].region_id == reg);
                        }
                    }
                    assert(regions_of(longer) == regions_of(prefix).push(reg));
                }
                let area = EveRegionArea {
                    region_id: reg,
                    name: rows[i].region_name.clone(),
                    min: rows[i].point,
                    max: rows[i].point,
                };
                out.push(area);
                proof {
                    assert forall|k2: int| 0 <= k2 < out@.len() implies raw_area_exact(
                        longer,
                        regions_of(longer)[k2],
                        #[trigger] out@[k2],
                    ) by {
                        let r2 = regions_of(longer)[k2];
                        if k2 == out@.len() - 1 {
                            assert(r2 == reg);
                            assert(region_axis_vals(prefix, reg, sel_x())
                                =~= Seq::<int>::empty()) by {
                                lemma_region_vals_absent(prefix, reg, sel_x());
                            }
                            assert(region_axis_vals(prefix, reg, sel_y())
                                =~= Seq::<int>::empty()) by {
                                lemma_region_vals_absent(prefix, reg, sel_y());
                            }
                            assert(region_axis_vals(prefix, reg, sel_z())
                                =~= Seq::<int>::empty()) by {
                                lemma_region_vals_absent(prefix, reg, sel_z());
                            }
                        } else {
                            assert(regions_of(longer)[k2] == regions_of(prefix)[k2]);
                            assert(out@[k2].region_id != reg) by {
                                assert(raw_area_exact(prefix, regions_of(prefix)[k2], out@[k2]));
                                lemma_regions_of_distinct(prefix);
                            }
                            assert(r2 != reg);
                        }
                    }
                }
            },
        }
        i += 1;
    }
    proof {
        assert(rows@.subrange(0, n as int) =~= rows@);
    }
    if invert {
        let m = out.len();
        let mut inverted: Vec<EveRegionArea> = Vec::new();
        let mut k: usize = 0;
        while k < m
            invariant
                m == out@.len(),
                0 <= k <= m,
                out@.len() == regions_of(rows@).len(),
                forall|j: int|
                    0 <= j < rows@.len() ==> (#[trigger] rows@[j]).point.x > i64::MIN
                        && rows@[j].point.y > i64::MIN && rows@[j].point.z > i64::MIN,
                forall|j: int|
                    0 <= j < out@.len() ==> raw_area_exact(
                        rows@,
                        regions_of(rows@)[j],
                        #[trigger] out@[j],
                    ),
                inverted@.len() == k,
                forall|j: int|
                    0 <= j < k ==> inverted_area_exact(
                        rows@,
                        regions_of(rows@)[j],
                        #[trigger] inverted@[j],
                    ) && inverted@[j].max.x >= inverted@[j].min.x && inverted@[j].max.y
                        >= inverted@[j].min.y && inverted@[j].max.z >= inverted@[j].min.z,
            decreases m - k,
        {
            proof {
                lemma_area_bounds(rows@, regions_of(rows@)[k as int]);
            }
            let a = &out[k];
            // Swap the corners, then negate both: the old maximum becomes
            // the new minimum and the order of the two steps is load-bearing.
            let new_area = EveRegionArea {
                region_id: a.region_id,
                name: a.name.clone(),
                min: SdePoint::new(-a.max.x, -a.max.y, -a.max.z),
                max: SdePoint::new(-a.min.x, -a.min.y, -a.min.z),
            };
            inverted.push(new_area);
            k += 1;
        }
        inverted
    } else {
        proof {
            assert forall|k: int| 0 <= k < out@.len() implies out@[k].max.x >= out@[k].min.x
                && out@[k].max.y >= out@[k].min.y && out@[k].max.z >= out@[k].min.z by {
                lemma_area_bounds(rows@, regions_of(rows@)[k]);
            }
        }
        out
    }
}

/// A region that never occurs contributes no axis values.
proof fn lemma_region_vals_absent(rows: Seq<AreaRow>, reg: u32, sel: spec_fn(SdePoint) -> int)
    requires
        !regions_of(rows).contains(reg),
    ensures
        region_axis_vals(rows, reg, sel) == Seq::<int>::empty(),
    decreases rows.len(),
{
    if rows.len() > 0 {
        let rest = regions_of(rows.drop_last());
        assert(!rest.contains(reg)) by {
            if rest.contains(reg) {
                let k = choose|k: int| 0 <= k < rest.len() && rest[k] == reg;
                if rest.contains(rows.last().region) {
                    assert(regions_of(rows)[k] == reg);
                } else {
                    assert(regions_of(rows)[k] == reg);
                }
            }
        }
        lemma_region_vals_absent(rows.drop_last(), reg, sel);
        assert(rows.last().region != reg) by {
            if rows.last().region == reg {
                let r = regions_of(rows);
                if rest.contains(reg) {
                } else {
                    assert(r[r.len() - 1] == reg);
                }
            }
        }
    }
}

/// A region listed by [`regions_of`] has at least one point, and the
/// extremes of its axis values lie strictly above `i64::MIN` and within the
/// machine range whenever all points do.
proof fn lemma_area_bounds(rows: Seq<AreaRow>, reg: u32)
    requires
        regions_of(rows).contains(reg),
        forall|i: int|
            0 <= i < rows.len() ==> (#[trigger] rows[i]).point.x > i64::MIN && rows[i].point.y
                > i64::MIN && rows[i].point.z > i64::MIN,
    ensures
        region_axis_vals(rows, reg, sel_x()).len() > 0,
        region_axis_vals(rows, reg, sel_y()).len() > 0,
        region_axis_vals(rows, reg, sel_z()).len() > 0,
        i64::MIN < seq_min(region_axis_vals(rows, reg, sel_x())) <= seq_max(
            region_axis_vals(rows, reg, sel_x()),
        ) <= i64::MAX,
        i64::MIN < seq_min(region_axis_vals(rows, reg, sel_y())) <= seq_max(
            region_axis_vals(rows, reg, sel_y()),
        ) <= i64::MAX,
        i64::MIN < seq_min(region_axis_vals(rows, reg, sel_z())) <= seq_max(
            region_axis_vals(rows, reg, sel_z()),
        ) <= i64::MAX,
{
    lemma_region_occurs(rows, reg);
    lemma_vals_in_range(rows, reg, sel_x());
    lemma_vals_in_range(rows, reg, sel_y());
    lemma_vals_in_range(rows, reg, sel_z());
    lemma_seq_extremes(region_axis_vals(rows, reg, sel_x()));
    lemma_seq_extremes(region_axis_vals(rows, reg, sel_y()));
    lemma_seq_extremes(region_axis_vals(rows, reg, sel_z()));
}

/// A region listed by [`regions_of`] occurs in some row, so each of its
/// axis-value sequences is non-empty.
proof fn lemma_region_occurs(rows: Seq<AreaRow>, reg: u32)
    requires
        regions_of(rows).contains(reg),
    ensures
        region_axis_vals(rows, reg, sel_x()).len() > 0,
        region_axis_vals(rows, reg, sel_y()).len() > 0,
        region_axis_vals(rows, reg, sel_z()).len() > 0,
    decreases rows.len(),
{
    if rows.len() > 0 {
        if rows.last().region == reg {
        } else {
            assert(regions_of(rows.drop_last()).contains(reg)) by {
                let rest = regions_of(rows.drop_last());
                let k = choose|k: int|
                    0 <= k < regions_of(rows).len() && regions_of(rows)[k] == reg;
                if rest.contains(rows.last().region) {
                } else {
                    assert(k < regions_of(rows).len() - 1);
                }
            }
            lemma_region_occurs(rows.drop_last(), reg);
        }
    }
}

/// Every collected axis value comes from some row's point.
proof fn lemma_vals_in_range(rows: Seq<AreaRow>, reg: u32, sel: spec_fn(SdePoint) -> int)
    ensures
        forall|k: int|
            0 <= k < region_axis_vals(rows, reg, sel).len() ==> exists|i: int|
                0 <= i < rows.len() && #[trigger] region_axis_vals(rows, reg, sel)[k] == sel(
                    rows[i].point,
                ),
    decreases rows.len(),
{
    if rows.len() > 0 {
        lemma_vals_in_range(rows.drop_last(), reg, sel);
        let vals = region_axis_vals(rows, reg, sel);
        let rest = region_axis_vals(rows.drop_last(), reg, sel);
        assert forall|k: int| 0 <= k < vals.len() implies exists|i: int|
            0 <= i < rows.len() && #[trigger] vals[k] == sel(rows[i].point) by {
            if rows.last().region == reg && k == vals.len() - 1 {
                assert(vals[k] == sel(rows[rows.len() - 1].point));
            } else {
                assert(vals[k] == rest[k]);
                let i = choose|i: int|
                    0 <= i < rows.drop_last().len() && #[trigger] rest[k] == sel(
                        rows.drop_last()[i].point,
                    );
                assert(vals[k] == sel(rows[i].point));
            }
        }
    }
}

} // verus!
