//! The renderer-facing point and line extraction.
//!
//! [`extract_system_points`] turns solar-system rows from the known-space id
//! band into map points, applying the canonical coordinate transform for the
//! requested dimensionality.  [`attach_connections`] merges connection ids
//! into the points without touching systems the edge set does not mention.
//! [`build_map_lines`] produces one line per connection id, endpoints
//! transformed the same canonical way.

use vstd::prelude::*;
use std::collections::HashMap;

verus! {

broadcast use vstd::std_specs::hash::group_hash_axioms;

use crate::coords::{planar_transformed, point_transformed, scale_and_invert,
    scale_and_invert_planar};
use crate::objects::{PlanarPoint, SdePoint};

/// The lowest solar-system id of known space.
pub const KSPACE_LOWER: u32 = 30000000;

/// The highest solar-system id of known space.
pub const KSPACE_UPPER: u32 = 30999999;

/// True for ids inside the inclusive known-space band.
pub open spec fn in_band(id: u32) -> bool {
    KSPACE_LOWER <= id <= KSPACE_UPPER
}

/// One row of the solar-system point query.
#[derive(Clone, Debug)]
pub struct PointRow {
    /// Solar system identifier
    pub id: u32,
    /// Raw projected coordinates
    pub projected: SdePoint,
    /// Display name
    pub name: String,
}

/// A renderer-facing point: its transformed coordinates, one entry per
/// requested dimension, its display name and the ids of the connection
/// lines that touch it.
#[derive(Clone, Debug)]
pub struct SdeMapPoint {
    /// Solar system identifier
    pub id: u32,
    /// Transformed coordinates, two or three entries
    pub coords: Vec<i64>,
    /// Display name
    pub name: String,
    /// Ids of the connection lines incident to the system
    pub connections: Vec<String>,
}

/// One row of the connection query used to attach line ids to points.
#[derive(Clone, Debug)]
pub struct EdgeRow {
    /// The export's connection identifier
    pub id: String,
    /// One endpoint system
    pub system_a: u32,
    /// The other endpoint system
    pub system_b: u32,
}

/// One row of the line query: a connection id with both endpoints' raw
/// planar coordinates.
#[derive(Clone, Debug)]
pub struct LineRow {
    /// The export's connection identifier
    pub id: String,
    /// Raw planar coordinates of the first endpoint
    pub a: PlanarPoint,
    /// Raw planar coordinates of the second endpoint
    pub b: PlanarPoint,
}

/// A renderer-facing line between two transformed planar points.
#[derive(Clone, Debug)]
pub struct SdeMapLine {
    /// The export's connection identifier
    pub id: String,
    /// Transformed first endpoint
    pub a: PlanarPoint,
    /// Transformed second endpoint
    pub b: PlanarPoint,
}

/// True when some row of the band carries the id.
pub open spec fn band_point_exists(rows: Seq<PointRow>, id: u32) -> bool {
    in_band(id) && exists|i: int| 0 <= i < rows.len() && rows[i].id == id
}

/// The last row carrying the id; later rows win when the export repeats an
/// id, matching a plain map insert per row.
pub open spec fn last_row_with(rows: Seq<PointRow>, id: u32) -> PointRow
    recommends
        exists|i: int| 0 <= i < rows.len() && rows[i].id == id,
    decreases rows.len(),
{
    if rows.len() == 0 {
        rows[0]
    } else if rows.last().id == id {
        rows.last()
    } else {
        last_row_with(rows.drop_last(), id)
    }
}

/// The transformed coordinate list of a raw point: the planar pair for two
/// dimensions, all three axes otherwise.
pub open spec fn coords_for(p: SdePoint, factor: u64, invert: bool, dimension: u8) -> Seq<i64> {
    let t = point_transformed(p, factor as int, invert);
    if dimension == 2 {
        seq![t.x, t.z]
    } else {
        seq![t.x, t.y, t.z]
    }
}

/// Extracts one map point per known-space system row: rows outside the
/// inclusive id band are dropped, coordinates are transformed canonically
/// (divide, then invert) for the requested dimensionality, and the display
/// name is attached.  Every point starts with no connections.
pub fn extract_system_points(
    rows: &Vec<PointRow>,
    factor: u64,
    invert: bool,
    dimension: u8,
) -> (out: HashMap<u32, SdeMapPoint>)
    requires
        0 < factor <= i64::MAX,
        dimension == 2 || dimension == 3,
        forall|i: int|
            0 <= i < rows@.len() ==> (#[trigger] rows@[i]).projected.x > i64::MIN
                && rows@[i].projected.y > i64::MIN && rows@[i].projected.z > i64::MIN,
    ensures
        forall|id: u32| #[trigger] out@.contains_key(id) <==> band_point_exists(rows@, id),
        forall|id: u32|
            #[trigger] out@.contains_key(id) ==> {
                let row = last_row_with(rows@, id);
                &&& out@[id].id == id
                &&& out@[id].name@ == row.name@
                &&& out@[id].connections@ == Seq::<String>::empty()
                &&& out@[id].coords@ == coords_for(row.projected, factor, invert, dimension)
            },
{
    let n = rows.len();
    let mut out: HashMap<u32, SdeMapPoint> = HashMap::new();
    let mut i: usize = 0;
    while i < n
        invariant
            n == rows@.len(),
            0 <= i <= n,
            0 < factor <= i64::MAX,
            dimension == 2 || dimension == 3,
            forall|j: int|
                0 <= j < rows@.len() ==> (#[trigger] rows@[j]).projected.x > i64::MIN
                    && rows@[j].projected.y > i64::MIN && rows@[j].projected.z > i64::MIN,
            forall|id: u32|
                #[trigger] out@.contains_key(id) <==> band_point_exists(
                    rows@.subrange(0, i as int),
                    id,
                ),
            forall|id: u32|
                #[trigger] out@.contains_key(id) ==> {
                    let row = last_row_with(rows@.subrange(0, i as int), id);
                    &&& out@[id].id == id
                    &&& out@[id].name@ == row.name@
                    &&& out@[id].connections@ == Seq::<String>::empty()
                    &&& out@[id].coords@ == coords_for(row.projected, factor, invert, dimension)
                },
        decreases n - i,
    {
        let ghost prefix = rows@.subrange(0, i as int);
        let ghost longer = rows@.subrange(0, i + 1);
        proof {
            assert(longer.drop_last() =~= prefix);
            assert(longer.last() == rows@[i as int]);
            assert forall|id: u32| band_point_exists(prefix, id) implies band_point_exists(
                longer,
                id,
            ) by {
                let k = choose|k: int| 0 <= k < prefix.len() && prefix[k].id == id;
                assert(longer[k].id == id);
            }
            assert forall|id: u32|
                band_point_exists(longer, id) && id != rows@[i as int].id implies band_point_exists(
                prefix,
                id,
            ) by {
                let k = choose|k: int| 0 <= k < longer.len() && longer[k].id == id;
                assert(prefix[k].id == id);
            }
        }
        let row = &rows[i];
        if KSPACE_LOWER <= row.id && row.id <= KSPACE_UPPER {
            let t = scale_and_invert(&row.projected, factor, invert);
            let mut coords: Vec<i64> = Vec::new();
            coords.push(t.x);
            if dimension == 3 {
                coords.push(t.y);
            }
            coords.push(t.z);
            proof {
                assert(coords@ =~= coords_for(row.projected, factor, invert, dimension));
            }
            let point = SdeMapPoint {
                id: row.id,
                coords,
                name: row.name.clone(),
                connections: Vec::new(),
            };
            out.insert(row.id, point);
        }
        i += 1;
    }
    proof {
        assert(rows@.subrange(0, n as int) =~= rows@);
    }
    out
}

/// The character views of a list of strings.
pub open spec fn str_views(s: Seq<String>) -> Seq<Seq<char>>
    decreases s.len(),
{
    if s.len() == 0 {
        Seq::empty()
    } else {
        str_views(s.drop_last()).push(s.last()@)
    }
}

/// The ids of the edges incident to a system, in edge order; an edge whose
/// two endpoints are the same system contributes its id twice.
pub open spec fn incident_lines(edges: Seq<EdgeRow>, sys: u32) -> Seq<Seq<char>>
    decreases edges.len(),
{
    if edges.len() == 0 {
        Seq::empty()
    } else {
        let rest = incident_lines(edges.drop_last(), sys);
        let e = edges.last();
        let with_a = if e.system_a == sys {
            rest.push(e.id@)
        } else {
            rest
        };
        if e.system_b == sys {
            with_a.push(e.id@)
        } else {
            with_a
        }
    }
}

/// Pushing a string onto a list appends its view.
proof fn lemma_str_views_push(s: Seq<String>, e: String)
    ensures
        str_views(s.push(e)) == str_views(s).push(e@),
{
    assert(s.push(e).drop_last() =~= s);
    assert(s.push(e).last() == e);
}

/// Merges connection-line ids into the points: each edge appends its id to
/// both endpoints that exist in the map.  Points the edge set does not
/// mention keep their (possibly empty) list; none is overwritten or
/// dropped.
pub fn attach_connections(points: HashMap<u32, SdeMapPoint>, edges: &Vec<EdgeRow>) -> (out: HashMap<
    u32,
    SdeMapPoint,
>)
    ensures
        forall|k: u32| #[trigger] out@.contains_key(k) <==> points@.contains_key(k),
        forall|k: u32|
            #[trigger] out@.contains_key(k) ==> {
                &&& out@[k].id == points@[k].id
                &&& out@[k].name@ == points@[k].name@
                &&& out@[k].coords@ == points@[k].coords@
                &&& str_views(out@[k].connections@) == str_views(points@[k].connections@)
                    + incident_lines(edges@, k)
            },
{
    let n = edges.len();
    let mut out = points;
    let mut i: usize = 0;
    while i < n
        invariant
            n == edges@.len(),
            0 <= i <= n,
            forall|k: u32| #[trigger] out@.contains_key(k) <==> points@.contains_key(k),
            forall|k: u32|
                #[trigger] out@.contains_key(k) ==> {
                    &&& out@[k].id == points@[k].id
                    &&& out@[k].name@ == points@[k].name@
                    &&& out@[k].coords@ == points@[k].coords@
                    &&& str_views(out@[k].connections@) == str_views(points@[k].connections@)
                        + incident_lines(edges@.subrange(0, i as int), k)
                },
        decreases n - i,
    {
        let ghost prefix = edges@.subrange(0, i as int);
        let ghost longer = edges@.subrange(0, i + 1);
        proof {
            assert(longer.drop_last() =~= prefix);
            assert(longer.last() == edges@[i as int]);
        }
        let a = edges[i].system_a;
        let b = edges[i].system_b;
        if out.contains_key(&a) {
            let mut p = out.remove(&a).unwrap();
            let ghost conns_before = p.connections@;
            p.connections.push(edges[i].id.clone());
            proof {
                lemma_str_views_push(conns_before, p.connections@.last());
            }
            out.insert(a, p);
        }
        if out.contains_key(&b) {
            let mut p = out.remove(&b).unwrap();
            let ghost conns_before = p.connections@;
            p.connections.push(edges[i].id.clone());
            proof {
                lemma_str_views_push(conns_before, p.connections@.last());
            }
            out.insert(b, p);
        }
        proof {
            assert forall|k: u32| #[trigger] out@.contains_key(k) implies {
                &&& out@[k].id == points@[k].id
                &&& out@[k].name@ == points@[k].name@
                &&& out@[k].coords@ == points@[k].coords@
                &&& str_views(out@[k].connections@) == str_views(points@[k].connections@)
                    + incident_lines(longer, k)
            } by {
                if k != a && k != b {
                    assert(incident_lines(longer, k) == incident_lines(prefix, k));
                } else {
                    assert(str_views(points@[k].connections@) + incident_lines(longer, k)
                        =~= str_views(out@[k].connections@));
                }
            }
        }
        i += 1;
    }
    proof {
        assert(edges@.subrange(0, n as int) =~= edges@);
    }
    out
}

/// True when some already-built line carries the id.
fn line_id_present(out: &Vec<SdeMapLine>, id: &String) -> (r: bool)
    ensures
        r == exists|k: int| 0 <= k < out@.len() && (#[trigger] out@[k]).id@ == id@,
{
    let m = out.len();
    let mut k: usize = 0;
    while k < m
        invariant
            m == out@.len(),
            0 <= k <= m,
            forall|k2: int| 0 <= k2 < k ==> (#[trigger] out@[k2]).id@ != id@,
        decreases m - k,
    {
        if out[k].id == *id {
            return true;
        }
        k += 1;
    }
    false
}

/// True when some already-kept line carries the id.
pub open spec fn rows_contain_id(rows: Seq<LineRow>, id: Seq<char>) -> bool {
    exists|i: int| 0 <= i < rows.len() && rows[i].id@ == id
}

/// The line rows with the first row kept for each connection id, in row
/// order.
pub open spec fn dedup_line_rows(rows: Seq<LineRow>) -> Seq<LineRow>
    decreases rows.len(),
{
    if rows.len() == 0 {
        Seq::empty()
    } else {
        let rest = dedup_line_rows(rows.drop_last());
        if rows_contain_id(rest, rows.last().id@) {
            rest
        } else {
            rest.push(rows.last())
        }
    }
}

/// Builds one renderer-facing line per connection id: the first row of each
/// id wins, and both endpoints are transformed canonically (divide, then
/// invert).
pub fn build_map_lines(rows: &Vec<LineRow>, factor: u64, invert: bool) -> (out: Vec<SdeMapLine>)
    requires
        0 < factor <= i64::MAX,
        forall|i: int|
            0 <= i < rows@.len() ==> (#[trigger] rows@[i]).a.x > i64::MIN && rows@[i].a.y
                > i64::MIN && rows@[i].b.x > i64::MIN && rows@[i].b.y > i64::MIN,
    ensures
        out@.len() == dedup_line_rows(rows@).len(),
        forall|k: int|
            0 <= k < out@.len() ==> {
                let row = dedup_line_rows(rows@)[k];
                &&& (#[trigger] out@[k]).id@ == row.id@
                &&& out@[k].a == planar_transformed(row.a, factor as int, invert)
                &&& out@[k].b == planar_transformed(row.b, factor as int, invert)
            },
{
    let n = rows.len();
    let mut out: Vec<SdeMapLine> = Vec::new();
    let mut i: usize = 0;
    while i < n
        invariant
            n == rows@.len(),
            0 <= i <= n,
            0 < factor <= i64::MAX,
            forall|j: int|
                0 <= j < rows@.len() ==> (#[trigger] rows@[j]).a.x > i64::MIN && rows@[j].a.y
                    > i64::MIN && rows@[j].b.x > i64::MIN && rows@[j].b.y > i64::MIN,
            out@.len() == dedup_line_rows(rows@.subrange(0, i as int)).len(),
            forall|k: int|
                0 <= k < out@.len() ==> {
                    let row = dedup_line_rows(rows@.subrange(0, i as int))[k];
                    &&& (#[trigger] out@[k]).id@ == row.id@
                    &&& out@[k].a == planar_transformed(row.a, factor as int, invert)
                    &&& out@[k].b == planar_transformed(row.b, factor as int, invert)
                },
        decreases n - i,
    {
        let ghost prefix = rows@.subrange(0, i as int);
        let ghost longer = rows@.subrange(0, i + 1);
        proof {
            assert(longer.drop_last() =~= prefix);
            assert(longer.last() == rows@[i as int]);
        }
        let seen = line_id_present(&out, &rows[i].id);
        proof {
            if seen {
                let k2 = choose|k2: int| 0 <= k2 < out@.len() && out@[k2].id@ == rows@[i as int].id@;
                assert(dedup_line_rows(prefix)[k2].id@ == rows@[i as int].id@);
            }
            if !seen && rows_contain_id(dedup_line_rows(prefix), rows@[i as int].id@) {
                let k2 = choose|k2: int|
                    0 <= k2 < dedup_line_rows(prefix).len() && dedup_line_rows(prefix)[k2].id@
                        == rows@[i as int].id@;
                assert(out@[k2].id@ == rows@[i as int].id@);
            }
            assert(seen == rows_contain_id(dedup_line_rows(prefix), rows@[i as int].id@));
        }
        if !seen {
            let ta = scale_and_invert_planar(&rows[i].a, factor, invert);
            let tb = scale_and_invert_planar(&rows[i].b, factor, invert);
            let line = SdeMapLine { id: rows[i].id.clone(), a: ta, b: tb };
            out.push(line);
        }
        i += 1;
    }
    proof {
        assert(rows@.subrange(0, n as int) =~= rows@);
    }
    out
}

} // verus!
