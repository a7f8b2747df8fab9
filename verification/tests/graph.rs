//! Connection-line deduplication, inter-region filtering, point extraction
//! and region bounding boxes.

use sde::SdeManager;
use sde::bounds::AreaRow;
use sde::connections::{ConnectionRow, RegionalRow, build_connection_lines,
    build_regional_connections};
use sde::objects::{PlanarPoint, SdePoint};
use sde::points::{EdgeRow, LineRow, PointRow, extract_system_points};

fn pair(origin: u32, dest: u32) -> ConnectionRow {
    ConnectionRow { origin, dest }
}

#[test]
fn dedup_emits_one_line_per_pair() {
    // Every undirected pair appears in both directions, sorted by origin.
    let rows = vec![pair(1, 2), pair(1, 3), pair(2, 1), pair(2, 3), pair(3, 1), pair(3, 2)];
    let out = build_connection_lines(&rows);
    assert_eq!(out.get(&1), Some(&vec![2, 3]));
    assert_eq!(out.get(&2), Some(&vec![3]));
    assert_eq!(out.get(&3), Some(&Vec::new()));
    assert_eq!(out.len(), 3);
}

#[test]
fn dedup_keeps_a_pair_seen_only_backwards() {
    // System 5 never appears as an origin before 9, so (9, 5) survives.
    let rows = vec![pair(9, 5)];
    let out = build_connection_lines(&rows);
    assert_eq!(out.get(&9), Some(&vec![5]));
    assert_eq!(out.len(), 1);
}

#[test]
fn dedup_of_empty_input_is_empty() {
    let out = build_connection_lines(&Vec::new());
    assert_eq!(out.len(), 0);
}

#[test]
fn regional_connections_keep_only_region_crossings() {
    // Fifteen stargate links, two of which cross a region boundary.
    let mut rows = Vec::new();
    for k in 0..13u32 {
        rows.push(RegionalRow {
            origin: 30000001 + k,
            dest: 30000002 + k,
            origin_region: 10000001,
            dest_region: 10000001,
        });
    }
    rows.push(RegionalRow {
        origin: 30000014,
        dest: 30000015,
        origin_region: 10000001,
        dest_region: 10000002,
    });
    rows.push(RegionalRow {
        origin: 30000016,
        dest: 30000017,
        origin_region: 10000002,
        dest_region: 10000003,
    });
    let out = build_regional_connections(&rows);
    assert_eq!(out.len(), 2);
    assert_eq!(out[0].origin, 30000014);
    assert_eq!(out[1].origin, 30000016);
}

#[test]
fn twenty_fixture_systems_give_twenty_points() {
    let mut rows = Vec::new();
    for k in 0..20u32 {
        rows.push(PointRow {
            id: 30000001 + k,
            projected: SdePoint::new(1000 + k as i64, -500, 200),
            name: format!("Sys-{k}"),
        });
    }
    let points = extract_system_points(&rows, 100, false, 2);
    assert_eq!(points.len(), 20);
}

#[test]
fn points_outside_the_band_are_dropped() {
    let rows = vec![
        PointRow { id: 29999999, projected: SdePoint::new(1, 2, 3), name: "below".to_string() },
        PointRow { id: 30000000, projected: SdePoint::new(1, 2, 3), name: "low".to_string() },
        PointRow { id: 30999999, projected: SdePoint::new(1, 2, 3), name: "high".to_string() },
        PointRow { id: 31000000, projected: SdePoint::new(1, 2, 3), name: "above".to_string() },
    ];
    let points = extract_system_points(&rows, 1, false, 3);
    assert_eq!(points.len(), 2);
    assert!(points.contains_key(&30000000));
    assert!(points.contains_key(&30999999));
}

#[test]
fn point_coordinates_are_scaled_then_inverted() {
    let rows = vec![PointRow {
        id: 30000010,
        projected: SdePoint::new(1000, -500, 200),
        name: "origin".to_string(),
    }];
    let flat = extract_system_points(&rows, 100, true, 2);
    let p = flat.get(&30000010).unwrap();
    assert_eq!(p.coords, vec![-10, -2]);
    assert_eq!(p.name, "origin".to_string());
    assert!(p.connections.is_empty());
    let solid = extract_system_points(&rows, 100, true, 3);
    let q = solid.get(&30000010).unwrap();
    assert_eq!(q.coords, vec![-10, 5, -2]);
}

#[test]
fn attaching_connections_fills_both_endpoints() {
    let rows = vec![
        PointRow { id: 30000001, projected: SdePoint::new(1, 0, 2), name: "a".to_string() },
        PointRow { id: 30000002, projected: SdePoint::new(3, 0, 4), name: "b".to_string() },
        PointRow { id: 30000003, projected: SdePoint::new(5, 0, 6), name: "c".to_string() },
    ];
    let manager = SdeManager::new("graph.db".to_string(), 1);
    let points = manager.systempoints_from_rows(&rows, 2);
    let edges = vec![
        EdgeRow { id: "link-12".to_string(), system_a: 30000001, system_b: 30000002 },
        EdgeRow { id: "link-far".to_string(), system_a: 30000001, system_b: 39999999 },
    ];
    let merged = manager.system_connections_from_rows(points, &edges);
    assert_eq!(
        merged.get(&30000001).unwrap().connections,
        vec!["link-12".to_string(), "link-far".to_string()]
    );
    assert_eq!(merged.get(&30000002).unwrap().connections, vec!["link-12".to_string()]);
    // A system with no incident edge keeps its empty list and is not lost.
    assert_eq!(merged.get(&30000003).unwrap().connections, Vec::<String>::new());
    assert_eq!(merged.len(), 3);
}

#[test]
fn map_lines_dedup_by_id_and_transform_endpoints() {
    let rows = vec![
        LineRow {
            id: "east".to_string(),
            a: PlanarPoint::new(1000, -500),
            b: PlanarPoint::new(200, 300),
        },
        LineRow {
            id: "east".to_string(),
            a: PlanarPoint::new(777, 777),
            b: PlanarPoint::new(888, 888),
        },
        LineRow {
            id: "west".to_string(),
            a: PlanarPoint::new(-100, -200),
            b: PlanarPoint::new(0, 50),
        },
    ];
    let manager = SdeManager::new("graph.db".to_string(), 100);
    let lines = manager.connections_from_rows(&rows);
    assert_eq!(lines.len(), 2);
    // The first row of a repeated id wins, scaled and inverted.
    assert_eq!(lines[0].id, "east".to_string());
    assert_eq!(lines[0].a, PlanarPoint::new(-10, 5));
    assert_eq!(lines[0].b, PlanarPoint::new(-2, -3));
    assert_eq!(lines[1].id, "west".to_string());
    assert_eq!(lines[1].a, PlanarPoint::new(1, 2));
    assert_eq!(lines[1].b, PlanarPoint::new(0, 0));
}

fn area_row(region: u32, name: &str, constellation: u32, p: SdePoint) -> AreaRow {
    AreaRow { region, region_name: name.to_string(), constellation, point: p }
}

#[test]
fn region_areas_take_exact_extremes() {
    let rows = vec![
        area_row(10000001, "Arid Reach", 20000001, SdePoint::new(10, -5, 3)),
        area_row(10000001, "Arid Reach", 20000001, SdePoint::new(-20, 8, 1)),
        area_row(10000001, "Arid Reach", 20000002, SdePoint::new(4, 4, 4)),
        area_row(10000002, "Cold Expanse", 20000003, SdePoint::new(7, 7, 7)),
    ];
    let mut manager = SdeManager::new("graph.db".to_string(), 1);
    manager.invert_coordinates = false;
    let areas = manager.region_coordinates_from_rows(&rows);
    assert_eq!(areas.len(), 2);
    assert_eq!(areas[0].region_id, 10000001);
    assert_eq!(areas[0].name, "Arid Reach".to_string());
    assert_eq!(areas[0].min, SdePoint::new(-20, -5, 1));
    assert_eq!(areas[0].max, SdePoint::new(10, 8, 4));
    assert_eq!(areas[1].region_id, 10000002);
    assert_eq!(areas[1].min, SdePoint::new(7, 7, 7));
    assert_eq!(areas[1].max, SdePoint::new(7, 7, 7));
}

#[test]
fn inverted_region_areas_swap_then_negate() {
    let rows = vec![
        area_row(10000001, "Arid Reach", 20000001, SdePoint::new(10, -5, 3)),
        area_row(10000001, "Arid Reach", 20000001, SdePoint::new(-20, 8, 1)),
    ];
    let manager = SdeManager::new("graph.db".to_string(), 1);
    assert!(manager.invert_coordinates);
    let areas = manager.region_coordinates_from_rows(&rows);
    assert_eq!(areas.len(), 1);
    // Raw box was min (-20, -5, 1), max (10, 8, 3): the corners swap and
    // both negate, so the box stays properly ordered.
    assert_eq!(areas[0].min, SdePoint::new(-10, -8, -3));
    assert_eq!(areas[0].max, SdePoint::new(20, 5, -1));
    assert!(areas[0].max.x >= areas[0].min.x);
    assert!(areas[0].max.y >= areas[0].min.y);
    assert!(areas[0].max.z >= areas[0].min.z);
}

#[test]
fn every_area_is_properly_ordered_with_and_without_inversion() {
    let rows = vec![
        area_row(10000001, "Arid Reach", 20000001, SdePoint::new(-3, 9, 0)),
        area_row(10000001, "Arid Reach", 20000002, SdePoint::new(12, -9, 5)),
        area_row(10000002, "Cold Expanse", 20000003, SdePoint::new(1, 1, 1)),
    ];
    for invert in [false, true] {
        let mut manager = SdeManager::new("graph.db".to_string(), 1);
        manager.invert_coordinates = invert;
        let areas = manager.region_coordinates_from_rows(&rows);
        for area in &areas {
            assert!(area.max.x >= area.min.x);
            assert!(area.max.y >= area.min.y);
            assert!(area.max.z >= area.min.z);
        }
    }
}

#[test]
fn area_constructor_is_zeroed() {
    let area = sde::objects::EveRegionArea::new();
    assert_eq!(area.region_id, 0);
    assert_eq!(area.name, String::new());
    assert_eq!(area.min, SdePoint::new(0, 0, 0));
    assert_eq!(area.max, SdePoint::new(0, 0, 0));
}
