//! Hierarchical loading, the name index and the universe aggregate.

use sde::SdeManager;
use sde::loader::{
    ConstellationRow, GateRow, MoonRow, PlanetRow, RegionRow, SystemRow, collect_one_hop,
    load_moons, load_planets, load_regions,
};
use sde::objects::{NameIndex, SdePoint};

fn region_row(id: u32, name: &str) -> RegionRow {
    RegionRow { id, name: name.to_string() }
}

fn constellation_row(id: u32, name: &str, region: u32) -> ConstellationRow {
    ConstellationRow { id, name: name.to_string(), region }
}

fn system_row(id: u32, name: &str, region: u32, constellation: u32, p: SdePoint) -> SystemRow {
    SystemRow { id, name: name.to_string(), region, constellation, center: p, projected: p }
}

/// Three regions, five constellations and twenty solar systems; each
/// constellation owns four systems.
fn fixture() -> (Vec<RegionRow>, Vec<ConstellationRow>, Vec<SystemRow>, Vec<GateRow>) {
    let regions = vec![
        region_row(10000001, "Arid Reach"),
        region_row(10000002, "Cold Expanse"),
        region_row(10000003, "Glass Verge"),
    ];
    let constellations = vec![
        constellation_row(20000001, "Ashen Ring", 10000001),
        constellation_row(20000002, "Bright Chain", 10000001),
        constellation_row(20000003, "Cinder Loop", 10000002),
        constellation_row(20000004, "Dust Column", 10000002),
        constellation_row(20000005, "Ember Cross", 10000003),
    ];
    let mut systems = Vec::new();
    for k in 0..20u32 {
        let constellation = 20000001 + k / 4;
        let region = match constellation {
            20000001 | 20000002 => 10000001,
            20000003 | 20000004 => 10000002,
            _ => 10000003,
        };
        let p = SdePoint::new(1000 + k as i64 * 10, -500 + k as i64 * 5, 200);
        systems.push(system_row(30000001 + k, &format!("Sys-{k}"), region, constellation, p));
    }
    // A chain of stargates: system k gates to system k + 1 and back.
    let mut gates = Vec::new();
    for k in 0..19u32 {
        gates.push(GateRow {
            gate_id: 50000000 + 2 * k,
            solar_system: 30000001 + k,
            destination: 50000000 + 2 * k + 1,
        });
        gates.push(GateRow {
            gate_id: 50000000 + 2 * k + 1,
            solar_system: 30000002 + k,
            destination: 50000000 + 2 * k,
        });
    }
    (regions, constellations, systems, gates)
}

#[test]
fn universe_counts_follow_the_fixture() {
    let (regions, constellations, systems, gates) = fixture();
    let mut manager = SdeManager::new("universe.db".to_string(), 100000000000000);
    manager.build_universe(&regions, &constellations, &systems, &gates);
    assert_eq!(manager.universe.regions.len(), 3);
    assert_eq!(manager.universe.constellations.len(), 5);
    assert_eq!(manager.universe.solar_systems.len(), 20);
    assert_eq!(manager.universe.planets.len(), 0);
    assert_eq!(manager.universe.moons.len(), 0);
}

#[test]
fn reloading_twice_yields_identical_counts() {
    let (regions, constellations, systems, gates) = fixture();
    let mut manager = SdeManager::new("universe.db".to_string(), 100000000000000);
    manager.build_universe(&regions, &constellations, &systems, &gates);
    let first = (
        manager.universe.regions.len(),
        manager.universe.constellations.len(),
        manager.universe.solar_systems.len(),
    );
    manager.build_universe(&regions, &constellations, &systems, &gates);
    let second = (
        manager.universe.regions.len(),
        manager.universe.constellations.len(),
        manager.universe.solar_systems.len(),
    );
    assert_eq!(first, second);
    assert_eq!(second, (3, 5, 20));
}

#[test]
fn children_lists_follow_the_hierarchy() {
    let (regions, constellations, systems, gates) = fixture();
    let mut manager = SdeManager::new("universe.db".to_string(), 100000000000000);
    manager.build_universe(&regions, &constellations, &systems, &gates);
    let r = manager.universe.regions.get(&10000001).unwrap();
    assert_eq!(r.constellations, vec![20000001, 20000002]);
    let c = manager.universe.constellations.get(&20000003).unwrap();
    assert_eq!(c.region, 10000002);
    assert_eq!(c.solar_systems, vec![30000009, 30000010, 30000011, 30000012]);
}

#[test]
fn one_hop_connections_are_single_joins() {
    let (_, _, _, gates) = fixture();
    // The first system only gates to the second.
    assert_eq!(collect_one_hop(&gates, 30000001), vec![30000002]);
    // A middle system gates to both neighbours, in gate-table order.
    assert_eq!(collect_one_hop(&gates, 30000005), vec![30000004, 30000006]);
    // Unknown systems have no neighbours.
    assert_eq!(collect_one_hop(&gates, 39999999), Vec::<u32>::new());
}

#[test]
fn loaded_systems_carry_their_connections() {
    let (regions, constellations, systems, gates) = fixture();
    let mut manager = SdeManager::new("universe.db".to_string(), 100000000000000);
    manager.build_universe(&regions, &constellations, &systems, &gates);
    let s = manager.universe.solar_systems.get(&30000001).unwrap();
    assert_eq!(s.connections, vec![30000002]);
    assert_eq!(s.region, 10000001);
    assert_eq!(s.constellation, 20000001);
    // Raw coordinates stay untransformed inside the universe.
    assert_eq!(s.real_coords, SdePoint::new(1000, -500, 200));
}

#[test]
fn name_index_is_case_folded() {
    let (regions, constellations, systems, gates) = fixture();
    let mut manager = SdeManager::new("universe.db".to_string(), 100000000000000);
    manager.build_universe(&regions, &constellations, &systems, &gates);
    // Names were stored through case folding, so the folded form is bound
    // and the original casing is not a key.
    let folded = manager.universe.dicts.region_names.lookup(&"arid reach".to_string());
    assert_eq!(folded, Some(10000001));
    let original = manager.universe.dicts.region_names.lookup(&"Arid Reach".to_string());
    assert_eq!(original, None);
    let system = manager.universe.dicts.system_names.lookup(&"sys-7".to_string());
    assert_eq!(system, Some(30000008));
}

#[test]
fn name_index_first_binding_wins() {
    let mut index = NameIndex::new();
    assert!(index.insert_if_absent("vale".to_string(), 1));
    assert!(!index.insert_if_absent("vale".to_string(), 2));
    assert_eq!(index.lookup(&"vale".to_string()), Some(1));
    assert_eq!(index.lookup(&"other".to_string()), None);
}

#[test]
fn empty_filter_loads_the_whole_tier() {
    let (regions, constellations, _, _) = fixture();
    let all = load_regions(&regions, &Vec::new(), &constellations);
    assert_eq!(all.len(), 3);
    // Enumerating every id keeps the same count as the global scope.
    let every_id: Vec<u32> = vec![10000001, 10000002, 10000003];
    let enumerated = load_regions(&regions, &every_id, &constellations);
    assert_eq!(enumerated.len(), all.len());
    // A partial filter keeps only the enumerated regions.
    let partial = load_regions(&regions, &vec![10000002], &constellations);
    assert_eq!(partial.len(), 1);
    assert_eq!(partial[0].id, 10000002);
}

#[test]
fn constellation_filter_prunes_systems() {
    let (regions, constellations, systems, gates) = fixture();
    // Drop one region: its constellations and systems disappear.
    let two_regions: Vec<RegionRow> = regions.into_iter().take(2).collect();
    let mut manager = SdeManager::new("universe.db".to_string(), 100000000000000);
    manager.build_universe(&two_regions, &constellations, &systems, &gates);
    assert_eq!(manager.universe.regions.len(), 2);
    assert_eq!(manager.universe.constellations.len(), 4);
    assert_eq!(manager.universe.solar_systems.len(), 16);
}

#[test]
fn planets_and_moons_filter_by_parent() {
    let planets = vec![
        PlanetRow { id: 40000001, solar_system: 30000001, index: 1 },
        PlanetRow { id: 40000002, solar_system: 30000001, index: 2 },
        PlanetRow { id: 40000003, solar_system: 30000002, index: 1 },
    ];
    let all = load_planets(&planets, &Vec::new());
    assert_eq!(all.len(), 3);
    let of_first = load_planets(&planets, &vec![30000001]);
    assert_eq!(of_first.len(), 2);
    assert_eq!(of_first[1].id, 40000002);
    assert_eq!(of_first[1].index, 2);

    let moons = vec![
        MoonRow { id: 40100001, planet: 40000001, index: 1, solar_system: 30000001 },
        MoonRow { id: 40100002, planet: 40000003, index: 1, solar_system: 30000002 },
    ];
    let all_moons = load_moons(&moons, &Vec::new());
    assert_eq!(all_moons.len(), 2);
    let of_planet = load_moons(&moons, &vec![40000003]);
    assert_eq!(of_planet.len(), 1);
    assert_eq!(of_planet[0].id, 40100002);
}

#[test]
fn manager_starts_fresh() {
    let manager = SdeManager::new("universe.db".to_string(), 42);
    assert_eq!(manager.factor, 42);
    assert!(manager.invert_coordinates);
    assert_eq!(manager.universe.regions.len(), 0);
    assert_eq!(manager.universe.factor, 42);
    assert_eq!(manager.path, "universe.db".to_string());
}
