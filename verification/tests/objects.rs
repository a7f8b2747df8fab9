//! Entity constructors and the empty universe.

use sde::objects::{Constellation, Dictionaries, Moon, Planet, Region, SolarSystem, Universe};

#[test]
fn moon_constructor_is_zeroed() {
    let m = Moon::new();
    assert_eq!((m.id, m.planet, m.index, m.solar_system), (0, 0, 0, 0));
}

#[test]
fn planet_constructor_is_zeroed() {
    let p = Planet::new();
    assert_eq!((p.id, p.solar_system, p.index), (0, 0, 0));
}

#[test]
fn solar_system_constructor_keeps_the_factor() {
    let s = SolarSystem::new(250);
    assert_eq!(s.id, 0);
    assert_eq!(s.name, String::new());
    assert_eq!(s.region, 0);
    assert_eq!(s.constellation, 0);
    assert!(s.planets.is_empty());
    assert!(s.connections.is_empty());
    assert_eq!(s.real_coords.x, 0);
    assert_eq!(s.projected_coords.z, 0);
    assert_eq!(s.factor, 250);
}

#[test]
fn constellation_constructor_is_zeroed() {
    let c = Constellation::new();
    assert_eq!(c.id, 0);
    assert_eq!(c.name, String::new());
    assert_eq!(c.region, 0);
    assert!(c.solar_systems.is_empty());
}

#[test]
fn region_constructor_is_zeroed() {
    let r = Region::new();
    assert_eq!(r.id, 0);
    assert_eq!(r.name, String::new());
    assert!(r.constellations.is_empty());
}

#[test]
fn dictionaries_start_empty() {
    let d = Dictionaries::new();
    assert_eq!(d.system_names.lookup(&"anything".to_string()), None);
    assert_eq!(d.constellation_names.lookup(&"anything".to_string()), None);
    assert_eq!(d.region_names.lookup(&"anything".to_string()), None);
}

#[test]
fn universe_starts_empty_with_its_factor() {
    let u = Universe::new(7);
    assert_eq!(u.regions.len(), 0);
    assert_eq!(u.constellations.len(), 0);
    assert_eq!(u.solar_systems.len(), 0);
    assert_eq!(u.planets.len(), 0);
    assert_eq!(u.moons.len(), 0);
    assert_eq!(u.connections.len(), 0);
    assert_eq!(u.factor, 7);
}
