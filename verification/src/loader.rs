//! The tier-ordered hierarchical loader.
//!
//! Every tier is loaded from plain relational rows: the caller scans the
//! backing store and hands the rows over unchanged.  A tier takes the
//! parent-id filter produced by the previous tier; an empty filter means
//! global scope, a non-empty filter keeps exactly the rows whose parent id
//! is enumerated.  Each entity's child-id list is derived from the child
//! tier's rows, so no per-parent round trip is needed.

use vstd::prelude::*;

verus! {

use crate::objects::{Constellation, Moon, Planet, Region, SdePoint, SolarSystem};

/// One row of the region table.
#[derive(Clone, Debug)]
pub struct RegionRow {
    /// Region identifier
    pub id: u32,
    /// Region name
    pub name: String,
}

/// One row of the constellation table.
#[derive(Clone, Debug)]
pub struct ConstellationRow {
    /// Constellation identifier
    pub id: u32,
    /// Constellation name
    pub name: String,
    /// Identifier of the owning region
    pub region: u32,
}

/// One row of the solar-system table, joined with its constellation's
/// region so the system carries the denormalized region id.
#[derive(Clone, Debug)]
pub struct SystemRow {
    /// Solar system identifier
    pub id: u32,
    /// Solar system name
    pub name: String,
    /// Identifier of the owning region
    pub region: u32,
    /// Identifier of the owning constellation
    pub constellation: u32,
    /// Raw three-dimensional center coordinates
    pub center: SdePoint,
    /// Raw two-dimensional projected coordinates
    pub projected: SdePoint,
}

/// One row of the planet table.
#[derive(Clone, Copy, PartialEq, Eq, Structural, Debug)]
pub struct PlanetRow {
    /// Planet identifier
    pub id: u32,
    /// Identifier of the solar system the planet lies in
    pub solar_system: u32,
    /// The cardinal number of the planet within its solar system
    pub index: u8,
}

/// One row of the moon table.
#[derive(Clone, Copy, PartialEq, Eq, Structural, Debug)]
pub struct MoonRow {
    /// Moon identifier
    pub id: u32,
    /// Identifier of the planet the moon orbits
    pub planet: u32,
    /// The cardinal number of the moon within its planet
    pub index: u8,
    /// Identifier of the solar system the moon lies in
    pub solar_system: u32,
}

/// One row of the stargate table: a stargate standing in `solar_system`
/// that leads to the stargate `destination`.
#[derive(Clone, Copy, PartialEq, Eq, Structural, Debug)]
pub struct GateRow {
    /// Stargate identifier
    pub gate_id: u32,
    /// Identifier of the solar system that owns the stargate
    pub solar_system: u32,
    /// Identifier of the destination stargate
    pub destination: u32,
}

/// Filter semantics shared by every tier: an empty filter loads the whole
/// table, a non-empty filter keeps the rows whose key it enumerates.
pub open spec fn row_kept(filter: Seq<u32>, key: u32) -> bool {
    filter.len() == 0 || filter.contains(key)
}

/// The subsequence of `rows` that the filter keeps, in row order.
pub open spec fn kept_rows<T>(rows: Seq<T>, filter: Seq<u32>, key: spec_fn(T) -> u32) -> Seq<T>
    decreases rows.len(),
{
    if rows.len() == 0 {
        Seq::empty()
    } else {
        let rest = kept_rows(rows.drop_last(), filter, key);
        if row_kept(filter, key(rows.last())) {
            rest.push(rows.last())
        } else {
            rest
        }
    }
}

/// Extending the scanned rows by one extends the kept rows by at most that
/// one row.
proof fn lemma_kept_rows_push<T>(rows: Seq<T>, e: T, filter: Seq<u32>, key: spec_fn(T) -> u32)
    ensures
        row_kept(filter, key(e)) ==> kept_rows(rows.push(e), filter, key) == kept_rows(
            rows,
            filter,
            key,
        ).push(e),
        !row_kept(filter, key(e)) ==> kept_rows(rows.push(e), filter, key) == kept_rows(
            rows,
            filter,
            key,
        ),
{
    assert(rows.push(e).drop_last() =~= rows);
    assert(rows.push(e).last() == e);
}

/// Loading a tier with an empty filter set and loading it with a filter set
/// that enumerates every key in the table keep the same rows, so the two
/// scopes yield the same entity count.
pub proof fn lemma_filter_scope_equivalence<T>(
    rows: Seq<T>,
    filter: Seq<u32>,
    key: spec_fn(T) -> u32,
)
    requires
        forall|i: int| 0 <= i < rows.len() ==> filter.contains(#[trigger] key(rows[i])),
    ensures
        kept_rows(rows, filter, key) == rows,
        kept_rows(rows, Seq::<u32>::empty(), key) == rows,
        kept_rows(rows, filter, key).len() == kept_rows(rows, Seq::<u32>::empty(), key).len(),
    decreases rows.len(),
{
    if rows.len() > 0 {
        let prefix = rows.drop_last();
        assert(forall|i: int| 0 <= i < prefix.len() ==> filter.contains(#[trigger] key(prefix[i])));
        lemma_filter_scope_equivalence(prefix, filter, key);
        assert(filter.contains(key(rows.last())));
        assert(kept_rows(rows, filter, key) =~= rows);
        assert(kept_rows(rows, Seq::<u32>::empty(), key) =~= rows);
    } else {
        assert(kept_rows(rows, filter, key) =~= rows);
        assert(kept_rows(rows, Seq::<u32>::empty(), key) =~= rows);
    }
}

/// An empty filter keeps every row: the tier is loaded in global scope.
pub proof fn lemma_kept_rows_empty<T>(rows: Seq<T>, key: spec_fn(T) -> u32)
    ensures
        kept_rows(rows, Seq::<u32>::empty(), key) == rows,
    decreases rows.len(),
{
    if rows.len() > 0 {
        lemma_kept_rows_empty(rows.drop_last(), key);
        assert(kept_rows(rows, Seq::<u32>::empty(), key) =~= rows);
    } else {
        assert(kept_rows(rows, Seq::<u32>::empty(), key) =~= rows);
    }
}

/// The key each tier filters by.
pub open spec fn region_key() -> spec_fn(RegionRow) -> u32 {
    |r: RegionRow| r.id
}

/// Constellations are filtered by their parent region.
pub open spec fn constellation_key() -> spec_fn(ConstellationRow) -> u32 {
    |c: ConstellationRow| c.region
}

/// Solar systems are filtered by their parent constellation.
pub open spec fn system_key() -> spec_fn(SystemRow) -> u32 {
    |s: SystemRow| s.constellation
}

/// Planets are filtered by their parent solar system.
pub open spec fn planet_key() -> spec_fn(PlanetRow) -> u32 {
    |p: PlanetRow| p.solar_system
}

/// Moons are filtered by their parent planet.
pub open spec fn moon_key() -> spec_fn(MoonRow) -> u32 {
    |m: MoonRow| m.planet
}

/// True when the filter keeps the key, decided executably.
fn keeps(filter: &Vec<u32>, key: u32) -> (r: bool)
    ensures
        r == row_kept(filter@, key),
{
    if filter.len() == 0 {
        return true;
    }
    let n = filter.len();
    let mut i: usize = 0;
    while i < n
        invariant
            n == filter@.len(),
            0 <= i <= n,
            forall|k: int| 0 <= k < i ==> filter@[k] != key,
        decreases n - i,
    {
        if filter[i] == key {
            return true;
        }
        i += 1;
    }
    false
}

/// The constellation ids of one region, in child-row order.
pub open spec fn region_children(children: Seq<ConstellationRow>, region: u32) -> Seq<u32>
    decreases children.len(),
{
    if children.len() == 0 {
        Seq::empty()
    } else {
        let rest = region_children(children.drop_last(), region);
        if children.last().region == region {
            rest.push(children.last().id)
        } else {
            rest
        }
    }
}

/// The solar-system ids of one constellation, in child-row order.
pub open spec fn constellation_children(children: Seq<SystemRow>, constellation: u32) -> Seq<u32>
    decreases children.len(),
{
    if children.len() == 0 {
        Seq::empty()
    } else {
        let rest = constellation_children(children.drop_last(), constellation);
        if children.last().constellation == constellation {
            rest.push(children.last().id)
        } else {
            rest
        }
    }
}

/// Collects the constellation ids of one region executably.
fn collect_region_children(children: &Vec<ConstellationRow>, region: u32) -> (out: Vec<u32>)
    ensures
        out@ == region_children(children@, region),
{
    let n = children.len();
    let mut out: Vec<u32> = Vec::new();
    let mut i: usize = 0;
    while i < n
        invariant
            n == children@.len(),
            0 <= i <= n,
            out@ == region_children(children@.subrange(0, i as int), region),
        decreases n - i,
    {
        proof {
            assert(children@.subrange(0, i + 1).drop_last() =~= children@.subrange(0, i as int));
            assert(children@.subrange(0, i + 1).last() == children@[i as int]);
        }
        if children[i].region == region {
            out.push(children[i].id);
        }
        i += 1;
    }
    proof {
        assert(children@.subrange(0, n as int) =~= children@);
    }
    out
}

/// Collects the solar-system ids of one constellation executably.
fn collect_constellation_children(children: &Vec<SystemRow>, constellation: u32) -> (out: Vec<u32>)
    ensures
        out@ == constellation_children(children@, constellation),
{
    let n = children.len();
    let mut out: Vec<u32> = Vec::new();
    let mut i: usize = 0;
    while i < n
        invariant
            n == children@.len(),
            0 <= i <= n,
            out@ == constellation_children(children@.subrange(0, i as int), constellation),
        decreases n - i,
    {
        proof {
            assert(children@.subrange(0, i + 1).drop_last() =~= children@.subrange(0, i as int));
            assert(children@.subrange(0, i + 1).last() == children@[i as int]);
        }
        if children[i].constellation == constellation {
            out.push(children[i].id);
        }
        i += 1;
    }
    proof {
        assert(children@.subrange(0, n as int) =~= children@);
    }
    out
}

/// True when some stargate of `system` leads to the stargate `dest_gate`.
pub open spec fn has_gate_from(gates: Seq<GateRow>, system: u32, dest_gate: u32) -> bool {
    exists|i: int|
        0 <= i < gates.len() && gates[i].solar_system == system && gates[i].destination
            == dest_gate
}

/// The scan half of the one-hop derivation: walks `scan` in order and keeps
/// the owner of every gate that some gate of `system` (anywhere in
/// `gates_all`) leads to.
pub open spec fn one_hop_scan(gates_all: Seq<GateRow>, scan: Seq<GateRow>, system: u32) -> Seq<u32>
    decreases scan.len(),
{
    if scan.len() == 0 {
        Seq::empty()
    } else {
        let rest = one_hop_scan(gates_all, scan.drop_last(), system);
        if has_gate_from(gates_all, system, scan.last().gate_id) {
            rest.push(scan.last().solar_system)
        } else {
            rest
        }
    }
}

/// The systems reachable from `system` through exactly one stargate, in
/// gate-table order.  This is a single join through the destination gate,
/// never a transitive closure.
pub open spec fn one_hop_neighbors(gates: Seq<GateRow>, system: u32) -> Seq<u32> {
    one_hop_scan(gates, gates, system)
}

/// Decides [`has_gate_from`] executably.
fn gate_from(gates: &Vec<GateRow>, system: u32, dest_gate: u32) -> (r: bool)
    ensures
        r == has_gate_from(gates@, system, dest_gate),
{
    let n = gates.len();
    let mut i: usize = 0;
    while i < n
        invariant
            n == gates@.len(),
            0 <= i <= n,
            forall|k: int|
                0 <= k < i ==> !(gates@[k].solar_system == system && gates@[k].destination
                    == dest_gate),
        decreases n - i,
    {
        if gates[i].solar_system == system && gates[i].destination == dest_gate {
            return true;
        }
        i += 1;
    }
    false
}

/// Collects the one-hop neighbours of `system` executably.
pub fn collect_one_hop(gates: &Vec<GateRow>, system: u32) -> (out: Vec<u32>)
    ensures
        out@ == one_hop_neighbors(gates@, system),
{
    let n = gates.len();
    let mut out: Vec<u32> = Vec::new();
    let mut i: usize = 0;
    while i < n
        invariant
            n == gates@.len(),
            0 <= i <= n,
            out@ == one_hop_scan(gates@, gates@.subrange(0, i as int), system),
        decreases n - i,
    {
        proof {
            assert(gates@.subrange(0, i + 1).drop_last() =~= gates@.subrange(0, i as int));
            assert(gates@.subrange(0, i + 1).last() == gates@[i as int]);
        }
        if gate_from(gates, system, gates[i].gate_id) {
            out.push(gates[i].solar_system);
        }
        i += 1;
    }
    proof {
        assert(gates@.subrange(0, n as int) =~= gates@);
    }
    out
}

/// The produced regions match the kept rows one for one.
pub open spec fn regions_match(
    out: Seq<Region>,
    rows: Seq<RegionRow>,
    children: Seq<ConstellationRow>,
) -> bool {
    &&& out.len() == rows.len()
    &&& forall|i: int|
        0 <= i < rows.len() ==> {
            &&& (#[trigger] out[i]).id == rows[i].id
            &&& out[i].name@ == rows[i].name@
            &&& out[i].constellations@ == region_children(children, rows[i].id)
            &&& out[i].projected_coords == (SdePoint { x: 0i64, y: 0i64, z: 0i64 })
        }
}

/// Loads the region tier: keeps the rows the filter admits and derives each
/// region's constellation-id list from the constellation rows.
pub fn load_regions(
    rows: &Vec<RegionRow>,
    filter: &Vec<u32>,
    children: &Vec<ConstellationRow>,
) -> (out: Vec<Region>)
    ensures
        regions_match(out@, kept_rows(rows@, filter@, region_key()), children@),
{
    let n = rows.len();
    let mut out: Vec<Region> = Vec::new();
    let mut i: usize = 0;
    while i < n
        invariant
            n == rows@.len(),
            0 <= i <= n,
            regions_match(out@, kept_rows(rows@.subrange(0, i as int), filter@, region_key()), children@),
        decreases n - i,
    {
        proof {
            assert(rows@.subrange(0, i + 1).drop_last() =~= rows@.subrange(0, i as int));
            lemma_kept_rows_push(
                rows@.subrange(0, i as int),
                rows@[i as int],
                filter@,
                region_key(),
            );
            assert(rows@.subrange(0, i as int).push(rows@[i as int]) =~= rows@.subrange(
                0,
                i + 1,
            ));
        }
        if keeps(filter, rows[i].id) {
            let kids = collect_region_children(children, rows[i].id);
            let region = Region {
                id: rows[i].id,
                name: rows[i].name.clone(),
                constellations: kids,
                projected_coords: SdePoint::new(0, 0, 0),
            };
            out.push(region);
        }
        i += 1;
    }
    proof {
        assert(rows@.subrange(0, n as int) =~= rows@);
    }
    out
}

/// The produced constellations match the kept rows one for one.
pub open spec fn constellations_match(
    out: Seq<Constellation>,
    rows: Seq<ConstellationRow>,
    children: Seq<SystemRow>,
) -> bool {
    &&& out.len() == rows.len()
    &&& forall|i: int|
        0 <= i < rows.len() ==> {
            &&& (#[trigger] out[i]).id == rows[i].id
            &&& out[i].name@ == rows[i].name@
            &&& out[i].region == rows[i].region
            &&& out[i].solar_systems@ == constellation_children(children, rows[i].id)
            &&& out[i].projected_coords == (SdePoint { x: 0i64, y: 0i64, z: 0i64 })
        }
}

/// Loads the constellation tier: keeps the rows whose parent region the
/// filter admits and derives each constellation's solar-system-id list from
/// the system rows.
pub fn load_constellations(
    rows: &Vec<ConstellationRow>,
    filter: &Vec<u32>,
    children: &Vec<SystemRow>,
) -> (out: Vec<Constellation>)
    ensures
        constellations_match(
            out@,
            kept_rows(rows@, filter@, constellation_key()),
            children@,
        ),
{
    let n = rows.len();
    let mut out: Vec<Constellation> = Vec::new();
    let mut i: usize = 0;
    while i < n
        invariant
            n == rows@.len(),
            0 <= i <= n,
            constellations_match(
                out@,
                kept_rows(rows@.subrange(0, i as int), filter@, constellation_key()),
                children@,
            ),
        decreases n - i,
    {
        proof {
            assert(rows@.subrange(0, i + 1).drop_last() =~= rows@.subrange(0, i as int));
            lemma_kept_rows_push(
                rows@.subrange(0, i as int),
                rows@[i as int],
                filter@,
                constellation_key(),
            );
            assert(rows@.subrange(0, i as int).push(rows@[i as int]) =~= rows@.subrange(
                0,
                i + 1,
            ));
        }
        if keeps(filter, rows[i].region) {
            let kids = collect_constellation_children(children, rows[i].id);
            let constellation = Constellation {
                id: rows[i].id,
                name: rows[i].name.clone(),
                region: rows[i].region,
                solar_systems: kids,
                projected_coords: SdePoint::new(0, 0, 0),
            };
            out.push(constellation);
        }
        i += 1;
    }
    proof {
        assert(rows@.subrange(0, n as int) =~= rows@);
    }
    out
}

/// The produced solar systems match the kept rows one for one.  Coordinates
/// stay raw: the canonical transform is applied only when points are
/// extracted for rendering.
pub open spec fn systems_match(
    out: Seq<SolarSystem>,
    rows: Seq<SystemRow>,
    gates: Seq<GateRow>,
    factor: u64,
) -> bool {
    &&& out.len() == rows.len()
    &&& forall|i: int|
        0 <= i < rows.len() ==> {
            &&& (#[trigger] out[i]).id == rows[i].id
            &&& out[i].name@ == rows[i].name@
            &&& out[i].region == rows[i].region
            &&& out[i].constellation == rows[i].constellation
            &&& out[i].planets@ == Seq::<u32>::empty()
            &&& out[i].connections@ == one_hop_neighbors(gates, rows[i].id)
            &&& out[i].real_coords == rows[i].center
            &&& out[i].projected_coords == rows[i].projected
            &&& out[i].factor == factor
        }
}

/// Loads the solar-system tier: keeps the rows whose parent constellation
/// the filter admits and derives each system's one-hop connection list from
/// the stargate rows.
pub fn load_solar_systems(
    rows: &Vec<SystemRow>,
    filter: &Vec<u32>,
    gates: &Vec<GateRow>,
    factor: u64,
) -> (out: Vec<SolarSystem>)
    ensures
        systems_match(out@, kept_rows(rows@, filter@, system_key()), gates@, factor),
{
    let n = rows.len();
    let mut out: Vec<SolarSystem> = Vec::new();
    let mut i: usize = 0;
    while i < n
        invariant
            n == rows@.len(),
            0 <= i <= n,
            systems_match(
                out@,
                kept_rows(rows@.subrange(0, i as int), filter@, system_key()),
                gates@,
                factor,
            ),
        decreases n - i,
    {
        proof {
            assert(rows@.subrange(0, i + 1).drop_last() =~= rows@.subrange(0, i as int));
            lemma_kept_rows_push(
                rows@.subrange(0, i as int),
                rows@[i as int],
                filter@,
                system_key(),
            );
            assert(rows@.subrange(0, i as int).push(rows@[i as int]) =~= rows@.subrange(
                0,
                i + 1,
            ));
        }
        if keeps(filter, rows[i].constellation) {
            let links = collect_one_hop(gates, rows[i].id);
            let system = SolarSystem {
                id: rows[i].id,
                name: rows[i].name.clone(),
                region: rows[i].region,
                constellation: rows[i].constellation,
                planets: Vec::new(),
                connections: links,
                real_coords: rows[i].center,
                projected_coords: rows[i].projected,
                factor,
            };
            out.push(system);
        }
        i += 1;
    }
    proof {
        assert(rows@.subrange(0, n as int) =~= rows@);
    }
    out
}

/// The produced planets match the kept rows one for one.
pub open spec fn planets_match(out: Seq<Planet>, rows: Seq<PlanetRow>) -> bool {
    &&& out.len() == rows.len()
    &&& forall|i: int|
        0 <= i < rows.len() ==> (#[trigger] out[i]) == (Planet {
            id: rows[i].id,
            solar_system: rows[i].solar_system,
            index: rows[i].index,
        })
}

/// Loads the planet tier: keeps the rows whose parent solar system the
/// filter admits.
pub fn load_planets(rows: &Vec<PlanetRow>, filter: &Vec<u32>) -> (out: Vec<Planet>)
    ensures
        planets_match(out@, kept_rows(rows@, filter@, planet_key())),
{
    let n = rows.len();
    let mut out: Vec<Planet> = Vec::new();
    let mut i: usize = 0;
    while i < n
        invariant
            n == rows@.len(),
            0 <= i <= n,
            planets_match(out@, kept_rows(rows@.subrange(0, i as int), filter@, planet_key())),
        decreases n - i,
    {
        proof {
            assert(rows@.subrange(0, i + 1).drop_last() =~= rows@.subrange(0, i as int));
            lemma_kept_rows_push(
                rows@.subrange(0, i as int),
                rows@[i as int],
                filter@,
                planet_key(),
            );
            assert(rows@.subrange(0, i as int).push(rows@[i as int]) =~= rows@.subrange(
                0,
                i + 1,
            ));
        }
        if keeps(filter, rows[i].solar_system) {
            out.push(Planet { id: rows[i].id, solar_system: rows[i].solar_system, index: rows[i].index });
        }
        i += 1;
    }
    proof {
        assert(rows@.subrange(0, n as int) =~= rows@);
    }
    out
}

/// The produced moons match the kept rows one for one.
pub open spec fn moons_match(out: Seq<Moon>, rows: Seq<MoonRow>) -> bool {
    &&& out.len() == rows.len()
    &&& forall|i: int|
        0 <= i < rows.len() ==> (#[trigger] out[i]) == (Moon {
            id: rows[i].id,
            planet: rows[i].planet,
            index: rows[i].index,
            solar_system: rows[i].solar_system,
        })
}

/// Loads the moon tier: keeps the rows whose parent planet the filter
/// admits.
pub fn load_moons(rows: &Vec<MoonRow>, filter: &Vec<u32>) -> (out: Vec<Moon>)
    ensures
        moons_match(out@, kept_rows(rows@, filter@, moon_key())),
{
    let n = rows.len();
    let mut out: Vec<Moon> = Vec::new();
    let mut i: usize = 0;
    while i < n
        invariant
            n == rows@.len(),
            0 <= i <= n,
            moons_match(out@, kept_rows(rows@.subrange(0, i as int), filter@, moon_key())),
        decreases n - i,
    {
        proof {
            assert(rows@.subrange(0, i + 1).drop_last() =~= rows@.subrange(0, i as int));
            lemma_kept_rows_push(
                rows@.subrange(0, i as int),
                rows@[i as int],
                filter@,
                moon_key(),
            );
            assert(rows@.subrange(0, i as int).push(rows@[i as int]) =~= rows@.subrange(
                0,
                i + 1,
            ));
        }
        if keeps(filter, rows[i].planet) {
            out.push(
                Moon {
                    id: rows[i].id,
                    planet: rows[i].planet,
                    index: rows[i].index,
                    solar_system: rows[i].solar_system,
                },
            );
        }
        i += 1;
    }
    proof {
        assert(rows@.subrange(0, n as int) =~= rows@);
    }
    out
}

} // verus!
