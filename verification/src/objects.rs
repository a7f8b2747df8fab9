//! Data objects that the loaded universe is made of.
//!
//! Entity ownership is flat: one map owns every instance of a type, and all
//! parent/child relationships are id references into those maps.  Raw
//! coordinates stay integers until a transform is applied to them.

use vstd::prelude::*;
use std::collections::HashMap;

verus! {

broadcast use vstd::std_specs::hash::group_hash_axioms;

/// Everything that can go wrong while loading or transforming the export.
#[derive(Clone, Copy, PartialEq, Eq, Structural, Hash, Debug)]
pub enum SdeError {
    /// The backing store was unreachable; the whole load pass aborts.
    Connection,
    /// A statement was malformed; treated as fatal.
    Query,
    /// A row held an unexpected null or a mismatched type; schema drift.
    RowDecode,
    /// No unique pivot axis: the caller must fall back or skip the point.
    ProjectionAmbiguous,
    /// A coordinate exceeds the safe narrowing range; the caller clamps or
    /// skips the entity.
    Overflow,
}

/// A point in the export's integer coordinate space.
///
/// Transforms never mutate a point in place; they produce new values.
#[derive(Clone, Copy, PartialEq, Eq, Structural, Hash, Debug)]
pub struct SdePoint {
    /// X coordinate
    pub x: i64,
    /// Y coordinate
    pub y: i64,
    /// Z coordinate
    pub z: i64,
}

impl SdePoint {
    /// Creates a new point with all three axes given.
    pub fn new(x: i64, y: i64, z: i64) -> (p: SdePoint)
        ensures
            p == (SdePoint { x, y, z }),
    {
        SdePoint { x, y, z }
    }
}

impl Default for SdePoint {
    fn default() -> (p: Self)
        ensures
            p == (SdePoint { x: 0i64, y: 0i64, z: 0i64 }),
    {
        SdePoint { x: 0, y: 0, z: 0 }
    }
}

/// A point of the two-dimensional abstracted map, in scaled integer units.
#[derive(Clone, Copy, PartialEq, Eq, Structural, Hash, Debug)]
pub struct PlanarPoint {
    /// Horizontal coordinate
    pub x: i64,
    /// Vertical coordinate
    pub y: i64,
}

impl PlanarPoint {
    /// Creates a new planar point.
    pub fn new(x: i64, y: i64) -> (p: PlanarPoint)
        ensures
            p == (PlanarPoint { x, y }),
    {
        PlanarPoint { x, y }
    }
}

/// A straight segment between the points of two connected solar systems.
#[derive(Clone, Copy, PartialEq, Eq, Structural, Debug)]
pub struct SdeLine {
    /// First endpoint
    pub a: SdePoint,
    /// Second endpoint
    pub b: SdePoint,
}

impl SdeLine {
    /// Creates a segment from endpoint `a` to endpoint `b`.
    pub fn new(a: SdePoint, b: SdePoint) -> (l: SdeLine)
        ensures
            l == (SdeLine { a, b }),
    {
        Self { a, b }
    }

    /// The point halfway between the two endpoints, each axis rounded
    /// towards zero.
    pub fn midpoint(self) -> (m: SdePoint)
        requires
            i64::MIN <= self.a.x + self.b.x <= i64::MAX,
            i64::MIN <= self.a.y + self.b.y <= i64::MAX,
            i64::MIN <= self.a.z + self.b.z <= i64::MAX,
        ensures
            m.x == crate::coords::div_trunc(self.a.x + self.b.x, 2),
            m.y == crate::coords::div_trunc(self.a.y + self.b.y, 2),
            m.z == crate::coords::div_trunc(self.a.z + self.b.z, 2),
    {
        let x = (self.a.x + self.b.x) / 2;
        let y = (self.a.y + self.b.y) / 2;
        let z = (self.a.z + self.b.z) / 2;
        SdePoint::new(x, y, z)
    }
}

/// The axis-aligned bounding box of one region's solar systems.
#[derive(Clone, PartialEq, Eq, Debug)]
pub struct EveRegionArea {
    /// Identifier of the region the box belongs to.
    pub region_id: u32,
    /// Display name of the region.
    pub name: String,
    /// Corner with the smallest coordinates.
    pub min: SdePoint,
    /// Corner with the largest coordinates.
    pub max: SdePoint,
}

impl EveRegionArea {
    /// Creates an empty area; every field still needs to be filled.
    pub fn new() -> (a: Self)
        ensures
            a.region_id == 0,
            a.name@ == Seq::<char>::empty(),
            a.min == (SdePoint { x: 0i64, y: 0i64, z: 0i64 }),
            a.max == (SdePoint { x: 0i64, y: 0i64, z: 0i64 }),
    {
        EveRegionArea {
            region_id: 0,
            name: String::new(),
            min: SdePoint::new(0, 0, 0),
            max: SdePoint::new(0, 0, 0),
        }
    }
}

/// A moon of a planet.
#[derive(Clone, Copy, PartialEq, Eq, Structural, Hash, Debug)]
pub struct Moon {
    /// Moon identifier
    pub id: u32,
    /// Identifier of the planet the moon orbits
    pub planet: u32,
    /// The cardinal number of this moon within its planet
    pub index: u8,
    /// Identifier of the solar system the moon lies in
    pub solar_system: u32,
}

impl Moon {
    /// Creates a zeroed moon; every field still needs to be filled.
    pub fn new() -> (m: Self)
        ensures
            m == (Moon { id: 0u32, planet: 0u32, index: 0u8, solar_system: 0u32 }),
    {
        Moon { id: 0, planet: 0, index: 0, solar_system: 0 }
    }
}

/// A planet of a solar system.
#[derive(Clone, Copy, PartialEq, Eq, Structural, Hash, Debug)]
pub struct Planet {
    /// Planet identifier
    pub id: u32,
    /// Identifier of the solar system the planet lies in
    pub solar_system: u32,
    /// The cardinal number of this planet within its solar system
    pub index: u8,
}

impl Planet {
    /// Creates a zeroed planet; every field still needs to be filled.
    pub fn new() -> (p: Self)
        ensures
            p == (Planet { id: 0u32, solar_system: 0u32, index: 0u8 }),
    {
        Planet { id: 0, solar_system: 0, index: 0 }
    }
}

/// A solar system, the leaf tier of the loaded hierarchy.
#[derive(Clone, PartialEq, Eq, Debug)]
pub struct SolarSystem {
    /// Solar system identifier
    pub id: u32,
    /// Solar system name
    pub name: String,
    /// Identifier of the owning region, denormalized for fast lookup
    pub region: u32,
    /// Identifier of the owning constellation
    pub constellation: u32,
    /// Identifiers of the system's planets in cardinal order
    pub planets: Vec<u32>,
    /// Identifiers of the systems reachable through exactly one stargate
    pub connections: Vec<u32>,
    /// Raw three-dimensional coordinates, in export units
    pub real_coords: SdePoint,
    /// Raw two-dimensional projected coordinates, in export units
    pub projected_coords: SdePoint,
    /// The scale factor that coordinate transforms divide by
    pub factor: u64,
}

impl SolarSystem {
    /// Creates an empty solar system owned by the given scale factor.
    pub fn new(factor: u64) -> (s: Self)
        ensures
            s.id == 0,
            s.name@ == Seq::<char>::empty(),
            s.region == 0,
            s.constellation == 0,
            s.planets@ == Seq::<u32>::empty(),
            s.connections@ == Seq::<u32>::empty(),
            s.real_coords == (SdePoint { x: 0i64, y: 0i64, z: 0i64 }),
            s.projected_coords == (SdePoint { x: 0i64, y: 0i64, z: 0i64 }),
            s.factor == factor,
    {
        SolarSystem {
            id: 0,
            name: String::new(),
            region: 0,
            constellation: 0,
            planets: Vec::new(),
            connections: Vec::new(),
            real_coords: SdePoint::new(0, 0, 0),
            projected_coords: SdePoint::new(0, 0, 0),
            factor,
        }
    }
}

/// A constellation, the middle tier of the loaded hierarchy.
#[derive(Clone, PartialEq, Eq, Debug)]
pub struct Constellation {
    /// Constellation identifier
    pub id: u32,
    /// Constellation name
    pub name: String,
    /// Identifier of the owning region
    pub region: u32,
    /// Identifiers of the constellation's solar systems
    pub solar_systems: Vec<u32>,
    /// Raw two-dimensional projected coordinates, in export units
    pub projected_coords: SdePoint,
}

impl Constellation {
    /// Creates an empty constellation; every field still needs to be filled.
    pub fn new() -> (c: Self)
        ensures
            c.id == 0,
            c.name@ == Seq::<char>::empty(),
            c.region == 0,
            c.solar_systems@ == Seq::<u32>::empty(),
            c.projected_coords == (SdePoint { x: 0i64, y: 0i64, z: 0i64 }),
    {
        Constellation {
            id: 0,
            name: String::new(),
            region: 0,
            solar_systems: Vec::new(),
            projected_coords: SdePoint::new(0, 0, 0),
        }
    }
}

/// A region, the root tier of the loaded hierarchy.
#[derive(Clone, PartialEq, Eq, Debug)]
pub struct Region {
    /// Region identifier
    pub id: u32,
    /// Region name
    pub name: String,
    /// Identifiers of the region's constellations
    pub constellations: Vec<u32>,
    /// Raw two-dimensional projected coordinates, in export units
    pub projected_coords: SdePoint,
}

impl Region {
    /// Creates an empty region; every field still needs to be filled.
    pub fn new() -> (r: Self)
        ensures
            r.id == 0,
            r.name@ == Seq::<char>::empty(),
            r.constellations@ == Seq::<u32>::empty(),
            r.projected_coords == (SdePoint { x: 0i64, y: 0i64, z: 0i64 }),
    {
        Region {
            id: 0,
            name: String::new(),
            constellations: Vec::new(),
            projected_coords: SdePoint::new(0, 0, 0),
        }
    }
}

/// A case-folded name-to-identifier index, built incrementally while
/// entities load.  The first binding of a name wins; later bindings of the
/// same name are ignored, so the entries always carry distinct names.
#[derive(Clone, Debug)]
pub struct NameIndex {
    entries: Vec<(String, u32)>,
}

impl NameIndex {
    /// The mathematical mapping the index represents.
    pub closed spec fn view_of(entries: Seq<(String, u32)>) -> Map<Seq<char>, u32>
        decreases entries.len(),
    {
        if entries.len() == 0 {
            Map::empty()
        } else {
            let m = Self::view_of(entries.drop_last());
            let last = entries.last();
            if m.contains_key(last.0@) {
                m
            } else {
                m.insert(last.0@, last.1)
            }
        }
    }

    /// How many names the index binds.
    pub closed spec fn spec_len(self) -> nat {
        self.entries@.len()
    }

    /// All stored names are distinct, so the entry list and the mapping
    /// carry the same information.
    pub closed spec fn wf(self) -> bool {
        forall|i: int, j: int|
            0 <= i < j < self.entries@.len() ==> self.entries@[i].0@ != self.entries@[j].0@
    }

    /// Creates an empty index.
    pub fn new() -> (n: Self)
        ensures
            n@ == Map::<Seq<char>, u32>::empty(),
            n.wf(),
            n.spec_len() == 0,
    {
        NameIndex { entries: Vec::new() }
    }

    /// Looks the exact name up and returns the identifier bound to it.
    pub fn lookup(&self, name: &String) -> (r: Option<u32>)
        requires
            self.wf(),
        ensures
            r is Some <==> self@.contains_key(name@),
            r is Some ==> r == Some(self@[name@]),
    {
        proof {
            self.lemma_view_characterizes();
        }
        let n = self.entries.len();
        let mut i: usize = 0;
        while i < n
            invariant
                n == self.entries@.len(),
                0 <= i <= n,
                self.wf(),
                forall|k: int| 0 <= k < i ==> self.entries@[k].0@ != name@,
                forall|k: int|
                    0 <= k < self.entries@.len() ==> (self@.contains_key(
                        #[trigger] self.entries@[k].0@,
                    ) && self@[self.entries@[k].0@] == self.entries@[k].1),
                forall|s: Seq<char>|
                    self@.contains_key(s) ==> exists|k: int|
                        0 <= k < self.entries@.len() && #[trigger] self.entries@[k].0@ == s,
            decreases n - i,
        {
            if self.entries[i].0 == *name {
                return Some(self.entries[i].1);
            }
            i += 1;
        }
        None
    }

    /// Binds `name` to `id` unless the name is already bound; the first
    /// binding of a name always wins.
    pub fn insert_if_absent(&mut self, name: String, id: u32) -> (added: bool)
        requires
            old(self).wf(),
        ensures
            final(self).wf(),
            added <==> !old(self)@.contains_key(name@),
            added ==> final(self)@ == old(self)@.insert(name@, id),
            !added ==> final(self)@ == old(self)@,
            added ==> final(self).spec_len() == old(self).spec_len() + 1,
            !added ==> final(self).spec_len() == old(self).spec_len(),
    {
        match self.lookup(&name) {
            Some(_) => false,
            None => {
                proof {
                    self.lemma_view_characterizes();
                }
                self.entries.push((name, id));
                proof {
                    assert(self.entries@.drop_last() =~= old(self).entries@);
                }
                true
            },
        }
    }

    /// Every stored entry is visible in the mapping, and the mapping holds
    /// nothing but the stored entries.
    proof fn lemma_view_characterizes(&self)
        requires
            self.wf(),
        ensures
            forall|k: int|
                0 <= k < self.entries@.len() ==> (self@.contains_key(
                    #[trigger] self.entries@[k].0@,
                ) && self@[self.entries@[k].0@] == self.entries@[k].1),
            forall|s: Seq<char>|
                self@.contains_key(s) ==> exists|k: int|
                    0 <= k < self.entries@.len() && #[trigger] self.entries@[k].0@ == s,
    {
        Self::lemma_view_of_characterizes(self.entries@);
    }

    /// The recursive characterization behind [`Self::lemma_view_characterizes`],
    /// proved for any entry list with distinct names.
    proof fn lemma_view_of_characterizes(entries: Seq<(String, u32)>)
        requires
            forall|i: int, j: int| 0 <= i < j < entries.len() ==> entries[i].0@ != entries[j].0@,
        ensures
            forall|k: int|
                0 <= k < entries.len() ==> (Self::view_of(entries).contains_key(
                    #[trigger] entries[k].0@,
                ) && Self::view_of(entries)[entries[k].0@] == entries[k].1),
            forall|s: Seq<char>|
                Self::view_of(entries).contains_key(s) ==> exists|k: int|
                    0 <= k < entries.len() && #[trigger] entries[k].0@ == s,
        decreases entries.len(),
    {
        if entries.len() > 0 {
            let prefix = entries.drop_last();
            let last = entries.last();
            Self::lemma_view_of_characterizes(prefix);
            let m = Self::view_of(prefix);
            assert(!m.contains_key(last.0@)) by {
                if m.contains_key(last.0@) {
                    let k = choose|k: int|
                        0 <= k < prefix.len() && #[trigger] prefix[k].0@ == last.0@;
                    assert(entries[k].0@ == entries[entries.len() - 1].0@);
                }
            }
            assert(Self::view_of(entries) == m.insert(last.0@, last.1));
            assert forall|k: int| 0 <= k < entries.len() implies (Self::view_of(
                entries,
            ).contains_key(#[trigger] entries[k].0@) && Self::view_of(entries)[entries[k].0@]
                == entries[k].1) by {
                if k < entries.len() - 1 {
                    assert(prefix[k] == entries[k]);
                    assert(entries[k].0@ != last.0@);
                }
            }
            assert forall|s: Seq<char>| Self::view_of(entries).contains_key(s) implies exists|
                k: int,
            |
                0 <= k < entries.len() && #[trigger] entries[k].0@ == s by {
                if s == last.0@ {
                    assert(entries[entries.len() - 1].0@ == s);
                } else {
                    let k = choose|k: int| 0 <= k < prefix.len() && #[trigger] prefix[k].0@ == s;
                    assert(entries[k].0@ == s);
                }
            }
        }
    }
}

impl View for NameIndex {
    type V = Map<Seq<char>, u32>;

    closed spec fn view(&self) -> Map<Seq<char>, u32> {
        Self::view_of(self.entries@)
    }
}

/// The case folding of a sequence of characters, as the standard library's
/// lowercase conversion defines it.
pub uninterp spec fn lower_of(s: Seq<char>) -> Seq<char>;

/// Relies on str::to_lowercase of the standard library: the result depends
/// on the characters of the input alone.
#[verifier::external_body]
pub(crate) fn lowercase(s: &str) -> (r: String)
    ensures
        r@ == lower_of(s@),
{
    s.to_lowercase()
}

/// A name-to-identifier entry awaiting case folding.
pub type NameEntry = (Seq<char>, u32);

/// Folds entries into a name mapping: each name is case folded and bound to
/// its identifier unless an earlier entry already bound it.
pub open spec fn names_fold(m: Map<Seq<char>, u32>, entries: Seq<NameEntry>) -> Map<Seq<char>, u32>
    decreases entries.len(),
{
    if entries.len() == 0 {
        m
    } else {
        let m2 = names_fold(m, entries.drop_last());
        let last = entries.last();
        if m2.contains_key(lower_of(last.0)) {
            m2
        } else {
            m2.insert(lower_of(last.0), last.1)
        }
    }
}

/// The name indexes used to find regions, constellations and solar systems
/// by their case-folded names.
#[derive(Clone, Debug)]
pub struct Dictionaries {
    /// Solar system names
    pub system_names: NameIndex,
    /// Constellation names
    pub constellation_names: NameIndex,
    /// Region names
    pub region_names: NameIndex,
}

impl Dictionaries {
    /// True when all three indexes are well formed.
    pub open spec fn wf(self) -> bool {
        self.system_names.wf() && self.constellation_names.wf() && self.region_names.wf()
    }

    /// True when no index binds any name yet.
    pub open spec fn is_empty(self) -> bool {
        &&& self.system_names@ == Map::<Seq<char>, u32>::empty()
        &&& self.constellation_names@ == Map::<Seq<char>, u32>::empty()
        &&& self.region_names@ == Map::<Seq<char>, u32>::empty()
    }

    /// Creates empty dictionaries.
    pub fn new() -> (d: Dictionaries)
        ensures
            d.is_empty(),
            d.wf(),
    {
        Dictionaries {
            system_names: NameIndex::new(),
            constellation_names: NameIndex::new(),
            region_names: NameIndex::new(),
        }
    }
}

/// Everything the loaded universe owns.
///
/// Each entity type lives in one flat id-keyed map; the dictionaries and the
/// derived connection set are rebuilt on every load pass.
#[derive(Clone)]
pub struct Universe {
    /// Regions by identifier
    pub regions: HashMap<u32, Region>,
    /// Constellations by identifier
    pub constellations: HashMap<u32, Constellation>,
    /// Solar systems by identifier
    pub solar_systems: HashMap<u32, SolarSystem>,
    /// Planets by identifier
    pub planets: HashMap<u32, Planet>,
    /// Moons by identifier
    pub moons: HashMap<u32, Moon>,
    /// Name indexes over the loaded entities
    pub dicts: Dictionaries,
    /// Divisor used to correct coordinates
    pub factor: u64,
    /// Derived connection segments, keyed by the export's connection id
    pub connections: HashMap<String, SdeLine>,
}

impl Universe {
    /// True for a universe that holds no entities yet.
    pub open spec fn is_fresh(self, factor: u64) -> bool {
        &&& self.regions@ == Map::<u32, Region>::empty()
        &&& self.constellations@ == Map::<u32, Constellation>::empty()
        &&& self.solar_systems@ == Map::<u32, SolarSystem>::empty()
        &&& self.planets@ == Map::<u32, Planet>::empty()
        &&& self.moons@ == Map::<u32, Moon>::empty()
        &&& self.dicts.is_empty()
        &&& self.dicts.wf()
        &&& self.factor == factor
        &&& self.connections@ == Map::<String, SdeLine>::empty()
    }

    /// Creates an empty universe owned by the given scale factor.
    pub fn new(factor: u64) -> (u: Universe)
        ensures
            u.is_fresh(factor),
    {
        Universe {
            regions: HashMap::new(),
            constellations: HashMap::new(),
            solar_systems: HashMap::new(),
            planets: HashMap::new(),
            moons: HashMap::new(),
            dicts: Dictionaries::new(),
            factor,
            connections: HashMap::new(),
        }
    }

    /// Takes the loaded regions into the region map and the region name
    /// index, first binding winning in both.
    pub fn index_regions(&mut self, regions: Vec<Region>)
        requires
            old(self).dicts.region_names.wf(),
        ensures
            final(self).regions@ == extend_region_map(old(self).regions@, regions@),
            final(self).dicts.region_names@ == names_fold(
                old(self).dicts.region_names@,
                region_name_entries(regions@),
            ),
            final(self).dicts.region_names.wf(),
            final(self).constellations == old(self).constellations,
            final(self).solar_systems == old(self).solar_systems,
            final(self).planets == old(self).planets,
            final(self).moons == old(self).moons,
            final(self).factor == old(self).factor,
            final(self).connections == old(self).connections,
            final(self).dicts.constellation_names == old(self).dicts.constellation_names,
            final(self).dicts.system_names == old(self).dicts.system_names,
    {
        let ghost orig = regions@;
        let ghost j: int = 0;
        let mut regions = regions;
        while regions.len() > 0
            invariant
                0 <= j <= orig.len(),
                regions@ == orig.subrange(j, orig.len() as int),
                self.dicts.region_names.wf(),
                self.regions@ == extend_region_map(old(self).regions@, orig.subrange(0, j)),
                self.dicts.region_names@ == names_fold(
                    old(self).dicts.region_names@,
                    region_name_entries(orig.subrange(0, j)),
                ),
                self.constellations == old(self).constellations,
                self.solar_systems == old(self).solar_systems,
                self.planets == old(self).planets,
                self.moons == old(self).moons,
                self.factor == old(self).factor,
                self.connections == old(self).connections,
                self.dicts.constellation_names == old(self).dicts.constellation_names,
                self.dicts.system_names == old(self).dicts.system_names,
            decreases regions@.len(),
        {
            proof {
                assert(orig.subrange(0, j + 1).drop_last() =~= orig.subrange(0, j));
                assert(orig.subrange(0, j + 1).last() == orig[j]);
                assert(region_name_entries(orig.subrange(0, j + 1)).drop_last()
                    =~= region_name_entries(orig.subrange(0, j))) by {
                    lemma_region_name_entries_len(orig.subrange(0, j + 1));
                    lemma_region_name_entries_len(orig.subrange(0, j));
                    assert(region_name_entries(orig.subrange(0, j + 1))
                        == region_name_entries(orig.subrange(0, j + 1).drop_last()).push(
                        (orig[j].name@, orig[j].id),
                    ));
                }
            }
            let r = regions.remove(0);
            proof {
                assert(r == orig[j]);
                assert(regions@ =~= orig.subrange(j + 1, orig.len() as int));
            }
            let lname = lowercase(r.name.as_str());
            self.dicts.region_names.insert_if_absent(lname, r.id);
            if !self.regions.contains_key(&r.id) {
                self.regions.insert(r.id, r);
            }
            proof {
                j = j + 1;
            }
        }
        proof {
            assert(orig.subrange(0, orig.len() as int) =~= orig);
        }
    }

    /// Takes the loaded constellations into the constellation map and the
    /// constellation name index, first binding winning in both.
    pub fn index_constellations(&mut self, constellations: Vec<Constellation>)
        requires
            old(self).dicts.constellation_names.wf(),
        ensures
            final(self).constellations@ == extend_constellation_map(
                old(self).constellations@,
                constellations@,
            ),
            final(self).dicts.constellation_names@ == names_fold(
                old(self).dicts.constellation_names@,
                constellation_name_entries(constellations@),
            ),
            final(self).dicts.constellation_names.wf(),
            final(self).regions == old(self).regions,
            final(self).solar_systems == old(self).solar_systems,
            final(self).planets == old(self).planets,
            final(self).moons == old(self).moons,
            final(self).factor == old(self).factor,
            final(self).connections == old(self).connections,
            final(self).dicts.region_names == old(self).dicts.region_names,
            final(self).dicts.system_names == old(self).dicts.system_names,
    {
        let ghost orig = constellations@;
        let ghost j: int = 0;
        let mut constellations = constellations;
        while constellations.len() > 0
            invariant
                0 <= j <= orig.len(),
                constellations@ == orig.subrange(j, orig.len() as int),
                self.dicts.constellation_names.wf(),
                self.constellations@ == extend_constellation_map(
                    old(self).constellations@,
                    orig.subrange(0, j),
                ),
                self.dicts.constellation_names@ == names_fold(
                    old(self).dicts.constellation_names@,
                    constellation_name_entries(orig.subrange(0, j)),
                ),
                self.regions == old(self).regions,
                self.solar_systems == old(self).solar_systems,
                self.planets == old(self).planets,
                self.moons == old(self).moons,
                self.factor == old(self).factor,
                self.connections == old(self).connections,
                self.dicts.region_names == old(self).dicts.region_names,
                self.dicts.system_names == old(self).dicts.system_names,
            decreases constellations@.len(),
        {
            proof {
                assert(orig.subrange(0, j + 1).drop_last() =~= orig.subrange(0, j));
                assert(orig.subrange(0, j + 1).last() == orig[j]);
                assert(constellation_name_entries(orig.subrange(0, j + 1)).drop_last()
                    =~= constellation_name_entries(orig.subrange(0, j))) by {
                    lemma_constellation_name_entries_len(orig.subrange(0, j + 1));
                    lemma_constellation_name_entries_len(orig.subrange(0, j));
                    assert(constellation_name_entries(orig.subrange(0, j + 1))
                        == constellation_name_entries(orig.subrange(0, j + 1).drop_last()).push(
                        (orig[j].name@, orig[j].id),
                    ));
                }
            }
            let c = constellations.remove(0);
            proof {
                assert(c == orig[j]);
                assert(constellations@ =~= orig.subrange(j + 1, orig.len() as int));
            }
            let lname = lowercase(c.name.as_str());
            self.dicts.constellation_names.insert_if_absent(lname, c.id);
            if !self.constellations.contains_key(&c.id) {
                self.constellations.insert(c.id, c);
            }
            proof {
                j = j + 1;
            }
        }
        proof {
            assert(orig.subrange(0, orig.len() as int) =~= orig);
        }
    }

    /// Takes the loaded solar systems into the system map and the system
    /// name index, first binding winning in both.
    pub fn index_systems(&mut self, systems: Vec<SolarSystem>)
        requires
            old(self).dicts.system_names.wf(),
        ensures
            final(self).solar_systems@ == extend_system_map(
                old(self).solar_systems@,
                systems@,
            ),
            final(self).dicts.system_names@ == names_fold(
                old(self).dicts.system_names@,
                system_name_entries(systems@),
            ),
            final(self).dicts.system_names.wf(),
            final(self).regions == old(self).regions,
            final(self).constellations == old(self).constellations,
            final(self).planets == old(self).planets,
            final(self).moons == old(self).moons,
            final(self).factor == old(self).factor,
            final(self).connections == old(self).connections,
            final(self).dicts.region_names == old(self).dicts.region_names,
            final(self).dicts.constellation_names == old(self).dicts.constellation_names,
    {
        let ghost orig = systems@;
        let ghost j: int = 0;
        let mut systems = systems;
        while systems.len() > 0
            invariant
                0 <= j <= orig.len(),
                systems@ == orig.subrange(j, orig.len() as int),
                self.dicts.system_names.wf(),
                self.solar_systems@ == extend_system_map(
                    old(self).solar_systems@,
                    orig.subrange(0, j),
                ),
                self.dicts.system_names@ == names_fold(
                    old(self).dicts.system_names@,
                    system_name_entries(orig.subrange(0, j)),
                ),
                self.regions == old(self).regions,
                self.constellations == old(self).constellations,
                self.planets == old(self).planets,
                self.moons == old(self).moons,
                self.factor == old(self).factor,
                self.connections == old(self).connections,
                self.dicts.region_names == old(self).dicts.region_names,
                self.dicts.constellation_names == old(self).dicts.constellation_names,
            decreases systems@.len(),
        {
            proof {
                assert(orig.subrange(0, j + 1).drop_last() =~= orig.subrange(0, j));
                assert(orig.subrange(0, j + 1).last() == orig[j]);
                assert(system_name_entries(orig.subrange(0, j + 1)).drop_last()
                    =~= system_name_entries(orig.subrange(0, j))) by {
                    lemma_system_name_entries_len(orig.subrange(0, j + 1));
                    lemma_system_name_entries_len(orig.subrange(0, j));
                    assert(system_name_entries(orig.subrange(0, j + 1))
                        == system_name_entries(orig.subrange(0, j + 1).drop_last()).push(
                        (orig[j].name@, orig[j].id),
                    ));
                }
            }
            let s = systems.remove(0);
            proof {
                assert(s == orig[j]);
                assert(systems@ =~= orig.subrange(j + 1, orig.len() as int));
            }
            let lname = lowercase(s.name.as_str());
            self.dicts.system_names.insert_if_absent(lname, s.id);
            if !self.solar_systems.contains_key(&s.id) {
                self.solar_systems.insert(s.id, s);
            }
            proof {
                j = j + 1;
            }
        }
        proof {
            assert(orig.subrange(0, orig.len() as int) =~= orig);
        }
    }
}

/// Extends an id-keyed region map with loaded regions; the first region
/// carrying an id wins.
pub open spec fn extend_region_map(m: Map<u32, Region>, rs: Seq<Region>) -> Map<u32, Region>
    decreases rs.len(),
{
    if rs.len() == 0 {
        m
    } else {
        let m2 = extend_region_map(m, rs.drop_last());
        if m2.contains_key(rs.last().id) {
            m2
        } else {
            m2.insert(rs.last().id, rs.last())
        }
    }
}

/// Extends an id-keyed constellation map; the first carrier of an id wins.
pub open spec fn extend_constellation_map(m: Map<u32, Constellation>, cs: Seq<Constellation>) -> Map<
    u32,
    Constellation,
>
    decreases cs.len(),
{
    if cs.len() == 0 {
        m
    } else {
        let m2 = extend_constellation_map(m, cs.drop_last());
        if m2.contains_key(cs.last().id) {
            m2
        } else {
            m2.insert(cs.last().id, cs.last())
        }
    }
}

/// Extends an id-keyed solar-system map; the first carrier of an id wins.
pub open spec fn extend_system_map(m: Map<u32, SolarSystem>, ss: Seq<SolarSystem>) -> Map<
    u32,
    SolarSystem,
>
    decreases ss.len(),
{
    if ss.len() == 0 {
        m
    } else {
        let m2 = extend_system_map(m, ss.drop_last());
        if m2.contains_key(ss.last().id) {
            m2
        } else {
            m2.insert(ss.last().id, ss.last())
        }
    }
}

/// The name entries of loaded regions, in load order.
pub open spec fn region_name_entries(rs: Seq<Region>) -> Seq<NameEntry>
    decreases rs.len(),
{
    if rs.len() == 0 {
        Seq::empty()
    } else {
        region_name_entries(rs.drop_last()).push((rs.last().name@, rs.last().id))
    }
}

/// The name entries of loaded constellations, in load order.
pub open spec fn constellation_name_entries(cs: Seq<Constellation>) -> Seq<NameEntry>
    decreases cs.len(),
{
    if cs.len() == 0 {
        Seq::empty()
    } else {
        constellation_name_entries(cs.drop_last()).push((cs.last().name@, cs.last().id))
    }
}

/// The name entries of loaded solar systems, in load order.
pub open spec fn system_name_entries(ss: Seq<SolarSystem>) -> Seq<NameEntry>
    decreases ss.len(),
{
    if ss.len() == 0 {
        Seq::empty()
    } else {
        system_name_entries(ss.drop_last()).push((ss.last().name@, ss.last().id))
    }
}

/// The entry list is as long as the entity list.
proof fn lemma_region_name_entries_len(rs: Seq<Region>)
    ensures
        region_name_entries(rs).len() == rs.len(),
    decreases rs.len(),
{
    if rs.len() > 0 {
        lemma_region_name_entries_len(rs.drop_last());
    }
}

/// Each entry carries the matching region's name and id.
pub proof fn lemma_region_name_entries_char(rs: Seq<Region>)
    ensures
        region_name_entries(rs).len() == rs.len(),
        forall|k: int|
            0 <= k < rs.len() ==> #[trigger] region_name_entries(rs)[k] == (rs[k].name@, rs[k].id),
    decreases rs.len(),
{
    if rs.len() > 0 {
        lemma_region_name_entries_char(rs.drop_last());
    }
}

/// Each entry carries the matching constellation's name and id.
pub proof fn lemma_constellation_name_entries_char(cs: Seq<Constellation>)
    ensures
        constellation_name_entries(cs).len() == cs.len(),
        forall|k: int|
            0 <= k < cs.len() ==> #[trigger] constellation_name_entries(cs)[k] == (
                cs[k].name@,
                cs[k].id,
            ),
    decreases cs.len(),
{
    if cs.len() > 0 {
        lemma_constellation_name_entries_char(cs.drop_last());
    }
}

/// Each entry carries the matching solar system's name and id.
pub proof fn lemma_system_name_entries_char(ss: Seq<SolarSystem>)
    ensures
        system_name_entries(ss).len() == ss.len(),
        forall|k: int|
            0 <= k < ss.len() ==> #[trigger] system_name_entries(ss)[k] == (
                ss[k].name@,
                ss[k].id,
            ),
    decreases ss.len(),
{
    if ss.len() > 0 {
        lemma_system_name_entries_char(ss.drop_last());
    }
}

/// The entry list is as long as the entity list.
proof fn lemma_constellation_name_entries_len(cs: Seq<Constellation>)
    ensures
        constellation_name_entries(cs).len() == cs.len(),
    decreases cs.len(),
{
    if cs.len() > 0 {
        lemma_constellation_name_entries_len(cs.drop_last());
    }
}

/// The entry list is as long as the entity list.
proof fn lemma_system_name_entries_len(ss: Seq<SolarSystem>)
    ensures
        system_name_entries(ss).len() == ss.len(),
    decreases ss.len(),
{
    if ss.len() > 0 {
        lemma_system_name_entries_len(ss.drop_last());
    }
}

} // verus!
