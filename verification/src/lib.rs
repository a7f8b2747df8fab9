//! In-memory entity graph over a game's static universe export.
//!
//! The export describes regions, constellations, solar systems, planets and
//! moons together with their stargate connectivity.  This crate holds the
//! verified core of the pipeline that reshapes relational rows into that
//! graph: the tier-ordered loader, the name index, the integer coordinate
//! transform, the connection-line deduplication and the region bounding-box
//! aggregation.  Reading the rows out of the backing store is left to the
//! caller, which hands plain row values to the functions here.

use vstd::prelude::*;
use std::collections::HashMap;

pub mod objects;
pub mod coords;
pub mod loader;
pub mod connections;
pub mod bounds;
pub mod points;

verus! {

use crate::bounds::{AreaRow, compute_region_areas, inverted_area_exact, raw_area_exact,
    regions_of};
use crate::coords::scale_and_invert;
use crate::loader::{
    ConstellationRow, GateRow, RegionRow, SystemRow, constellation_children, constellation_key,
    kept_rows, load_constellations, load_regions, load_solar_systems, one_hop_neighbors,
    region_children, region_key, system_key,
};
use crate::objects::{
    Constellation, EveRegionArea, NameEntry, Region, SdePoint, SolarSystem, Universe,
    extend_constellation_map, extend_region_map, extend_system_map, names_fold,
};
use crate::points::{
    EdgeRow, LineRow, PointRow, SdeMapLine, SdeMapPoint, attach_connections, build_map_lines,
    coords_for, extract_system_points, band_point_exists, last_row_with, incident_lines,
    str_views, dedup_line_rows,
};

/// True when some region row carries the id: with the global (empty) filter
/// every region row is loaded.
pub open spec fn region_loaded(rrows: Seq<RegionRow>, id: u32) -> bool {
    exists|i: int| 0 <= i < rrows.len() && rrows[i].id == id
}

/// The parent filter a constellation row must pass: with no region rows the
/// scope is global, otherwise its region must have been loaded.
pub open spec fn kept_constellation(c: ConstellationRow, rrows: Seq<RegionRow>) -> bool {
    rrows.len() == 0 || region_loaded(rrows, c.region)
}

/// True when some constellation row carrying the id passes the region
/// filter.
pub open spec fn constellation_loaded(
    crows: Seq<ConstellationRow>,
    rrows: Seq<RegionRow>,
    id: u32,
) -> bool {
    exists|i: int| 0 <= i < crows.len() && crows[i].id == id && kept_constellation(crows[i], rrows)
}

/// True when no constellation row passes the region filter, which makes the
/// solar-system scope global.
pub open spec fn no_constellation_loaded(
    crows: Seq<ConstellationRow>,
    rrows: Seq<RegionRow>,
) -> bool {
    forall|i: int| 0 <= i < crows.len() ==> !kept_constellation(crows[i], rrows)
}

/// The parent filter a solar-system row must pass.
pub open spec fn kept_system(
    s: SystemRow,
    crows: Seq<ConstellationRow>,
    rrows: Seq<RegionRow>,
) -> bool {
    no_constellation_loaded(crows, rrows) || constellation_loaded(crows, rrows, s.constellation)
}

/// True when some solar-system row carrying the id passes the constellation
/// filter.
pub open spec fn system_loaded(
    srows: Seq<SystemRow>,
    crows: Seq<ConstellationRow>,
    rrows: Seq<RegionRow>,
    id: u32,
) -> bool {
    exists|i: int| 0 <= i < srows.len() && srows[i].id == id && kept_system(srows[i], crows, rrows)
}

/// The constellation rows that pass the region filter, in row order.
pub open spec fn kept_constellation_rows(
    crows: Seq<ConstellationRow>,
    rrows: Seq<RegionRow>,
) -> Seq<ConstellationRow>
    decreases crows.len(),
{
    if crows.len() == 0 {
        Seq::empty()
    } else {
        let rest = kept_constellation_rows(crows.drop_last(), rrows);
        if kept_constellation(crows.last(), rrows) {
            rest.push(crows.last())
        } else {
            rest
        }
    }
}

/// The solar-system rows that pass the constellation filter, in row order.
pub open spec fn kept_system_rows(
    srows: Seq<SystemRow>,
    crows: Seq<ConstellationRow>,
    rrows: Seq<RegionRow>,
) -> Seq<SystemRow>
    decreases srows.len(),
{
    if srows.len() == 0 {
        Seq::empty()
    } else {
        let rest = kept_system_rows(srows.drop_last(), crows, rrows);
        if kept_system(srows.last(), crows, rrows) {
            rest.push(srows.last())
        } else {
            rest
        }
    }
}

/// The name entries of region rows, in row order.
pub open spec fn region_row_entries(rrows: Seq<RegionRow>) -> Seq<NameEntry> {
    Seq::new(rrows.len(), |i: int| (rrows[i].name@, rrows[i].id))
}

/// The name entries of constellation rows, in row order.
pub open spec fn constellation_row_entries(crows: Seq<ConstellationRow>) -> Seq<NameEntry> {
    Seq::new(crows.len(), |i: int| (crows[i].name@, crows[i].id))
}

/// The name entries of solar-system rows, in row order.
pub open spec fn system_row_entries(srows: Seq<SystemRow>) -> Seq<NameEntry> {
    Seq::new(srows.len(), |i: int| (srows[i].name@, srows[i].id))
}

/// The ids of loaded regions, in load order.
pub open spec fn region_ids(rs: Seq<Region>) -> Seq<u32> {
    Seq::new(rs.len(), |i: int| rs[i].id)
}

/// The ids of loaded constellations, in load order.
pub open spec fn constellation_ids(cs: Seq<Constellation>) -> Seq<u32> {
    Seq::new(cs.len(), |i: int| cs[i].id)
}

/// Collects the region ids executably.
fn collect_region_ids(rs: &Vec<Region>) -> (out: Vec<u32>)
    ensures
        out@ == region_ids(rs@),
{
    let n = rs.len();
    let mut out: Vec<u32> = Vec::new();
    let mut i: usize = 0;
    while i < n
        invariant
            n == rs@.len(),
            0 <= i <= n,
            out@.len() == i,
            forall|k: int| 0 <= k < i ==> out@[k] == rs@[k].id,
        decreases n - i,
    {
        out.push(rs[i].id);
        i += 1;
    }
    proof {
        assert(out@ =~= region_ids(rs@));
    }
    out
}

/// Collects the constellation ids executably.
fn collect_constellation_ids(cs: &Vec<Constellation>) -> (out: Vec<u32>)
    ensures
        out@ == constellation_ids(cs@),
{
    let n = cs.len();
    let mut out: Vec<u32> = Vec::new();
    let mut i: usize = 0;
    while i < n
        invariant
            n == cs@.len(),
            0 <= i <= n,
            out@.len() == i,
            forall|k: int| 0 <= k < i ==> out@[k] == cs@[k].id,
        decreases n - i,
    {
        out.push(cs[i].id);
        i += 1;
    }
    proof {
        assert(out@ =~= constellation_ids(cs@));
    }
    out
}

/// A filter whose decisions agree with the region scope keeps exactly the
/// constellation rows whose region was loaded.
proof fn lemma_kept_constellations_bridge(
    crows: Seq<ConstellationRow>,
    rrows: Seq<RegionRow>,
    filter: Seq<u32>,
)
    requires
        forall|x: u32| filter.contains(x) <==> region_loaded(rrows, x),
        filter.len() == 0 <==> rrows.len() == 0,
    ensures
        kept_rows(crows, filter, constellation_key()) == kept_constellation_rows(crows, rrows),
    decreases crows.len(),
{
    if crows.len() > 0 {
        lemma_kept_constellations_bridge(crows.drop_last(), rrows, filter);
    }
}

/// A filter whose decisions agree with the constellation scope keeps
/// exactly the solar-system rows whose constellation was loaded.
proof fn lemma_kept_systems_bridge(
    srows: Seq<SystemRow>,
    crows: Seq<ConstellationRow>,
    rrows: Seq<RegionRow>,
    filter: Seq<u32>,
)
    requires
        forall|x: u32| filter.contains(x) <==> constellation_loaded(crows, rrows, x),
        filter.len() == 0 <==> no_constellation_loaded(crows, rrows),
    ensures
        kept_rows(srows, filter, system_key()) == kept_system_rows(srows, crows, rrows),
    decreases srows.len(),
{
    if srows.len() > 0 {
        lemma_kept_systems_bridge(srows.drop_last(), crows, rrows, filter);
    }
}

/// Every kept constellation row is one of the rows that pass the filter,
/// and the kept list is empty exactly when none passes.
proof fn lemma_kept_crows_membership(crows: Seq<ConstellationRow>, rrows: Seq<RegionRow>)
    ensures
        forall|k: int|
            0 <= k < kept_constellation_rows(crows, rrows).len() ==> exists|i: int|
                0 <= i < crows.len() && crows[i] == #[trigger] kept_constellation_rows(
                    crows,
                    rrows,
                )[k] && kept_constellation(crows[i], rrows),
        forall|x: u32|
            (exists|k: int|
                0 <= k < kept_constellation_rows(crows, rrows).len()
                    && #[trigger] kept_constellation_rows(crows, rrows)[k].id == x)
                <==> constellation_loaded(crows, rrows, x),
        kept_constellation_rows(crows, rrows).len() == 0 <==> no_constellation_loaded(
            crows,
            rrows,
        ),
    decreases crows.len(),
{
    let kept = kept_constellation_rows(crows, rrows);
    if crows.len() > 0 {
        let prefix = crows.drop_last();
        lemma_kept_crows_membership(prefix, rrows);
        let rest = kept_constellation_rows(prefix, rrows);
        assert forall|k: int| 0 <= k < kept.len() implies exists|i: int|
            0 <= i < crows.len() && crows[i] == #[trigger] kept[k] && kept_constellation(
                crows[i],
                rrows,
            ) by {
            if k < rest.len() {
                assert(kept[k] == rest[k]);
                let i = choose|i: int|
                    0 <= i < prefix.len() && prefix[i] == rest[k] && kept_constellation(
                        prefix[i],
                        rrows,
                    );
                assert(crows[i] == kept[k]);
            } else {
                assert(crows[crows.len() - 1] == kept[k]);
            }
        }
        assert forall|x: u32| constellation_loaded(crows, rrows, x) implies (exists|k: int|
            0 <= k < kept.len() && #[trigger] kept[k].id == x) by {
            let i = choose|i: int|
                0 <= i < crows.len() && crows[i].id == x && kept_constellation(crows[i], rrows);
            if i < crows.len() - 1 {
                assert(constellation_loaded(prefix, rrows, x)) by {
                    assert(prefix[i].id == x && kept_constellation(prefix[i], rrows));
                }
                let k = choose|k: int| 0 <= k < rest.len() && #[trigger] rest[k].id == x;
                assert(kept[k].id == x);
            } else {
                assert(kept[kept.len() - 1].id == x);
            }
        }
        assert forall|x: u32|
            (exists|k: int| 0 <= k < kept.len() && #[trigger] kept[k].id == x) implies
        constellation_loaded(crows, rrows, x) by {
            let k = choose|k: int| 0 <= k < kept.len() && #[trigger] kept[k].id == x;
            let i = choose|i: int|
                0 <= i < crows.len() && crows[i] == kept[k] && kept_constellation(crows[i], rrows);
            assert(crows[i].id == x && kept_constellation(crows[i], rrows));
        }
        if kept.len() == 0 {
            assert(!kept_constellation(crows.last(), rrows));
            assert forall|i: int| 0 <= i < crows.len() implies !kept_constellation(
                #[trigger] crows[i],
                rrows,
            ) by {
                if i < crows.len() - 1 {
                    assert(prefix[i] == crows[i]);
                }
            }
        }
        if no_constellation_loaded(crows, rrows) {
            assert(forall|i: int|
                0 <= i < prefix.len() ==> !kept_constellation(#[trigger] prefix[i], rrows));
            assert(rest.len() == 0);
            assert(!kept_constellation(crows.last(), rrows));
        }
    }
}

/// An id-keyed entity map built from loaded regions holds exactly the
/// loaded ids, each mapped to one of the regions carrying it.
proof fn lemma_extend_region_map_char(rs: Seq<Region>)
    ensures
        forall|id: u32|
            #[trigger] extend_region_map(Map::empty(), rs).contains_key(id) <==> exists|k: int|
                0 <= k < rs.len() && rs[k].id == id,
        forall|id: u32|
            #[trigger] extend_region_map(Map::empty(), rs).contains_key(id) ==> exists|k: int|
                0 <= k < rs.len() && rs[k].id == id && extend_region_map(Map::empty(), rs)[id]
                    == rs[k],
    decreases rs.len(),
{
    let m = extend_region_map(Map::<u32, Region>::empty(), rs);
    if rs.len() > 0 {
        let prefix = rs.drop_last();
        lemma_extend_region_map_char(prefix);
        let m2 = extend_region_map(Map::<u32, Region>::empty(), prefix);
        assert forall|id: u32| #[trigger] m.contains_key(id) implies exists|k: int|
            0 <= k < rs.len() && rs[k].id == id && m[id] == rs[k] by {
            if m2.contains_key(id) {
                let k = choose|k: int|
                    0 <= k < prefix.len() && prefix[k].id == id && m2[id] == prefix[k];
                assert(rs[k].id == id && m[id] == rs[k]);
            } else {
                assert(rs[rs.len() - 1].id == id && m[id] == rs[rs.len() - 1]);
            }
        }
        assert forall|id: u32| (exists|k: int| 0 <= k < rs.len() && rs[k].id == id) implies
            #[trigger] m.contains_key(id) by {
            let k = choose|k: int| 0 <= k < rs.len() && rs[k].id == id;
            if k < rs.len() - 1 {
                assert(prefix[k].id == id);
                assert(m2.contains_key(id));
            }
        }
    }
}

/// An id-keyed entity map built from loaded constellations holds exactly
/// the loaded ids, each mapped to one of the constellations carrying it.
proof fn lemma_extend_constellation_map_char(cs: Seq<Constellation>)
    ensures
        forall|id: u32|
            #[trigger] extend_constellation_map(Map::empty(), cs).contains_key(id) <==> exists|
                k: int,
            |
                0 <= k < cs.len() && cs[k].id == id,
        forall|id: u32|
            #[trigger] extend_constellation_map(Map::empty(), cs).contains_key(id) ==> exists|
                k: int,
            |
                0 <= k < cs.len() && cs[k].id == id && extend_constellation_map(
                    Map::empty(),
                    cs,
                )[id] == cs[k],
    decreases cs.len(),
{
    let m = extend_constellation_map(Map::<u32, Constellation>::empty(), cs);
    if cs.len() > 0 {
        let prefix = cs.drop_last();
        lemma_extend_constellation_map_char(prefix);
        let m2 = extend_constellation_map(Map::<u32, Constellation>::empty(), prefix);
        assert forall|id: u32| #[trigger] m.contains_key(id) implies exists|k: int|
            0 <= k < cs.len() && cs[k].id == id && m[id] == cs[k] by {
            if m2.contains_key(id) {
                let k = choose|k: int|
                    0 <= k < prefix.len() && prefix[k].id == id && m2[id] == prefix[k];
                assert(cs[k].id == id && m[id] == cs[k]);
            } else {
                assert(cs[cs.len() - 1].id == id && m[id] == cs[cs.len() - 1]);
            }
        }
        assert forall|id: u32| (exists|k: int| 0 <= k < cs.len() && cs[k].id == id) implies
            #[trigger] m.contains_key(id) by {
            let k = choose|k: int| 0 <= k < cs.len() && cs[k].id == id;
            if k < cs.len() - 1 {
                assert(prefix[k].id == id);
                assert(m2.contains_key(id));
            }
        }
    }
}

/// An id-keyed entity map built from loaded solar systems holds exactly the
/// loaded ids, each mapped to one of the systems carrying it.
proof fn lemma_extend_system_map_char(ss: Seq<SolarSystem>)
    ensures
        forall|id: u32|
            #[trigger] extend_system_map(Map::empty(), ss).contains_key(id) <==> exists|k: int|
                0 <= k < ss.len() && ss[k].id == id,
        forall|id: u32|
            #[trigger] extend_system_map(Map::empty(), ss).contains_key(id) ==> exists|k: int|
                0 <= k < ss.len() && ss[k].id == id && extend_system_map(Map::empty(), ss)[id]
                    == ss[k],
    decreases ss.len(),
{
    let m = extend_system_map(Map::<u32, SolarSystem>::empty(), ss);
    if ss.len() > 0 {
        let prefix = ss.drop_last();
        lemma_extend_system_map_char(prefix);
        let m2 = extend_system_map(Map::<u32, SolarSystem>::empty(), prefix);
        assert forall|id: u32| #[trigger] m.contains_key(id) implies exists|k: int|
            0 <= k < ss.len() && ss[k].id == id && m[id] == ss[k] by {
            if m2.contains_key(id) {
                let k = choose|k: int|
                    0 <= k < prefix.len() && prefix[k].id == id && m2[id] == prefix[k];
                assert(ss[k].id == id && m[id] == ss[k]);
            } else {
                assert(ss[ss.len() - 1].id == id && m[id] == ss[ss.len() - 1]);
            }
        }
        assert forall|id: u32| (exists|k: int| 0 <= k < ss.len() && ss[k].id == id) implies
            #[trigger] m.contains_key(id) by {
            let k = choose|k: int| 0 <= k < ss.len() && ss[k].id == id;
            if k < ss.len() - 1 {
                assert(prefix[k].id == id);
                assert(m2.contains_key(id));
            }
        }
    }
}

/// Manages the process of turning rows of the static export into the
/// in-memory [`Universe`] and the render-facing collections derived from it.
pub struct SdeManager {
    /// Where the backing export lives; carried for the caller's benefit.
    pub path: String,
    /// The universe object that holds all loaded entities.
    pub universe: Universe,
    /// Divisor that brings raw coordinates into a usable numeric range.
    pub factor: u64,
    /// Whether the sign of every coordinate axis is flipped after scaling.
    pub invert_coordinates: bool,
}

impl SdeManager {
    /// Creates a manager for the export at `path` with the given scale factor.
    pub fn new(path: String, factor: u64) -> (m: SdeManager)
        ensures
            m.path == path,
            m.factor == factor,
            m.invert_coordinates == true,
            m.universe.is_fresh(factor),
    {
        SdeManager {
            path,
            universe: Universe::new(factor),
            factor,
            invert_coordinates: true,
        }
    }

    /// Retrieves the whole universe from the rows of the export: regions,
    /// constellations and solar systems are loaded in strict tier order,
    /// each tier filtered by the parent ids the previous tier produced, and
    /// every loaded entity is indexed by id and by case-folded name.  A
    /// fresh snapshot replaces whatever the universe held before; nothing
    /// is merged.
    pub fn build_universe(
        &mut self,
        region_rows: &Vec<RegionRow>,
        constellation_rows: &Vec<ConstellationRow>,
        system_rows: &Vec<SystemRow>,
        gates: &Vec<GateRow>,
    )
        ensures
            final(self).path == old(self).path,
            final(self).factor == old(self).factor,
            final(self).invert_coordinates == old(self).invert_coordinates,
            final(self).universe.factor == old(self).factor,
            final(self).universe.planets@ == Map::<u32, crate::objects::Planet>::empty(),
            final(self).universe.moons@ == Map::<u32, crate::objects::Moon>::empty(),
            final(self).universe.connections@ == Map::<String, crate::objects::SdeLine>::empty(),
            final(self).universe.dicts.wf(),
            forall|id: u32|
                #[trigger] final(self).universe.regions@.contains_key(id) <==> region_loaded(
                    region_rows@,
                    id,
                ),
            forall|id: u32|
                #[trigger] final(self).universe.regions@.contains_key(id) ==> {
                    let r = final(self).universe.regions@[id];
                    exists|i: int|
                        0 <= i < region_rows@.len() && (#[trigger] region_rows@[i]).id == id
                            && r.id == id && r.name@ == region_rows@[i].name@ && r.constellations@
                            == region_children(constellation_rows@, id)
                },
            forall|id: u32|
                #[trigger] final(self).universe.constellations@.contains_key(id)
                    <==> constellation_loaded(constellation_rows@, region_rows@, id),
            forall|id: u32|
                #[trigger] final(self).universe.constellations@.contains_key(id) ==> {
                    let c = final(self).universe.constellations@[id];
                    exists|i: int|
                        0 <= i < constellation_rows@.len() && (
                        #[trigger] constellation_rows@[i]).id == id && kept_constellation(
                            constellation_rows@[i],
                            region_rows@,
                        ) && c.id == id && c.name@ == constellation_rows@[i].name@ && c.region
                            == constellation_rows@[i].region && c.solar_systems@
                            == constellation_children(system_rows@, id)
                },
            forall|id: u32|
                #[trigger] final(self).universe.solar_systems@.contains_key(id) <==> system_loaded(
                    system_rows@,
                    constellation_rows@,
                    region_rows@,
                    id,
                ),
            forall|id: u32|
                #[trigger] final(self).universe.solar_systems@.contains_key(id) ==> {
                    let s = final(self).universe.solar_systems@[id];
                    exists|i: int|
                        0 <= i < system_rows@.len() && (#[trigger] system_rows@[i]).id == id
                            && kept_system(system_rows@[i], constellation_rows@, region_rows@)
                            && s.id == id && s.name@ == system_rows@[i].name@ && s.region
                            == system_rows@[i].region && s.constellation
                            == system_rows@[i].constellation && s.real_coords
                            == system_rows@[i].center && s.projected_coords
                            == system_rows@[i].projected && s.planets@ == Seq::<u32>::empty()
                            && s.connections@ == one_hop_neighbors(gates@, id) && s.factor == old(
                            self,
                        ).factor
                },
            final(self).universe.dicts.region_names@ == names_fold(
                Map::empty(),
                region_row_entries(region_rows@),
            ),
            final(self).universe.dicts.constellation_names@ == names_fold(
                Map::empty(),
                constellation_row_entries(
                    kept_constellation_rows(constellation_rows@, region_rows@),
                ),
            ),
            final(self).universe.dicts.system_names@ == names_fold(
                Map::empty(),
                system_row_entries(
                    kept_system_rows(system_rows@, constellation_rows@, region_rows@),
                ),
            ),
    {
        self.universe = Universe::new(self.factor);
        let empty_filter: Vec<u32> = Vec::new();

        let regions = load_regions(region_rows, &empty_filter, constellation_rows);
        let ghost regions_seq = regions@;
        proof {
            crate::loader::lemma_kept_rows_empty(region_rows@, region_key());
        }
        let region_id_list = collect_region_ids(&regions);
        proof {
            assert forall|x: u32| region_id_list@.contains(x) implies region_loaded(
                region_rows@,
                x,
            ) by {
                let k = choose|k: int|
                    0 <= k < region_id_list@.len() && region_id_list@[k] == x;
                assert(region_rows@[k].id == x);
            }
            assert forall|x: u32| region_loaded(region_rows@, x) implies region_id_list@.contains(
                x,
            ) by {
                let k = choose|k: int| 0 <= k < region_rows@.len() && region_rows@[k].id == x;
                assert(region_id_list@[k] == x);
            }
        }

        let constellations = load_constellations(constellation_rows, &region_id_list, system_rows);
        let ghost constellations_seq = constellations@;
        proof {
            lemma_kept_constellations_bridge(
                constellation_rows@,
                region_rows@,
                region_id_list@,
            );
            lemma_kept_crows_membership(constellation_rows@, region_rows@);
        }
        let constellation_id_list = collect_constellation_ids(&constellations);
        let ghost kept_crows = kept_constellation_rows(constellation_rows@, region_rows@);
        proof {
            assert forall|x: u32| constellation_id_list@.contains(x) implies constellation_loaded(
                constellation_rows@,
                region_rows@,
                x,
            ) by {
                let k = choose|k: int|
                    0 <= k < constellation_id_list@.len() && constellation_id_list@[k] == x;
                assert(kept_crows[k].id == x);
            }
            assert forall|x: u32|
                constellation_loaded(constellation_rows@, region_rows@, x) implies
            constellation_id_list@.contains(x) by {
                let k = choose|k: int| 0 <= k < kept_crows.len() && #[trigger] kept_crows[k].id
                    == x;
                assert(constellation_id_list@[k] == x);
            }
        }

        let systems = load_solar_systems(system_rows, &constellation_id_list, gates, self.factor);
        let ghost systems_seq = systems@;
        let ghost kept_srows = kept_system_rows(system_rows@, constellation_rows@, region_rows@);
        proof {
            lemma_kept_systems_bridge(
                system_rows@,
                constellation_rows@,
                region_rows@,
                constellation_id_list@,
            );
        }

        self.universe.index_regions(regions);
        self.universe.index_constellations(constellations);
        self.universe.index_systems(systems);

        proof {
            lemma_extend_region_map_char(regions_seq);
            lemma_extend_constellation_map_char(constellations_seq);
            lemma_extend_system_map_char(systems_seq);
            crate::objects::lemma_region_name_entries_char(regions_seq);
            crate::objects::lemma_constellation_name_entries_char(constellations_seq);
            crate::objects::lemma_system_name_entries_char(systems_seq);
            assert(crate::objects::region_name_entries(regions_seq) =~= region_row_entries(
                region_rows@,
            ));
            assert(crate::objects::constellation_name_entries(constellations_seq)
                =~= constellation_row_entries(kept_crows));
            assert(crate::objects::system_name_entries(systems_seq) =~= system_row_entries(
                kept_srows,
            ));
            assert forall|id: u32|
                #[trigger] self.universe.regions@.contains_key(id) implies region_loaded(
                region_rows@,
                id,
            ) by {
                let k = choose|k: int| 0 <= k < regions_seq.len() && regions_seq[k].id == id;
                assert(region_rows@[k].id == id);
            }
            assert forall|id: u32| region_loaded(region_rows@, id) implies
                #[trigger] self.universe.regions@.contains_key(id) by {
                let k = choose|k: int| 0 <= k < region_rows@.len() && region_rows@[k].id == id;
                assert(regions_seq[k].id == id);
            }
            assert forall|id: u32|
                #[trigger] self.universe.constellations@.contains_key(id) implies
            constellation_loaded(constellation_rows@, region_rows@, id) by {
                let k = choose|k: int|
                    0 <= k < constellations_seq.len() && constellations_seq[k].id == id;
                assert(kept_crows[k].id == id);
            }
            assert forall|id: u32|
                constellation_loaded(constellation_rows@, region_rows@, id) implies
                #[trigger] self.universe.constellations@.contains_key(id) by {
                let k = choose|k: int| 0 <= k < kept_crows.len() && #[trigger] kept_crows[k].id
                    == id;
                assert(constellations_seq[k].id == id);
            }
            assert forall|id: u32|
                #[trigger] self.universe.solar_systems@.contains_key(id) implies system_loaded(
                system_rows@,
                constellation_rows@,
                region_rows@,
                id,
            ) by {
                let k = choose|k: int| 0 <= k < systems_seq.len() && systems_seq[k].id == id;
                assert(kept_srows[k].id == id);
                lemma_kept_srows_membership(system_rows@, constellation_rows@, region_rows@);
            }
            assert forall|id: u32|
                system_loaded(system_rows@, constellation_rows@, region_rows@, id) implies
                #[trigger] self.universe.solar_systems@.contains_key(id) by {
                lemma_kept_srows_membership(system_rows@, constellation_rows@, region_rows@);
                let k = choose|k: int| 0 <= k < kept_srows.len() && #[trigger] kept_srows[k].id
                    == id;
                assert(systems_seq[k].id == id);
            }
            assert forall|id: u32|
                #[trigger] self.universe.regions@.contains_key(id) implies {
                let r = self.universe.regions@[id];
                exists|i: int|
                    0 <= i < region_rows@.len() && (#[trigger] region_rows@[i]).id == id && r.id
                        == id && r.name@ == region_rows@[i].name@ && r.constellations@
                        == region_children(constellation_rows@, id)
            } by {
                let k = choose|k: int|
                    0 <= k < regions_seq.len() && regions_seq[k].id == id
                        && self.universe.regions@[id] == regions_seq[k];
                assert(region_rows@[k].id == id);
            }
            assert forall|id: u32|
                #[trigger] self.universe.constellations@.contains_key(id) implies {
                let c = self.universe.constellations@[id];
                exists|i: int|
                    0 <= i < constellation_rows@.len() && (#[trigger] constellation_rows@[i]).id
                        == id && kept_constellation(constellation_rows@[i], region_rows@) && c.id
                        == id && c.name@ == constellation_rows@[i].name@ && c.region
                        == constellation_rows@[i].region && c.solar_systems@
                        == constellation_children(system_rows@, id)
            } by {
                let k = choose|k: int|
                    0 <= k < constellations_seq.len() && constellations_seq[k].id == id
                        && self.universe.constellations@[id] == constellations_seq[k];
                let i = choose|i: int|
                    0 <= i < constellation_rows@.len() && constellation_rows@[i] == kept_crows[k]
                        && kept_constellation(constellation_rows@[i], region_rows@);
                assert(constellation_rows@[i].id == id);
            }
            assert forall|id: u32|
                #[trigger] self.universe.solar_systems@.contains_key(id) implies {
                let s = self.universe.solar_systems@[id];
                exists|i: int|
                    0 <= i < system_rows@.len() && (#[trigger] system_rows@[i]).id == id
                        && kept_system(system_rows@[i], constellation_rows@, region_rows@) && s.id
                        == id && s.name@ == system_rows@[i].name@ && s.region
                        == system_rows@[i].region && s.constellation
                        == system_rows@[i].constellation && s.real_coords == system_rows@[i].center
                        && s.projected_coords == system_rows@[i].projected && s.planets@
                        == Seq::<u32>::empty() && s.connections@ == one_hop_neighbors(gates@, id)
                        && s.factor == old(self).factor
            } by {
                lemma_kept_srows_membership(system_rows@, constellation_rows@, region_rows@);
                let k = choose|k: int|
                    0 <= k < systems_seq.len() && systems_seq[k].id == id
                        && self.universe.solar_systems@[id] == systems_seq[k];
                assert(kept_srow_from(system_rows@, constellation_rows@, region_rows@, k));
                let i = choose|i: int|
                    0 <= i < system_rows@.len() && system_rows@[i] == kept_system_rows(
                        system_rows@,
                        constellation_rows@,
                        region_rows@,
                    )[k] && kept_system(system_rows@[i], constellation_rows@, region_rows@);
                assert(system_rows@[i].id == id);
            }
        }
    }
}

/// Some solar-system row backs position `k` of the kept rows.
pub open spec fn kept_srow_from(
    srows: Seq<SystemRow>,
    crows: Seq<ConstellationRow>,
    rrows: Seq<RegionRow>,
    k: int,
) -> bool {
    exists|i: int|
        0 <= i < srows.len() && srows[i] == kept_system_rows(srows, crows, rrows)[k]
            && kept_system(srows[i], crows, rrows)
}

impl SdeManager {
    /// Turns the known-space point rows into renderer-facing map points,
    /// using the manager's scale factor and inversion setting.
    pub fn systempoints_from_rows(&self, rows: &Vec<PointRow>, dimension: u8) -> (out: HashMap<
        u32,
        SdeMapPoint,
    >)
        requires
            0 < self.factor <= i64::MAX,
            dimension == 2 || dimension == 3,
            forall|i: int|
                0 <= i < rows@.len() ==> (#[trigger] rows@[i]).projected.x > i64::MIN
                    && rows@[i].projected.y > i64::MIN && rows@[i].projected.z > i64::MIN,
        ensures
            forall|id: u32| #[trigger] out@.contains_key(id) <==> band_point_exists(rows@, id),
            forall|id: u32|
                #[trigger] out@.contains_key(id) ==> {
                    let row = last_row_with(rows@, id);
                    &&& out@[id].id == id
                    &&& out@[id].name@ == row.name@
                    &&& out@[id].connections@ == Seq::<String>::empty()
                    &&& out@[id].coords@ == coords_for(
                        row.projected,
                        self.factor,
                        self.invert_coordinates,
                        dimension,
                    )
                },
    {
        extract_system_points(rows, self.factor, self.invert_coordinates, dimension)
    }

    /// Merges the connection rows into the given points, appending each
    /// connection id to both of its endpoints.
    pub fn system_connections_from_rows(
        &self,
        points: HashMap<u32, SdeMapPoint>,
        edges: &Vec<EdgeRow>,
    ) -> (out: HashMap<u32, SdeMapPoint>)
        ensures
            forall|k: u32| #[trigger] out@.contains_key(k) <==> points@.contains_key(k),
            forall|k: u32|
                #[trigger] out@.contains_key(k) ==> {
                    &&& out@[k].id == points@[k].id
                    &&& out@[k].name@ == points@[k].name@
                    &&& out@[k].coords@ == points@[k].coords@
                    &&& str_views(out@[k].connections@) == str_views(points@[k].connections@)
                        + incident_lines(edges@, k)
                },
    {
        attach_connections(points, edges)
    }

    /// Aggregates the per-region bounding boxes of the given rows, swapping
    /// and negating the corners when the manager inverts coordinates.
    pub fn region_coordinates_from_rows(&self, rows: &Vec<AreaRow>) -> (out: Vec<EveRegionArea>)
        requires
            forall|i: int|
                0 <= i < rows@.len() ==> (#[trigger] rows@[i]).point.x > i64::MIN
                    && rows@[i].point.y > i64::MIN && rows@[i].point.z > i64::MIN,
        ensures
            out@.len() == regions_of(rows@).len(),
            forall|k: int|
                0 <= k < out@.len() ==> {
                    let reg = regions_of(rows@)[k];
                    &&& (!self.invert_coordinates ==> raw_area_exact(
                        rows@,
                        reg,
                        #[trigger] out@[k],
                    ))
                    &&& (self.invert_coordinates ==> inverted_area_exact(rows@, reg, out@[k]))
                    &&& out@[k].max.x >= out@[k].min.x
                    &&& out@[k].max.y >= out@[k].min.y
                    &&& out@[k].max.z >= out@[k].min.z
                },
    {
        compute_region_areas(rows, self.invert_coordinates)
    }

    /// Builds one renderer-facing line per connection id from the given
    /// rows, endpoints transformed with the manager's settings.
    pub fn connections_from_rows(&self, rows: &Vec<LineRow>) -> (out: Vec<SdeMapLine>)
        requires
            0 < self.factor <= i64::MAX,
            forall|i: int|
                0 <= i < rows@.len() ==> (#[trigger] rows@[i]).a.x > i64::MIN && rows@[i].a.y
                    > i64::MIN && rows@[i].b.x > i64::MIN && rows@[i].b.y > i64::MIN,
        ensures
            out@.len() == dedup_line_rows(rows@).len(),
            forall|k: int|
                0 <= k < out@.len() ==> {
                    let row = dedup_line_rows(rows@)[k];
                    &&& (#[trigger] out@[k]).id@ == row.id@
                    &&& out@[k].a == crate::coords::planar_transformed(
                        row.a,
                        self.factor as int,
                        self.invert_coordinates,
                    )
                    &&& out@[k].b == crate::coords::planar_transformed(
                        row.b,
                        self.factor as int,
                        self.invert_coordinates,
                    )
                },
    {
        build_map_lines(rows, self.factor, self.invert_coordinates)
    }

    /// Transforms one raw coordinate point with the manager's settings:
    /// divide by the scale factor first, then invert if configured.
    pub fn system_coords_from_point(&self, p: &SdePoint) -> (r: SdePoint)
        requires
            0 < self.factor <= i64::MAX,
            p.x > i64::MIN,
            p.y > i64::MIN,
            p.z > i64::MIN,
        ensures
            r == crate::coords::point_transformed(
                *p,
                self.factor as int,
                self.invert_coordinates,
            ),
    {
        scale_and_invert(p, self.factor, self.invert_coordinates)
    }
}

/// Reloading an unchanged source yields identical entity counts: two
/// universes whose maps hold exactly the entities the same rows load have
/// equal id sets, and so equal region, constellation and solar-system
/// counts.
pub proof fn lemma_reload_idempotent(
    u1: Universe,
    u2: Universe,
    rrows: Seq<RegionRow>,
    crows: Seq<ConstellationRow>,
    srows: Seq<SystemRow>,
)
    requires
        forall|id: u32| #[trigger] u1.regions@.contains_key(id) <==> region_loaded(rrows, id),
        forall|id: u32| #[trigger] u2.regions@.contains_key(id) <==> region_loaded(rrows, id),
        forall|id: u32|
            #[trigger] u1.constellations@.contains_key(id) <==> constellation_loaded(
                crows,
                rrows,
                id,
            ),
        forall|id: u32|
            #[trigger] u2.constellations@.contains_key(id) <==> constellation_loaded(
                crows,
                rrows,
                id,
            ),
        forall|id: u32|
            #[trigger] u1.solar_systems@.contains_key(id) <==> system_loaded(
                srows,
                crows,
                rrows,
                id,
            ),
        forall|id: u32|
            #[trigger] u2.solar_systems@.contains_key(id) <==> system_loaded(
                srows,
                crows,
                rrows,
                id,
            ),
    ensures
        u1.regions@.dom() == u2.regions@.dom(),
        u1.constellations@.dom() == u2.constellations@.dom(),
        u1.solar_systems@.dom() == u2.solar_systems@.dom(),
        u1.regions@.len() == u2.regions@.len(),
        u1.constellations@.len() == u2.constellations@.len(),
        u1.solar_systems@.len() == u2.solar_systems@.len(),
{
    assert(u1.regions@.dom() =~= u2.regions@.dom());
    assert(u1.constellations@.dom() =~= u2.constellations@.dom());
    assert(u1.solar_systems@.dom() =~= u2.solar_systems@.dom());
}

/// Every kept solar-system row is one of the rows that pass the filter.
proof fn lemma_kept_srows_membership(
    srows: Seq<SystemRow>,
    crows: Seq<ConstellationRow>,
    rrows: Seq<RegionRow>,
)
    ensures
        forall|k: int|
            0 <= k < kept_system_rows(srows, crows, rrows).len() ==> #[trigger] kept_srow_from(
                srows,
                crows,
                rrows,
                k,
            ),
        forall|x: u32|
            (exists|k: int|
                0 <= k < kept_system_rows(srows, crows, rrows).len()
                    && #[trigger] kept_system_rows(srows, crows, rrows)[k].id == x)
                <==> system_loaded(srows, crows, rrows, x),
    decreases srows.len(),
{
    let kept = kept_system_rows(srows, crows, rrows);
    if srows.len() > 0 {
        let prefix = srows.drop_last();
        lemma_kept_srows_membership(prefix, crows, rrows);
        let rest = kept_system_rows(prefix, crows, rrows);
        assert forall|k: int| 0 <= k < kept.len() implies #[trigger] kept_srow_from(
            srows,
            crows,
            rrows,
            k,
        ) by {
            if k < rest.len() {
                assert(kept[k] == rest[k]);
                assert(kept_srow_from(prefix, crows, rrows, k));
                let i = choose|i: int|
                    0 <= i < prefix.len() && prefix[i] == kept_system_rows(prefix, crows, rrows)[k]
                        && kept_system(prefix[i], crows, rrows);
                assert(srows[i] == kept[k]);
                assert(0 <= i < srows.len() && srows[i] == kept_system_rows(srows, crows, rrows)[k]
                    && kept_system(srows[i], crows, rrows));
            } else {
                let i = srows.len() - 1;
                assert(srows[i] == kept[k]);
                assert(0 <= i < srows.len() && srows[i] == kept_system_rows(srows, crows, rrows)[k]
                    && kept_system(srows[i], crows, rrows));
            }
        }
        assert forall|x: u32| system_loaded(srows, crows, rrows, x) implies (exists|k: int|
            0 <= k < kept.len() && #[trigger] kept[k].id == x) by {
            let i = choose|i: int|
                0 <= i < srows.len() && srows[i].id == x && kept_system(srows[i], crows, rrows);
            if i < srows.len() - 1 {
                assert(system_loaded(prefix, crows, rrows, x)) by {
                    assert(prefix[i].id == x && kept_system(prefix[i], crows, rrows));
                }
                let k = choose|k: int| 0 <= k < rest.len() && #[trigger] rest[k].id == x;
                assert(kept[k].id == x);
            } else {
                assert(kept[kept.len() - 1].id == x);
            }
        }
        assert forall|x: u32|
            (exists|k: int| 0 <= k < kept.len() && #[trigger] kept[k].id == x) implies
        system_loaded(srows, crows, rrows, x) by {
            let k = choose|k: int| 0 <= k < kept.len() && #[trigger] kept[k].id == x;
            assert(kept_srow_from(srows, crows, rrows, k));
            let i = choose|i: int|
                0 <= i < srows.len() && srows[i] == kept_system_rows(srows, crows, rrows)[k]
                    && kept_system(srows[i], crows, rrows);
            assert(srows[i].id == x && kept_system(srows[i], crows, rrows));
        }
    } else {
        assert(kept_system_rows(srows, crows, rrows) =~= Seq::<SystemRow>::empty());
    }
}

} // verus!
