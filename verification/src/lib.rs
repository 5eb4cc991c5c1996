//! Interactive planning of a cycling-infrastructure network over a road
//! graph: a route store with a one-route-per-road invariant, a rule-based
//! level-of-service classifier, a degree-2 chain collapser used by imports,
//! a path auto-splitter, and an origin-destination statistics aggregator.
//!
//! The road network itself (topology, routing, geometry) is an external
//! collaborator: roads are identified here by their index, and the per-road
//! attributes the rules read (speed, traffic, names, endpoints) are held as
//! plain values supplied at construction.
use vstd::prelude::*;

pub mod evaluate;
pub mod join_lines;
pub mod level_of_service;
pub mod routes;
pub mod stats;

pub use evaluate::Breakdown;
pub use join_lines::{Dir, KeyedLineString};
pub use level_of_service::LevelOfService;
pub use routes::RouteError;

verus! {

/// Whether any route in `rs` claims road `r`.
pub open spec fn claimed_in(rs: Seq<(usize, Route)>, r: usize) -> bool {
    exists|i: int| 0 <= i < rs.len() && #[trigger] rs[i].1.roads@.contains(r)
}

/// The infrastructure type of the route claiming road `r`, if any, taking
/// the first match in storage order; unambiguous while claims are disjoint.
pub open spec fn infra_for(rs: Seq<(usize, Route)>, r: usize) -> Option<InfraType>
    decreases rs.len(),
{
    if rs.len() == 0 {
        None
    } else if rs[0].1.roads@.contains(r) {
        Some(rs[0].1.infra_type)
    } else {
        infra_for(rs.drop_first(), r)
    }
}

/// The infrastructure type of the route claiming road `r`, or `Unknown`
/// when no route claims it.
pub open spec fn infra_or_unknown(rs: Seq<(usize, Route)>, r: usize) -> InfraType {
    match infra_for(rs, r) {
        Some(it) => it,
        None => InfraType::Unknown,
    }
}

/// When no route before index `i` claims `r` but the route at `i` does,
/// the first match is the one at `i`.
pub proof fn lemma_infra_for_found(rs: Seq<(usize, Route)>, r: usize, i: int)
    requires
        0 <= i < rs.len(),
        forall|j: int| 0 <= j < i ==> !(#[trigger] rs[j]).1.roads@.contains(r),
        rs[i].1.roads@.contains(r),
    ensures
        infra_for(rs, r) == Some(rs[i].1.infra_type),
    decreases i,
{
    if i > 0 {
        lemma_infra_for_found(rs.drop_first(), r, i - 1);
    }
}

/// When no route claims `r`, the lookup finds nothing.
pub proof fn lemma_infra_for_not_found(rs: Seq<(usize, Route)>, r: usize)
    requires
        forall|j: int| 0 <= j < rs.len() ==> !(#[trigger] rs[j]).1.roads@.contains(r),
    ensures
        infra_for(rs, r) is None,
    decreases rs.len(),
{
    if rs.len() > 0 {
        lemma_infra_for_not_found(rs.drop_first(), r);
    }
}

/// Linear membership test on a road list.
pub fn roads_contain(v: &Vec<usize>, x: usize) -> (result: bool)
    ensures
        result == v@.contains(x),
{
    let mut i: usize = 0;
    while i < v.len()
        invariant
            i <= v@.len(),
            forall|j: int| 0 <= j < i ==> v@[j] != x,
        decreases v@.len() - i,
    {
        if v[i] == x {
            return true;
        }
        i += 1;
    }
    false
}

/// Classification of a road's cycling infrastructure.
#[derive(Clone, Copy, PartialEq, Eq, Structural, Debug)]
pub enum InfraType {
    SegregatedWide,
    OffRoad,
    SegregatedNarrow,
    SharedFootway,
    CycleLane,
    MixedTraffic,
    Unknown,
}

/// Provenance/priority label attached to imported routes.
#[derive(Clone, Copy, PartialEq, Eq, Structural, Debug)]
pub enum Tier {
    Primary,
    Secondary,
    LocalAccess,
    LongDistance,
}

/// A user-authored route: an ordered list of roads it exclusively claims,
/// one infrastructure label, a tier, free-text name and notes, and the
/// externally supplied geometry payload kept verbatim for later editing.
#[derive(Clone)]
pub struct Route {
    /// The unedited geometry payload from the route drawing tool, kept
    /// verbatim; the store never interprets it.
    pub feature: String,
    pub name: String,
    pub notes: String,
    pub roads: Vec<usize>,
    pub infra_type: InfraType,
    pub tier: Tier,
}

pub struct MapModel {
    /// Number of roads in the external graph; road IDs are indices below this.
    pub num_roads: usize,
    /// Speed limit in mph per road.
    pub speeds: Vec<u64>,
    /// Estimated daily traffic volume per road.
    pub traffic_volumes: Vec<u64>,
    /// Core-network overlay: the tier a road belongs to, if any.
    pub core_network: Vec<Option<Tier>>,
    /// Road name per road; empty when the road is unnamed.
    pub road_names: Vec<String>,
    /// Endpoint intersections (source, destination) per road.
    pub road_endpoints: Vec<(usize, usize)>,
    /// Number of intersections in the external graph.
    pub num_intersections: usize,
    /// The stored routes as (id, route) pairs; treated as a map keyed by id.
    pub routes: Vec<(usize, Route)>,
    /// Monotonically increasing ID counter; reset only by a full clear.
    pub id_counter: usize,
}

impl MapModel {
    /// The stored routes as a sequence of (id, route) pairs.
    pub open spec fn routes_seq(self) -> Seq<(usize, Route)> {
        self.routes@
    }

    pub open spec fn spec_id_counter(self) -> usize {
        self.id_counter
    }

    /// Route IDs are pairwise distinct.
    pub open spec fn ids_unique(self) -> bool {
        forall|i: int, j: int|
            0 <= i < j < self.routes_seq().len() ==> (#[trigger] self.routes_seq()[i]).0 != (
            #[trigger] self.routes_seq()[j]).0
    }

    /// No road is claimed by two different routes.
    pub open spec fn roads_disjoint(self) -> bool {
        forall|i: int, j: int, r: usize|
            0 <= i < self.routes_seq().len() && 0 <= j < self.routes_seq().len() && i != j ==> !(
            #[trigger] self.routes_seq()[i].1.roads@.contains(r)
                && #[trigger] self.routes_seq()[j].1.roads@.contains(r))
    }

    /// Every stored route ID was assigned below the counter, so the counter
    /// value is always fresh.
    pub open spec fn ids_below_counter(self) -> bool {
        forall|i: int|
            0 <= i < self.routes_seq().len() ==> (#[trigger] self.routes_seq()[i]).0
                < self.spec_id_counter()
    }

    /// Every road claimed by a stored route is a road of the graph.
    pub open spec fn claimed_roads_valid(self) -> bool {
        forall|i: int, r: usize|
            0 <= i < self.routes_seq().len() && #[trigger] self.routes_seq()[i].1.roads@.contains(r)
                ==> r < self.num_roads
    }

    /// The per-road attribute tables cover every road.
    pub open spec fn tables_wf(self) -> bool {
        &&& self.speeds@.len() == self.num_roads
        &&& self.traffic_volumes@.len() == self.num_roads
        &&& self.core_network@.len() == self.num_roads
        &&& self.road_names@.len() == self.num_roads
        &&& self.road_endpoints@.len() == self.num_roads
    }

    /// Store invariant: holds after construction and after every successful
    /// mutation.
    pub open spec fn wf(self) -> bool {
        &&& self.ids_unique()
        &&& self.roads_disjoint()
        &&& self.ids_below_counter()
        &&& self.claimed_roads_valid()
        &&& self.tables_wf()
    }

    /// Builds an empty model over a road graph described by plain per-road
    /// attribute tables, all indexed by road ID.
    pub fn create(
        speeds: Vec<u64>,
        traffic_volumes: Vec<u64>,
        core_network: Vec<Option<Tier>>,
        road_names: Vec<String>,
        road_endpoints: Vec<(usize, usize)>,
        num_intersections: usize,
    ) -> (result: MapModel)
        requires
            traffic_volumes@.len() == speeds@.len(),
            core_network@.len() == speeds@.len(),
            road_names@.len() == speeds@.len(),
            road_endpoints@.len() == speeds@.len(),
        ensures
            result.wf(),
            result.routes_seq() == Seq::<(usize, Route)>::empty(),
            result.spec_id_counter() == 0,
            result.num_roads == speeds@.len(),
            result.speeds == speeds,
            result.traffic_volumes == traffic_volumes,
            result.core_network == core_network,
            result.road_names == road_names,
            result.road_endpoints == road_endpoints,
            result.num_intersections == num_intersections,
    {
        let num_roads = speeds.len();
        MapModel {
            num_roads,
            speeds,
            traffic_volumes,
            core_network,
            road_names,
            road_endpoints,
            num_intersections,
            routes: Vec::new(),
            id_counter: 0,
        }
    }

    /// The infrastructure type of the route claiming road `r`, or `Unknown`
    /// when no route claims it.
    pub fn get_infra_type(&self, r: usize) -> (result: InfraType)
        ensures
            result == infra_or_unknown(self.routes_seq(), r),
    {
        let mut i: usize = 0;
        while i < self.routes.len()
            invariant
                i <= self.routes_seq().len(),
                forall|j: int| 0 <= j < i ==> !(#[trigger] self.routes_seq()[j]).1.roads@.contains(
                    r,
                ),
            decreases self.routes_seq().len() - i,
        {
            if roads_contain(&self.routes[i].1.roads, r) {
                proof {
                    lemma_infra_for_found(self.routes_seq(), r, i as int);
                }
                return self.routes[i].1.infra_type;
            }
            i += 1;
        }
        proof {
            lemma_infra_for_not_found(self.routes_seq(), r);
        }
        InfraType::Unknown
    }

    /// The claimed infrastructure type of every road, indexed by road ID;
    /// `None` for unclaimed roads.
    pub fn get_infra_types(&self) -> (result: Vec<Option<InfraType>>)
        ensures
            result@.len() == self.num_roads,
            forall|r: int|
                0 <= r < self.num_roads ==> #[trigger] result@[r] == infra_for(
                    self.routes_seq(),
                    r as usize,
                ),
    {
        let mut result: Vec<Option<InfraType>> = Vec::new();
        let mut r: usize = 0;
        while r < self.num_roads
            invariant
                r <= self.num_roads,
                result@.len() == r,
                forall|k: int|
                    0 <= k < r ==> #[trigger] result@[k] == infra_for(
                        self.routes_seq(),
                        k as usize,
                    ),
            decreases self.num_roads - r,
        {
            result.push(self.infra_type_lookup(r));
            r += 1;
        }
        result
    }

    /// The route claiming road `r`, as `infra_for` reports it.
    pub(crate) fn infra_type_lookup(&self, r: usize) -> (result: Option<InfraType>)
        ensures
            result == infra_for(self.routes_seq(), r),
    {
        let mut i: usize = 0;
        while i < self.routes.len()
            invariant
                i <= self.routes_seq().len(),
                forall|j: int| 0 <= j < i ==> !(#[trigger] self.routes_seq()[j]).1.roads@.contains(
                    r,
                ),
            decreases self.routes_seq().len() - i,
        {
            if roads_contain(&self.routes[i].1.roads, r) {
                proof {
                    lemma_infra_for_found(self.routes_seq(), r, i as int);
                }
                return Some(self.routes[i].1.infra_type);
            }
            i += 1;
        }
        proof {
            lemma_infra_for_not_found(self.routes_seq(), r);
        }
        None
    }

    /// Whether any route currently claims road `r`: the membership test of
    /// the freshly recomputed used-road set.
    pub fn road_is_used(&self, r: usize) -> (result: bool)
        ensures
            result == claimed_in(self.routes_seq(), r),
    {
        let mut i: usize = 0;
        while i < self.routes.len()
            invariant
                i <= self.routes_seq().len(),
                forall|j: int| 0 <= j < i ==> !(#[trigger] self.routes_seq()[j]).1.roads@.contains(
                    r,
                ),
            decreases self.routes_seq().len() - i,
        {
            if roads_contain(&self.routes[i].1.roads, r) {
                return true;
            }
            i += 1;
        }
        false
    }

    /// The set of roads claimed by any route, as a membership table indexed
    /// by road ID, recomputed freshly per call.
    pub fn used_roads(&self) -> (result: Vec<bool>)
        requires
            self.wf(),
        ensures
            result@.len() == self.num_roads,
            forall|r: int|
                0 <= r < self.num_roads ==> #[trigger] result@[r] == claimed_in(
                    self.routes_seq(),
                    r as usize,
                ),
    {
        let mut result: Vec<bool> = Vec::new();
        let mut r: usize = 0;
        while r < self.num_roads
            invariant
                r <= self.num_roads,
                result@.len() == r,
                forall|k: int|
                    0 <= k < r ==> #[trigger] result@[k] == claimed_in(
                        self.routes_seq(),
                        k as usize,
                    ),
            decreases self.num_roads - r,
        {
            result.push(self.road_is_used(r));
            r += 1;
        }
        result
    }
}

} // verus!
