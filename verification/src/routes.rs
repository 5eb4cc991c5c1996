//! The route store: create/replace/delete/clear with the one-route-per-road
//! invariant, enforced as an all-or-nothing transaction at every write.
use vstd::prelude::*;
use crate::{claimed_in, InfraType, MapModel, Route};
use crate::level_of_service::{spec_best_infra_type, spec_level_of_service};

verus! {

/// Why a store mutation was rejected; the store is unchanged in either case.
#[derive(Clone, Copy, PartialEq, Eq, Structural, Debug)]
pub enum RouteError {
    /// A delete or targeted replace named an ID the store does not hold.
    UnknownRoute(usize),
    /// The proposed route claims a road already claimed by another route.
    RoadConflict(usize),
}

/// The (id, route) pairs read as a map keyed by route ID.
pub open spec fn as_map(rs: Seq<(usize, Route)>) -> Map<usize, Route>
    decreases rs.len(),
{
    if rs.len() == 0 {
        Map::empty()
    } else {
        as_map(rs.drop_last()).insert(rs.last().0, rs.last().1)
    }
}

/// Whether some pair in `rs` carries ID `id`.
pub open spec fn has_id(rs: Seq<(usize, Route)>, id: usize) -> bool {
    exists|i: int| 0 <= i < rs.len() && (#[trigger] rs[i]).0 == id
}

/// Whether road `r` is claimed by a route other than the one being edited.
pub open spec fn conflict_with_other(
    rs: Seq<(usize, Route)>,
    edit_id: Option<usize>,
    r: usize,
) -> bool {
    exists|i: int|
        0 <= i < rs.len() && (#[trigger] rs[i]).1.roads@.contains(r) && (edit_id is None
            || rs[i].0 != edit_id->0)
}

/// The first road in `roads` claimed by a route other than the edited one.
pub open spec fn first_conflict(
    rs: Seq<(usize, Route)>,
    edit_id: Option<usize>,
    roads: Seq<usize>,
) -> Option<usize>
    decreases roads.len(),
{
    if roads.len() == 0 {
        None
    } else if conflict_with_other(rs, edit_id, roads[0]) {
        Some(roads[0])
    } else {
        first_conflict(rs, edit_id, roads.drop_first())
    }
}

/// `as_map` holds an ID exactly when some pair carries it.
pub proof fn lemma_as_map_contains(rs: Seq<(usize, Route)>, id: usize)
    ensures
        as_map(rs).contains_key(id) <==> has_id(rs, id),
    decreases rs.len(),
{
    if rs.len() > 0 {
        lemma_as_map_contains(rs.drop_last(), id);
        if rs.last().0 == id {
            assert(rs[rs.len() - 1].0 == id);
        } else if has_id(rs.drop_last(), id) {
            let i = choose|i: int| 0 <= i < rs.drop_last().len() && (#[trigger] rs.drop_last()[i]).0 == id;
            assert(rs[i].0 == id);
        } else if has_id(rs, id) {
            let i = choose|i: int| 0 <= i < rs.len() && (#[trigger] rs[i]).0 == id;
            assert(rs.drop_last()[i].0 == id);
        }
    }
}

/// Appending a pair with a fresh ID inserts it into the map.
pub proof fn lemma_as_map_push(rs: Seq<(usize, Route)>, id: usize, route: Route)
    ensures
        as_map(rs.push((id, route))) == as_map(rs).insert(id, route),
{
    assert(rs.push((id, route)).drop_last() =~= rs);
    assert(rs.push((id, route)).last() == (id, route));
}

/// Under unique IDs, removing the pair at an index removes its key.
pub proof fn lemma_as_map_remove(rs: Seq<(usize, Route)>, i: int)
    requires
        0 <= i < rs.len(),
        forall|a: int, b: int| 0 <= a < b < rs.len() ==> (#[trigger] rs[a]).0 != (#[trigger] rs[b]).0,
    ensures
        as_map(rs.remove(i)) == as_map(rs).remove(rs[i].0),
    decreases rs.len(),
{
    if i == rs.len() - 1 {
        assert(rs.remove(i) =~= rs.drop_last());
        lemma_as_map_contains(rs.drop_last(), rs[i].0);
        assert(!has_id(rs.drop_last(), rs[i].0));
        assert(as_map(rs.drop_last()).insert(rs[i].0, rs[i].1).remove(rs[i].0) =~= as_map(
            rs.drop_last(),
        ));
    } else {
        lemma_as_map_remove(rs.drop_last(), i);
        assert(rs.remove(i).drop_last() =~= rs.drop_last().remove(i));
        assert(rs.remove(i).last() == rs.last());
        assert(rs.drop_last()[i] == rs[i]);
        assert(as_map(rs.remove(i)) == as_map(rs.drop_last().remove(i)).insert(
            rs.last().0,
            rs.last().1,
        ));
        assert(rs[i].0 != rs.last().0);
        assert(as_map(rs.drop_last()).remove(rs[i].0).insert(rs.last().0, rs.last().1) =~= as_map(
            rs.drop_last(),
        ).insert(rs.last().0, rs.last().1).remove(rs[i].0));
    }
}

/// When nothing in `roads` conflicts, `first_conflict` reports nothing.
pub proof fn lemma_first_conflict_none(
    rs: Seq<(usize, Route)>,
    edit_id: Option<usize>,
    roads: Seq<usize>,
)
    requires
        forall|k: int| 0 <= k < roads.len() ==> !conflict_with_other(rs, edit_id, #[trigger] roads[k]),
    ensures
        first_conflict(rs, edit_id, roads) is None,
    decreases roads.len(),
{
    if roads.len() > 0 {
        lemma_first_conflict_none(rs, edit_id, roads.drop_first());
    }
}

/// When index `k` is the first conflicting road, it is the one reported.
pub proof fn lemma_first_conflict_found(
    rs: Seq<(usize, Route)>,
    edit_id: Option<usize>,
    roads: Seq<usize>,
    k: int,
)
    requires
        0 <= k < roads.len(),
        forall|j: int| 0 <= j < k ==> !conflict_with_other(rs, edit_id, #[trigger] roads[j]),
        conflict_with_other(rs, edit_id, roads[k]),
    ensures
        first_conflict(rs, edit_id, roads) == Some(roads[k]),
    decreases k,
{
    if k > 0 {
        lemma_first_conflict_found(rs, edit_id, roads.drop_first(), k - 1);
    }
}

impl MapModel {
    /// The road-graph attribute tables, which no store mutation touches.
    pub open spec fn same_graph(self, other: MapModel) -> bool {
        &&& self.num_roads == other.num_roads
        &&& self.speeds == other.speeds
        &&& self.traffic_volumes == other.traffic_volumes
        &&& self.core_network == other.core_network
        &&& self.road_names == other.road_names
        &&& self.road_endpoints == other.road_endpoints
        &&& self.num_intersections == other.num_intersections
    }

    /// The stored routes as a map from route ID.
    pub open spec fn route_map(self) -> Map<usize, Route> {
        as_map(self.routes_seq())
    }

    /// The index holding route `id`, when the store holds it.
    fn find_route_index(&self, id: usize) -> (result: Option<usize>)
        ensures
            match result {
                Some(i) => i < self.routes_seq().len() && self.routes_seq()[i as int].0 == id,
                None => !has_id(self.routes_seq(), id),
            },
    {
        let mut i: usize = 0;
        while i < self.routes.len()
            invariant
                i <= self.routes_seq().len(),
                forall|j: int| 0 <= j < i ==> (#[trigger] self.routes_seq()[j]).0 != id,
            decreases self.routes_seq().len() - i,
        {
            if self.routes[i].0 == id {
                return Some(i);
            }
            i += 1;
        }
        None
    }

    /// Whether road `r` is claimed by any route other than `edit_id`.
    fn conflicts_with_other(&self, edit_id: Option<usize>, r: usize) -> (result: bool)
        ensures
            result == conflict_with_other(self.routes_seq(), edit_id, r),
    {
        let mut i: usize = 0;
        while i < self.routes.len()
            invariant
                i <= self.routes_seq().len(),
                forall|j: int|
                    0 <= j < i ==> !((#[trigger] self.routes_seq()[j]).1.roads@.contains(r) && (
                    edit_id is None || self.routes_seq()[j].0 != edit_id->0)),
            decreases self.routes_seq().len() - i,
        {
            let skip = match edit_id {
                Some(e) => self.routes[i].0 == e,
                None => false,
            };
            if !skip && crate::roads_contain(&self.routes[i].1.roads, r) {
                return true;
            }
            i += 1;
        }
        false
    }

    /// Validates `route` against every route other than the edited one and
    /// either commits it (under `edit_id` or a fresh counter ID) or leaves
    /// the store exactly as it was, naming the offending road or the
    /// missing ID. Nothing is mutated before validation succeeds.
    pub fn set_route(&mut self, edit_id: Option<usize>, route: Route) -> (result: Result<
        usize,
        RouteError,
    >)
        requires
            old(self).wf(),
            old(self).id_counter < usize::MAX,
            forall|k: int|
                0 <= k < route.roads@.len() ==> #[trigger] route.roads@[k] < old(self).num_roads,
        ensures
            final(self).same_graph(*old(self)),
            match result {
                Ok(id) => {
                    &&& final(self).wf()
                    &&& final(self).route_map() == old(self).route_map().insert(id, route)
                    &&& first_conflict(old(self).routes_seq(), edit_id, route.roads@) is None
                    &&& match edit_id {
                        Some(e) => id == e && has_id(old(self).routes_seq(), e)
                            && final(self).id_counter == old(self).id_counter,
                        None => id == old(self).id_counter && final(self).id_counter == old(
                            self,
                        ).id_counter + 1 && !old(self).route_map().contains_key(id),
                    }
                },
                Err(RouteError::UnknownRoute(e)) => {
                    &&& edit_id == Some(e)
                    &&& !has_id(old(self).routes_seq(), e)
                    &&& *final(self) == *old(self)
                },
                Err(RouteError::RoadConflict(r)) => {
                    &&& (edit_id is None || has_id(old(self).routes_seq(), edit_id->0))
                    &&& first_conflict(old(self).routes_seq(), edit_id, route.roads@) == Some(r)
                    &&& *final(self) == *old(self)
                },
            },
    {
        // Locate the route being replaced; its own roads no longer count
        // as claimed during validation.
        let edit_index = match edit_id {
            Some(e) => {
                match self.find_route_index(e) {
                    Some(i) => Some(i),
                    None => {
                        return Err(RouteError::UnknownRoute(e));
                    },
                }
            },
            None => None,
        };

        // Check for overlaps before touching the store.
        let mut k: usize = 0;
        while k < route.roads.len()
            invariant
                *self == *old(self),
                k <= route.roads@.len(),
                forall|j: int|
                    0 <= j < k ==> !conflict_with_other(
                        self.routes_seq(),
                        edit_id,
                        #[trigger] route.roads@[j],
                    ),
                match edit_index {
                    Some(i) => edit_id is Some && i < self.routes_seq().len()
                        && self.routes_seq()[i as int].0 == edit_id->0,
                    None => edit_id is None,
                },
            decreases route.roads@.len() - k,
        {
            let r = route.roads[k];
            if self.conflicts_with_other(edit_id, r) {
                proof {
                    lemma_first_conflict_found(
                        self.routes_seq(),
                        edit_id,
                        route.roads@,
                        k as int,
                    );
                }
                return Err(RouteError::RoadConflict(r));
            }
            k += 1;
        }
        proof {
            lemma_first_conflict_none(self.routes_seq(), edit_id, route.roads@);
        }

        // Commit.
        let ghost old_rs = self.routes_seq();
        let id = match (edit_id, edit_index) {
            (Some(e), Some(i)) => {
                self.routes.remove(i);
                proof {
                    lemma_as_map_remove(old_rs, i as int);
                }
                e
            },
            _ => {
                let id = self.id_counter;
                self.id_counter = self.id_counter + 1;
                proof {
                    lemma_as_map_contains(old_rs, id);
                }
                id
            },
        };
        let ghost mid_rs = self.routes_seq();
        self.routes.push((id, route));
        proof {
            lemma_as_map_push(mid_rs, id, route);
            if edit_id is Some {
                let e = edit_id->0;
                let i = choose|i: int| 0 <= i < old_rs.len() && (#[trigger] old_rs[i]).0 == e;
                assert(old(self).route_map().remove(e).insert(e, route) =~= old(
                    self,
                ).route_map().insert(e, route));
            }
            assert forall|a: int, b: int|
                0 <= a < b < self.routes_seq().len() implies (#[trigger] self.routes_seq()[a]).0 != (
                #[trigger] self.routes_seq()[b]).0 by {
                if b == self.routes_seq().len() - 1 {
                    assert(self.routes_seq()[a] == mid_rs[a]);
                }
            }
            assert forall|a: int, b: int, r: usize|
                0 <= a < self.routes_seq().len() && 0 <= b < self.routes_seq().len() && a
                    != b implies !(#[trigger] self.routes_seq()[a].1.roads@.contains(r)
                && #[trigger] self.routes_seq()[b].1.roads@.contains(r)) by {
                let last = self.routes_seq().len() - 1;
                if a == last || b == last {
                    let o = if a == last { b } else { a };
                    if self.routes_seq()[o].1.roads@.contains(r) && route.roads@.contains(r) {
                        let k = choose|k: int| 0 <= k < route.roads@.len() && route.roads@[k] == r;
                        // The other pair survived validation, so it would
                        // have been the conflict.
                        assert(!conflict_with_other(old_rs, edit_id, route.roads@[k]));
                        let oi = choose|oi: int|
                            0 <= oi < old_rs.len() && (#[trigger] old_rs[oi]) == self.routes_seq()[o];
                        assert(old_rs[oi].1.roads@.contains(r));
                    }
                }
            }
        }
        Ok(id)
    }

    /// Removes route `id`, or reports it unknown with the store unchanged.
    pub fn delete_route(&mut self, id: usize) -> (result: Result<(), RouteError>)
        requires
            old(self).wf(),
        ensures
            final(self).same_graph(*old(self)),
            final(self).id_counter == old(self).id_counter,
            match result {
                Ok(()) => {
                    &&& final(self).wf()
                    &&& has_id(old(self).routes_seq(), id)
                    &&& final(self).route_map() == old(self).route_map().remove(id)
                },
                Err(RouteError::UnknownRoute(e)) => {
                    &&& e == id
                    &&& !has_id(old(self).routes_seq(), id)
                    &&& *final(self) == *old(self)
                },
                Err(_) => false,
            },
    {
        match self.find_route_index(id) {
            Some(i) => {
                proof {
                    lemma_as_map_remove(self.routes_seq(), i as int);
                }
                self.routes.remove(i);
                Ok(())
            },
            None => Err(RouteError::UnknownRoute(id)),
        }
    }

    /// Empties the store and resets the ID counter to zero.
    pub fn clear_all_routes(&mut self)
        requires
            old(self).wf(),
        ensures
            final(self).same_graph(*old(self)),
            final(self).wf(),
            final(self).route_map() == Map::<usize, Route>::empty(),
            final(self).routes_seq() == Seq::<(usize, Route)>::empty(),
            final(self).id_counter == 0,
    {
        self.routes = Vec::new();
        self.id_counter = 0;
    }

    /// The upgrade recommended for unclaimed road `r`, reverse-mapped from
    /// its current level of service.
    pub fn best_infra_type(&self, r: usize) -> (result: Option<InfraType>)
        requires
            self.wf(),
            r < self.num_roads,
        ensures
            result == spec_best_infra_type(
                spec_level_of_service(
                    crate::infra_or_unknown(self.routes_seq(), r),
                    self.speeds@[r as int],
                    self.traffic_volumes@[r as int],
                ),
            ),
    {
        match self.calculate_level_of_service(r) {
            crate::LevelOfService::High => None,
            crate::LevelOfService::Medium => Some(InfraType::SegregatedNarrow),
            crate::LevelOfService::Low => Some(InfraType::SegregatedWide),
            crate::LevelOfService::ShouldNotBeUsed => Some(InfraType::SegregatedWide),
        }
    }

    /// One listing record per stored route: its ID, the verbatim geometry
    /// payload, and the properties injected for presentation.
    pub fn to_routes_gj(&self) -> (result: Vec<(usize, Route)>)
        ensures
            result@.len() == self.routes_seq().len(),
            forall|i: int|
                0 <= i < result@.len() ==> #[trigger] result@[i].0 == self.routes_seq()[i].0
                    && route_equiv(result@[i].1, self.routes_seq()[i].1),
    {
        let mut result: Vec<(usize, Route)> = Vec::new();
        let mut i: usize = 0;
        while i < self.routes.len()
            invariant
                i <= self.routes_seq().len(),
                result@.len() == i,
                forall|j: int|
                    0 <= j < i ==> #[trigger] result@[j].0 == self.routes_seq()[j].0 && route_equiv(
                        result@[j].1,
                        self.routes_seq()[j].1,
                    ),
            decreases self.routes_seq().len() - i,
        {
            let id = self.routes[i].0;
            result.push((id, clone_route(&self.routes[i].1)));
            i += 1;
        }
        result
    }
}

/// How one element of an uncommitted path will be treated: it either
/// crosses a road some route already claims, or is new, carrying the
/// recommended upgrade for that road, possibly absent.
#[derive(Clone, Copy, PartialEq, Eq, Structural, Debug)]
pub enum Case {
    AlreadyExists,
    New(Option<InfraType>),
}

/// One maximal run of path elements sharing a case, in path order.
pub struct Section {
    pub case: Case,
    pub roads: Vec<(usize, bool)>,
}

impl MapModel {
    /// The case of one path element: overlap with an existing route, or new
    /// with the recommendation for the (necessarily unclaimed) road.
    pub open spec fn spec_case(self, r: usize) -> Case {
        if claimed_in(self.routes_seq(), r) {
            Case::AlreadyExists
        } else {
            Case::New(
                spec_best_infra_type(
                    spec_level_of_service(
                        crate::infra_or_unknown(self.routes_seq(), r),
                        self.speeds@[r as int],
                        self.traffic_volumes@[r as int],
                    ),
                ),
            )
        }
    }

    fn case_of(&self, r: usize) -> (result: Case)
        requires
            self.wf(),
            r < self.num_roads,
        ensures
            result == self.spec_case(r),
    {
        if self.road_is_used(r) {
            Case::AlreadyExists
        } else {
            Case::New(self.best_infra_type(r))
        }
    }

    /// Splits an uncommitted, ordered path into maximal contiguous runs of
    /// equal case: a run never mixes overlap with new, nor two different
    /// recommendations. Purely advisory: the store is not touched.
    #[verifier::rlimit(60)]
    pub fn autosplit_route(&self, path: &Vec<(usize, bool)>) -> (result: Vec<Section>)
        requires
            self.wf(),
            forall|k: int| 0 <= k < path@.len() ==> (#[trigger] path@[k]).0 < self.num_roads,
        ensures
            sections_flat(result@) == path@,
            forall|i: int, k: int|
                0 <= i < result@.len() && 0 <= k < (#[trigger] result@[i]).roads@.len()
                    ==> self.spec_case(#[trigger] result@[i].roads@[k].0) == result@[i].case,
            forall|i: int| 0 <= i < result@.len() ==> (#[trigger] result@[i]).roads@.len() >= 1,
            forall|i: int|
                0 <= i < result@.len() - 1 ==> (#[trigger] result@[i]).case != result@[i + 1].case,
    {
        let mut result: Vec<Section> = Vec::new();
        if path.len() == 0 {
            proof {
                assert(sections_flat(result@) =~= path@);
            }
            return result;
        }
        let mut current: Vec<(usize, bool)> = Vec::new();
        current.push(path[0]);
        let mut current_case = self.case_of(path[0].0);
        let mut k: usize = 1;
        while k < path.len()
            invariant
                self.wf(),
                forall|j: int| 0 <= j < path@.len() ==> (#[trigger] path@[j]).0 < self.num_roads,
                1 <= k <= path@.len(),
                current@.len() >= 1,
                sections_flat(result@) + current@ =~= path@.subrange(0, k as int),
                forall|j: int|
                    0 <= j < current@.len() ==> self.spec_case(#[trigger] current@[j].0)
                        == current_case,
                forall|i: int, j: int|
                    0 <= i < result@.len() && 0 <= j < (#[trigger] result@[i]).roads@.len()
                        ==> self.spec_case(#[trigger] result@[i].roads@[j].0) == result@[i].case,
                forall|i: int| 0 <= i < result@.len() ==> (#[trigger] result@[i]).roads@.len() >= 1,
                forall|i: int|
                    0 <= i < result@.len() - 1 ==> (#[trigger] result@[i]).case != result@[i
                        + 1].case,
                result@.len() >= 1 ==> result@[result@.len() - 1].case != current_case,
            decreases path@.len() - k,
        {
            let c = self.case_of(path[k].0);
            if case_eq(c, current_case) {
                current.push(path[k]);
            } else {
                let ghost pre = result@;
                result.push(Section { case: current_case, roads: current });
                proof {
                    assert(result@.drop_last() =~= pre);
                }
                current = Vec::new();
                current.push(path[k]);
                current_case = c;
            }
            proof {
                assert(path@.subrange(0, k + 1) =~= path@.subrange(0, k as int).push(
                    path@[k as int],
                ));
                assert(sections_flat(result@) + current@ =~= path@.subrange(0, k + 1));
            }
            k += 1;
        }
        let ghost pre = result@;
        result.push(Section { case: current_case, roads: current });
        proof {
            assert(result@.drop_last() =~= pre);
            assert(path@.subrange(0, path@.len() as int) =~= path@);
            assert(sections_flat(result@) =~= path@);
        }
        result
    }
}

/// The roads named by an import batch, in batch order.
pub open spec fn import_roads_seq(imports: Seq<(usize, InfraType)>) -> Seq<usize> {
    imports.map_values(|p: (usize, InfraType)| p.0)
}

/// The first non-empty name among the given roads, in order; empty when
/// every road along the way is unnamed.
pub open spec fn first_name(names: Seq<String>, roads: Seq<usize>) -> Seq<char>
    decreases roads.len(),
{
    if roads.len() == 0 {
        Seq::empty()
    } else if names[roads[0] as int]@.len() > 0 {
        names[roads[0] as int]@
    } else {
        first_name(names, roads.drop_first())
    }
}

/// Appending a road changes the first name only when none was found yet:
/// an empty first name means every road so far was unnamed.
pub proof fn lemma_first_name_push(names: Seq<String>, roads: Seq<usize>, r: usize)
    ensures
        first_name(names, roads).len() > 0 ==> first_name(names, roads.push(r)) == first_name(
            names,
            roads,
        ),
        first_name(names, roads).len() == 0 ==> first_name(names, roads.push(r)) =~= names[
            r as int]@,
    decreases roads.len(),
{
    if roads.len() == 0 {
        assert(roads.push(r)[0] == r);
        assert(roads.push(r).drop_first() =~= Seq::<usize>::empty());
        assert(first_name(names, Seq::<usize>::empty()) =~= Seq::<char>::empty());
        if names[r as int]@.len() > 0 {
            assert(first_name(names, roads.push(r)) == names[r as int]@);
        } else {
            assert(first_name(names, roads.push(r)) == first_name(
                names,
                roads.push(r).drop_first(),
            ));
        }
    } else {
        lemma_first_name_push(names, roads.drop_first(), r);
        assert(roads.push(r)[0] == roads[0]);
        assert(roads.push(r).drop_first() =~= roads.drop_first().push(r));
        if names[roads[0] as int]@.len() == 0 {
            assert(first_name(names, roads) == first_name(names, roads.drop_first()));
            assert(first_name(names, roads.push(r)) == first_name(
                names,
                roads.drop_first().push(r),
            ));
        }
    }
}

/// A run of unnamed roads yields the empty name.
pub proof fn lemma_first_name_all_unnamed(names: Seq<String>, roads: Seq<usize>)
    requires
        forall|j: int| 0 <= j < roads.len() ==> names[(#[trigger] roads[j]) as int]@.len() == 0,
    ensures
        first_name(names, roads) =~= Seq::<char>::empty(),
    decreases roads.len(),
{
    if roads.len() > 0 {
        assert forall|j: int|
            0 <= j < roads.drop_first().len() implies names[(
        #[trigger] roads.drop_first()[j]) as int]@.len() == 0 by {
            assert(roads.drop_first()[j] == roads[j + 1]);
        }
        lemma_first_name_all_unnamed(names, roads.drop_first());
    }
}

/// Every route appended from index `lo` on carries exactly the
/// classifier's guess for each of its member roads.
pub open spec fn guesses_match(
    rs: Seq<(usize, Route)>,
    lo: int,
    guesses: Seq<Option<InfraType>>,
) -> bool {
    forall|i: int, k: int|
        lo <= i < rs.len() && 0 <= k < (#[trigger] rs[i]).1.roads@.len() ==> guesses[(
        #[trigger] rs[i].1.roads@[k]) as int] == Some(rs[i].1.infra_type)
}

/// Every route appended from index `lo` on carries the overlay tier of
/// each of its member roads.
pub open spec fn overlay_match(
    rs: Seq<(usize, Route)>,
    lo: int,
    core: Seq<Option<crate::Tier>>,
) -> bool {
    forall|i: int, k: int|
        lo <= i < rs.len() && 0 <= k < (#[trigger] rs[i]).1.roads@.len() ==> core[(
        #[trigger] rs[i].1.roads@[k]) as int] == Some(rs[i].1.tier)
}

/// The one-segment candidate set an import batch denotes: each entry's
/// road between its graph endpoints, under the entry's key.
pub open spec fn batch_segments(
    imports: Seq<(usize, InfraType)>,
    endpoints: Seq<(usize, usize)>,
) -> Seq<crate::join_lines::Segment> {
    Seq::new(
        imports.len(),
        |j: int|
            crate::join_lines::Segment {
                road: imports[j].0,
                a: endpoints[imports[j].0 as int].0,
                b: endpoints[imports[j].0 as int].1,
                key: imports[j].1,
            },
    )
}

/// The routes appended from index `lo` on are exactly the chains `cs`, in
/// order: each route's roads are one chain's members in head-to-tail
/// order, labelled with the chain's key.
pub open spec fn routes_match_chains(
    rs: Seq<(usize, Route)>,
    lo: int,
    cs: Seq<crate::join_lines::KeyedLineString>,
) -> bool {
    forall|i: int|
        0 <= i < cs.len() ==> (#[trigger] rs[lo + i]).1.roads@ == crate::join_lines::chain_roads(
            cs[i],
        ) && rs[lo + i].1.infra_type == cs[i].key
}

/// What holds of every route an import inserted: the chain's roads, all
/// drawn from the batch under the route's own key, the given tier, and the
/// fixed provenance note.
pub open spec fn imported_route_ok(
    route: Route,
    imports: Seq<(usize, InfraType)>,
    names: Seq<String>,
    tier: crate::Tier,
) -> bool {
    &&& route.roads@.len() >= 1
    &&& route.tier == tier
    &&& route.notes@ == "imported from existing network"@
    &&& route.name@ == first_name(names, route.roads@)
    &&& forall|k: int|
        0 <= k < route.roads@.len() ==> imports.contains((#[trigger] route.roads@[k], route.infra_type))
}

impl MapModel {
    /// Wraps each batch entry as a one-segment keyed line, collapses the
    /// batch into chains, and inserts one route per chain under a fresh ID,
    /// named after the first non-empty road name along the chain. The batch
    /// must name unclaimed, distinct roads, so no conflict check is needed.
    /// Returns the number of routes created: chains, not batch entries.
    pub fn import_roads(&mut self, imports: Vec<(usize, InfraType)>, tier: crate::Tier) -> (result:
        usize)
        requires
            old(self).wf(),
            import_roads_seq(imports@).no_duplicates(),
            forall|k: int|
                0 <= k < imports@.len() ==> (#[trigger] imports@[k]).0 < old(self).num_roads,
            forall|k: int|
                0 <= k < imports@.len() ==> !claimed_in(
                    old(self).routes_seq(),
                    (#[trigger] imports@[k]).0,
                ),
            old(self).id_counter + imports@.len() <= usize::MAX,
        ensures
            final(self).wf(),
            final(self).same_graph(*old(self)),
            result <= imports@.len(),
            final(self).id_counter == old(self).id_counter + result,
            final(self).routes_seq().len() == old(self).routes_seq().len() + result,
            forall|i: int|
                0 <= i < old(self).routes_seq().len() ==> #[trigger] final(self).routes_seq()[i]
                    == old(self).routes_seq()[i],
            forall|i: int|
                old(self).routes_seq().len() <= i < final(self).routes_seq().len()
                    ==> (#[trigger] final(self).routes_seq()[i]).0 == old(self).id_counter + (i
                    - old(self).routes_seq().len()) && imported_route_ok(
                    final(self).routes_seq()[i].1,
                    imports@,
                    old(self).road_names@,
                    tier,
                ),
            forall|r: usize|
                claimed_in(final(self).routes_seq(), r) <==> claimed_in(old(self).routes_seq(), r)
                    || import_roads_seq(imports@).contains(r),
            forall|i: int|
                old(self).routes_seq().len() <= i < final(self).routes_seq().len()
                    ==> (#[trigger] final(self).routes_seq()[i]).1.roads@.no_duplicates(),
            exists|cs: Seq<crate::join_lines::KeyedLineString>|
                #![trigger crate::join_lines::all_roads(cs)]
                {
                    let segs = batch_segments(imports@, old(self).road_endpoints@);
                    &&& cs.len() == result
                    &&& crate::join_lines::all_roads(cs) == import_roads_seq(
                        imports@,
                    ).to_multiset()
                    &&& (forall|i: int|
                        0 <= i < cs.len() ==> crate::join_lines::chain_ok(#[trigger] cs[i], segs))
                    &&& (forall|i: int, j: int|
                        0 <= i < cs.len() && 0 <= j < cs.len() && i != j
                            ==> !crate::join_lines::mergeable(
                            #[trigger] cs[i],
                            #[trigger] cs[j],
                            segs,
                        ))
                    &&& routes_match_chains(
                        final(self).routes_seq(),
                        old(self).routes_seq().len() as int,
                        cs,
                    )
                },
    {
        let ghost old_model = *old(self);

        // One single-segment keyed line per batch entry.
        let mut segments: Vec<crate::join_lines::Segment> = Vec::new();
        let mut k: usize = 0;
        while k < imports.len()
            invariant
                *self == old_model,
                old_model.wf(),
                forall|j: int|
                    0 <= j < imports@.len() ==> (#[trigger] imports@[j]).0 < old_model.num_roads,
                k <= imports@.len(),
                segments@.len() == k,
                forall|j: int|
                    0 <= j < k ==> #[trigger] segments@[j] == (crate::join_lines::Segment {
                        road: imports@[j].0,
                        a: old_model.road_endpoints@[imports@[j].0 as int].0,
                        b: old_model.road_endpoints@[imports@[j].0 as int].1,
                        key: imports@[j].1,
                    }),
            decreases imports@.len() - k,
        {
            let (r, it) = imports[k];
            let (a, b) = self.road_endpoints[r];
            segments.push(crate::join_lines::Segment { road: r, a, b, key: it });
            k += 1;
        }
        let ghost segs = segments@;
        proof {
            assert(crate::join_lines::seg_roads(segs) =~= import_roads_seq(imports@));
        }

        let chains = crate::join_lines::collapse_degree_2(segments);
        let count = chains.len();
        proof {
            crate::join_lines::lemma_chain_count_le_roads(chains@);
            crate::join_lines::seg_roads(segs).to_multiset_ensures();
            import_roads_seq(imports@).lemma_multiset_has_no_duplicates();
        }

        // Insert one route per chain under a fresh counter ID.
        let ghost old_len = self.routes_seq().len();
        let mut i: usize = 0;
        while i < chains.len()
            invariant
                self.wf(),
                self.same_graph(old_model),
                old_model.wf(),
                import_roads_seq(imports@).no_duplicates(),
                forall|j: int|
                    0 <= j < imports@.len() ==> (#[trigger] imports@[j]).0 < old_model.num_roads,
                forall|j: int|
                    0 <= j < imports@.len() ==> !claimed_in(
                        old_model.routes_seq(),
                        (#[trigger] imports@[j]).0,
                    ),
                old_model.id_counter + imports@.len() <= usize::MAX,
                chains@.len() <= imports@.len(),
                crate::join_lines::all_roads(chains@) == crate::join_lines::seg_roads(
                    segs,
                ).to_multiset(),
                crate::join_lines::seg_roads(segs) == import_roads_seq(imports@),
                segs.len() == imports@.len(),
                forall|j: int|
                    0 <= j < imports@.len() ==> (#[trigger] segs[j]).road == imports@[j].0
                        && segs[j].key == imports@[j].1,
                forall|j: int|
                    0 <= j < chains@.len() ==> crate::join_lines::chain_ok(
                        #[trigger] chains@[j],
                        segs,
                    ),
                forall|a: int, b: int|
                    0 <= a < chains@.len() && 0 <= b < chains@.len() && a != b
                        ==> !crate::join_lines::mergeable(
                        #[trigger] chains@[a],
                        #[trigger] chains@[b],
                        segs,
                    ),
                i <= chains@.len(),
                self.id_counter == old_model.id_counter + i,
                self.routes_seq().len() == old_len + i,
                old_len == old_model.routes_seq().len(),
                forall|j: int|
                    0 <= j < old_len ==> #[trigger] self.routes_seq()[j]
                        == old_model.routes_seq()[j],
                forall|j: int|
                    old_len <= j < old_len + i ==> (#[trigger] self.routes_seq()[j]).0
                        == old_model.id_counter + (j - old_len) && imported_route_ok(
                        self.routes_seq()[j].1,
                        imports@,
                        old_model.road_names@,
                        tier,
                    ) && self.routes_seq()[j].1.roads@ =~= crate::join_lines::chain_roads(
                        chains@[j - old_len],
                    ) && self.routes_seq()[j].1.infra_type == chains@[j - old_len].key
                        && self.routes_seq()[j].1.roads@.no_duplicates(),
            decreases chains@.len() - i,
        {
            // The chain's member roads, in order, and the first non-empty
            // name along them.
            let ghost chain = chains@[i as int];
            let mut roads: Vec<usize> = Vec::new();
            let mut name: String = String::new();
            let mut named = false;
            let mut t: usize = 0;
            while t < chains[i].ids.len()
                invariant
                    self.wf(),
                    self.same_graph(old_model),
                    forall|j: int|
                        0 <= j < imports@.len() ==> (#[trigger] imports@[j]).0
                            < old_model.num_roads,
                    i < chains@.len(),
                    chain == chains@[i as int],
                    crate::join_lines::chain_ok(chain, segs),
                    crate::join_lines::seg_roads(segs) == import_roads_seq(imports@),
                    segs.len() == imports@.len(),
                    forall|j: int|
                        0 <= j < imports@.len() ==> (#[trigger] segs[j]).road == imports@[j].0
                            && segs[j].key == imports@[j].1,
                    t <= chain.ids@.len(),
                    roads@.len() == t,
                    forall|j: int| 0 <= j < t ==> #[trigger] roads@[j] == chain.ids@[j].0,
                    named ==> name@ == first_name(old_model.road_names@, roads@) && name@.len()
                        > 0,
                    !named ==> name@.len() == 0 && forall|j: int|
                        0 <= j < roads@.len() ==> old_model.road_names@[(
                        #[trigger] roads@[j]) as int]@.len() == 0,
                decreases chain.ids@.len() - t,
            {
                let r = chains[i].ids[t].0;
                proof {
                    assert(crate::join_lines::input_has(
                        segs,
                        chain.ids@[t as int].0,
                        chain.ids@[t as int].1,
                        chain.nodes@[t as int],
                        chain.nodes@[t as int + 1],
                        chain.key,
                    ));
                    let w = choose|w: int|
                        0 <= w < segs.len() && (#[trigger] segs[w]).road == chain.ids@[t as int].0
                            && segs[w].key == chain.key && (match chain.ids@[t as int].1 {
                            crate::join_lines::Dir::Forwards => chain.nodes@[t as int] == segs[w].a
                                && chain.nodes@[t as int + 1] == segs[w].b,
                            crate::join_lines::Dir::Backwards => chain.nodes@[t as int]
                                == segs[w].b && chain.nodes@[t as int + 1] == segs[w].a,
                        });
                    assert(segs[w].road == imports@[w].0);
                    assert(r < old_model.num_roads);
                }
                let ghost prefix = roads@;
                roads.push(r);
                proof {
                    if !named {
                        lemma_first_name_all_unnamed(old_model.road_names@, prefix);
                    }
                    lemma_first_name_push(old_model.road_names@, prefix, r);
                }
                if !named {
                    let candidate = &self.road_names[r];
                    if !candidate.as_str().is_empty() {
                        name = candidate.clone();
                        named = true;
                    }
                }
                t += 1;
            }
            proof {
                assert(roads@ =~= crate::join_lines::chain_roads(chain));
                if !named {
                    lemma_first_name_all_unnamed(old_model.road_names@, roads@);
                    assert(name@ =~= first_name(old_model.road_names@, roads@));
                }
                // A duplicate within one chain would be counted twice in a
                // duplicate-free batch.
                let cr = crate::join_lines::chain_roads(chain);
                crate::join_lines::lemma_chain_le_all(chains@, i as int);
                cr.to_multiset_ensures();
                import_roads_seq(imports@).to_multiset_ensures();
                import_roads_seq(imports@).lemma_multiset_has_no_duplicates();
                assert forall|x: usize| cr.to_multiset().contains(x) implies cr.to_multiset().count(
                    x,
                ) == 1 by {
                    assert(cr.to_multiset().count(x) <= crate::join_lines::all_roads(
                        chains@,
                    ).count(x));
                    if import_roads_seq(imports@).to_multiset().contains(x) {
                    } else {
                        assert(import_roads_seq(imports@).to_multiset().count(x) == 0);
                    }
                }
                cr.lemma_multiset_has_no_duplicates_conv();
            }
            let route = Route {
                feature: String::new(),
                name,
                notes: "imported from existing network".to_owned(),
                roads,
                infra_type: chains[i].key,
                tier,
            };
            let id = self.id_counter;
            self.id_counter = self.id_counter + 1;
            let ghost pre = self.routes_seq();
            self.routes.push((id, route));
            proof {
                assert(self.routes_seq().drop_last() =~= pre);
                let rs = self.routes_seq();
                let last = rs.len() - 1;
                // Every member road of the chain is a batch road under the
                // chain's key.
                assert forall|k2: int| 0 <= k2 < route.roads@.len() implies imports@.contains(
                    (#[trigger] route.roads@[k2], route.infra_type),
                ) by {
                    assert(crate::join_lines::input_has(
                        segs,
                        chain.ids@[k2].0,
                        chain.ids@[k2].1,
                        chain.nodes@[k2],
                        chain.nodes@[k2 + 1],
                        chain.key,
                    ));
                    let w = choose|w: int|
                        0 <= w < segs.len() && (#[trigger] segs[w]).road == chain.ids@[k2].0
                            && segs[w].key == chain.key && (match chain.ids@[k2].1 {
                            crate::join_lines::Dir::Forwards => chain.nodes@[k2] == segs[w].a
                                && chain.nodes@[k2 + 1] == segs[w].b,
                            crate::join_lines::Dir::Backwards => chain.nodes@[k2] == segs[w].b
                                && chain.nodes@[k2 + 1] == segs[w].a,
                        });
                    assert(segs[w].road == imports@[w].0);
                    assert(segs[w].key == imports@[w].1);
                    assert(imports@[w] == (route.roads@[k2], route.infra_type));
                }
                // The new route's roads collide with nothing already stored.
                assert forall|a: int, b: int, r: usize|
                    0 <= a < rs.len() && 0 <= b < rs.len() && a != b implies !(
                #[trigger] rs[a].1.roads@.contains(r) && #[trigger] rs[b].1.roads@.contains(r)) by {
                    if a == last || b == last {
                        let o = if a == last {
                            b
                        } else {
                            a
                        };
                        if rs[o].1.roads@.contains(r) && route.roads@.contains(r) {
                            let k2 = choose|k2: int|
                                0 <= k2 < route.roads@.len() && route.roads@[k2] == r;
                            assert(imports@.contains((r, route.infra_type)));
                            let w = choose|w: int|
                                0 <= w < imports@.len() && imports@[w] == (r, route.infra_type);
                            assert(import_roads_seq(imports@)[w] == r);
                            if o < old_len {
                                assert(rs[o] == old_model.routes_seq()[o]);
                                assert(claimed_in(old_model.routes_seq(), r));
                            } else {
                                // Two distinct chains would both carry `r`,
                                // counted twice in a duplicate-free batch.
                                let co = o - old_len;
                                assert(rs[o].1.roads@ =~= crate::join_lines::chain_roads(
                                    chains@[co],
                                ));
                                assert(crate::join_lines::chain_roads(chains@[co]).contains(r));
                                assert(crate::join_lines::chain_roads(chains@[i as int]).contains(
                                    r,
                                ));
                                crate::join_lines::lemma_all_roads_two(
                                    chains@,
                                    co,
                                    i as int,
                                    r,
                                );
                                crate::join_lines::seg_roads(segs).to_multiset_ensures();
                                import_roads_seq(imports@).lemma_multiset_has_no_duplicates();
                                assert(import_roads_seq(imports@).to_multiset().count(r) >= 2);
                                assert(import_roads_seq(imports@).to_multiset().contains(r));
                            }
                        }
                    }
                }
            }
            i += 1;
        }
        proof {
            // A batch road is claimed afterwards; nothing else changed hands.
            assert forall|r: usize|
                claimed_in(self.routes_seq(), r) <==> claimed_in(old_model.routes_seq(), r)
                    || import_roads_seq(imports@).contains(r) by {
                let rs = self.routes_seq();
                if claimed_in(rs, r) {
                    let j = choose|j: int| 0 <= j < rs.len() && #[trigger] rs[j].1.roads@.contains(r);
                    if j < old_len {
                        assert(old_model.routes_seq()[j].1.roads@.contains(r));
                    } else {
                        let k2 = choose|k2: int|
                            0 <= k2 < rs[j].1.roads@.len() && rs[j].1.roads@[k2] == r;
                        assert(imports@.contains((r, rs[j].1.infra_type)));
                        let w = choose|w: int|
                            0 <= w < imports@.len() && imports@[w] == (r, rs[j].1.infra_type);
                        assert(import_roads_seq(imports@)[w] == r);
                    }
                }
                if claimed_in(old_model.routes_seq(), r) {
                    let j = choose|j: int|
                        0 <= j < old_model.routes_seq().len()
                            && #[trigger] old_model.routes_seq()[j].1.roads@.contains(r);
                    assert(rs[j].1.roads@.contains(r));
                }
                if import_roads_seq(imports@).contains(r) {
                    crate::join_lines::seg_roads(segs).to_multiset_ensures();
                    crate::join_lines::lemma_all_roads_source(chains@, r);
                    let c = choose|c: int|
                        0 <= c < chains@.len() && crate::join_lines::chain_roads(
                            #[trigger] chains@[c],
                        ).contains(r);
                    assert(rs[old_len + c].1.roads@.contains(r));
                }
            }
            // The chains themselves witness the structure of the appended
            // routes.
            assert(segs =~= batch_segments(imports@, old_model.road_endpoints@));
            assert(routes_match_chains(self.routes_seq(), old_len as int, chains@));
            assert(crate::join_lines::all_roads(chains@) == import_roads_seq(
                imports@,
            ).to_multiset());
        }
        count
    }
}

/// Whether a classifier guess names already-built protected
/// infrastructure, the only kind the existing-network import keeps.
pub open spec fn keep_guess(g: Option<InfraType>) -> bool {
    g == Some(InfraType::SegregatedWide) || g == Some(InfraType::OffRoad) || g == Some(
        InfraType::SegregatedNarrow,
    )
}

/// Executable test for `keep_guess` on a present guess.
fn is_protected(g: InfraType) -> (result: bool)
    ensures
        result == keep_guess(Some(g)),
{
    match g {
        InfraType::SegregatedWide => true,
        InfraType::OffRoad => true,
        InfraType::SegregatedNarrow => true,
        _ => false,
    }
}

impl MapModel {
    /// Imports already-built protected infrastructure: for every unclaimed
    /// road, the external tag-classifier's guess is consulted, only
    /// protected kinds are kept, and the batch is imported under the
    /// local-access tier. Returns the number of routes created.
    pub fn import_existing_routes(&mut self, guesses: &Vec<Option<InfraType>>) -> (result: usize)
        requires
            old(self).wf(),
            guesses@.len() == old(self).num_roads,
            old(self).id_counter + old(self).num_roads <= usize::MAX,
        ensures
            final(self).wf(),
            final(self).same_graph(*old(self)),
            final(self).id_counter == old(self).id_counter + result,
            result <= old(self).num_roads,
            forall|i: int|
                0 <= i < old(self).routes_seq().len() ==> #[trigger] final(self).routes_seq()[i]
                    == old(self).routes_seq()[i],
            final(self).routes_seq().len() == old(self).routes_seq().len() + result,
            forall|i: int|
                old(self).routes_seq().len() <= i < final(self).routes_seq().len()
                    ==> (#[trigger] final(self).routes_seq()[i]).1.tier == crate::Tier::LocalAccess
                    && keep_guess(Some(final(self).routes_seq()[i].1.infra_type)),
            forall|r: usize|
                claimed_in(final(self).routes_seq(), r) <==> claimed_in(old(self).routes_seq(), r)
                    || (r < old(self).num_roads && keep_guess(guesses@[r as int])),
            guesses_match(final(self).routes_seq(), old(self).routes_seq().len() as int, guesses@),
    {
        let ghost old_model = *old(self);
        let mut batch: Vec<(usize, InfraType)> = Vec::new();
        let mut r: usize = 0;
        while r < self.num_roads
            invariant
                *self == old_model,
                old_model.wf(),
                guesses@.len() == old_model.num_roads,
                r <= old_model.num_roads,
                batch@.len() <= r,
                forall|a: int, b: int|
                    0 <= a < b < batch@.len() ==> (#[trigger] batch@[a]).0 < (
                    #[trigger] batch@[b]).0,
                forall|j: int|
                    0 <= j < batch@.len() ==> (#[trigger] batch@[j]).0 < r && !claimed_in(
                        old_model.routes_seq(),
                        batch@[j].0,
                    ) && keep_guess(guesses@[batch@[j].0 as int]) && Some(batch@[j].1)
                        == guesses@[batch@[j].0 as int],
                forall|rr: usize|
                    rr < r && !claimed_in(old_model.routes_seq(), rr) && keep_guess(
                        guesses@[rr as int],
                    ) ==> import_roads_seq(batch@).contains(rr),
            decreases old_model.num_roads - r,
        {
            let ghost pre = batch@;
            if !self.road_is_used(r) {
                if let Some(g) = guesses[r] {
                    if is_protected(g) {
                        batch.push((r, g));
                        proof {
                            assert(import_roads_seq(batch@)[batch@.len() - 1] == r);
                        }
                    }
                }
            }
            proof {
                assert forall|rr: usize|
                    rr < r + 1 && !claimed_in(old_model.routes_seq(), rr) && keep_guess(
                        guesses@[rr as int],
                    ) implies import_roads_seq(batch@).contains(rr) by {
                    if rr < r {
                        let w = choose|w: int|
                            0 <= w < import_roads_seq(pre).len() && import_roads_seq(pre)[w] == rr;
                        assert(import_roads_seq(batch@)[w] == rr);
                    }
                }
            }
            r += 1;
        }
        proof {
            assert forall|a: int, b: int|
                0 <= a < import_roads_seq(batch@).len() && 0 <= b < import_roads_seq(batch@).len()
                    && a != b implies #[trigger] import_roads_seq(batch@)[a]
                != #[trigger] import_roads_seq(batch@)[b] by {
                assert(import_roads_seq(batch@)[a] == batch@[a].0);
                assert(import_roads_seq(batch@)[b] == batch@[b].0);
            }
            assert(batch@.len() <= old_model.num_roads);
        }
        let ghost batch_snap = batch@;
        let count = self.import_roads(batch, crate::Tier::LocalAccess);
        proof {
            assert forall|i: int, k: int|
                old_model.routes_seq().len() <= i < self.routes_seq().len() && 0 <= k < (
                #[trigger] self.routes_seq()[i]).1.roads@.len() implies guesses@[(
            #[trigger] self.routes_seq()[i].1.roads@[k]) as int] == Some(
                self.routes_seq()[i].1.infra_type,
            ) by {
                let route = self.routes_seq()[i].1;
                assert(imported_route_ok(
                    route,
                    batch_snap,
                    old_model.road_names@,
                    crate::Tier::LocalAccess,
                ));
                assert(batch_snap.contains((route.roads@[k], route.infra_type)));
                let w = choose|w: int|
                    0 <= w < batch_snap.len() && batch_snap[w] == (
                    route.roads@[k],
                    route.infra_type,
                );
                assert(Some(batch_snap[w].1) == guesses@[batch_snap[w].0 as int]);
            }
            assert forall|i: int|
                old_model.routes_seq().len() <= i < self.routes_seq().len() implies (
            #[trigger] self.routes_seq()[i]).1.tier == crate::Tier::LocalAccess && keep_guess(
                Some(self.routes_seq()[i].1.infra_type),
            ) by {
                let route = self.routes_seq()[i].1;
                assert(imported_route_ok(route, batch_snap, old_model.road_names@, crate::Tier::LocalAccess));
                assert(batch_snap.contains((route.roads@[0], route.infra_type)));
                let w = choose|w: int|
                    0 <= w < batch_snap.len() && batch_snap[w] == (
                    route.roads@[0],
                    route.infra_type,
                );
            }
            assert forall|rr: usize|
                claimed_in(self.routes_seq(), rr) <==> claimed_in(old_model.routes_seq(), rr) || (
                rr < old_model.num_roads && keep_guess(guesses@[rr as int])) by {
                if import_roads_seq(batch_snap).contains(rr) {
                    let w = choose|w: int|
                        0 <= w < import_roads_seq(batch_snap).len() && import_roads_seq(
                            batch_snap,
                        )[w] == rr;
                    assert(batch_snap[w].0 == rr);
                }
                if rr < old_model.num_roads && !claimed_in(old_model.routes_seq(), rr)
                    && keep_guess(guesses@[rr as int]) {
                    assert(import_roads_seq(batch_snap).contains(rr));
                }
            }
        }
        count
    }

    /// Imports one tier of the precomputed core-network overlay: every
    /// unclaimed road the overlay assigns to `tier` is batched under a
    /// placeholder infrastructure type and imported.
    fn import_tier(&mut self, tier: crate::Tier) -> (result: usize)
        requires
            old(self).wf(),
            old(self).id_counter + old(self).num_roads <= usize::MAX,
        ensures
            final(self).wf(),
            final(self).same_graph(*old(self)),
            final(self).id_counter == old(self).id_counter + result,
            result <= old(self).num_roads,
            forall|i: int|
                0 <= i < old(self).routes_seq().len() ==> #[trigger] final(self).routes_seq()[i]
                    == old(self).routes_seq()[i],
            final(self).routes_seq().len() == old(self).routes_seq().len() + result,
            forall|i: int|
                old(self).routes_seq().len() <= i < final(self).routes_seq().len()
                    ==> (#[trigger] final(self).routes_seq()[i]).1.tier == tier
                    && final(self).routes_seq()[i].1.infra_type == InfraType::SegregatedNarrow,
            forall|r: usize|
                claimed_in(final(self).routes_seq(), r) <==> claimed_in(old(self).routes_seq(), r)
                    || (r < old(self).num_roads && old(self).core_network@[r as int] == Some(tier)),
            overlay_match(
                final(self).routes_seq(),
                old(self).routes_seq().len() as int,
                old(self).core_network@,
            ),
    {
        let ghost old_model = *old(self);
        let mut batch: Vec<(usize, InfraType)> = Vec::new();
        let mut r: usize = 0;
        while r < self.num_roads
            invariant
                *self == old_model,
                old_model.wf(),
                r <= old_model.num_roads,
                batch@.len() <= r,
                forall|a: int, b: int|
                    0 <= a < b < batch@.len() ==> (#[trigger] batch@[a]).0 < (
                    #[trigger] batch@[b]).0,
                forall|j: int|
                    0 <= j < batch@.len() ==> (#[trigger] batch@[j]).0 < r && !claimed_in(
                        old_model.routes_seq(),
                        batch@[j].0,
                    ) && old_model.core_network@[batch@[j].0 as int] == Some(tier) && batch@[j].1
                        == InfraType::SegregatedNarrow,
                forall|rr: usize|
                    rr < r && !claimed_in(old_model.routes_seq(), rr)
                        && old_model.core_network@[rr as int] == Some(tier) ==> import_roads_seq(
                        batch@,
                    ).contains(rr),
            decreases old_model.num_roads - r,
        {
            let ghost pre = batch@;
            if !self.road_is_used(r) {
                let in_tier = match self.core_network[r] {
                    Some(t) => crate::routes::tier_eq(t, tier),
                    None => false,
                };
                if in_tier {
                    batch.push((r, InfraType::SegregatedNarrow));
                    proof {
                        assert(import_roads_seq(batch@)[batch@.len() - 1] == r);
                    }
                }
            }
            proof {
                assert forall|rr: usize|
                    rr < r + 1 && !claimed_in(old_model.routes_seq(), rr)
                        && old_model.core_network@[rr as int] == Some(tier) implies
                    import_roads_seq(batch@).contains(rr) by {
                    if rr < r {
                        let w = choose|w: int|
                            0 <= w < import_roads_seq(pre).len() && import_roads_seq(pre)[w] == rr;
                        assert(import_roads_seq(batch@)[w] == rr);
                    }
                }
            }
            r += 1;
        }
        proof {
            assert forall|a: int, b: int|
                0 <= a < import_roads_seq(batch@).len() && 0 <= b < import_roads_seq(batch@).len()
                    && a != b implies #[trigger] import_roads_seq(batch@)[a]
                != #[trigger] import_roads_seq(batch@)[b] by {
                assert(import_roads_seq(batch@)[a] == batch@[a].0);
                assert(import_roads_seq(batch@)[b] == batch@[b].0);
            }
            assert(batch@.len() <= old_model.num_roads);
        }
        let ghost batch_snap = batch@;
        let count = self.import_roads(batch, tier);
        proof {
            assert forall|i: int, k: int|
                old_model.routes_seq().len() <= i < self.routes_seq().len() && 0 <= k < (
                #[trigger] self.routes_seq()[i]).1.roads@.len() implies old_model.core_network@[(
            #[trigger] self.routes_seq()[i].1.roads@[k]) as int] == Some(
                self.routes_seq()[i].1.tier,
            ) by {
                let route = self.routes_seq()[i].1;
                assert(imported_route_ok(route, batch_snap, old_model.road_names@, tier));
                assert(batch_snap.contains((route.roads@[k], route.infra_type)));
                let w = choose|w: int|
                    0 <= w < batch_snap.len() && batch_snap[w] == (
                    route.roads@[k],
                    route.infra_type,
                );
                assert(old_model.core_network@[batch_snap[w].0 as int] == Some(tier));
            }
            assert forall|i: int|
                old_model.routes_seq().len() <= i < self.routes_seq().len() implies (
            #[trigger] self.routes_seq()[i]).1.tier == tier && self.routes_seq()[i].1.infra_type
                == InfraType::SegregatedNarrow by {
                let route = self.routes_seq()[i].1;
                assert(imported_route_ok(route, batch_snap, old_model.road_names@, tier));
                assert(batch_snap.contains((route.roads@[0], route.infra_type)));
                let w = choose|w: int|
                    0 <= w < batch_snap.len() && batch_snap[w] == (
                    route.roads@[0],
                    route.infra_type,
                );
            }
            assert forall|rr: usize|
                claimed_in(self.routes_seq(), rr) <==> claimed_in(old_model.routes_seq(), rr) || (
                rr < old_model.num_roads && old_model.core_network@[rr as int] == Some(
                    tier,
                )) by {
                if import_roads_seq(batch_snap).contains(rr) {
                    let w = choose|w: int|
                        0 <= w < import_roads_seq(batch_snap).len() && import_roads_seq(
                            batch_snap,
                        )[w] == rr;
                    assert(batch_snap[w].0 == rr);
                }
                if rr < old_model.num_roads && !claimed_in(old_model.routes_seq(), rr)
                    && old_model.core_network@[rr as int] == Some(tier) {
                    assert(import_roads_seq(batch_snap).contains(rr));
                }
            }
        }
        count
    }

    /// Imports the precomputed core-network overlay: every unclaimed road
    /// the overlay covers is imported under its overlay tier, one batch per
    /// tier, with a placeholder infrastructure type. Returns the number of
    /// routes created.
    pub fn import_core_network(&mut self) -> (result: usize)
        requires
            old(self).wf(),
            old(self).id_counter + 4 * old(self).num_roads <= usize::MAX,
        ensures
            final(self).wf(),
            final(self).same_graph(*old(self)),
            final(self).id_counter == old(self).id_counter + result,
            final(self).routes_seq().len() == old(self).routes_seq().len() + result,
            forall|i: int|
                0 <= i < old(self).routes_seq().len() ==> #[trigger] final(self).routes_seq()[i]
                    == old(self).routes_seq()[i],
            forall|i: int|
                old(self).routes_seq().len() <= i < final(self).routes_seq().len()
                    ==> (#[trigger] final(self).routes_seq()[i]).1.infra_type
                    == InfraType::SegregatedNarrow,
            overlay_match(
                final(self).routes_seq(),
                old(self).routes_seq().len() as int,
                old(self).core_network@,
            ),
            forall|r: usize|
                claimed_in(final(self).routes_seq(), r) <==> claimed_in(old(self).routes_seq(), r)
                    || (r < old(self).num_roads && old(self).core_network@[r as int] is Some),
    {
        let ghost old_model = *old(self);
        let e1 = self.import_tier(crate::Tier::Primary);
        let ghost m1 = *self;
        let e2 = self.import_tier(crate::Tier::Secondary);
        let ghost m2 = *self;
        let e3 = self.import_tier(crate::Tier::LocalAccess);
        let ghost m3 = *self;
        let e4 = self.import_tier(crate::Tier::LongDistance);
        let edits = e1 + e2 + e3 + e4;
        proof {
            assert forall|r: usize|
                claimed_in(self.routes_seq(), r) <==> claimed_in(old_model.routes_seq(), r) || (r
                    < old_model.num_roads && old_model.core_network@[r as int] is Some) by {
                if r < old_model.num_roads && old_model.core_network@[r as int] is Some {
                    let t = old_model.core_network@[r as int]->0;
                    assert(t == crate::Tier::Primary || t == crate::Tier::Secondary || t
                        == crate::Tier::LocalAccess || t == crate::Tier::LongDistance);
                }
            }
            // Each appended route came from exactly one tier's batch, and
            // later batches leave earlier routes untouched.
            let l0 = old_model.routes_seq().len() as int;
            let l1 = m1.routes_seq().len() as int;
            let l2 = m2.routes_seq().len() as int;
            let l3 = m3.routes_seq().len() as int;
            assert forall|i: int, k: int|
                l0 <= i < self.routes_seq().len() && 0 <= k < (
                #[trigger] self.routes_seq()[i]).1.roads@.len() implies old_model.core_network@[(
            #[trigger] self.routes_seq()[i].1.roads@[k]) as int] == Some(
                self.routes_seq()[i].1.tier,
            ) by {
                if i < l1 {
                    assert(self.routes_seq()[i] == m3.routes_seq()[i]);
                    assert(m3.routes_seq()[i] == m2.routes_seq()[i]);
                    assert(m2.routes_seq()[i] == m1.routes_seq()[i]);
                    assert(old_model.core_network@[(m1.routes_seq()[i].1.roads@[k]) as int]
                        == Some(m1.routes_seq()[i].1.tier));
                } else if i < l2 {
                    assert(self.routes_seq()[i] == m3.routes_seq()[i]);
                    assert(m3.routes_seq()[i] == m2.routes_seq()[i]);
                    assert(m1.core_network@[(m2.routes_seq()[i].1.roads@[k]) as int] == Some(
                        m2.routes_seq()[i].1.tier,
                    ));
                } else if i < l3 {
                    assert(self.routes_seq()[i] == m3.routes_seq()[i]);
                    assert(m2.core_network@[(m3.routes_seq()[i].1.roads@[k]) as int] == Some(
                        m3.routes_seq()[i].1.tier,
                    ));
                } else {
                    assert(m3.core_network@[(self.routes_seq()[i].1.roads@[k]) as int] == Some(
                        self.routes_seq()[i].1.tier,
                    ));
                }
            }
        }
        edits
    }
}

/// Whether any route of a store-as-map claims road `r`.
pub open spec fn map_claims(m: Map<usize, Route>, r: usize) -> bool {
    exists|id: usize| #[trigger] m.contains_key(id) && m[id].roads@.contains(r)
}

/// A road is claimed in the pair sequence exactly when it is claimed in
/// the map the sequence denotes.
pub proof fn lemma_claimed_in_map(rs: Seq<(usize, Route)>, r: usize)
    requires
        forall|a: int, b: int| 0 <= a < b < rs.len() ==> (#[trigger] rs[a]).0 != (#[trigger] rs[b]).0,
    ensures
        claimed_in(rs, r) <==> map_claims(as_map(rs), r),
    decreases rs.len(),
{
    if rs.len() > 0 {
        assert forall|a: int, b: int|
            0 <= a < b < rs.drop_last().len() implies (#[trigger] rs.drop_last()[a]).0 != (
        #[trigger] rs.drop_last()[b]).0 by {
            assert(rs.drop_last()[a] == rs[a]);
            assert(rs.drop_last()[b] == rs[b]);
        }
        lemma_claimed_in_map(rs.drop_last(), r);
        let m = as_map(rs);
        let last = rs.last();
        if claimed_in(rs, r) {
            let i = choose|i: int| 0 <= i < rs.len() && #[trigger] rs[i].1.roads@.contains(r);
            if i == rs.len() - 1 {
                assert(m.contains_key(last.0) && m[last.0].roads@.contains(r));
            } else {
                assert(rs.drop_last()[i].1.roads@.contains(r));
                let id = choose|id: usize| #[trigger]
                    as_map(rs.drop_last()).contains_key(id) && as_map(
                        rs.drop_last(),
                    )[id].roads@.contains(r);
                if id == last.0 {
                    // The shadowing pair would repeat the last ID.
                    lemma_as_map_contains(rs.drop_last(), last.0);
                    let w = choose|w: int|
                        0 <= w < rs.drop_last().len() && (#[trigger] rs.drop_last()[w]).0 == last.0;
                    assert(rs[w].0 == rs[rs.len() - 1].0);
                    assert(false);
                } else {
                    assert(m.contains_key(id) && m[id].roads@.contains(r));
                }
            }
        }
        if map_claims(m, r) {
            let id = choose|id: usize| #[trigger] m.contains_key(id) && m[id].roads@.contains(r);
            if id == last.0 {
                assert(rs[rs.len() - 1].1.roads@.contains(r));
            } else {
                assert(as_map(rs.drop_last()).contains_key(id) && as_map(
                    rs.drop_last(),
                )[id].roads@.contains(r));
                let i = choose|i: int|
                    0 <= i < rs.drop_last().len() && #[trigger] rs.drop_last()[i].1.roads@.contains(
                        r,
                    );
                assert(rs[i].1.roads@.contains(r));
            }
        }
    }
}

/// Round trip: creating a route and then replacing it under the assigned
/// ID leaves exactly the replacement stored at that ID, and every road the
/// original claimed but the replacement does not is free for reuse again.
/// The premises are precisely what the two successful `set_route` calls
/// ensure.
pub proof fn lemma_set_route_round_trip(
    m0: Map<usize, Route>,
    m1: Map<usize, Route>,
    m2: Map<usize, Route>,
    id: usize,
    route1: Route,
    route2: Route,
)
    requires
        !m0.contains_key(id),
        m1 == m0.insert(id, route1),
        m2 == m1.insert(id, route2),
    ensures
        m2.contains_key(id),
        m2[id] == route2,
        forall|r: usize|
            route1.roads@.contains(r) && !route2.roads@.contains(r) && !map_claims(m0, r)
                ==> !map_claims(m2, r),
        m2.remove(id) == m0.remove(id),
{
    assert(m2 =~= m0.insert(id, route2));
    assert forall|r: usize|
        route1.roads@.contains(r) && !route2.roads@.contains(r) && !map_claims(m0, r) implies
        !map_claims(m2, r) by {
        if map_claims(m2, r) {
            let w = choose|w: usize| #[trigger] m2.contains_key(w) && m2[w].roads@.contains(r);
            if w == id {
                assert(m2[id] == route2);
            } else {
                assert(m0.contains_key(w) && m0[w].roads@.contains(r));
            }
        }
    }
    assert(m2.remove(id) =~= m0.remove(id));
}

/// Tier equality, written out because contracts speak of it.
pub fn tier_eq(a: crate::Tier, b: crate::Tier) -> (result: bool)
    ensures
        result == (a == b),
{
    match (a, b) {
        (crate::Tier::Primary, crate::Tier::Primary) => true,
        (crate::Tier::Secondary, crate::Tier::Secondary) => true,
        (crate::Tier::LocalAccess, crate::Tier::LocalAccess) => true,
        (crate::Tier::LongDistance, crate::Tier::LongDistance) => true,
        _ => false,
    }
}

/// The path elements of the runs, concatenated in order.
pub open spec fn sections_flat(ss: Seq<Section>) -> Seq<(usize, bool)>
    decreases ss.len(),
{
    if ss.len() == 0 {
        Seq::empty()
    } else {
        sections_flat(ss.drop_last()) + ss.last().roads@
    }
}

/// Case equality, written out because contracts speak of it.
fn case_eq(a: Case, b: Case) -> (result: bool)
    ensures
        result == (a == b),
{
    match (a, b) {
        (Case::AlreadyExists, Case::AlreadyExists) => true,
        (Case::New(x), Case::New(y)) => match (x, y) {
            (Option::None, Option::None) => true,
            (Some(p), Some(q)) => infra_eq(p, q),
            _ => false,
        },
        _ => false,
    }
}

/// Infrastructure-type equality, written out because contracts speak of it.
pub fn infra_eq(a: InfraType, b: InfraType) -> (result: bool)
    ensures
        result == (a == b),
{
    match (a, b) {
        (InfraType::SegregatedWide, InfraType::SegregatedWide) => true,
        (InfraType::OffRoad, InfraType::OffRoad) => true,
        (InfraType::SegregatedNarrow, InfraType::SegregatedNarrow) => true,
        (InfraType::SharedFootway, InfraType::SharedFootway) => true,
        (InfraType::CycleLane, InfraType::CycleLane) => true,
        (InfraType::MixedTraffic, InfraType::MixedTraffic) => true,
        (InfraType::Unknown, InfraType::Unknown) => true,
        _ => false,
    }
}

/// Field-by-field sameness of two routes, by the views of their contents.
pub open spec fn route_equiv(a: Route, b: Route) -> bool {
    &&& a.feature@ == b.feature@
    &&& a.name@ == b.name@
    &&& a.notes@ == b.notes@
    &&& a.roads@ == b.roads@
    &&& a.infra_type == b.infra_type
    &&& a.tier == b.tier
}

/// A copy of `route` with the same contents.
pub fn clone_route(route: &Route) -> (result: Route)
    ensures
        route_equiv(*route, result),
{
    let roads = route.roads.clone();
    proof {
        assert(roads@ =~= route.roads@);
    }
    Route {
        feature: route.feature.clone(),
        name: route.name.clone(),
        notes: route.notes.clone(),
        roads,
        infra_type: route.infra_type,
        tier: route.tier,
    }
}

} // verus!
