//! Per-step annotation of a routed path: each road along the way is
//! labelled with its claimed infrastructure and its level of service.
//! Routing itself, geometry and rendering are external collaborators.
use vstd::prelude::*;
use crate::{infra_or_unknown, InfraType, LevelOfService, MapModel};
use crate::level_of_service::spec_level_of_service;

verus! {

/// Which per-road detail a route evaluation should break out alongside the
/// overall result.
#[derive(Clone, Copy, PartialEq, Eq, Structural, Debug)]
pub enum Breakdown {
    Overall,
    LevelOfService,
    InfraType,
}

impl MapModel {
    /// Annotates each road step of a routed path with its current
    /// classification and level of service, in step order.
    pub fn evaluate_route(&self, steps: &Vec<usize>) -> (result: Vec<(usize, InfraType,
        LevelOfService)>)
        requires
            self.wf(),
            forall|k: int| 0 <= k < steps@.len() ==> #[trigger] steps@[k] < self.num_roads,
        ensures
            result@.len() == steps@.len(),
            forall|k: int|
                0 <= k < steps@.len() ==> #[trigger] result@[k] == (
                steps@[k],
                infra_or_unknown(self.routes_seq(), steps@[k]),
                spec_level_of_service(
                    infra_or_unknown(self.routes_seq(), steps@[k]),
                    self.speeds@[steps@[k] as int],
                    self.traffic_volumes@[steps@[k] as int],
                ),
            ),
    {
        let mut result: Vec<(usize, InfraType, LevelOfService)> = Vec::new();
        let mut k: usize = 0;
        while k < steps.len()
            invariant
                self.wf(),
                forall|j: int| 0 <= j < steps@.len() ==> #[trigger] steps@[j] < self.num_roads,
                k <= steps@.len(),
                result@.len() == k,
                forall|j: int|
                    0 <= j < k ==> #[trigger] result@[j] == (
                    steps@[j],
                    infra_or_unknown(self.routes_seq(), steps@[j]),
                    spec_level_of_service(
                        infra_or_unknown(self.routes_seq(), steps@[j]),
                        self.speeds@[steps@[j] as int],
                        self.traffic_volumes@[steps@[j] as int],
                    ),
                ),
            decreases steps@.len() - k,
        {
            let r = steps[k];
            let infra = self.get_infra_type(r);
            let los = self.calculate_level_of_service(r);
            result.push((r, infra, los));
            k += 1;
        }
        result
    }
}

} // verus!
