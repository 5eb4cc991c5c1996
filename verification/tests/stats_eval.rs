use backend::{Breakdown, InfraType, LevelOfService, MapModel, Route, Tier};

fn model_two_roads() -> MapModel {
    MapModel::create(
        vec![20, 60],
        vec![100, 5000],
        vec![None, None],
        vec![String::from("A Road"), String::new()],
        vec![(0, 1), (1, 2)],
        3,
    )
}

fn claim_road_zero(model: &mut MapModel, infra_type: InfraType) {
    model
        .set_route(
            None,
            Route {
                feature: String::new(),
                name: String::new(),
                notes: String::new(),
                roads: vec![0],
                infra_type,
                tier: Tier::Primary,
            },
        )
        .unwrap();
}

#[test]
fn stats_bucket_flows_by_classification() {
    let mut model = model_two_roads();
    claim_road_zero(&mut model, InfraType::CycleLane);
    let stats = model.recalculate_stats(&vec![5, 7]);
    assert_eq!(stats.total, 12);
    assert_eq!(stats.od_counts.len(), 8);
    // Off network first, then each infrastructure type.
    assert_eq!(stats.od_counts[0], (None, 7));
    assert_eq!(stats.od_counts[5], (Some(InfraType::CycleLane), 5));
    assert_eq!(stats.od_counts[1], (Some(InfraType::SegregatedWide), 0));
}

#[test]
fn stats_with_zero_total_report_zero_everywhere() {
    let mut model = model_two_roads();
    claim_road_zero(&mut model, InfraType::OffRoad);
    let stats = model.recalculate_stats(&vec![0, 0]);
    assert_eq!(stats.total, 0);
    for (_, count) in &stats.od_counts {
        assert_eq!(*count, 0);
    }
}

#[test]
fn stats_on_unclaimed_network_land_off_network() {
    let model = model_two_roads();
    let stats = model.recalculate_stats(&vec![3, 4]);
    assert_eq!(stats.total, 7);
    assert_eq!(stats.od_counts[0], (None, 7));
}

#[test]
fn evaluate_route_annotates_each_step() {
    let mut model = model_two_roads();
    claim_road_zero(&mut model, InfraType::SegregatedWide);
    let steps = model.evaluate_route(&vec![0, 1]);
    assert_eq!(steps.len(), 2);
    assert_eq!(
        steps[0],
        (0, InfraType::SegregatedWide, LevelOfService::High)
    );
    assert_eq!(
        steps[1],
        (1, InfraType::Unknown, LevelOfService::ShouldNotBeUsed)
    );
}

#[test]
fn breakdown_variants_are_distinct() {
    assert_ne!(Breakdown::Overall, Breakdown::LevelOfService);
    assert_ne!(Breakdown::LevelOfService, Breakdown::InfraType);
}

#[test]
fn used_roads_tracks_claims() {
    let mut model = model_two_roads();
    claim_road_zero(&mut model, InfraType::CycleLane);
    let used = model.used_roads();
    assert_eq!(used, vec![true, false]);
    assert!(model.road_is_used(0));
    assert!(!model.road_is_used(1));
}
