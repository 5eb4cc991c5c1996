use backend::level_of_service::get_speed_mph;
use backend::{InfraType, LevelOfService, MapModel, Route, Tier};

fn model_with(speed: u64, traffic: u64) -> MapModel {
    MapModel::create(
        vec![speed],
        vec![traffic],
        vec![None],
        vec![String::new()],
        vec![(0, 1)],
        2,
    )
}

fn claim(model: &mut MapModel, infra_type: InfraType) {
    model
        .set_route(
            None,
            Route {
                feature: String::new(),
                name: String::new(),
                notes: String::new(),
                roads: vec![0],
                infra_type,
                tier: Tier::Primary,
            },
        )
        .unwrap();
}

#[test]
fn los_mixed_traffic_slow_quiet_is_high() {
    let model = model_with(20, 1500);
    assert_eq!(model.calculate_level_of_service(0), LevelOfService::High);
}

#[test]
fn los_mixed_traffic_thirty_busy_is_low() {
    let model = model_with(30, 2500);
    assert_eq!(model.calculate_level_of_service(0), LevelOfService::Low);
}

#[test]
fn los_mixed_traffic_fast_busy_should_not_be_used() {
    let model = model_with(60, 5000);
    assert_eq!(
        model.calculate_level_of_service(0),
        LevelOfService::ShouldNotBeUsed
    );
}

#[test]
fn los_segregated_wide_is_high_regardless() {
    for (speed, traffic) in [(20u64, 100u64), (60, 9000), (40, 1999)] {
        let mut model = model_with(speed, traffic);
        claim(&mut model, InfraType::SegregatedWide);
        assert_eq!(model.calculate_level_of_service(0), LevelOfService::High);
    }
}

#[test]
fn los_threshold_rows() {
    assert_eq!(
        model_with(30, 900).calculate_level_of_service(0),
        LevelOfService::High
    );
    assert_eq!(
        model_with(20, 3999).calculate_level_of_service(0),
        LevelOfService::Medium
    );
    assert_eq!(
        model_with(40, 900).calculate_level_of_service(0),
        LevelOfService::Medium
    );
    assert_eq!(
        model_with(40, 1999).calculate_level_of_service(0),
        LevelOfService::Low
    );
    assert_eq!(
        model_with(60, 900).calculate_level_of_service(0),
        LevelOfService::Low
    );
    assert_eq!(
        model_with(50, 100).calculate_level_of_service(0),
        LevelOfService::ShouldNotBeUsed
    );
}

#[test]
fn claimed_infrastructure_overrides_thresholds() {
    let mut model = model_with(60, 5000);
    claim(&mut model, InfraType::SharedFootway);
    assert_eq!(model.calculate_level_of_service(0), LevelOfService::Medium);
    let mut model = model_with(20, 100);
    claim(&mut model, InfraType::CycleLane);
    assert_eq!(model.calculate_level_of_service(0), LevelOfService::Low);
}

#[test]
fn speed_explicit_mph_tag_is_parsed_literally() {
    let highway = String::from("residential");
    assert_eq!(get_speed_mph(Some(&String::from("30 mph")), &highway), 30);
    assert_eq!(get_speed_mph(Some(&String::from("7 mph")), &highway), 7);
    assert_eq!(get_speed_mph(Some(&String::from("05 mph")), &highway), 5);
}

#[test]
fn speed_mph_tag_accepts_a_leading_plus() {
    let highway = String::from("primary");
    assert_eq!(get_speed_mph(Some(&String::from("+30 mph")), &highway), 30);
    // A bare plus sign carries no digits and falls through.
    assert_eq!(get_speed_mph(Some(&String::from("+ mph")), &highway), 40);
    // Only one leading sign is accepted.
    assert_eq!(get_speed_mph(Some(&String::from("++3 mph")), &highway), 40);
}

#[test]
fn speed_national_limit_resolves_by_motorway_class() {
    let national = String::from("national");
    assert_eq!(get_speed_mph(Some(&national), &String::from("motorway")), 70);
    assert_eq!(
        get_speed_mph(Some(&national), &String::from("motorway_link")),
        70
    );
    assert_eq!(get_speed_mph(Some(&national), &String::from("trunk")), 60);
}

#[test]
fn speed_falls_back_by_road_class() {
    assert_eq!(get_speed_mph(None, &String::from("residential")), 20);
    assert_eq!(get_speed_mph(None, &String::from("service")), 20);
    assert_eq!(get_speed_mph(None, &String::from("unclassified")), 20);
    assert_eq!(get_speed_mph(None, &String::from("tertiary")), 30);
    assert_eq!(get_speed_mph(None, &String::from("secondary_link")), 30);
    assert_eq!(get_speed_mph(None, &String::from("primary")), 40);
    assert_eq!(get_speed_mph(None, &String::from("trunk_link")), 60);
}

#[test]
fn speed_unrecognized_class_defaults_conservatively() {
    assert_eq!(get_speed_mph(None, &String::from("bridleway")), 30);
    assert_eq!(
        get_speed_mph(Some(&String::from("fast")), &String::from("byway")),
        30
    );
}

#[test]
fn speed_unparseable_mph_tags_fall_through() {
    let highway = String::from("primary");
    assert_eq!(get_speed_mph(Some(&String::from("30")), &highway), 40);
    assert_eq!(get_speed_mph(Some(&String::from("x mph")), &highway), 40);
    assert_eq!(get_speed_mph(Some(&String::from(" mph")), &highway), 40);
    assert_eq!(
        get_speed_mph(
            Some(&String::from("99999999999999999999999999 mph")),
            &highway
        ),
        40
    );
}

#[test]
fn best_infra_type_recommends_fixed_upgrades() {
    // High: nothing to recommend.
    assert_eq!(model_with(20, 100).best_infra_type(0), None);
    // Medium: a narrow segregated track.
    assert_eq!(
        model_with(20, 3000).best_infra_type(0),
        Some(InfraType::SegregatedNarrow)
    );
    // Low and worse: a wide segregated track.
    assert_eq!(
        model_with(30, 5000).best_infra_type(0),
        Some(InfraType::SegregatedWide)
    );
    assert_eq!(
        model_with(70, 9000).best_infra_type(0),
        Some(InfraType::SegregatedWide)
    );
}

#[test]
fn render_level_of_service_reports_every_road() {
    let model = MapModel::create(
        vec![20, 60],
        vec![100, 5000],
        vec![None, None],
        vec![String::new(), String::new()],
        vec![(0, 1), (1, 2)],
        3,
    );
    let rendered = model.render_level_of_service();
    assert_eq!(rendered.len(), 2);
    assert_eq!(
        rendered[0],
        (InfraType::Unknown, LevelOfService::High, 100, 20)
    );
    assert_eq!(
        rendered[1],
        (InfraType::Unknown, LevelOfService::ShouldNotBeUsed, 5000, 60)
    );
}
