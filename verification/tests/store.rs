use backend::routes::RouteError;
use backend::{InfraType, MapModel, Route, Tier};

fn small_model(num_roads: usize) -> MapModel {
    let mut speeds = Vec::new();
    let mut traffic = Vec::new();
    let mut core = Vec::new();
    let mut names = Vec::new();
    let mut endpoints = Vec::new();
    for i in 0..num_roads {
        speeds.push(20);
        traffic.push(100);
        core.push(None);
        names.push(String::new());
        endpoints.push((i, i + 1));
    }
    MapModel::create(speeds, traffic, core, names, endpoints, num_roads + 1)
}

fn route(roads: Vec<usize>, infra_type: InfraType) -> Route {
    Route {
        feature: String::from("{\"type\":\"Feature\"}"),
        name: String::from("a route"),
        notes: String::new(),
        roads,
        infra_type,
        tier: Tier::LocalAccess,
    }
}

#[test]
fn create_assigns_sequential_ids() {
    let mut model = small_model(6);
    let id0 = model.set_route(None, route(vec![0, 1], InfraType::CycleLane));
    let id1 = model.set_route(None, route(vec![2], InfraType::OffRoad));
    assert_eq!(id0, Ok(0));
    assert_eq!(id1, Ok(1));
    assert_eq!(model.id_counter, 2);
}

#[test]
fn replace_missing_id_fails() {
    let mut model = small_model(4);
    let result = model.set_route(Some(7), route(vec![0], InfraType::CycleLane));
    assert_eq!(result, Err(RouteError::UnknownRoute(7)));
    assert_eq!(model.routes.len(), 0);
}

#[test]
fn conflict_names_offending_road_and_rolls_back() {
    let mut model = small_model(6);
    model
        .set_route(None, route(vec![0, 1], InfraType::CycleLane))
        .unwrap();
    let before = model.to_routes_gj();

    let result = model.set_route(None, route(vec![3, 1, 0], InfraType::OffRoad));
    assert_eq!(result, Err(RouteError::RoadConflict(1)));

    // The store is exactly as before the failed call.
    let after = model.to_routes_gj();
    assert_eq!(before.len(), after.len());
    for (b, a) in before.iter().zip(after.iter()) {
        assert_eq!(b.0, a.0);
        assert_eq!(b.1.feature, a.1.feature);
        assert_eq!(b.1.name, a.1.name);
        assert_eq!(b.1.notes, a.1.notes);
        assert_eq!(b.1.roads, a.1.roads);
        assert!(matches!(b.1.infra_type, InfraType::CycleLane));
        assert!(matches!(a.1.infra_type, InfraType::CycleLane));
    }
    assert_eq!(model.id_counter, 1);
}

#[test]
fn edit_conflict_restores_original_route() {
    let mut model = small_model(6);
    model
        .set_route(None, route(vec![0, 1], InfraType::CycleLane))
        .unwrap();
    model
        .set_route(None, route(vec![2], InfraType::OffRoad))
        .unwrap();
    // Editing route 0 to take road 2 conflicts with route 1.
    let result = model.set_route(Some(0), route(vec![2], InfraType::CycleLane));
    assert_eq!(result, Err(RouteError::RoadConflict(2)));
    let listing = model.to_routes_gj();
    assert_eq!(listing.len(), 2);
    assert_eq!(listing[0].1.roads, vec![0, 1]);
}

#[test]
fn replace_route_round_trip() {
    let mut model = small_model(6);
    let id = model
        .set_route(None, route(vec![0, 1], InfraType::CycleLane))
        .unwrap();
    // Replacing under the same ID may reuse its own roads freely.
    let mut replacement = route(vec![1, 2], InfraType::SegregatedWide);
    replacement.name = String::from("replacement");
    model.set_route(Some(id), replacement).unwrap();

    let listing = model.to_routes_gj();
    assert_eq!(listing.len(), 1);
    assert_eq!(listing[0].0, id);
    assert_eq!(listing[0].1.name, "replacement");
    assert_eq!(listing[0].1.roads, vec![1, 2]);

    // The dropped road 0 is available for reuse.
    model
        .set_route(None, route(vec![0], InfraType::OffRoad))
        .unwrap();
}

#[test]
fn delete_route_frees_roads() {
    let mut model = small_model(4);
    let id = model
        .set_route(None, route(vec![0], InfraType::CycleLane))
        .unwrap();
    assert_eq!(model.delete_route(9), Err(RouteError::UnknownRoute(9)));
    model.delete_route(id).unwrap();
    assert_eq!(model.to_routes_gj().len(), 0);
    model
        .set_route(None, route(vec![0], InfraType::OffRoad))
        .unwrap();
}

#[test]
fn clear_on_empty_store_resets_counter() {
    let mut model = small_model(3);
    model.clear_all_routes();
    assert_eq!(model.id_counter, 0);
    assert_eq!(model.routes.len(), 0);
}

#[test]
fn clear_resets_counter_after_edits() {
    let mut model = small_model(4);
    model
        .set_route(None, route(vec![0], InfraType::CycleLane))
        .unwrap();
    model.clear_all_routes();
    assert_eq!(model.id_counter, 0);
    let id = model
        .set_route(None, route(vec![1], InfraType::OffRoad))
        .unwrap();
    assert_eq!(id, 0);
}

#[test]
fn route_with_no_roads_claims_nothing() {
    let mut model = small_model(2);
    model
        .set_route(None, route(Vec::new(), InfraType::CycleLane))
        .unwrap();
    assert_eq!(model.used_roads(), vec![false, false]);
    // Another empty route never conflicts.
    model
        .set_route(None, route(Vec::new(), InfraType::OffRoad))
        .unwrap();
}

#[test]
fn conflict_reports_first_offending_road_in_proposal_order() {
    let mut model = small_model(6);
    model
        .set_route(None, route(vec![4], InfraType::CycleLane))
        .unwrap();
    model
        .set_route(None, route(vec![2], InfraType::CycleLane))
        .unwrap();
    let result = model.set_route(None, route(vec![0, 4, 2], InfraType::OffRoad));
    assert_eq!(result, Err(RouteError::RoadConflict(4)));
}

#[test]
fn get_infra_types_reports_claims() {
    let mut model = small_model(4);
    model
        .set_route(None, route(vec![1, 2], InfraType::SharedFootway))
        .unwrap();
    let table = model.get_infra_types();
    assert_eq!(table.len(), 4);
    assert_eq!(table[0], None);
    assert_eq!(table[1], Some(InfraType::SharedFootway));
    assert_eq!(table[2], Some(InfraType::SharedFootway));
    assert_eq!(table[3], None);
    assert_eq!(model.get_infra_type(0), InfraType::Unknown);
    assert_eq!(model.get_infra_type(1), InfraType::SharedFootway);
}
