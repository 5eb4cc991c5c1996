use backend::routes::Case;
use backend::{InfraType, MapModel, Route, Tier};

fn grid_model(num_roads: usize, speeds: Vec<u64>, traffic: Vec<u64>) -> MapModel {
    let mut core = Vec::new();
    let mut names = Vec::new();
    let mut endpoints = Vec::new();
    for i in 0..num_roads {
        core.push(None);
        names.push(String::new());
        endpoints.push((i, i + 1));
    }
    MapModel::create(speeds, traffic, core, names, endpoints, num_roads + 1)
}

#[test]
fn autosplit_partitions_into_three_runs() {
    // Roads 0 and 1 claimed; 2 and 3 recommend a narrow segregated track;
    // road 4 already serves well and recommends nothing.
    let mut model = grid_model(5, vec![20, 20, 20, 20, 20], vec![100, 100, 3000, 3000, 100]);
    model
        .set_route(
            None,
            Route {
                feature: String::new(),
                name: String::new(),
                notes: String::new(),
                roads: vec![0, 1],
                infra_type: InfraType::CycleLane,
                tier: Tier::Primary,
            },
        )
        .unwrap();

    let path = vec![(0, true), (1, true), (2, true), (3, true), (4, true)];
    let sections = model.autosplit_route(&path);
    assert_eq!(sections.len(), 3);

    assert!(matches!(sections[0].case, Case::AlreadyExists));
    assert_eq!(sections[0].roads, vec![(0, true), (1, true)]);

    assert!(matches!(
        sections[1].case,
        Case::New(Some(InfraType::SegregatedNarrow))
    ));
    assert_eq!(sections[1].roads, vec![(2, true), (3, true)]);

    assert!(matches!(sections[2].case, Case::New(None)));
    assert_eq!(sections[2].roads, vec![(4, true)]);
}

#[test]
fn autosplit_never_merges_different_recommendations() {
    // Medium then Low level of service: different upgrades, two runs.
    let model = grid_model(2, vec![20, 30], vec![3000, 5000]);
    let sections = model.autosplit_route(&vec![(0, true), (1, false)]);
    assert_eq!(sections.len(), 2);
    assert!(matches!(
        sections[0].case,
        Case::New(Some(InfraType::SegregatedNarrow))
    ));
    assert!(matches!(
        sections[1].case,
        Case::New(Some(InfraType::SegregatedWide))
    ));
}

#[test]
fn autosplit_of_empty_path_is_empty() {
    let model = grid_model(1, vec![20], vec![100]);
    assert_eq!(model.autosplit_route(&Vec::new()).len(), 0);
}

#[test]
fn import_existing_keeps_only_protected_guesses() {
    let mut model = grid_model(4, vec![20; 4], vec![100; 4]);
    // Claim road 3 first: claimed roads are never imported.
    model
        .set_route(
            None,
            Route {
                feature: String::new(),
                name: String::new(),
                notes: String::new(),
                roads: vec![3],
                infra_type: InfraType::CycleLane,
                tier: Tier::Primary,
            },
        )
        .unwrap();
    let guesses = vec![
        Some(InfraType::SegregatedWide),
        Some(InfraType::CycleLane),
        None,
        Some(InfraType::OffRoad),
    ];
    let edits = model.import_existing_routes(&guesses);
    assert_eq!(edits, 1);

    let listing = model.to_routes_gj();
    assert_eq!(listing.len(), 2);
    let imported = &listing[1].1;
    assert_eq!(imported.roads, vec![0]);
    assert!(matches!(imported.infra_type, InfraType::SegregatedWide));
    assert!(matches!(imported.tier, Tier::LocalAccess));
    assert_eq!(imported.notes, "imported from existing network");
}

#[test]
fn import_collapses_adjacent_roads_and_picks_first_name() {
    let mut model = MapModel::create(
        vec![20, 20, 20],
        vec![100, 100, 100],
        vec![None, None, None],
        vec![
            String::new(),
            String::from("High Street"),
            String::from("Low Road"),
        ],
        vec![(0, 1), (1, 2), (2, 3)],
        4,
    );
    let guesses = vec![Some(InfraType::OffRoad); 3];
    let edits = model.import_existing_routes(&guesses);
    assert_eq!(edits, 1);

    let listing = model.to_routes_gj();
    assert_eq!(listing.len(), 1);
    let imported = &listing[0].1;
    assert_eq!(imported.roads, vec![0, 1, 2]);
    assert_eq!(imported.name, "High Street");
}

#[test]
fn import_core_network_uses_overlay_tiers() {
    let mut model = MapModel::create(
        vec![20, 20, 20],
        vec![100, 100, 100],
        vec![Some(Tier::Primary), None, Some(Tier::Secondary)],
        vec![String::new(), String::new(), String::new()],
        vec![(0, 1), (2, 3), (4, 5)],
        6,
    );
    let edits = model.import_core_network();
    assert_eq!(edits, 2);

    let listing = model.to_routes_gj();
    assert_eq!(listing.len(), 2);
    for (_, imported) in &listing {
        assert!(matches!(imported.infra_type, InfraType::SegregatedNarrow));
    }
    assert!(matches!(listing[0].1.tier, Tier::Primary));
    assert_eq!(listing[0].1.roads, vec![0]);
    assert!(matches!(listing[1].1.tier, Tier::Secondary));
    assert_eq!(listing[1].1.roads, vec![2]);
}

#[test]
fn import_skips_roads_already_claimed_by_overlay_import() {
    let mut model = MapModel::create(
        vec![20, 20],
        vec![100, 100],
        vec![Some(Tier::Primary), Some(Tier::Primary)],
        vec![String::new(), String::new()],
        vec![(0, 1), (5, 6)],
        7,
    );
    let first = model.import_core_network();
    assert_eq!(first, 2);
    // A second pass finds nothing unclaimed.
    let second = model.import_core_network();
    assert_eq!(second, 0);
}
