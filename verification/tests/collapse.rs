use backend::join_lines::{collapse_degree_2, Dir, KeyedLineString, Segment};
use backend::InfraType;

fn seg(road: usize, a: usize, b: usize, key: InfraType) -> Segment {
    Segment { road, a, b, key }
}

fn chain_with_road<'a>(chains: &'a [KeyedLineString], road: usize) -> &'a KeyedLineString {
    chains
        .iter()
        .find(|c| c.ids.iter().any(|(r, _)| *r == road))
        .unwrap()
}

#[test]
fn collinear_same_key_segments_collapse_to_one_chain() {
    // Three segments spanning intersections 0-1-2-3; 1 and 2 have degree 2.
    let chains = collapse_degree_2(vec![
        seg(0, 0, 1, InfraType::SegregatedWide),
        seg(1, 1, 2, InfraType::SegregatedWide),
        seg(2, 2, 3, InfraType::SegregatedWide),
    ]);
    assert_eq!(chains.len(), 1);
    let chain = &chains[0];
    assert_eq!(chain.nodes, vec![0, 1, 2, 3]);
    assert_eq!(
        chain.ids,
        vec![(0, Dir::Forwards), (1, Dir::Forwards), (2, Dir::Forwards)]
    );
    assert!(matches!(chain.key, InfraType::SegregatedWide));
}

#[test]
fn chain_breaks_at_junction_of_degree_three() {
    // An extra segment touching intersection 1 raises its degree to 3, so
    // nothing merges across 1; 2 still has degree 2.
    let chains = collapse_degree_2(vec![
        seg(0, 0, 1, InfraType::SegregatedWide),
        seg(1, 1, 2, InfraType::SegregatedWide),
        seg(2, 2, 3, InfraType::SegregatedWide),
        seg(3, 1, 9, InfraType::SegregatedWide),
    ]);
    assert_eq!(chains.len(), 3);
    let first = chain_with_road(&chains, 0);
    assert_eq!(first.ids.len(), 1);
    let merged = chain_with_road(&chains, 1);
    assert_eq!(merged.nodes, vec![1, 2, 3]);
    assert_eq!(merged.ids, vec![(1, Dir::Forwards), (2, Dir::Forwards)]);
    let spur = chain_with_road(&chains, 3);
    assert_eq!(spur.ids.len(), 1);
}

#[test]
fn merging_never_crosses_a_key_change() {
    let chains = collapse_degree_2(vec![
        seg(0, 0, 1, InfraType::SegregatedWide),
        seg(1, 1, 2, InfraType::OffRoad),
    ]);
    assert_eq!(chains.len(), 2);
    assert_eq!(chain_with_road(&chains, 0).ids.len(), 1);
    assert_eq!(chain_with_road(&chains, 1).ids.len(), 1);
}

#[test]
fn merging_flips_direction_when_segments_oppose() {
    // Both segments point away from their shared intersection 1.
    let chains = collapse_degree_2(vec![
        seg(0, 1, 0, InfraType::OffRoad),
        seg(1, 1, 2, InfraType::OffRoad),
    ]);
    assert_eq!(chains.len(), 1);
    let chain = &chains[0];
    assert_eq!(chain.ids.len(), 2);
    // The chain runs 0-1-2 or 2-1-0; either way one member is reversed.
    let flipped = chain
        .ids
        .iter()
        .filter(|(_, d)| matches!(d, Dir::Backwards))
        .count();
    assert_eq!(flipped, 1);
    assert_eq!(chain.nodes.len(), 3);
    assert_eq!(chain.nodes[1], 1);
}

#[test]
fn single_member_chains_pass_through_unchanged() {
    let chains = collapse_degree_2(vec![seg(5, 7, 8, InfraType::CycleLane)]);
    assert_eq!(chains.len(), 1);
    assert_eq!(chains[0].ids, vec![(5, Dir::Forwards)]);
    assert_eq!(chains[0].nodes, vec![7, 8]);
}

#[test]
fn collapse_of_empty_input_is_empty() {
    let chains = collapse_degree_2(Vec::new());
    assert_eq!(chains.len(), 0);
}
