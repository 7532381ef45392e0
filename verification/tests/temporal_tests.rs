use lucid_core::fixed::Fixed;
use lucid_core::temporal::{
    compute_temporal_link_strength, create_episode_links, find_temporal_neighbors,
    spread_temporal_activation, spread_temporal_activation_multi, TemporalDirection,
    TemporalSpreadingConfig,
};

fn fx(x: f64) -> Fixed {
    Fixed { raw: (x * 1e9).round() as u64 }
}

fn val(f: Fixed) -> f64 {
    f.raw as f64 / 1e9
}

#[test]
fn test_temporal_link_strength_decay() {
    let config = TemporalSpreadingConfig::default();

    let adjacent = compute_temporal_link_strength(fx(1.0), 1, &config);
    let distant = compute_temporal_link_strength(fx(1.0), 5, &config);

    // Adjacent should be stronger than distant
    assert!(adjacent.raw > distant.raw);
    // Adjacent with decay rate 0.3 should be ~0.74
    assert!((val(adjacent) - 0.74).abs() < 0.01);
}

#[test]
fn test_create_episode_links() {
    let config = TemporalSpreadingConfig::default();
    // Episode with 3 events: memories 10, 20, 30
    let links = create_episode_links(&vec![10, 20, 30], &config);

    // Should have links: 10->20, 10->30, 20->30
    assert_eq!(links.len(), 3);

    // Check forward > backward (temporal asymmetry)
    for link in &links {
        assert!(link.forward_strength.raw > link.backward_strength.raw);
    }
}

#[test]
fn test_spread_temporal_activation() {
    let config = TemporalSpreadingConfig::default();
    // Episode: memories 0, 1, 2
    let links = create_episode_links(&vec![0, 1, 2], &config);

    // Activate middle memory (1)
    let result = spread_temporal_activation(3, &links, 1, fx(1.0), &config);

    // Memory 1 should have seed activation
    assert!(result.activations[1].raw > 0);

    // Forward spread to memory 2
    assert!(result.activations[2].raw > 0);
    assert!(result.forward_activated.contains(&2));

    // Backward spread to memory 0
    assert!(result.activations[0].raw > 0);
    assert!(result.backward_activated.contains(&0));

    // Forward should be stronger than backward
    assert!(result.activations[2].raw > result.activations[0].raw);
}

#[test]
fn test_find_temporal_neighbors_before() {
    let config = TemporalSpreadingConfig::default();
    // Episode: memories 0, 1, 2, 3
    let links = create_episode_links(&vec![0, 1, 2, 3], &config);

    // Find memories BEFORE memory 2
    let before = find_temporal_neighbors(&links, 2, TemporalDirection::Before, 10);

    // Should find 0 and 1 (both come before 2)
    let memory_ids: Vec<usize> = before.iter().map(|(m, _)| *m).collect();
    assert!(memory_ids.contains(&0));
    assert!(memory_ids.contains(&1));
    // Should NOT contain 3 (comes after)
    assert!(!memory_ids.contains(&3));
}

#[test]
fn test_find_temporal_neighbors_after() {
    let config = TemporalSpreadingConfig::default();
    // Episode: memories 0, 1, 2, 3
    let links = create_episode_links(&vec![0, 1, 2, 3], &config);

    // Find memories AFTER memory 1
    let after = find_temporal_neighbors(&links, 1, TemporalDirection::After, 10);

    // Should find 2 and 3 (both come after 1)
    let memory_ids: Vec<usize> = after.iter().map(|(m, _)| *m).collect();
    assert!(memory_ids.contains(&2));
    assert!(memory_ids.contains(&3));
    // Should NOT contain 0 (comes before)
    assert!(!memory_ids.contains(&0));
}

#[test]
fn test_link_strength_exact_adjacent() {
    // 1.0 * e^(-0.3) in billionths, within the approximation's error.
    let config = TemporalSpreadingConfig::default();
    let adjacent = compute_temporal_link_strength(fx(1.0), 1, &config);
    assert!((val(adjacent) - 0.740818).abs() < 0.001);
}

#[test]
fn test_link_strength_strictly_decreasing() {
    let config = TemporalSpreadingConfig::default();
    let mut previous = compute_temporal_link_strength(fx(1.0), 0, &config);
    for distance in 1..6 {
        let current = compute_temporal_link_strength(fx(1.0), distance, &config);
        assert!(current.raw < previous.raw);
        previous = current;
    }
}

#[test]
fn test_link_strength_zero_distance_is_base() {
    let config = TemporalSpreadingConfig::default();
    let s = compute_temporal_link_strength(fx(0.8), 0, &config);
    assert_eq!(s.raw, fx(0.8).raw);
}

#[test]
fn test_create_episode_links_short_episode_empty() {
    let config = TemporalSpreadingConfig::default();
    assert!(create_episode_links(&vec![], &config).is_empty());
    assert!(create_episode_links(&vec![42], &config).is_empty());
}

#[test]
fn test_create_episode_links_respects_max_distance() {
    let config = TemporalSpreadingConfig {
        max_temporal_distance: 1,
        ..TemporalSpreadingConfig::default()
    };
    let links = create_episode_links(&vec![0, 1, 2], &config);
    // Only adjacent pairs: 0->1 and 1->2.
    assert_eq!(links.len(), 2);
    for link in &links {
        assert_eq!(link.target_position - link.source_position, 1);
    }
}

#[test]
fn test_spread_temporal_out_of_range_seed() {
    let config = TemporalSpreadingConfig::default();
    let links = create_episode_links(&vec![0, 1, 2], &config);
    let result = spread_temporal_activation(3, &links, 9, fx(1.0), &config);
    assert!(result.activations.iter().all(|a| a.raw == 0));
    assert!(result.forward_activated.is_empty());
    assert!(result.backward_activated.is_empty());
}

#[test]
fn test_spread_temporal_lists_sorted_unique() {
    let config = TemporalSpreadingConfig::default();
    let links = create_episode_links(&vec![0, 1, 2, 3, 4], &config);
    let result = spread_temporal_activation(5, &links, 2, fx(1.0), &config);
    assert_eq!(result.forward_activated, vec![3, 4]);
    assert_eq!(result.backward_activated, vec![0, 1]);
}

#[test]
fn test_spread_temporal_multi_takes_maximum() {
    let config = TemporalSpreadingConfig::default();
    // Memory 1 follows memory 0 in one episode and is two steps after
    // it in another; the merged activation takes the stronger, never
    // the sum.
    let first = create_episode_links(&vec![0, 1], &config);
    let second = create_episode_links(&vec![0, 2, 1], &config);
    let single_first = spread_temporal_activation(3, &first, 0, fx(1.0), &config);
    let single_second = spread_temporal_activation(3, &second, 0, fx(1.0), &config);
    let merged = spread_temporal_activation_multi(
        3,
        &vec![first, second],
        0,
        fx(1.0),
        &config,
    );
    let expected = single_first.activations[1].raw.max(single_second.activations[1].raw);
    assert_eq!(merged.activations[1].raw, expected);
    assert_eq!(merged.forward_activated, vec![1, 2]);
}

#[test]
fn test_spread_temporal_multi_skips_unrelated_episode() {
    let config = TemporalSpreadingConfig::default();
    let related = create_episode_links(&vec![0, 1], &config);
    let unrelated = create_episode_links(&vec![2, 3], &config);
    let merged = spread_temporal_activation_multi(
        4,
        &vec![related, unrelated],
        0,
        fx(1.0),
        &config,
    );
    assert!(merged.activations[2].raw == 0 && merged.activations[3].raw == 0);
    assert_eq!(merged.forward_activated, vec![1]);
}

#[test]
fn test_find_temporal_neighbors_both_directions() {
    let config = TemporalSpreadingConfig::default();
    let links = create_episode_links(&vec![0, 1, 2], &config);
    let both = find_temporal_neighbors(&links, 1, TemporalDirection::Both, 10);
    let memory_ids: Vec<usize> = both.iter().map(|(m, _)| *m).collect();
    assert!(memory_ids.contains(&0));
    assert!(memory_ids.contains(&2));
}

#[test]
fn test_find_temporal_neighbors_sorted_by_distance_then_strength() {
    let config = TemporalSpreadingConfig::default();
    let links = create_episode_links(&vec![0, 1, 2, 3], &config);
    let after = find_temporal_neighbors(&links, 0, TemporalDirection::After, 10);
    // Closest first; among the returned strengths each is weaker than
    // the one before (greater distance decays more).
    assert_eq!(after.len(), 3);
    assert_eq!(after[0].0, 1);
    assert_eq!(after[1].0, 2);
    assert_eq!(after[2].0, 3);
    assert!(after[0].1.raw > after[1].1.raw && after[1].1.raw > after[2].1.raw);
}

#[test]
fn test_find_temporal_neighbors_limit() {
    let config = TemporalSpreadingConfig::default();
    let links = create_episode_links(&vec![0, 1, 2, 3], &config);
    let after = find_temporal_neighbors(&links, 0, TemporalDirection::After, 1);
    assert_eq!(after.len(), 1);
    assert_eq!(after[0].0, 1);
}

#[test]
fn test_temporal_config_default_values() {
    let config = TemporalSpreadingConfig::default();
    assert_eq!(config.forward_strength.raw, 1_000_000_000);
    assert_eq!(config.backward_strength.raw, 700_000_000);
    assert_eq!(config.distance_decay_rate.raw, 300_000_000);
    assert_eq!(config.episode_boost.raw, 1_200_000_000);
    assert_eq!(config.context_persistence.raw, 700_000_000);
    assert_eq!(config.max_temporal_distance, 10);
}
