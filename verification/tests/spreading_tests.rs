use lucid_core::analytics::{compute_pagerank, find_activation_path, get_top_activated};
use lucid_core::fixed::{Fixed, FX_ONE};
use lucid_core::graph::{build_adjacency, Association};
use lucid_core::spreading::{spread_activation, SpreadingConfig};

fn fx(x: f64) -> Fixed {
    Fixed { raw: (x * 1e9).round() as u64 }
}

fn val(f: Fixed) -> f64 {
    f.raw as f64 / 1e9
}

fn make_assoc(source: usize, target: usize, strength: f64) -> Association {
    Association {
        source,
        target,
        forward_strength: fx(strength),
        backward_strength: fx(strength * 0.5),
    }
}

fn unidirectional_config() -> SpreadingConfig {
    SpreadingConfig {
        decay_per_hop: fx(0.7),
        minimum_activation: fx(0.01),
        max_nodes: 100,
        bidirectional: false,
    }
}

#[test]
fn test_spreading_simple() {
    // Simple chain: 0 -> 1 -> 2
    let associations = vec![make_assoc(0, 1, 1.0), make_assoc(1, 2, 1.0)];
    let config = unidirectional_config();

    let result = spread_activation(3, &associations, &vec![0], &vec![fx(1.0)], &config, 2);

    // Node 0 should have highest activation
    assert!(result.activations[0].raw > result.activations[1].raw);
    assert!(result.activations[1].raw > result.activations[2].raw);
}

#[test]
fn test_spreading_fan_out() {
    // Fan: 0 -> 1, 0 -> 2, 0 -> 3
    let associations = vec![
        make_assoc(0, 1, 1.0),
        make_assoc(0, 2, 1.0),
        make_assoc(0, 3, 1.0),
    ];
    let config = unidirectional_config();

    let result = spread_activation(4, &associations, &vec![0], &vec![fx(1.0)], &config, 1);

    // Each target should receive 1/3 of spread activation
    let expected = 1.0 / 3.0 * 0.7;
    assert!((val(result.activations[1]) - expected).abs() < 0.01);
    assert!((val(result.activations[2]) - expected).abs() < 0.01);
    assert!((val(result.activations[3]) - expected).abs() < 0.01);
}

#[test]
fn test_find_path() {
    let associations = vec![
        make_assoc(0, 1, 1.0),
        make_assoc(1, 2, 1.0),
        make_assoc(2, 3, 1.0),
    ];

    let path = find_activation_path(4, &associations, 0, 3);
    assert_eq!(path, vec![0, 1, 2, 3]);
}

#[test]
fn test_pagerank() {
    // Simple graph
    let associations = vec![
        make_assoc(0, 1, 1.0),
        make_assoc(1, 2, 1.0),
        make_assoc(2, 0, 1.0),
    ];

    let ranks = compute_pagerank(3, &associations, fx(0.85), 100);

    // In a cycle, all nodes should have similar rank
    let avg = ranks.iter().map(|r| val(*r)).sum::<f64>() / 3.0;
    for r in &ranks {
        assert!((val(*r) - avg).abs() < 0.01);
    }
}

#[test]
fn test_spreading_chain_exact_first_hop() {
    // A single unit edge with fan one passes exactly the decayed value.
    let associations = vec![make_assoc(0, 1, 1.0)];
    let config = unidirectional_config();
    let result = spread_activation(2, &associations, &vec![0], &vec![fx(1.0)], &config, 1);
    assert_eq!(result.activations[1].raw, 700_000_000);
}

#[test]
fn test_spreading_visited_by_depth_levels() {
    let associations = vec![make_assoc(0, 1, 1.0), make_assoc(1, 2, 1.0)];
    let config = unidirectional_config();
    let result = spread_activation(3, &associations, &vec![0], &vec![fx(1.0)], &config, 2);
    assert_eq!(result.visited_by_depth, vec![vec![0], vec![1], vec![2]]);
}

#[test]
fn test_spreading_default_seed_activation_is_one() {
    // Without a given seed activation the seed starts at one unit.
    let associations = vec![make_assoc(0, 1, 1.0)];
    let config = unidirectional_config();
    let result = spread_activation(2, &associations, &vec![0], &vec![], &config, 0);
    assert_eq!(result.activations[0].raw, FX_ONE);
    assert_eq!(result.activations[1].raw, 0);
}

#[test]
fn test_spreading_minimum_activation_prunes() {
    // A seed below the propagation floor spreads nothing.
    let associations = vec![make_assoc(0, 1, 1.0)];
    let config = unidirectional_config();
    let result = spread_activation(2, &associations, &vec![0], &vec![fx(0.005)], &config, 3);
    assert_eq!(result.activations[1].raw, 0);
    assert_eq!(result.visited_by_depth.len(), 1);
}

#[test]
fn test_spreading_max_nodes_stops_rounds() {
    // With the cap already reached by the seeds, no round runs.
    let associations = vec![make_assoc(0, 1, 1.0)];
    let config = SpreadingConfig {
        decay_per_hop: fx(0.7),
        minimum_activation: fx(0.01),
        max_nodes: 1,
        bidirectional: false,
    };
    let result = spread_activation(2, &associations, &vec![0], &vec![fx(1.0)], &config, 3);
    assert_eq!(result.activations[1].raw, 0);
}

#[test]
fn test_spreading_backward_penalty() {
    // Bidirectional spreading along the reverse edge applies the 0.7
    // penalty: 1.0 * 0.5 * 0.7 * 0.7 = 0.245 into node 0 from seed 1.
    let associations = vec![make_assoc(0, 1, 1.0)];
    let config = SpreadingConfig {
        decay_per_hop: fx(0.7),
        minimum_activation: fx(0.01),
        max_nodes: 100,
        bidirectional: true,
    };
    let result = spread_activation(2, &associations, &vec![1], &vec![fx(1.0)], &config, 1);
    assert!((val(result.activations[0]) - 0.245).abs() < 0.001);
}

#[test]
fn test_spreading_config_default_values() {
    let config = SpreadingConfig::default();
    assert_eq!(config.decay_per_hop.raw, 700_000_000);
    assert_eq!(config.minimum_activation.raw, 10_000_000);
    assert_eq!(config.max_nodes, 1000);
    assert!(config.bidirectional);
}

#[test]
fn test_build_adjacency_deterministic() {
    // Building twice from the same edge list gives identical structures.
    let associations = vec![
        make_assoc(0, 1, 0.8),
        make_assoc(1, 2, 0.6),
        make_assoc(2, 0, 0.4),
        Association {
            source: 7,
            target: 1,
            forward_strength: fx(0.9),
            backward_strength: fx(0.3),
        },
    ];
    let first = build_adjacency(&associations, 3);
    let second = build_adjacency(&associations, 3);
    assert_eq!(first, second);
}

#[test]
fn test_build_adjacency_skips_out_of_range_edges() {
    let associations = vec![make_assoc(0, 5, 1.0), make_assoc(0, 1, 1.0)];
    let (forward, backward) = build_adjacency(&associations, 2);
    assert_eq!(forward[0].len(), 1);
    assert_eq!(forward[0][0].0, 1);
    assert_eq!(backward[1].len(), 1);
}

#[test]
fn test_spreading_out_of_range_seed_is_omitted() {
    // The invalid seed stays in the depth-0 record but receives no
    // activation and spreads nothing; the valid seed works normally.
    let associations = vec![make_assoc(0, 1, 1.0)];
    let config = unidirectional_config();
    let result = spread_activation(
        2,
        &associations,
        &vec![0, 7],
        &vec![fx(1.0), fx(1.0)],
        &config,
        1,
    );
    assert_eq!(result.activations[0].raw, FX_ONE);
    assert_eq!(result.activations[1].raw, 700_000_000);
    assert_eq!(result.visited_by_depth, vec![vec![0, 7], vec![1]]);
}

#[test]
fn test_find_path_out_of_range_source() {
    let associations = vec![make_assoc(0, 1, 1.0)];
    let path = find_activation_path(2, &associations, 9, 1);
    assert!(path.is_empty());
}

#[test]
fn test_find_path_out_of_range_target() {
    let associations = vec![make_assoc(0, 1, 1.0)];
    let path = find_activation_path(2, &associations, 0, 9);
    assert!(path.is_empty());
}

#[test]
fn test_find_path_source_equals_target_out_of_range() {
    // Equal endpoints return the single-node path whatever the graph
    // holds, valid index or not.
    let associations = vec![make_assoc(0, 1, 1.0)];
    let path = find_activation_path(2, &associations, 9, 9);
    assert_eq!(path, vec![9]);
}

#[test]
fn test_find_path_source_equals_target() {
    let associations = vec![make_assoc(0, 1, 1.0)];
    let path = find_activation_path(2, &associations, 1, 1);
    assert_eq!(path, vec![1]);
}

#[test]
fn test_find_path_disconnected() {
    let associations = vec![make_assoc(0, 1, 1.0), make_assoc(2, 3, 1.0)];
    let path = find_activation_path(4, &associations, 0, 3);
    assert!(path.is_empty());
}

#[test]
fn test_get_top_activated_orders_and_truncates() {
    let activations = vec![fx(0.5), fx(0.0), fx(0.9), fx(0.5), fx(0.1)];
    // Strongest first; the two equal entries keep index order.
    assert_eq!(get_top_activated(&activations, 10), vec![2, 0, 3, 4]);
    assert_eq!(get_top_activated(&activations, 2), vec![2, 0]);
}

#[test]
fn test_pagerank_dangling_node_uniform() {
    // One dangling node: ranks stay a near-probability distribution.
    let associations = vec![make_assoc(0, 1, 1.0)];
    let ranks = compute_pagerank(2, &associations, fx(0.85), 50);
    let total: f64 = ranks.iter().map(|r| val(*r)).sum();
    assert!((total - 1.0).abs() < 0.05);
    assert!(ranks[1].raw > ranks[0].raw);
}
