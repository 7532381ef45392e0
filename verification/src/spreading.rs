//! Spreading activation.
//!
//! Starting from seed nodes, activation spreads outward through the
//! association graph, decaying per hop and splitting across a node's
//! outgoing connections (fan normalization).  Each round computes its
//! contributions against the activations the previous round left behind
//! and applies them in one batch; a node receives incoming spread even
//! after it was visited, but joins the frontier only the first time it
//! is seen.  The `max_nodes` cap is checked before each edge and stops
//! only the innermost edge walk, so the visited count may slightly
//! overshoot the cap; that behavior is deliberate and kept.

use vstd::prelude::*;
use crate::fixed::{Fixed, FX_ONE, fx_sat, fx_add_spec, fx_mul_spec, fx_div_spec};
use crate::graph::{Association, forward_row, backward_row, build_adjacency};

verus! {

/// Extra multiplicative penalty applied when spreading along backward
/// edges, as billionths (0.7).
pub const BACKWARD_PENALTY: u64 = 700_000_000;

/// Configuration for spreading activation.
#[derive(Clone, Copy, Debug, PartialEq, Eq, Structural)]
pub struct SpreadingConfig {
    /// How much activation decays per hop.
    pub decay_per_hop: Fixed,
    /// Minimum activation a node needs to propagate further.
    pub minimum_activation: Fixed,
    /// Cap on the number of nodes to visit (best effort).
    pub max_nodes: usize,
    /// Whether to also spread along backward edges.
    pub bidirectional: bool,
}

impl Default for SpreadingConfig {
    /// Decay 0.7 per hop, floor 0.01, cap 1000 nodes, bidirectional.
    fn default() -> (c: Self)
        ensures
            c.decay_per_hop.raw == 700_000_000,
            c.minimum_activation.raw == 10_000_000,
            c.max_nodes == 1000,
            c.bidirectional == true,
    {
        SpreadingConfig {
            decay_per_hop: Fixed { raw: 700_000_000 },
            minimum_activation: Fixed { raw: 10_000_000 },
            max_nodes: 1000,
            bidirectional: true,
        }
    }
}

/// Result of spreading activation.
#[derive(Clone, Debug, PartialEq, Eq)]
pub struct SpreadingResult {
    /// Final activation value of each node.
    pub activations: Vec<Fixed>,
    /// The nodes first seen at each depth; entry 0 is the seed list.
    pub visited_by_depth: Vec<Vec<usize>>,
}

/// The rows of a level list, as mathematical sequences.
pub open spec fn levels_view(levels: Seq<Vec<usize>>) -> Seq<Seq<usize>> {
    Seq::new(levels.len(), |i: int| levels[i]@)
}

/// What spreading returns: the activation vector and the visitation
/// history.
pub struct SpreadOutcome {
    /// Final activation of each node.
    pub activations: Seq<Fixed>,
    /// Nodes first seen at each depth, starting with the seeds.
    pub levels: Seq<Seq<usize>>,
}

/// The working state of one spreading round.
pub struct RoundState {
    /// Contribution accumulated for each target this round, by raw value.
    pub deltas: Map<usize, int>,
    /// Which nodes have been seen so far.
    pub visited: Seq<bool>,
    /// Nodes first seen this round, in discovery order.
    pub next_frontier: Seq<usize>,
    /// Running count of visits, seeds counted with repetition.
    pub total: int,
}

/// The contribution one edge sends: source activation divided by the
/// fan, times the edge strength, times the per-hop decay.
pub open spec fn spread_amount_spec(act: int, fan: nat, strength: int, decay: int) -> int {
    fx_mul_spec(fx_mul_spec(fx_div_spec(act, fx_sat(fan * FX_ONE)), strength), decay)
}

/// The delta accumulated for node `i` so far, zero if none.
pub open spec fn delta_of(deltas: Map<usize, int>, i: usize) -> int {
    if deltas.dom().contains(i) {
        deltas[i]
    } else {
        0
    }
}

/// Process one edge out of a source with activation `act` and fan `fan`:
/// skipped entirely once the visit cap was reached; otherwise its
/// contribution joins the delta map, and a first-seen target joins the
/// next frontier.
pub open spec fn process_edge(
    st: RoundState,
    act: Fixed,
    fan: nat,
    edge: (usize, Fixed),
    cfg: SpreadingConfig,
    backward: bool,
) -> RoundState {
    if st.total >= cfg.max_nodes {
        st
    } else {
        let base = spread_amount_spec(act.raw as int, fan, edge.1.raw as int, cfg.decay_per_hop.raw as int);
        let amt = if backward {
            fx_mul_spec(base, BACKWARD_PENALTY as int)
        } else {
            base
        };
        let deltas = st.deltas.insert(edge.0, fx_add_spec(delta_of(st.deltas, edge.0), amt));
        if 0 <= edge.0 < st.visited.len() && !st.visited[edge.0 as int] {
            RoundState {
                deltas,
                visited: st.visited.update(edge.0 as int, true),
                next_frontier: st.next_frontier.push(edge.0),
                total: st.total + 1,
            }
        } else {
            RoundState { deltas, visited: st.visited, next_frontier: st.next_frontier, total: st.total }
        }
    }
}

/// Process a list of edges in order.
pub open spec fn process_edges(
    st: RoundState,
    act: Fixed,
    fan: nat,
    edges: Seq<(usize, Fixed)>,
    cfg: SpreadingConfig,
    backward: bool,
) -> RoundState
    decreases edges.len(),
{
    if edges.len() == 0 {
        st
    } else {
        process_edge(
            process_edges(st, act, fan, edges.drop_last(), cfg, backward),
            act,
            fan,
            edges.last(),
            cfg,
            backward,
        )
    }
}

/// The fan of an edge list: its length, but at least one.
pub open spec fn fan_of(edges: Seq<(usize, Fixed)>) -> nat {
    if edges.len() == 0 {
        1
    } else {
        edges.len()
    }
}

/// Process one frontier node: an out-of-range seed is silently passed
/// over, and a node below the minimum activation spreads nothing at
/// all; otherwise its forward edges are walked, and, when bidirectional
/// spreading is on, its backward edges with the penalty.
pub open spec fn process_source(
    st: RoundState,
    src: usize,
    acts: Seq<Fixed>,
    fwd: Seq<Seq<(usize, Fixed)>>,
    bwd: Seq<Seq<(usize, Fixed)>>,
    cfg: SpreadingConfig,
) -> RoundState {
    if src as int >= acts.len() {
        st
    } else {
        let act = acts[src as int];
        if act.raw < cfg.minimum_activation.raw {
            st
        } else {
            let fedges = fwd[src as int];
            let st1 = process_edges(st, act, fan_of(fedges), fedges, cfg, false);
            if cfg.bidirectional {
                let bedges = bwd[src as int];
                process_edges(st1, act, fan_of(bedges), bedges, cfg, true)
            } else {
                st1
            }
        }
    }
}

/// Process the frontier nodes in order.
pub open spec fn process_sources(
    st: RoundState,
    srcs: Seq<usize>,
    acts: Seq<Fixed>,
    fwd: Seq<Seq<(usize, Fixed)>>,
    bwd: Seq<Seq<(usize, Fixed)>>,
    cfg: SpreadingConfig,
) -> RoundState
    decreases srcs.len(),
{
    if srcs.len() == 0 {
        st
    } else {
        process_source(
            process_sources(st, srcs.drop_last(), acts, fwd, bwd, cfg),
            srcs.last(),
            acts,
            fwd,
            bwd,
            cfg,
        )
    }
}

/// Apply a round's accumulated deltas to the activation vector in one
/// batch.
pub open spec fn apply_deltas(acts: Seq<Fixed>, deltas: Map<usize, int>) -> Seq<Fixed> {
    Seq::new(acts.len(), |i: int| (Fixed { raw: fx_add_spec(acts[i].raw as int, delta_of(deltas, i as usize)) as u64 }))
}

/// Run up to `depth` spreading rounds, stopping early when the visit cap
/// was already reached or a round discovers nothing new.
pub open spec fn spread_rounds(
    acts: Seq<Fixed>,
    visited: Seq<bool>,
    frontier: Seq<usize>,
    total: int,
    levels: Seq<Seq<usize>>,
    fwd: Seq<Seq<(usize, Fixed)>>,
    bwd: Seq<Seq<(usize, Fixed)>>,
    cfg: SpreadingConfig,
    depth: nat,
) -> SpreadOutcome
    decreases depth,
{
    if depth == 0 || total >= cfg.max_nodes {
        SpreadOutcome { activations: acts, levels }
    } else {
        let st0 = RoundState {
            deltas: Map::empty(),
            visited,
            next_frontier: Seq::empty(),
            total,
        };
        let st1 = process_sources(st0, frontier, acts, fwd, bwd, cfg);
        let new_acts = apply_deltas(acts, st1.deltas);
        if st1.next_frontier.len() == 0 {
            SpreadOutcome { activations: new_acts, levels }
        } else {
            spread_rounds(
                new_acts,
                st1.visited,
                st1.next_frontier,
                st1.total,
                levels.push(st1.next_frontier),
                fwd,
                bwd,
                cfg,
                (depth - 1) as nat,
            )
        }
    }
}

/// The activation vector after assigning each seed its given activation,
/// or one unit when none was given; later entries win on duplicates.
pub open spec fn init_activations(num_nodes: nat, seeds: Seq<usize>, seed_acts: Seq<Fixed>) -> Seq<Fixed>
    decreases seeds.len(),
{
    if seeds.len() == 0 {
        Seq::new(num_nodes, |i: int| (Fixed { raw: 0 }))
    } else {
        let prev = init_activations(num_nodes, seeds.drop_last(), seed_acts);
        let idx = seeds.last();
        let k = seeds.len() - 1;
        let a = if k < seed_acts.len() {
            seed_acts[k as int]
        } else {
            Fixed { raw: FX_ONE }
        };
        if idx < num_nodes {
            prev.update(idx as int, a)
        } else {
            prev
        }
    }
}

/// The visited flags after marking every seed.
pub open spec fn mark_seeds(num_nodes: nat, seeds: Seq<usize>) -> Seq<bool>
    decreases seeds.len(),
{
    if seeds.len() == 0 {
        Seq::new(num_nodes, |i: int| false)
    } else {
        let prev = mark_seeds(num_nodes, seeds.drop_last());
        let idx = seeds.last();
        if idx < num_nodes {
            prev.update(idx as int, true)
        } else {
            prev
        }
    }
}

/// What `spread_activation` returns.
pub open spec fn spread_activation_spec(
    num_nodes: nat,
    assocs: Seq<Association>,
    seeds: Seq<usize>,
    seed_acts: Seq<Fixed>,
    cfg: SpreadingConfig,
    depth: nat,
) -> SpreadOutcome {
    let fwd = Seq::new(num_nodes, |i: int| forward_row(assocs, num_nodes, i));
    let bwd = Seq::new(num_nodes, |i: int| backward_row(assocs, num_nodes, i));
    spread_rounds(
        init_activations(num_nodes, seeds, seed_acts),
        mark_seeds(num_nodes, seeds),
        seeds,
        seeds.len() as int,
        seq![seeds],
        fwd,
        bwd,
        cfg,
        depth,
    )
}

/// How many flags are set.
pub open spec fn count_true(s: Seq<bool>) -> nat
    decreases s.len(),
{
    if s.len() == 0 {
        0
    } else {
        count_true(s.drop_last()) + if s.last() {
            1nat
        } else {
            0nat
        }
    }
}

pub proof fn lemma_count_true_le(s: Seq<bool>)
    ensures
        count_true(s) <= s.len(),
    decreases s.len(),
{
    if s.len() > 0 {
        lemma_count_true_le(s.drop_last());
    }
}

pub proof fn lemma_count_true_update(s: Seq<bool>, i: int)
    requires
        0 <= i < s.len(),
        !s[i],
    ensures
        count_true(s.update(i, true)) == count_true(s) + 1,
    decreases s.len(),
{
    let t = s.update(i, true);
    if i == s.len() - 1 {
        assert(t.drop_last() =~= s.drop_last());
    } else {
        assert(t.drop_last() =~= s.drop_last().update(i, true));
        lemma_count_true_update(s.drop_last(), i);
        assert(t.last() == s.last());
    }
}

/// Once the cap is reached nothing further happens in an edge walk.
proof fn lemma_process_edges_capped(
    st: RoundState,
    act: Fixed,
    fan: nat,
    edges: Seq<(usize, Fixed)>,
    cfg: SpreadingConfig,
    backward: bool,
)
    requires
        st.total >= cfg.max_nodes,
    ensures
        process_edges(st, act, fan, edges, cfg, backward) == st,
    decreases edges.len(),
{
    if edges.len() > 0 {
        lemma_process_edges_capped(st, act, fan, edges.drop_last(), cfg, backward);
    }
}

/// The executable working state matches the round state of the model.
pub open spec fn models(
    delta_vec: Seq<Fixed>,
    visited: Seq<bool>,
    next_frontier: Seq<usize>,
    total: int,
    st: RoundState,
    num_nodes: nat,
) -> bool {
    &&& delta_vec.len() == num_nodes
    &&& (forall|k: int|
        0 <= k < num_nodes ==> (#[trigger] delta_vec[k]).raw as int == delta_of(st.deltas, k as usize))
    &&& visited == st.visited
    &&& next_frontier == st.next_frontier
    &&& total == st.total
}

/// An edge walk can be split at any point.
proof fn lemma_process_edges_split(
    st: RoundState,
    act: Fixed,
    fan: nat,
    edges: Seq<(usize, Fixed)>,
    e: int,
    cfg: SpreadingConfig,
    backward: bool,
)
    requires
        0 <= e <= edges.len(),
    ensures
        process_edges(st, act, fan, edges, cfg, backward) == process_edges(
            process_edges(st, act, fan, edges.take(e), cfg, backward),
            act,
            fan,
            edges.skip(e),
            cfg,
            backward,
        ),
    decreases edges.len(),
{
    if e == edges.len() {
        assert(edges.take(e) =~= edges);
        assert(edges.skip(e) =~= Seq::<(usize, Fixed)>::empty());
    } else {
        let dl = edges.drop_last();
        lemma_process_edges_split(st, act, fan, dl, e, cfg, backward);
        assert(dl.take(e) =~= edges.take(e));
        assert(edges.skip(e).drop_last() =~= dl.skip(e));
        assert(edges.skip(e).last() == edges.last());
        assert(edges.skip(e).len() > 0);
    }
}

/// Perform spreading activation through the association graph.
///
/// Seeds start with their given activation (one unit when none is
/// given); each of up to `depth` rounds lets every frontier node at or
/// above the minimum activation send decayed, fan-normalized
/// contributions along its forward edges, and along its backward edges
/// with an extra penalty when bidirectional spreading is on.  The
/// contributions of a round are applied in one batch after the round;
/// nodes seen for the first time form the next frontier and the next
/// entry of the visitation history.
#[verifier::loop_isolation(false)]
pub fn spread_activation(
    num_nodes: usize,
    associations: &Vec<Association>,
    seed_indices: &Vec<usize>,
    seed_activations: &Vec<Fixed>,
    config: &SpreadingConfig,
    depth: usize,
) -> (result: SpreadingResult)
    ensures
        (SpreadOutcome {
            activations: result.activations@,
            levels: levels_view(result.visited_by_depth@),
        }) == spread_activation_spec(
            num_nodes as nat,
            associations@,
            seed_indices@,
            seed_activations@,
            *config,
            depth as nat,
        ),
{
    let ghost goal = spread_activation_spec(
        num_nodes as nat,
        associations@,
        seed_indices@,
        seed_activations@,
        *config,
        depth as nat,
    );
    let ghost gfwd = Seq::new(num_nodes as nat, |i: int| forward_row(associations@, num_nodes as nat, i));
    let ghost gbwd = Seq::new(num_nodes as nat, |i: int| backward_row(associations@, num_nodes as nat, i));

    let adj = build_adjacency(associations, num_nodes);
    let forward_adj = adj.0;
    let backward_adj = adj.1;
    proof {
        assert(forall|i: int| 0 <= i < num_nodes ==> #[trigger] forward_adj@[i]@ == gfwd[i]);
        assert(forall|i: int| 0 <= i < num_nodes ==> #[trigger] backward_adj@[i]@ == gbwd[i]);
    }

    let mut activations: Vec<Fixed> = Vec::new();
    let mut visited: Vec<bool> = Vec::new();
    let mut i: usize = 0;
    while i < num_nodes
        invariant
            i <= num_nodes,
            activations@.len() == i,
            visited@.len() == i,
            forall|k: int| 0 <= k < i ==> #[trigger] activations@[k] == (Fixed { raw: 0 }),
            forall|k: int| 0 <= k < i ==> #[trigger] visited@[k] == false,
        decreases num_nodes - i,
    {
        activations.push(Fixed { raw: 0 });
        visited.push(false);
        i = i + 1;
    }
    proof {
        assert(seed_indices@.take(0) =~= Seq::<usize>::empty());
        assert(activations@ =~= init_activations(num_nodes as nat, seed_indices@.take(0), seed_activations@));
        assert(visited@ =~= mark_seeds(num_nodes as nat, seed_indices@.take(0)));
    }

    let mut frontier: Vec<usize> = Vec::new();
    let mut level0: Vec<usize> = Vec::new();
    let mut s: usize = 0;
    while s < seed_indices.len()
        invariant
            s <= seed_indices@.len(),
            activations@.len() == num_nodes,
            visited@.len() == num_nodes,
            frontier@ == seed_indices@.take(s as int),
            level0@ == seed_indices@.take(s as int),
            activations@ == init_activations(num_nodes as nat, seed_indices@.take(s as int), seed_activations@),
            visited@ == mark_seeds(num_nodes as nat, seed_indices@.take(s as int)),
        decreases seed_indices@.len() - s,
    {
        let idx = seed_indices[s];
        let a = if s < seed_activations.len() {
            seed_activations[s]
        } else {
            Fixed { raw: FX_ONE }
        };
        if idx < num_nodes {
            activations[idx] = a;
            visited[idx] = true;
        }
        frontier.push(idx);
        level0.push(idx);
        proof {
            let pre = seed_indices@.take(s as int);
            let post = seed_indices@.take(s + 1 as int);
            assert(post.drop_last() =~= pre);
            assert(post.last() == seed_indices@[s as int]);
        }
        s = s + 1;
    }
    proof {
        assert(seed_indices@.take(seed_indices@.len() as int) =~= seed_indices@);
    }

    let mut visited_by_depth: Vec<Vec<usize>> = Vec::new();
    visited_by_depth.push(level0);
    proof {
        assert(levels_view(visited_by_depth@) =~= seq![seed_indices@]);
    }

    let penalty = Fixed { raw: BACKWARD_PENALTY };
    let mut total: u128 = frontier.len() as u128;
    let mut done: bool = false;
    let mut d: usize = 0;
    while d < depth && !done && total < config.max_nodes as u128
        invariant
            d <= depth,
            activations@.len() == num_nodes,
            visited@.len() == num_nodes,
            total <= seed_indices@.len() + count_true(visited@),
            !done ==> spread_rounds(
                activations@,
                visited@,
                frontier@,
                total as int,
                levels_view(visited_by_depth@),
                gfwd,
                gbwd,
                *config,
                (depth - d) as nat,
            ) == goal,
            done ==> (SpreadOutcome {
                activations: activations@,
                levels: levels_view(visited_by_depth@),
            }) == goal,
        decreases depth - d,
    {
        let ghost acts0 = activations@;
        let ghost visited0 = visited@;
        let ghost total0 = total as int;
        let ghost st0 = RoundState {
            deltas: Map::empty(),
            visited: visited0,
            next_frontier: Seq::empty(),
            total: total0,
        };
        let ghost levels0 = levels_view(visited_by_depth@);
        let ghost frontier0 = frontier@;

        let mut delta_vec: Vec<Fixed> = Vec::new();
        let mut z: usize = 0;
        while z < num_nodes
            invariant
                z <= num_nodes,
                delta_vec@.len() == z,
                forall|k: int| 0 <= k < z ==> #[trigger] delta_vec@[k].raw == 0,
            decreases num_nodes - z,
        {
            delta_vec.push(Fixed { raw: 0 });
            z = z + 1;
        }

        let mut next_frontier: Vec<usize> = Vec::new();
        proof {
            assert(frontier0.take(0) =~= Seq::<usize>::empty());
        }

        let mut fi: usize = 0;
        while fi < frontier.len()
            invariant
                fi <= frontier0.len(),
                frontier@ == frontier0,
                activations@ == acts0,
                visited@.len() == num_nodes,
                total <= seed_indices@.len() + count_true(visited@),
                forall|k: int| 0 <= k < next_frontier@.len() ==> #[trigger] next_frontier@[k] < num_nodes,
                models(
                    delta_vec@,
                    visited@,
                    next_frontier@,
                    total as int,
                    process_sources(st0, frontier0.take(fi as int), acts0, gfwd, gbwd, *config),
                    num_nodes as nat,
                ),
            decreases frontier0.len() - fi,
        {
            let ghost st_src = process_sources(st0, frontier0.take(fi as int), acts0, gfwd, gbwd, *config);
            let src = frontier[fi];
            if src < num_nodes {
                let act = activations[src];
                if act.raw >= config.minimum_activation.raw {
                    let ghost fedges = gfwd[src as int];
                    proof {
                        crate::graph::lemma_forward_row_targets(associations@, num_nodes as nat, src as int);
                    }
                    let elen = forward_adj[src].len();
                    let fan_units: u64 = if elen == 0 {
                        1
                    } else {
                        elen as u64
                    };
                    let fan_fx = Fixed::from_units(fan_units);
                    let mut e: usize = 0;
                    while e < elen && total < config.max_nodes as u128
                        invariant
                            e <= elen,
                            frontier@ == frontier0,
                            activations@ == acts0,
                            visited@.len() == num_nodes,
                            total <= seed_indices@.len() + count_true(visited@),
                            forall|k: int|
                                0 <= k < next_frontier@.len() ==> #[trigger] next_frontier@[k] < num_nodes,
                            models(
                                delta_vec@,
                                visited@,
                                next_frontier@,
                                total as int,
                                process_edges(st_src, act, fan_of(fedges), fedges.take(e as int), *config, false),
                                num_nodes as nat,
                            ),
                        decreases elen - e,
                    {
                        let ghost st_pre = process_edges(st_src, act, fan_of(fedges), fedges.take(e as int), *config, false);
                        let edge = forward_adj[src][e];
                        let tgt = edge.0;
                        let amt = act.div(fan_fx).mul(edge.1).mul(config.decay_per_hop);
                        let old_delta = delta_vec[tgt];
                        delta_vec[tgt] = old_delta.add(amt);
                        if !visited[tgt] {
                            proof {
                                lemma_count_true_update(visited@, tgt as int);
                                lemma_count_true_le(visited@.update(tgt as int, true));
                            }
                            visited[tgt] = true;
                            next_frontier.push(tgt);
                            total = total + 1;
                        }
                        proof {
                            assert(fedges.take(e + 1 as int).drop_last() =~= fedges.take(e as int));
                            assert(fedges.take(e + 1 as int).last() == fedges[e as int]);
                            assert(models(
                                delta_vec@,
                                visited@,
                                next_frontier@,
                                total as int,
                                process_edge(st_pre, act, fan_of(fedges), fedges[e as int], *config, false),
                                num_nodes as nat,
                            ));
                        }
                        e = e + 1;
                    }
                    proof {
                        let st_stop = process_edges(st_src, act, fan_of(fedges), fedges.take(e as int), *config, false);
                        if e < elen {
                            lemma_process_edges_split(st_src, act, fan_of(fedges), fedges, e as int, *config, false);
                            lemma_process_edges_capped(st_stop, act, fan_of(fedges), fedges.skip(e as int), *config, false);
                        } else {
                            assert(fedges.take(e as int) =~= fedges);
                        }
                    }
                    if config.bidirectional {
                        let ghost st_mid = process_edges(st_src, act, fan_of(fedges), fedges, *config, false);
                        let ghost bedges = gbwd[src as int];
                        proof {
                            crate::graph::lemma_backward_row_sources(associations@, num_nodes as nat, src as int);
                        }
                        let blen = backward_adj[src].len();
                        let bfan_units: u64 = if blen == 0 {
                            1
                        } else {
                            blen as u64
                        };
                        let bfan_fx = Fixed::from_units(bfan_units);
                        let mut e: usize = 0;
                        while e < blen && total < config.max_nodes as u128
                            invariant
                                e <= blen,
                                frontier@ == frontier0,
                                activations@ == acts0,
                                visited@.len() == num_nodes,
                                total <= seed_indices@.len() + count_true(visited@),
                                forall|k: int|
                                    0 <= k < next_frontier@.len() ==> #[trigger] next_frontier@[k]
                                        < num_nodes,
                                models(
                                    delta_vec@,
                                    visited@,
                                    next_frontier@,
                                    total as int,
                                    process_edges(st_mid, act, fan_of(bedges), bedges.take(e as int), *config, true),
                                    num_nodes as nat,
                                ),
                            decreases blen - e,
                        {
                            let ghost st_pre = process_edges(st_mid, act, fan_of(bedges), bedges.take(e as int), *config, true);
                            let edge = backward_adj[src][e];
                            let tgt = edge.0;
                            let amt = act.div(bfan_fx).mul(edge.1).mul(config.decay_per_hop).mul(penalty);
                            let old_delta = delta_vec[tgt];
                            delta_vec[tgt] = old_delta.add(amt);
                            if !visited[tgt] {
                                proof {
                                    lemma_count_true_update(visited@, tgt as int);
                                    lemma_count_true_le(visited@.update(tgt as int, true));
                                }
                                visited[tgt] = true;
                                next_frontier.push(tgt);
                                total = total + 1;
                            }
                            proof {
                                assert(bedges.take(e + 1 as int).drop_last() =~= bedges.take(e as int));
                                assert(bedges.take(e + 1 as int).last() == bedges[e as int]);
                                assert(models(
                                    delta_vec@,
                                    visited@,
                                    next_frontier@,
                                    total as int,
                                    process_edge(st_pre, act, fan_of(bedges), bedges[e as int], *config, true),
                                    num_nodes as nat,
                                ));
                            }
                            e = e + 1;
                        }
                        proof {
                            let st_stop = process_edges(st_mid, act, fan_of(bedges), bedges.take(e as int), *config, true);
                            if e < blen {
                                lemma_process_edges_split(st_mid, act, fan_of(bedges), bedges, e as int, *config, true);
                                lemma_process_edges_capped(st_stop, act, fan_of(bedges), bedges.skip(e as int), *config, true);
                            } else {
                                assert(bedges.take(e as int) =~= bedges);
                            }
                        }
                    }
                    proof {
                        assert(process_source(st_src, src, acts0, gfwd, gbwd, *config) == if config.bidirectional {
                            process_edges(
                                process_edges(st_src, act, fan_of(gfwd[src as int]), gfwd[src as int], *config, false),
                                act,
                                fan_of(gbwd[src as int]),
                                gbwd[src as int],
                                *config,
                                true,
                            )
                        } else {
                            process_edges(st_src, act, fan_of(gfwd[src as int]), gfwd[src as int], *config, false)
                        });
                    }
                }
            }
            proof {
                assert(frontier0.take(fi + 1 as int).drop_last() =~= frontier0.take(fi as int));
                assert(frontier0.take(fi + 1 as int).last() == frontier0[fi as int]);
            }
            fi = fi + 1;
        }
        let ghost st_final = process_sources(st0, frontier0, acts0, gfwd, gbwd, *config);
        proof {
            assert(frontier0.take(frontier0.len() as int) =~= frontier0);
        }

        let mut ai: usize = 0;
        while ai < num_nodes
            invariant
                ai <= num_nodes,
                activations@.len() == num_nodes,
                forall|k: int|
                    0 <= k < ai ==> #[trigger] activations@[k] == apply_deltas(acts0, st_final.deltas)[k],
                forall|k: int| ai <= k < num_nodes ==> #[trigger] activations@[k] == acts0[k],
            decreases num_nodes - ai,
        {
            let dv = delta_vec[ai];
            let cur = activations[ai];
            activations[ai] = cur.add(dv);
            ai = ai + 1;
        }
        proof {
            assert(activations@ =~= apply_deltas(acts0, st_final.deltas));
        }

        if next_frontier.len() == 0 {
            done = true;
        } else {
            let mut lvl: Vec<usize> = Vec::new();
            let mut li: usize = 0;
            while li < next_frontier.len()
                invariant
                    li <= next_frontier@.len(),
                    lvl@ == next_frontier@.take(li as int),
                decreases next_frontier@.len() - li,
            {
                lvl.push(next_frontier[li]);
                li = li + 1;
            }
            proof {
                assert(next_frontier@.take(next_frontier@.len() as int) =~= next_frontier@);
            }
            visited_by_depth.push(lvl);
            frontier = next_frontier;
            proof {
                assert(levels_view(visited_by_depth@) =~= levels0.push(st_final.next_frontier));
            }
        }
        d = d + 1;
    }

    SpreadingResult { activations, visited_by_depth }
}

} // verus!
