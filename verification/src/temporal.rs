//! Temporal context engine.
//!
//! Within a time-ordered episode, every pair of events closer than a
//! maximum distance is linked, with strength decaying exponentially in
//! the distance and a weaker backward than forward base, encoding the
//! forward-recall bias of episodic memory.  Activation spreads from a
//! seed along these links, forward more strongly than backward, and
//! neighbor queries walk them by direction.

use vstd::prelude::*;
use crate::fixed::{
    Fixed, FX_ONE, fx_add_spec, fx_mul_spec, fx_exp_neg_spec, fx_pow_spec,
    lemma_fx_mul_below_one, lemma_fx_mul_strictly_ordered,
};

verus! {

/// Configuration for temporal spreading activation.
#[derive(Clone, Copy, Debug, PartialEq, Eq, Structural)]
pub struct TemporalSpreadingConfig {
    /// Base multiplier for forward links (toward later events).
    pub forward_strength: Fixed,
    /// Base multiplier for backward links; below the forward base to
    /// encode the forward-recall bias.
    pub backward_strength: Fixed,
    /// Decay rate of link strength per unit of position distance.
    pub distance_decay_rate: Fixed,
    /// Activation boost for memories linked via an episode.
    pub episode_boost: Fixed,
    /// Context persistence parameter; reserved, not read by the
    /// spreading computation.
    pub context_persistence: Fixed,
    /// Maximum position distance that still produces a link.
    pub max_temporal_distance: usize,
}

impl Default for TemporalSpreadingConfig {
    /// Forward base 1.0, backward base 0.7, decay rate 0.3, boost 1.2,
    /// persistence 0.7, maximum distance 10.
    fn default() -> (c: Self)
        ensures
            c.forward_strength.raw == FX_ONE,
            c.backward_strength.raw == 700_000_000,
            c.distance_decay_rate.raw == 300_000_000,
            c.episode_boost.raw == 1_200_000_000,
            c.context_persistence.raw == 700_000_000,
            c.max_temporal_distance == 10,
    {
        TemporalSpreadingConfig {
            forward_strength: Fixed { raw: FX_ONE },
            backward_strength: Fixed { raw: 700_000_000 },
            distance_decay_rate: Fixed { raw: 300_000_000 },
            episode_boost: Fixed { raw: 1_200_000_000 },
            context_persistence: Fixed { raw: 700_000_000 },
            max_temporal_distance: 10,
        }
    }
}

/// A temporal link between two memories within an episode.
#[derive(Clone, Copy, Debug, PartialEq, Eq, Structural)]
pub struct TemporalLink {
    /// Event position of the source within the episode.
    pub source_position: usize,
    /// Event position of the target within the episode.
    pub target_position: usize,
    /// Global memory index of the source event.
    pub source_memory: usize,
    /// Global memory index of the target event.
    pub target_memory: usize,
    /// Forward link strength (source to target).
    pub forward_strength: Fixed,
    /// Backward link strength (target to source).
    pub backward_strength: Fixed,
}

/// Result of temporal spreading activation.
#[derive(Clone, Debug, PartialEq, Eq)]
pub struct TemporalSpreadingResult {
    /// Activation of each memory.
    pub activations: Vec<Fixed>,
    /// Memories activated through forward links, ascending, no repeats.
    pub forward_activated: Vec<usize>,
    /// Memories activated through backward links, ascending, no repeats.
    pub backward_activated: Vec<usize>,
}

/// Which temporal neighbors a query asks for.
#[derive(Clone, Copy, Debug, PartialEq, Eq, Structural)]
pub enum TemporalDirection {
    /// Memories that precede the anchor.
    Before,
    /// Memories that follow the anchor.
    After,
    /// Both directions combined.
    Both,
}

/// What a temporal link's strength evaluates to: the base multiplied by
/// the `distance`-th power of `e^(-rate)`.
pub open spec fn link_strength_spec(base: int, distance: nat, rate: int) -> int {
    fx_mul_spec(base, fx_pow_spec(fx_exp_neg_spec(rate), distance))
}

/// Compute temporal link strength: the base decayed exponentially in
/// the position distance.  Adjacent events keep the strongest links.
pub fn compute_temporal_link_strength(
    base_strength: Fixed,
    position_distance: usize,
    config: &TemporalSpreadingConfig,
) -> (r: Fixed)
    ensures
        r.raw == link_strength_spec(
            base_strength.raw as int,
            position_distance as nat,
            config.distance_decay_rate.raw as int,
        ),
{
    let step = config.distance_decay_rate.exp_neg();
    base_strength.mul(step.pow(position_distance))
}

/// Law: for a fixed base of at least one unit, temporal link strength
/// strictly decreases with distance, as long as the decay factor
/// registers (`e^(-rate)` strictly below one), the strength at the
/// nearer distance has not already decayed to nothing, and no
/// saturation occurs.
pub proof fn lemma_strength_strictly_decreasing(base: Fixed, distance: nat, rate: Fixed)
    requires
        base.raw >= FX_ONE,
        fx_exp_neg_spec(rate.raw as int) < FX_ONE as int,
        fx_pow_spec(fx_exp_neg_spec(rate.raw as int), distance) > 0,
        (base.raw as int) * fx_pow_spec(fx_exp_neg_spec(rate.raw as int), distance) / (
        FX_ONE as int) <= u64::MAX as int,
    ensures
        link_strength_spec(base.raw as int, distance + 1, rate.raw as int) < link_strength_spec(
            base.raw as int,
            distance,
            rate.raw as int,
        ),
{
    let r = fx_exp_neg_spec(rate.raw as int);
    let p = fx_pow_spec(r, distance);
    let p1 = fx_pow_spec(r, distance + 1);
    let b = base.raw as int;
    crate::fixed::lemma_fx_pow_bounds(r, distance);
    crate::fixed::lemma_fx_exp_neg_bounds(rate.raw as int);
    lemma_fx_mul_below_one(p, r);
    assert(p1 == fx_mul_spec(p, r));
    assert((p - p1) * b >= 1 * b) by {
        vstd::arithmetic::mul::lemma_mul_inequality(1, p - p1, b);
    }
    assert(p * b == b * p) by {
        vstd::arithmetic::mul::lemma_mul_is_commutative(p, b);
    }
    assert(p1 * b == b * p1) by {
        vstd::arithmetic::mul::lemma_mul_is_commutative(p1, b);
    }
    lemma_fx_mul_strictly_ordered(p1, p, b);
    assert(fx_mul_spec(p1, b) == fx_mul_spec(b, p1));
    assert(fx_mul_spec(p, b) == fx_mul_spec(b, p));
}

/// Law: at equal distance a forward link is strictly stronger than a
/// backward one whenever the forward base exceeds the backward base by
/// enough that the difference survives decay and truncation, and the
/// forward strength does not saturate.
pub proof fn lemma_temporal_asymmetry(fwd_base: Fixed, bwd_base: Fixed, distance: nat, rate: Fixed)
    requires
        bwd_base.raw < fwd_base.raw,
        (fwd_base.raw - bwd_base.raw) * fx_pow_spec(fx_exp_neg_spec(rate.raw as int), distance)
            >= FX_ONE as int,
        (fwd_base.raw as int) * fx_pow_spec(fx_exp_neg_spec(rate.raw as int), distance) / (
        FX_ONE as int) <= u64::MAX as int,
    ensures
        link_strength_spec(bwd_base.raw as int, distance, rate.raw as int) < link_strength_spec(
            fwd_base.raw as int,
            distance,
            rate.raw as int,
        ),
{
    let r = fx_exp_neg_spec(rate.raw as int);
    let p = fx_pow_spec(r, distance);
    let fb = fwd_base.raw as int;
    let bb = bwd_base.raw as int;
    crate::fixed::lemma_fx_pow_bounds(r, distance);
    assert((fb - bb) * p == fb * p - bb * p) by {
        vstd::arithmetic::mul::lemma_mul_is_distributive_sub_other_way(p, fb, bb);
    }
    lemma_fx_mul_strictly_ordered(bb, fb, p);
}

/// The link for positions `i < j` of an episode.
pub open spec fn link_at(events: Seq<usize>, i: int, j: int, cfg: TemporalSpreadingConfig) -> TemporalLink {
    TemporalLink {
        source_position: i as usize,
        target_position: j as usize,
        source_memory: events[i],
        target_memory: events[j],
        forward_strength: Fixed {
            raw: link_strength_spec(
                cfg.forward_strength.raw as int,
                (j - i) as nat,
                cfg.distance_decay_rate.raw as int,
            ) as u64,
        },
        backward_strength: Fixed {
            raw: link_strength_spec(
                cfg.backward_strength.raw as int,
                (j - i) as nat,
                cfg.distance_decay_rate.raw as int,
            ) as u64,
        },
    }
}

/// The links with source position `i` and target positions below `j`.
pub open spec fn links_row(events: Seq<usize>, i: int, j: int, cfg: TemporalSpreadingConfig) -> Seq<TemporalLink>
    decreases j - i,
{
    if j <= i + 1 {
        Seq::empty()
    } else {
        links_row(events, i, j - 1, cfg).push(link_at(events, i, j - 1, cfg))
    }
}

/// The upper bound (exclusive) of target positions for source `i`.
pub open spec fn row_end(events: Seq<usize>, i: int, cfg: TemporalSpreadingConfig) -> int {
    if events.len() <= i + cfg.max_temporal_distance + 1 {
        events.len() as int
    } else {
        i + cfg.max_temporal_distance + 1
    }
}

/// The links of all source positions below `i`.
pub open spec fn links_upto(events: Seq<usize>, i: int, cfg: TemporalSpreadingConfig) -> Seq<TemporalLink>
    decreases i,
{
    if i <= 0 {
        Seq::empty()
    } else {
        links_upto(events, i - 1, cfg) + links_row(events, i - 1, row_end(events, i - 1, cfg), cfg)
    }
}

/// What `create_episode_links` returns.
pub open spec fn episode_links_spec(events: Seq<usize>, cfg: TemporalSpreadingConfig) -> Seq<TemporalLink> {
    if events.len() < 2 {
        Seq::empty()
    } else {
        links_upto(events, events.len() as int, cfg)
    }
}

/// Create the temporal links of one episode: one link for every pair of
/// positions `i < j` no farther apart than the maximum temporal
/// distance, ordered by source then target position, with forward and
/// backward strengths decayed by distance from their bases.  Episodes
/// shorter than two events produce no links.
#[verifier::loop_isolation(false)]
pub fn create_episode_links(
    event_memory_indices: &Vec<usize>,
    config: &TemporalSpreadingConfig,
) -> (links: Vec<TemporalLink>)
    ensures
        links@ == episode_links_spec(event_memory_indices@, *config),
{
    let mut links: Vec<TemporalLink> = Vec::new();
    let n = event_memory_indices.len();
    if n < 2 {
        return links;
    }

    let fstep = config.distance_decay_rate.exp_neg();
    let mut i: usize = 0;
    while i < n
        invariant
            i <= n,
            links@ == links_upto(event_memory_indices@, i as int, *config),
        decreases n - i,
    {
        let ghost row_hi = row_end(event_memory_indices@, i as int, *config);
        proof {
            assert(links@ + links_row(event_memory_indices@, i as int, i + 1 as int, *config) =~= links@);
        }
        let mut j: usize = i + 1;
        while j < n && j - i <= config.max_temporal_distance
            invariant
                i + 1 <= j <= row_hi,
                links@ == links_upto(event_memory_indices@, i as int, *config) + links_row(
                    event_memory_indices@,
                    i as int,
                    j as int,
                    *config,
                ),
            decreases n - j,
        {
            let distance = j - i;
            let decay = fstep.pow(distance);
            let forward = config.forward_strength.mul(decay);
            let backward = config.backward_strength.mul(decay);
            links.push(
                TemporalLink {
                    source_position: i,
                    target_position: j,
                    source_memory: event_memory_indices[i],
                    target_memory: event_memory_indices[j],
                    forward_strength: forward,
                    backward_strength: backward,
                },
            );
            proof {
                assert(links@ =~= links_upto(event_memory_indices@, i as int, *config) + links_row(
                    event_memory_indices@,
                    i as int,
                    j + 1 as int,
                    *config,
                ));
            }
            j = j + 1;
        }
        proof {
            assert(j as int == row_hi);
        }
        i = i + 1;
    }
    links
}

proof fn lemma_links_row_asymmetric(events: Seq<usize>, i: int, j: int, cfg: TemporalSpreadingConfig)
    requires
        cfg.backward_strength.raw < cfg.forward_strength.raw,
        0 <= i,
        i + 1 <= j,
        j <= row_end(events, i, cfg),
        forall|d: nat|
            1 <= d <= cfg.max_temporal_distance ==> (cfg.forward_strength.raw
                - cfg.backward_strength.raw) * #[trigger] fx_pow_spec(
                fx_exp_neg_spec(cfg.distance_decay_rate.raw as int),
                d,
            ) >= FX_ONE as int,
        forall|d: nat|
            1 <= d <= cfg.max_temporal_distance ==> (cfg.forward_strength.raw as int)
                * #[trigger] fx_pow_spec(fx_exp_neg_spec(cfg.distance_decay_rate.raw as int), d) / (
            FX_ONE as int) <= u64::MAX as int,
    ensures
        forall|k: int|
            0 <= k < links_row(events, i, j, cfg).len() ==> (#[trigger] links_row(
                events,
                i,
                j,
                cfg,
            )[k]).forward_strength.raw > links_row(events, i, j, cfg)[k].backward_strength.raw,
    decreases j - i,
{
    if j > i + 1 {
        lemma_links_row_asymmetric(events, i, j - 1, cfg);
        let row = links_row(events, i, j, cfg);
        let prev = links_row(events, i, j - 1, cfg);
        let d = (j - 1 - i) as nat;
        assert(1 <= d <= cfg.max_temporal_distance);
        lemma_temporal_asymmetry(cfg.forward_strength, cfg.backward_strength, d, cfg.distance_decay_rate);
        assert forall|k: int|
            0 <= k < row.len() implies (#[trigger] row[k]).forward_strength.raw
            > row[k].backward_strength.raw by {
            if k < prev.len() {
                assert(row[k] == prev[k]);
            } else {
                assert(row[k] == link_at(events, i, j - 1, cfg));
            }
        }
    }
}

proof fn lemma_links_upto_asymmetric(events: Seq<usize>, i: int, cfg: TemporalSpreadingConfig)
    requires
        cfg.backward_strength.raw < cfg.forward_strength.raw,
        0 <= i <= events.len(),
        forall|d: nat|
            1 <= d <= cfg.max_temporal_distance ==> (cfg.forward_strength.raw
                - cfg.backward_strength.raw) * #[trigger] fx_pow_spec(
                fx_exp_neg_spec(cfg.distance_decay_rate.raw as int),
                d,
            ) >= FX_ONE as int,
        forall|d: nat|
            1 <= d <= cfg.max_temporal_distance ==> (cfg.forward_strength.raw as int)
                * #[trigger] fx_pow_spec(fx_exp_neg_spec(cfg.distance_decay_rate.raw as int), d) / (
            FX_ONE as int) <= u64::MAX as int,
    ensures
        forall|k: int|
            0 <= k < links_upto(events, i, cfg).len() ==> (#[trigger] links_upto(
                events,
                i,
                cfg,
            )[k]).forward_strength.raw > links_upto(events, i, cfg)[k].backward_strength.raw,
    decreases i,
{
    if i > 0 {
        lemma_links_upto_asymmetric(events, i - 1, cfg);
        let hi = row_end(events, i - 1, cfg);
        lemma_links_row_asymmetric(events, i - 1, hi, cfg);
        let all = links_upto(events, i, cfg);
        let prev = links_upto(events, i - 1, cfg);
        let row = links_row(events, i - 1, hi, cfg);
        assert forall|k: int|
            0 <= k < all.len() implies (#[trigger] all[k]).forward_strength.raw
            > all[k].backward_strength.raw by {
            if k < prev.len() {
                assert(all[k] == prev[k]);
            } else {
                assert(all[k] == row[k - prev.len()]);
            }
        }
    }
}

/// Law: every link of an episode is asymmetric, its forward strength
/// strictly above its backward strength, whenever the backward base
/// lies below the forward base by enough that the difference survives
/// decay and truncation at every admissible distance, and the forward
/// strength never saturates.
pub proof fn lemma_episode_links_asymmetric(events: Seq<usize>, cfg: TemporalSpreadingConfig)
    requires
        cfg.backward_strength.raw < cfg.forward_strength.raw,
        forall|d: nat|
            1 <= d <= cfg.max_temporal_distance ==> (cfg.forward_strength.raw
                - cfg.backward_strength.raw) * #[trigger] fx_pow_spec(
                fx_exp_neg_spec(cfg.distance_decay_rate.raw as int),
                d,
            ) >= FX_ONE as int,
        forall|d: nat|
            1 <= d <= cfg.max_temporal_distance ==> (cfg.forward_strength.raw as int)
                * #[trigger] fx_pow_spec(fx_exp_neg_spec(cfg.distance_decay_rate.raw as int), d) / (
            FX_ONE as int) <= u64::MAX as int,
    ensures
        forall|k: int|
            0 <= k < episode_links_spec(events, cfg).len() ==> (#[trigger] episode_links_spec(
                events,
                cfg,
            )[k]).forward_strength.raw > episode_links_spec(events, cfg)[k].backward_strength.raw,
{
    if events.len() >= 2 {
        lemma_links_upto_asymmetric(events, events.len() as int, cfg);
    }
}

/// Insert into an ascending list, after every entry at most as large.
pub open spec fn insert_asc(s: Seq<usize>, x: usize) -> Seq<usize>
    decreases s.len(),
{
    if s.len() == 0 {
        seq![x]
    } else if s[0] <= x {
        seq![s[0]] + insert_asc(s.skip(1), x)
    } else {
        seq![x] + s
    }
}

/// Ascending sort.
pub open spec fn sort_asc(s: Seq<usize>) -> Seq<usize>
    decreases s.len(),
{
    if s.len() == 0 {
        Seq::empty()
    } else {
        insert_asc(sort_asc(s.drop_last()), s.last())
    }
}

proof fn lemma_insert_asc_at(s: Seq<usize>, x: usize, pos: int)
    requires
        0 <= pos <= s.len(),
        forall|i: int| 0 <= i < pos ==> #[trigger] s[i] <= x,
        pos < s.len() ==> s[pos] > x,
    ensures
        insert_asc(s, x) == s.insert(pos, x),
    decreases s.len(),
{
    if pos == 0 {
        assert(insert_asc(s, x) =~= s.insert(0, x));
    } else {
        lemma_insert_asc_at(s.skip(1), x, pos - 1);
        assert(insert_asc(s, x) =~= s.insert(pos, x));
    }
}

/// Sort a list of memory indices ascending.
fn sort_ascending(v: &Vec<usize>) -> (r: Vec<usize>)
    ensures
        r@ == sort_asc(v@),
{
    let mut r: Vec<usize> = Vec::new();
    let mut j: usize = 0;
    while j < v.len()
        invariant
            j <= v@.len(),
            r@ == sort_asc(v@.take(j as int)),
        decreases v@.len() - j,
    {
        let x = v[j];
        let mut pos: usize = 0;
        while pos < r.len() && r[pos] <= x
            invariant
                pos <= r@.len(),
                forall|k: int| 0 <= k < pos ==> #[trigger] r@[k] <= x,
            decreases r@.len() - pos,
        {
            pos = pos + 1;
        }
        proof {
            lemma_insert_asc_at(r@, x, pos as int);
            let post = v@.take(j + 1 as int);
            assert(post.drop_last() =~= v@.take(j as int));
            assert(post.last() == v@[j as int]);
        }
        r.insert(pos, x);
        j = j + 1;
    }
    proof {
        assert(v@.take(v@.len() as int) =~= v@);
    }
    r
}

/// Whether a list contains a memory index.
fn contains_usize(v: &Vec<usize>, x: usize) -> (found: bool)
    ensures
        found == v@.contains(x),
{
    let mut j: usize = 0;
    let mut found: bool = false;
    while j < v.len()
        invariant
            j <= v@.len(),
            found == (exists|k: int| 0 <= k < j && v@[k] == x),
        decreases v@.len() - j,
    {
        if v[j] == x {
            found = true;
        }
        j = j + 1;
    }
    proof {
        if found {
            assert(v@.contains(x));
        }
    }
    found
}

/// The state built while walking an episode's links once.
pub struct TemporalPass {
    /// Activation of each memory.
    pub activations: Seq<Fixed>,
    /// Memories reached through forward links, in discovery order.
    pub forward: Seq<usize>,
    /// Memories reached through backward links, in discovery order.
    pub backward: Seq<usize>,
}

/// What one link contributes: a link out of the seed boosts its target
/// with the forward strength, a link into the seed boosts its source
/// with the backward strength; a link can do both.
pub open spec fn temporal_step(
    st: TemporalPass,
    l: TemporalLink,
    seed: usize,
    seed_act: Fixed,
    boost: Fixed,
) -> TemporalPass {
    let st1 = if l.source_memory == seed && l.target_memory < st.activations.len() {
        let amt = fx_mul_spec(
            fx_mul_spec(seed_act.raw as int, l.forward_strength.raw as int),
            boost.raw as int,
        );
        TemporalPass {
            activations: st.activations.update(
                l.target_memory as int,
                (Fixed {
                    raw: fx_add_spec(st.activations[l.target_memory as int].raw as int, amt) as u64,
                }),
            ),
            forward: if st.forward.contains(l.target_memory) {
                st.forward
            } else {
                st.forward.push(l.target_memory)
            },
            backward: st.backward,
        }
    } else {
        st
    };
    if l.target_memory == seed && l.source_memory < st1.activations.len() {
        let amt = fx_mul_spec(
            fx_mul_spec(seed_act.raw as int, l.backward_strength.raw as int),
            boost.raw as int,
        );
        TemporalPass {
            activations: st1.activations.update(
                l.source_memory as int,
                (Fixed {
                    raw: fx_add_spec(st1.activations[l.source_memory as int].raw as int, amt) as u64,
                }),
            ),
            forward: st1.forward,
            backward: if st1.backward.contains(l.source_memory) {
                st1.backward
            } else {
                st1.backward.push(l.source_memory)
            },
        }
    } else {
        st1
    }
}

/// Walk a list of links in order.
pub open spec fn temporal_pass(
    st: TemporalPass,
    links: Seq<TemporalLink>,
    seed: usize,
    seed_act: Fixed,
    boost: Fixed,
) -> TemporalPass
    decreases links.len(),
{
    if links.len() == 0 {
        st
    } else {
        temporal_step(
            temporal_pass(st, links.drop_last(), seed, seed_act, boost),
            links.last(),
            seed,
            seed_act,
            boost,
        )
    }
}

/// Walking links never changes how many memories there are.
pub proof fn lemma_temporal_pass_len(
    st: TemporalPass,
    links: Seq<TemporalLink>,
    seed: usize,
    seed_act: Fixed,
    boost: Fixed,
)
    ensures
        temporal_pass(st, links, seed, seed_act, boost).activations.len() == st.activations.len(),
    decreases links.len(),
{
    if links.len() > 0 {
        lemma_temporal_pass_len(st, links.drop_last(), seed, seed_act, boost);
    }
}

/// What `spread_temporal_activation` returns: zero everywhere for an
/// out-of-range seed; otherwise the seed's activation plus one boosted
/// contribution per link touching the seed, with the reached memories
/// listed ascending.
pub open spec fn spread_temporal_spec(
    num_memories: nat,
    links: Seq<TemporalLink>,
    seed: usize,
    seed_act: Fixed,
    cfg: TemporalSpreadingConfig,
) -> TemporalPass {
    let zeros = Seq::new(num_memories, |i: int| (Fixed { raw: 0 }));
    if seed >= num_memories {
        TemporalPass { activations: zeros, forward: Seq::empty(), backward: Seq::empty() }
    } else {
        let st0 = TemporalPass {
            activations: zeros.update(seed as int, seed_act),
            forward: Seq::empty(),
            backward: Seq::empty(),
        };
        let st1 = temporal_pass(st0, links, seed, seed_act, cfg.episode_boost);
        TemporalPass {
            activations: st1.activations,
            forward: sort_asc(st1.forward),
            backward: sort_asc(st1.backward),
        }
    }
}

/// Spread activation through temporal links: the seed keeps its
/// activation, every link out of the seed activates its target through
/// the forward strength, every link into the seed activates its source
/// through the backward strength, both boosted by the episode boost.
/// The reached memories are returned ascending without repeats; an
/// out-of-range seed yields an all-zero result with empty lists.
#[verifier::loop_isolation(false)]
pub fn spread_temporal_activation(
    num_memories: usize,
    temporal_links: &Vec<TemporalLink>,
    seed_memory: usize,
    seed_activation: Fixed,
    config: &TemporalSpreadingConfig,
) -> (result: TemporalSpreadingResult)
    ensures
        result.activations@ == spread_temporal_spec(
            num_memories as nat,
            temporal_links@,
            seed_memory,
            seed_activation,
            *config,
        ).activations,
        result.forward_activated@ == spread_temporal_spec(
            num_memories as nat,
            temporal_links@,
            seed_memory,
            seed_activation,
            *config,
        ).forward,
        result.backward_activated@ == spread_temporal_spec(
            num_memories as nat,
            temporal_links@,
            seed_memory,
            seed_activation,
            *config,
        ).backward,
{
    let mut activations: Vec<Fixed> = Vec::new();
    let mut z: usize = 0;
    while z < num_memories
        invariant
            z <= num_memories,
            activations@.len() == z,
            forall|k: int| 0 <= k < z ==> #[trigger] activations@[k] == (Fixed { raw: 0 }),
        decreases num_memories - z,
    {
        activations.push(Fixed { raw: 0 });
        z = z + 1;
    }
    proof {
        assert(activations@ =~= Seq::new(num_memories as nat, |i: int| (Fixed { raw: 0 })));
    }

    if seed_memory >= num_memories {
        return TemporalSpreadingResult {
            activations,
            forward_activated: Vec::new(),
            backward_activated: Vec::new(),
        };
    }

    activations[seed_memory] = seed_activation;
    let mut forward_activated: Vec<usize> = Vec::new();
    let mut backward_activated: Vec<usize> = Vec::new();
    let ghost st0 = TemporalPass {
        activations: Seq::new(num_memories as nat, |i: int| (Fixed { raw: 0 })).update(
            seed_memory as int,
            seed_activation,
        ),
        forward: Seq::empty(),
        backward: Seq::empty(),
    };
    proof {
        assert(activations@ =~= st0.activations);
        assert(temporal_links@.take(0) =~= Seq::<TemporalLink>::empty());
    }

    let mut j: usize = 0;
    while j < temporal_links.len()
        invariant
            j <= temporal_links@.len(),
            activations@.len() == num_memories,
            activations@ == temporal_pass(
                st0,
                temporal_links@.take(j as int),
                seed_memory,
                seed_activation,
                config.episode_boost,
            ).activations,
            forward_activated@ == temporal_pass(
                st0,
                temporal_links@.take(j as int),
                seed_memory,
                seed_activation,
                config.episode_boost,
            ).forward,
            backward_activated@ == temporal_pass(
                st0,
                temporal_links@.take(j as int),
                seed_memory,
                seed_activation,
                config.episode_boost,
            ).backward,
        decreases temporal_links@.len() - j,
    {
        let l = temporal_links[j];
        if l.source_memory == seed_memory && l.target_memory < num_memories {
            let spread = seed_activation.mul(l.forward_strength).mul(config.episode_boost);
            let cur = activations[l.target_memory];
            activations[l.target_memory] = cur.add(spread);
            if !contains_usize(&forward_activated, l.target_memory) {
                forward_activated.push(l.target_memory);
            }
        }
        if l.target_memory == seed_memory && l.source_memory < num_memories {
            let spread = seed_activation.mul(l.backward_strength).mul(config.episode_boost);
            let cur = activations[l.source_memory];
            activations[l.source_memory] = cur.add(spread);
            if !contains_usize(&backward_activated, l.source_memory) {
                backward_activated.push(l.source_memory);
            }
        }
        proof {
            let post = temporal_links@.take(j + 1 as int);
            assert(post.drop_last() =~= temporal_links@.take(j as int));
            assert(post.last() == temporal_links@[j as int]);
        }
        j = j + 1;
    }
    proof {
        assert(temporal_links@.take(temporal_links@.len() as int) =~= temporal_links@);
    }

    let forward_sorted = sort_ascending(&forward_activated);
    let backward_sorted = sort_ascending(&backward_activated);
    TemporalSpreadingResult {
        activations,
        forward_activated: forward_sorted,
        backward_activated: backward_sorted,
    }
}

/// Whether a link set references the seed memory at all.
pub open spec fn links_mention(links: Seq<TemporalLink>, seed: usize) -> bool {
    exists|k: int|
        0 <= k < links.len() && ((#[trigger] links[k]).source_memory == seed || links[k].target_memory
            == seed)
}

/// Pointwise maximum, never a sum: a memory recurring across episodes
/// keeps its single strongest activation.
pub open spec fn max_merge(a: Seq<Fixed>, b: Seq<Fixed>) -> Seq<Fixed> {
    Seq::new(
        a.len(),
        |i: int|
            if b[i].raw > a[i].raw {
                b[i]
            } else {
                a[i]
            },
    )
}

/// Append the members of `new` that `acc` lacks, in order.
pub open spec fn merge_list(acc: Seq<usize>, new: Seq<usize>) -> Seq<usize>
    decreases new.len(),
{
    if new.len() == 0 {
        acc
    } else {
        let prev = merge_list(acc, new.drop_last());
        if prev.contains(new.last()) {
            prev
        } else {
            prev.push(new.last())
        }
    }
}

/// Fold the episodes that mention the seed, merging each single-episode
/// spread into the running result.
pub open spec fn multi_fold(
    episodes: Seq<Seq<TemporalLink>>,
    num_memories: nat,
    seed: usize,
    seed_act: Fixed,
    cfg: TemporalSpreadingConfig,
) -> TemporalPass
    decreases episodes.len(),
{
    if episodes.len() == 0 {
        TemporalPass {
            activations: Seq::new(num_memories, |i: int| (Fixed { raw: 0 })),
            forward: Seq::empty(),
            backward: Seq::empty(),
        }
    } else {
        let prev = multi_fold(episodes.drop_last(), num_memories, seed, seed_act, cfg);
        let links = episodes.last();
        if links_mention(links, seed) {
            let single = spread_temporal_spec(num_memories, links, seed, seed_act, cfg);
            TemporalPass {
                activations: max_merge(prev.activations, single.activations),
                forward: merge_list(prev.forward, single.forward),
                backward: merge_list(prev.backward, single.backward),
            }
        } else {
            prev
        }
    }
}

/// The episode link sets, as mathematical sequences.
pub open spec fn episodes_view(episodes: Seq<Vec<TemporalLink>>) -> Seq<Seq<TemporalLink>> {
    Seq::new(episodes.len(), |i: int| episodes[i]@)
}

/// What `spread_temporal_activation_multi` returns.
pub open spec fn spread_temporal_multi_spec(
    episodes: Seq<Seq<TemporalLink>>,
    num_memories: nat,
    seed: usize,
    seed_act: Fixed,
    cfg: TemporalSpreadingConfig,
) -> TemporalPass {
    let m = multi_fold(episodes, num_memories, seed, seed_act, cfg);
    TemporalPass {
        activations: m.activations,
        forward: sort_asc(m.forward),
        backward: sort_asc(m.backward),
    }
}

/// Spread activation through several episodes: each episode whose links
/// mention the seed is spread on its own, and the results merge by
/// pointwise maximum of activations, never by summing, so a memory that
/// recurs across episodes is not compounded.  The reached-memory lists
/// are the deduplicated unions, ascending.
#[verifier::loop_isolation(false)]
pub fn spread_temporal_activation_multi(
    num_memories: usize,
    episode_links: &Vec<Vec<TemporalLink>>,
    seed_memory: usize,
    seed_activation: Fixed,
    config: &TemporalSpreadingConfig,
) -> (result: TemporalSpreadingResult)
    ensures
        result.activations@ == spread_temporal_multi_spec(
            episodes_view(episode_links@),
            num_memories as nat,
            seed_memory,
            seed_activation,
            *config,
        ).activations,
        result.forward_activated@ == spread_temporal_multi_spec(
            episodes_view(episode_links@),
            num_memories as nat,
            seed_memory,
            seed_activation,
            *config,
        ).forward,
        result.backward_activated@ == spread_temporal_multi_spec(
            episodes_view(episode_links@),
            num_memories as nat,
            seed_memory,
            seed_activation,
            *config,
        ).backward,
{
    let ghost eps = episodes_view(episode_links@);
    let mut combined: Vec<Fixed> = Vec::new();
    let mut z: usize = 0;
    while z < num_memories
        invariant
            z <= num_memories,
            combined@.len() == z,
            forall|k: int| 0 <= k < z ==> #[trigger] combined@[k] == (Fixed { raw: 0 }),
        decreases num_memories - z,
    {
        combined.push(Fixed { raw: 0 });
        z = z + 1;
    }
    let mut all_forward: Vec<usize> = Vec::new();
    let mut all_backward: Vec<usize> = Vec::new();
    proof {
        assert(eps.take(0) =~= Seq::<Seq<TemporalLink>>::empty());
        assert(combined@ =~= multi_fold(eps.take(0), num_memories as nat, seed_memory, seed_activation, *config).activations);
    }

    let mut ep: usize = 0;
    while ep < episode_links.len()
        invariant
            ep <= eps.len(),
            eps.len() == episode_links@.len(),
            combined@.len() == num_memories,
            combined@ == multi_fold(eps.take(ep as int), num_memories as nat, seed_memory, seed_activation, *config).activations,
            all_forward@ == multi_fold(eps.take(ep as int), num_memories as nat, seed_memory, seed_activation, *config).forward,
            all_backward@ == multi_fold(eps.take(ep as int), num_memories as nat, seed_memory, seed_activation, *config).backward,
        decreases eps.len() - ep,
    {
        let ghost prev = multi_fold(eps.take(ep as int), num_memories as nat, seed_memory, seed_activation, *config);
        let links = &episode_links[ep];
        proof {
            assert(links@ == eps[ep as int]);
        }

        let mut in_episode: bool = false;
        let mut li: usize = 0;
        while li < links.len()
            invariant
                li <= links@.len(),
                in_episode == (exists|k: int|
                    0 <= k < li && ((#[trigger] links@[k]).source_memory == seed_memory
                        || links@[k].target_memory == seed_memory)),
            decreases links@.len() - li,
        {
            let l = &links[li];
            if l.source_memory == seed_memory || l.target_memory == seed_memory {
                in_episode = true;
            }
            li = li + 1;
        }
        proof {
            assert(in_episode == links_mention(links@, seed_memory));
        }

        if in_episode {
            let single = spread_temporal_activation(
                num_memories,
                links,
                seed_memory,
                seed_activation,
                config,
            );
            let ghost gsingle = spread_temporal_spec(num_memories as nat, links@, seed_memory, seed_activation, *config);
            proof {
                if seed_memory < num_memories {
                    lemma_temporal_pass_len(
                        TemporalPass {
                            activations: Seq::new(num_memories as nat, |i: int| (Fixed { raw: 0 })).update(
                                seed_memory as int,
                                seed_activation,
                            ),
                            forward: Seq::empty(),
                            backward: Seq::empty(),
                        },
                        links@,
                        seed_memory,
                        seed_activation,
                        config.episode_boost,
                    );
                }
            }

            let mut v: usize = 0;
            while v < num_memories
                invariant
                    v <= num_memories,
                    combined@.len() == num_memories,
                    single.activations@ == gsingle.activations,
                    single.activations@.len() == num_memories,
                    forall|k: int|
                        0 <= k < v ==> #[trigger] combined@[k] == max_merge(prev.activations, gsingle.activations)[k],
                    forall|k: int| v <= k < num_memories ==> #[trigger] combined@[k] == prev.activations[k],
                decreases num_memories - v,
            {
                let a = single.activations[v];
                if a.raw > combined[v].raw {
                    combined[v] = a;
                }
                v = v + 1;
            }
            proof {
                assert(combined@ =~= max_merge(prev.activations, gsingle.activations));
                assert(gsingle.forward.take(0) =~= Seq::<usize>::empty());
                assert(all_forward@ =~= merge_list(prev.forward, gsingle.forward.take(0)));
            }

            let mut m: usize = 0;
            while m < single.forward_activated.len()
                invariant
                    m <= gsingle.forward.len(),
                    single.forward_activated@ == gsingle.forward,
                    all_forward@ == merge_list(prev.forward, gsingle.forward.take(m as int)),
                decreases gsingle.forward.len() - m,
            {
                let x = single.forward_activated[m];
                if !contains_usize(&all_forward, x) {
                    all_forward.push(x);
                }
                proof {
                    let post = gsingle.forward.take(m + 1 as int);
                    assert(post.drop_last() =~= gsingle.forward.take(m as int));
                    assert(post.last() == gsingle.forward[m as int]);
                }
                m = m + 1;
            }
            proof {
                assert(gsingle.forward.take(gsingle.forward.len() as int) =~= gsingle.forward);
                assert(gsingle.backward.take(0) =~= Seq::<usize>::empty());
                assert(all_backward@ =~= merge_list(prev.backward, gsingle.backward.take(0)));
            }

            let mut m: usize = 0;
            while m < single.backward_activated.len()
                invariant
                    m <= gsingle.backward.len(),
                    single.backward_activated@ == gsingle.backward,
                    all_backward@ == merge_list(prev.backward, gsingle.backward.take(m as int)),
                decreases gsingle.backward.len() - m,
            {
                let x = single.backward_activated[m];
                if !contains_usize(&all_backward, x) {
                    all_backward.push(x);
                }
                proof {
                    let post = gsingle.backward.take(m + 1 as int);
                    assert(post.drop_last() =~= gsingle.backward.take(m as int));
                    assert(post.last() == gsingle.backward[m as int]);
                }
                m = m + 1;
            }
            proof {
                assert(gsingle.backward.take(gsingle.backward.len() as int) =~= gsingle.backward);
            }
        }
        proof {
            let post = eps.take(ep + 1 as int);
            assert(post.drop_last() =~= eps.take(ep as int));
            assert(post.last() == eps[ep as int]);
        }
        ep = ep + 1;
    }
    proof {
        assert(eps.take(eps.len() as int) =~= eps);
    }

    let forward_sorted = sort_ascending(&all_forward);
    let backward_sorted = sort_ascending(&all_backward);
    TemporalSpreadingResult {
        activations: combined,
        forward_activated: forward_sorted,
        backward_activated: backward_sorted,
    }
}

/// The candidate neighbors a direction selects, as
/// `(memory, strength, distance)` triples in link order: looking
/// before, the anchor is the target and the backward strength counts;
/// looking after, the anchor is the source and the forward strength
/// counts; both directions take both, target match first.
pub open spec fn neighbor_triples(
    links: Seq<TemporalLink>,
    anchor: usize,
    direction: TemporalDirection,
) -> Seq<(usize, Fixed, usize)>
    decreases links.len(),
{
    if links.len() == 0 {
        Seq::empty()
    } else {
        let prev = neighbor_triples(links.drop_last(), anchor, direction);
        let l = links.last();
        let dist = (l.target_position - l.source_position) as usize;
        let before_entry = (l.source_memory, l.backward_strength, dist);
        let after_entry = (l.target_memory, l.forward_strength, dist);
        match direction {
            TemporalDirection::Before => if l.target_memory == anchor {
                prev.push(before_entry)
            } else {
                prev
            },
            TemporalDirection::After => if l.source_memory == anchor {
                prev.push(after_entry)
            } else {
                prev
            },
            TemporalDirection::Both => {
                let mid = if l.target_memory == anchor {
                    prev.push(before_entry)
                } else {
                    prev
                };
                if l.source_memory == anchor {
                    mid.push(after_entry)
                } else {
                    mid
                }
            },
        }
    }
}

/// Whether an already placed entry stays in front of a new one: closer
/// first, then stronger, ties keeping their order.
pub open spec fn neighbor_keeps_place(placed: (usize, Fixed, usize), new: (usize, Fixed, usize)) -> bool {
    placed.2 < new.2 || (placed.2 == new.2 && placed.1.raw >= new.1.raw)
}

/// Insert a triple behind every entry that keeps its place.
pub open spec fn insert_neighbor(
    s: Seq<(usize, Fixed, usize)>,
    x: (usize, Fixed, usize),
) -> Seq<(usize, Fixed, usize)>
    decreases s.len(),
{
    if s.len() == 0 {
        seq![x]
    } else if neighbor_keeps_place(s[0], x) {
        seq![s[0]] + insert_neighbor(s.skip(1), x)
    } else {
        seq![x] + s
    }
}

/// Stable sort by ascending distance, then descending strength.
pub open spec fn sort_neighbors(s: Seq<(usize, Fixed, usize)>) -> Seq<(usize, Fixed, usize)>
    decreases s.len(),
{
    if s.len() == 0 {
        Seq::empty()
    } else {
        insert_neighbor(sort_neighbors(s.drop_last()), s.last())
    }
}

proof fn lemma_insert_neighbor_at(s: Seq<(usize, Fixed, usize)>, x: (usize, Fixed, usize), pos: int)
    requires
        0 <= pos <= s.len(),
        forall|i: int| 0 <= i < pos ==> neighbor_keeps_place(#[trigger] s[i], x),
        pos < s.len() ==> !neighbor_keeps_place(s[pos], x),
    ensures
        insert_neighbor(s, x) == s.insert(pos, x),
    decreases s.len(),
{
    if pos == 0 {
        assert(insert_neighbor(s, x) =~= s.insert(0, x));
    } else {
        lemma_insert_neighbor_at(s.skip(1), x, pos - 1);
        assert(insert_neighbor(s, x) =~= s.insert(pos, x));
    }
}

/// What `find_temporal_neighbors` returns.
pub open spec fn find_temporal_neighbors_spec(
    links: Seq<TemporalLink>,
    anchor: usize,
    direction: TemporalDirection,
    limit: int,
) -> Seq<(usize, Fixed)> {
    let sorted = sort_neighbors(neighbor_triples(links, anchor, direction));
    let cut = if limit <= sorted.len() {
        sorted.take(limit)
    } else {
        sorted
    };
    cut.map_values(|t: (usize, Fixed, usize)| (t.0, t.1))
}

/// Find temporally adjacent memories around an anchor.  The result
/// pairs each neighbor with the strength of its link, closest first,
/// stronger first among equally distant ones, cut to `limit` entries.
#[verifier::loop_isolation(false)]
pub fn find_temporal_neighbors(
    temporal_links: &Vec<TemporalLink>,
    anchor_memory: usize,
    direction: TemporalDirection,
    limit: usize,
) -> (result: Vec<(usize, Fixed)>)
    requires
        forall|k: int|
            0 <= k < temporal_links@.len() ==> (#[trigger] temporal_links@[k]).source_position
                <= temporal_links@[k].target_position,
    ensures
        result@ == find_temporal_neighbors_spec(
            temporal_links@,
            anchor_memory,
            direction,
            limit as int,
        ),
{
    let mut neighbors: Vec<(usize, Fixed, usize)> = Vec::new();
    proof {
        assert(temporal_links@.take(0) =~= Seq::<TemporalLink>::empty());
    }
    let mut j: usize = 0;
    while j < temporal_links.len()
        invariant
            j <= temporal_links@.len(),
            neighbors@ == neighbor_triples(temporal_links@.take(j as int), anchor_memory, direction),
        decreases temporal_links@.len() - j,
    {
        let l = temporal_links[j];
        let distance = l.target_position - l.source_position;
        match direction {
            TemporalDirection::Before => {
                if l.target_memory == anchor_memory {
                    neighbors.push((l.source_memory, l.backward_strength, distance));
                }
            },
            TemporalDirection::After => {
                if l.source_memory == anchor_memory {
                    neighbors.push((l.target_memory, l.forward_strength, distance));
                }
            },
            TemporalDirection::Both => {
                if l.target_memory == anchor_memory {
                    neighbors.push((l.source_memory, l.backward_strength, distance));
                }
                if l.source_memory == anchor_memory {
                    neighbors.push((l.target_memory, l.forward_strength, distance));
                }
            },
        }
        proof {
            let post = temporal_links@.take(j + 1 as int);
            assert(post.drop_last() =~= temporal_links@.take(j as int));
            assert(post.last() == temporal_links@[j as int]);
        }
        j = j + 1;
    }
    proof {
        assert(temporal_links@.take(temporal_links@.len() as int) =~= temporal_links@);
    }

    let mut sorted: Vec<(usize, Fixed, usize)> = Vec::new();
    let mut si: usize = 0;
    while si < neighbors.len()
        invariant
            si <= neighbors@.len(),
            sorted@ == sort_neighbors(neighbors@.take(si as int)),
        decreases neighbors@.len() - si,
    {
        let x = neighbors[si];
        let mut pos: usize = 0;
        while pos < sorted.len() && (sorted[pos].2 < x.2 || (sorted[pos].2 == x.2 && sorted[pos].1.raw >= x.1.raw))
            invariant
                pos <= sorted@.len(),
                forall|k: int| 0 <= k < pos ==> neighbor_keeps_place(#[trigger] sorted@[k], x),
            decreases sorted@.len() - pos,
        {
            pos = pos + 1;
        }
        proof {
            lemma_insert_neighbor_at(sorted@, x, pos as int);
            let post = neighbors@.take(si + 1 as int);
            assert(post.drop_last() =~= neighbors@.take(si as int));
            assert(post.last() == neighbors@[si as int]);
        }
        sorted.insert(pos, x);
        si = si + 1;
    }
    proof {
        assert(neighbors@.take(neighbors@.len() as int) =~= neighbors@);
    }

    let count = if limit <= sorted.len() {
        limit
    } else {
        sorted.len()
    };
    let mut result: Vec<(usize, Fixed)> = Vec::new();
    let mut r: usize = 0;
    while r < count
        invariant
            r <= count,
            count <= sorted@.len(),
            result@.len() == r,
            forall|k: int|
                0 <= k < r ==> #[trigger] result@[k] == (sorted@[k].0, sorted@[k].1),
        decreases count - r,
    {
        let p = sorted[r];
        result.push((p.0, p.1));
        r = r + 1;
    }
    proof {
        assert(result@ =~= find_temporal_neighbors_spec(
            temporal_links@,
            anchor_memory,
            direction,
            limit as int,
        ));
    }
    result
}

} // verus!
