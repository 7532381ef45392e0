//! Graph analytics: top-k extraction, shortest-path search, and
//! PageRank, all consumers of the graph builder's adjacency.

use vstd::prelude::*;
use crate::fixed::{Fixed, FX_ONE, fx_sat, fx_add_spec, fx_sub_spec, fx_mul_spec, fx_div_spec};
use crate::graph::{Association, forward_row, build_adjacency};
use crate::spreading::count_true;

verus! {

/// The strictly positive activations, paired with their node index, in
/// index order.
pub open spec fn positive_pairs(acts: Seq<Fixed>) -> Seq<(usize, Fixed)>
    decreases acts.len(),
{
    if acts.len() == 0 {
        Seq::empty()
    } else {
        let prev = positive_pairs(acts.drop_last());
        if acts.last().raw > 0 {
            prev.push(((acts.len() - 1) as usize, acts.last()))
        } else {
            prev
        }
    }
}

/// Insert a pair into a descending list, after every entry at least as
/// strong; insertion in input order therefore keeps ties in input order.
pub open spec fn insert_desc(s: Seq<(usize, Fixed)>, x: (usize, Fixed)) -> Seq<(usize, Fixed)>
    decreases s.len(),
{
    if s.len() == 0 {
        seq![x]
    } else if s[0].1.raw >= x.1.raw {
        seq![s[0]] + insert_desc(s.skip(1), x)
    } else {
        seq![x] + s
    }
}

/// Stable descending sort by activation.
pub open spec fn sort_desc(s: Seq<(usize, Fixed)>) -> Seq<(usize, Fixed)>
    decreases s.len(),
{
    if s.len() == 0 {
        Seq::empty()
    } else {
        insert_desc(sort_desc(s.drop_last()), s.last())
    }
}

/// What `get_top_activated` returns: the indices of the strictly
/// positive activations, strongest first, ties in index order, cut to
/// `k` entries.
pub open spec fn top_activated_spec(acts: Seq<Fixed>, k: int) -> Seq<usize> {
    let sorted = sort_desc(positive_pairs(acts));
    let cut = if k <= sorted.len() {
        sorted.take(k)
    } else {
        sorted
    };
    cut.map_values(|p: (usize, Fixed)| p.0)
}

/// Inserting at the first position whose entry is weaker matches the
/// ordered-insertion model.
proof fn lemma_insert_desc_at(s: Seq<(usize, Fixed)>, x: (usize, Fixed), pos: int)
    requires
        0 <= pos <= s.len(),
        forall|i: int| 0 <= i < pos ==> (#[trigger] s[i]).1.raw >= x.1.raw,
        pos < s.len() ==> s[pos].1.raw < x.1.raw,
    ensures
        insert_desc(s, x) == s.insert(pos, x),
    decreases s.len(),
{
    if pos == 0 {
        if s.len() == 0 {
            assert(insert_desc(s, x) =~= s.insert(0, x));
        } else {
            assert(insert_desc(s, x) =~= s.insert(0, x));
        }
    } else {
        assert(s[0].1.raw >= x.1.raw);
        lemma_insert_desc_at(s.skip(1), x, pos - 1);
        assert(insert_desc(s, x) =~= s.insert(pos, x));
    }
}

/// Get the indices of the top `top_k` activated nodes: only strictly
/// positive activations count, stronger comes first, and equally strong
/// nodes keep their index order.
pub fn get_top_activated(activations: &Vec<Fixed>, top_k: usize) -> (result: Vec<usize>)
    ensures
        result@ == top_activated_spec(activations@, top_k as int),
{
    let mut indexed: Vec<(usize, Fixed)> = Vec::new();
    let mut i: usize = 0;
    while i < activations.len()
        invariant
            i <= activations@.len(),
            indexed@ == positive_pairs(activations@.take(i as int)),
        decreases activations@.len() - i,
    {
        let a = activations[i];
        if a.raw > 0 {
            indexed.push((i, a));
        }
        proof {
            let post = activations@.take(i + 1 as int);
            assert(post.drop_last() =~= activations@.take(i as int));
            assert(post.last() == activations@[i as int]);
        }
        i = i + 1;
    }
    proof {
        assert(activations@.take(activations@.len() as int) =~= activations@);
    }

    let mut sorted: Vec<(usize, Fixed)> = Vec::new();
    let mut j: usize = 0;
    while j < indexed.len()
        invariant
            j <= indexed@.len(),
            sorted@ == sort_desc(indexed@.take(j as int)),
        decreases indexed@.len() - j,
    {
        let x = indexed[j];
        let mut pos: usize = 0;
        while pos < sorted.len() && sorted[pos].1.raw >= x.1.raw
            invariant
                pos <= sorted@.len(),
                forall|k: int| 0 <= k < pos ==> (#[trigger] sorted@[k]).1.raw >= x.1.raw,
            decreases sorted@.len() - pos,
        {
            pos = pos + 1;
        }
        proof {
            lemma_insert_desc_at(sorted@, x, pos as int);
            let post = indexed@.take(j + 1 as int);
            assert(post.drop_last() =~= indexed@.take(j as int));
            assert(post.last() == indexed@[j as int]);
        }
        sorted.insert(pos, x);
        j = j + 1;
    }
    proof {
        assert(indexed@.take(indexed@.len() as int) =~= indexed@);
    }

    let count = if top_k <= sorted.len() {
        top_k
    } else {
        sorted.len()
    };
    let mut result: Vec<usize> = Vec::new();
    let mut r: usize = 0;
    while r < count
        invariant
            r <= count,
            count <= sorted@.len(),
            result@.len() == r,
            forall|k: int| 0 <= k < r ==> #[trigger] result@[k] == sorted@[k].0,
        decreases count - r,
    {
        let p = sorted[r];
        result.push(p.0);
        r = r + 1;
    }
    proof {
        assert(result@ =~= top_activated_spec(activations@, top_k as int));
    }
    result
}

/// There is a forward edge from node `a` to node `b`.
pub open spec fn has_edge(assocs: Seq<Association>, num_nodes: nat, a: int, b: int) -> bool {
    0 <= a < num_nodes && exists|k: int|
        0 <= k < forward_row(assocs, num_nodes, a).len() && (#[trigger] forward_row(
            assocs,
            num_nodes,
            a,
        )[k]).0 == b
}

/// `p` is a walk along forward edges from `s` to `t`.
pub open spec fn is_path_between(
    p: Seq<usize>,
    s: usize,
    t: usize,
    assocs: Seq<Association>,
    num_nodes: nat,
) -> bool {
    &&& p.len() > 0
    &&& p[0] == s
    &&& p.last() == t
    &&& forall|i: int|
        0 <= i < p.len() - 1 ==> has_edge(assocs, num_nodes, #[trigger] p[i] as int, p[i + 1] as int)
}

/// In a state where every visited node's forward edges lead only to
/// visited nodes at most one level deeper, every walk from the source
/// ends at a visited node no deeper than the walk is long.
pub proof fn lemma_path_depth_bound(
    p: Seq<usize>,
    s: usize,
    t: usize,
    assocs: Seq<Association>,
    num_nodes: nat,
    visited: Seq<bool>,
    depth: Seq<u128>,
)
    requires
        is_path_between(p, s, t, assocs, num_nodes),
        visited.len() == num_nodes,
        depth.len() == num_nodes,
        s < num_nodes,
        visited[s as int],
        depth[s as int] == 0,
        forall|v: int, w: int|
            0 <= v < num_nodes && visited[v] && #[trigger] has_edge(assocs, num_nodes, v, w)
                ==> 0 <= w < num_nodes && visited[w] && depth[w] <= depth[v] + 1,
    ensures
        t < num_nodes,
        visited[t as int],
        depth[t as int] <= p.len() - 1,
    decreases p.len(),
{
    if p.len() == 1 {
    } else {
        let q = p.drop_last();
        assert(is_path_between(q, s, q.last(), assocs, num_nodes)) by {
            assert(forall|i: int|
                0 <= i < q.len() - 1 ==> #[trigger] q[i] == p[i] && q[i + 1] == p[i + 1]);
        }
        lemma_path_depth_bound(q, s, q.last(), assocs, num_nodes, visited, depth);
        assert(has_edge(assocs, num_nodes, p[p.len() - 2] as int, p[p.len() - 1] as int));
        assert(q.last() == p[p.len() - 2]);
    }
}

/// An element found past position `i`, other than the one at `i`, is
/// found past position `i + 1`.
proof fn lemma_skip_contains(s: Seq<usize>, i: int, x: usize)
    requires
        0 <= i < s.len(),
        s.skip(i).contains(x),
        s[i] != x,
    ensures
        s.skip(i + 1).contains(x),
{
    let idx = choose|idx: int| 0 <= idx < s.skip(i).len() && s.skip(i)[idx] == x;
    assert(s.skip(i)[0] == s[i]);
    assert(idx != 0);
    assert(s.skip(i + 1)[idx - 1] == s.skip(i)[idx]);
}

/// One uniform contribution added to every rank.
pub open spec fn pr_add_all(ranks: Seq<Fixed>, c: int) -> Seq<Fixed> {
    Seq::new(ranks.len(), |v: int| (Fixed { raw: fx_add_spec(ranks[v].raw as int, c) as u64 }))
}

/// A contribution added to each edge target, in edge order.
pub open spec fn pr_add_targets(ranks: Seq<Fixed>, edges: Seq<(usize, Fixed)>, c: int) -> Seq<Fixed>
    decreases edges.len(),
{
    if edges.len() == 0 {
        ranks
    } else {
        let prev = pr_add_targets(ranks, edges.drop_last(), c);
        let t = edges.last().0;
        if t < ranks.len() {
            prev.update(t as int, (Fixed { raw: fx_add_spec(prev[t as int].raw as int, c) as u64 }))
        } else {
            prev
        }
    }
}

/// Distribute the rank of sources `0..k`: a node with outgoing edges
/// splits its damped rank over them; a dangling node spreads it over
/// every node uniformly.
pub open spec fn pr_sources(
    new_ranks: Seq<Fixed>,
    k: int,
    old_ranks: Seq<Fixed>,
    fwd: Seq<Seq<(usize, Fixed)>>,
    damping: Fixed,
    num_nodes: nat,
) -> Seq<Fixed>
    decreases k,
{
    if k <= 0 {
        new_ranks
    } else {
        let prev = pr_sources(new_ranks, k - 1, old_ranks, fwd, damping, num_nodes);
        let edges = fwd[k - 1];
        if edges.len() == 0 {
            let c = fx_div_spec(
                fx_mul_spec(damping.raw as int, old_ranks[k - 1].raw as int),
                fx_sat(num_nodes * FX_ONE),
            );
            pr_add_all(prev, c)
        } else {
            let c = fx_div_spec(
                fx_mul_spec(damping.raw as int, old_ranks[k - 1].raw as int),
                fx_sat(edges.len() * FX_ONE),
            );
            pr_add_targets(prev, edges, c)
        }
    }
}

/// One power iteration: every rank is reset to `(1 - damping)/n`, then
/// each node distributes its damped previous rank.
pub open spec fn pr_iteration(
    old_ranks: Seq<Fixed>,
    fwd: Seq<Seq<(usize, Fixed)>>,
    damping: Fixed,
    num_nodes: nat,
) -> Seq<Fixed> {
    let base = fx_div_spec(fx_sub_spec(FX_ONE as int, damping.raw as int), fx_sat(num_nodes * FX_ONE));
    let reset = Seq::new(num_nodes, |v: int| (Fixed { raw: base as u64 }));
    pr_sources(reset, num_nodes as int, old_ranks, fwd, damping, num_nodes)
}

/// `iters` power iterations from `ranks`.
pub open spec fn pr_iterations(
    ranks: Seq<Fixed>,
    fwd: Seq<Seq<(usize, Fixed)>>,
    damping: Fixed,
    num_nodes: nat,
    iters: nat,
) -> Seq<Fixed>
    decreases iters,
{
    if iters == 0 {
        ranks
    } else {
        pr_iteration(
            pr_iterations(ranks, fwd, damping, num_nodes, (iters - 1) as nat),
            fwd,
            damping,
            num_nodes,
        )
    }
}

/// What `compute_pagerank` returns.
pub open spec fn pagerank_spec(
    num_nodes: nat,
    assocs: Seq<Association>,
    damping: Fixed,
    iterations: nat,
) -> Seq<Fixed> {
    let fwd = Seq::new(num_nodes, |i: int| forward_row(assocs, num_nodes, i));
    let init = fx_div_spec(FX_ONE as int, fx_sat(num_nodes * FX_ONE));
    pr_iterations(
        Seq::new(num_nodes, |v: int| (Fixed { raw: init as u64 })),
        fwd,
        damping,
        num_nodes,
        iterations,
    )
}

/// Compute PageRank by power iteration: exactly `iterations` rounds,
/// no convergence check; each round gives every node `(1 - damping)/n`
/// plus the damped, fan-split rank of the nodes pointing at it, dangling
/// nodes spreading theirs uniformly.
#[verifier::loop_isolation(false)]
pub fn compute_pagerank(
    num_nodes: usize,
    associations: &Vec<Association>,
    damping: Fixed,
    iterations: usize,
) -> (ranks: Vec<Fixed>)
    ensures
        ranks@ == pagerank_spec(num_nodes as nat, associations@, damping, iterations as nat),
{
    let ghost gfwd = Seq::new(num_nodes as nat, |i: int| forward_row(associations@, num_nodes as nat, i));
    let adj = build_adjacency(associations, num_nodes);
    let forward_adj = adj.0;
    proof {
        assert(forall|i: int| 0 <= i < num_nodes ==> #[trigger] forward_adj@[i]@ == gfwd[i]);
    }

    let n_fx = Fixed::from_units(num_nodes as u64);
    let init = Fixed::one().div(n_fx);
    let mut ranks: Vec<Fixed> = Vec::new();
    let mut z: usize = 0;
    while z < num_nodes
        invariant
            z <= num_nodes,
            ranks@.len() == z,
            forall|k: int| 0 <= k < z ==> #[trigger] ranks@[k] == init,
        decreases num_nodes - z,
    {
        ranks.push(init);
        z = z + 1;
    }
    proof {
        assert(ranks@ =~= pr_iterations(ranks@, gfwd, damping, num_nodes as nat, 0));
        assert(ranks@ =~= Seq::new(
            num_nodes as nat,
            |v: int| (Fixed { raw: fx_div_spec(FX_ONE as int, fx_sat(num_nodes as nat * FX_ONE)) as u64 }),
        ));
    }

    let base = Fixed::one().sub(damping).div(n_fx);
    let mut it: usize = 0;
    while it < iterations
        invariant
            it <= iterations,
            ranks@.len() == num_nodes,
            ranks@ == pr_iterations(
                Seq::new(num_nodes as nat, |v: int| (Fixed { raw: fx_div_spec(FX_ONE as int, fx_sat(num_nodes as nat * FX_ONE)) as u64 })),
                gfwd,
                damping,
                num_nodes as nat,
                it as nat,
            ),
        decreases iterations - it,
    {
        let ghost old_ranks = ranks@;
        let mut new_ranks: Vec<Fixed> = Vec::new();
        let mut v: usize = 0;
        while v < num_nodes
            invariant
                v <= num_nodes,
                new_ranks@.len() == v,
                forall|k: int| 0 <= k < v ==> #[trigger] new_ranks@[k] == base,
            decreases num_nodes - v,
        {
            new_ranks.push(base);
            v = v + 1;
        }
        let ghost reset = new_ranks@;
        proof {
            assert(reset =~= Seq::new(num_nodes as nat, |v: int| (Fixed {
                raw: fx_div_spec(fx_sub_spec(FX_ONE as int, damping.raw as int), fx_sat(
                    num_nodes as nat * FX_ONE,
                )) as u64,
            })));
        }

        let mut i: usize = 0;
        while i < num_nodes
            invariant
                i <= num_nodes,
                ranks@ == old_ranks,
                new_ranks@.len() == num_nodes,
                new_ranks@ == pr_sources(reset, i as int, old_ranks, gfwd, damping, num_nodes as nat),
            decreases num_nodes - i,
        {
            let ghost st_pre = pr_sources(reset, i as int, old_ranks, gfwd, damping, num_nodes as nat);
            let elen = forward_adj[i].len();
            if elen == 0 {
                let c = damping.mul(ranks[i]).div(n_fx);
                let mut v: usize = 0;
                while v < num_nodes
                    invariant
                        v <= num_nodes,
                        ranks@ == old_ranks,
                        new_ranks@.len() == num_nodes,
                        forall|k: int|
                            0 <= k < v ==> #[trigger] new_ranks@[k] == pr_add_all(st_pre, c.raw as int)[k],
                        forall|k: int| v <= k < num_nodes ==> #[trigger] new_ranks@[k] == st_pre[k],
                    decreases num_nodes - v,
                {
                    let cur = new_ranks[v];
                    new_ranks[v] = cur.add(c);
                    v = v + 1;
                }
                proof {
                    assert(new_ranks@ =~= pr_add_all(st_pre, c.raw as int));
                }
            } else {
                let fan = Fixed::from_units(elen as u64);
                let c = damping.mul(ranks[i]).div(fan);
                let ghost edges = gfwd[i as int];
                proof {
                    crate::graph::lemma_forward_row_targets(associations@, num_nodes as nat, i as int);
                    assert(edges.take(0) =~= Seq::<(usize, Fixed)>::empty());
                }
                let mut e: usize = 0;
                while e < elen
                    invariant
                        e <= elen,
                        ranks@ == old_ranks,
                        new_ranks@.len() == num_nodes,
                        new_ranks@ == pr_add_targets(st_pre, edges.take(e as int), c.raw as int),
                    decreases elen - e,
                {
                    let edge = forward_adj[i][e];
                    let t = edge.0;
                    let cur = new_ranks[t];
                    new_ranks[t] = cur.add(c);
                    proof {
                        let post = edges.take(e + 1 as int);
                        assert(post.drop_last() =~= edges.take(e as int));
                        assert(post.last() == edges[e as int]);
                    }
                    e = e + 1;
                }
                proof {
                    assert(edges.take(elen as int) =~= edges);
                }
            }
            i = i + 1;
        }
        ranks = new_ranks;
        it = it + 1;
    }
    ranks
}

/// A sequence listing another backwards equals the reversal.
proof fn lemma_reverse_vec(rev: Seq<usize>, path: Seq<usize>)
    requires
        rev.len() >= 1,
        path.len() == rev.len(),
        forall|k: int| 0 <= k < path.len() ==> #[trigger] path[k] == rev[rev.len() - 1 - k],
    ensures
        path == seq![rev[rev.len() - 1]] + rev.drop_last().reverse(),
{
    assert(path =~= seq![rev[rev.len() - 1]] + rev.drop_last().reverse());
}

/// With no frontier left, every visited node has been fully expanded.
proof fn lemma_all_processed(
    assocs: Seq<Association>,
    num_nodes: nat,
    visited: Seq<bool>,
    depth: Seq<u128>,
    frontier: Seq<usize>,
)
    requires
        frontier.len() == 0,
        forall|v: int, w: int|
            0 <= v < num_nodes && visited[v] && #[trigger] has_edge(assocs, num_nodes, v, w)
                && !frontier.contains(v as usize) ==> 0 <= w < num_nodes && visited[w] && depth[w]
                <= depth[v] + 1,
    ensures
        forall|v: int, w: int|
            0 <= v < num_nodes && visited[v] && #[trigger] has_edge(assocs, num_nodes, v, w)
                ==> 0 <= w < num_nodes && visited[w] && depth[w] <= depth[v] + 1,
{
    assert forall|v: int, w: int|
        0 <= v < num_nodes && visited[v] && #[trigger] has_edge(assocs, num_nodes, v, w) implies 0
        <= w < num_nodes && visited[w] && depth[w] <= depth[v] + 1 by {
        assert(!frontier.contains(v as usize));
    }
}

/// When search has finished and the target was never seen, no walk can
/// lead to it.
proof fn lemma_bfs_complete(
    source: usize,
    target: usize,
    assocs: Seq<Association>,
    num_nodes: nat,
    visited: Seq<bool>,
    depth: Seq<u128>,
)
    requires
        source != target,
        source < num_nodes,
        visited.len() == num_nodes,
        depth.len() == num_nodes,
        visited[source as int],
        depth[source as int] == 0,
        forall|v: int, w: int|
            0 <= v < num_nodes && visited[v] && #[trigger] has_edge(assocs, num_nodes, v, w)
                ==> 0 <= w < num_nodes && visited[w] && depth[w] <= depth[v] + 1,
        forall|v: int, k: int|
            0 <= v < num_nodes && 0 <= k < forward_row(assocs, num_nodes, v).len() ==> (
            #[trigger] forward_row(assocs, num_nodes, v)[k]).0 < num_nodes,
        !(target < num_nodes && visited[target as int]),
    ensures
        forall|p: Seq<usize>| !is_path_between(p, source, target, assocs, num_nodes),
{
    assert forall|p: Seq<usize>| !is_path_between(p, source, target, assocs, num_nodes) by {
        if is_path_between(p, source, target, assocs, num_nodes) {
            if p.len() == 1 {
                assert(p[0] == source && p.last() == target);
            } else {
                assert(has_edge(
                    assocs,
                    num_nodes,
                    p[p.len() - 2] as int,
                    p[p.len() - 1] as int,
                ));
                let k = choose|k: int|
                    0 <= k < forward_row(assocs, num_nodes, p[p.len() - 2] as int).len() && (
                    #[trigger] forward_row(assocs, num_nodes, p[p.len() - 2] as int)[k]).0 == p[p.len()
                    - 1] as int;
                assert(target < num_nodes);
                lemma_path_depth_bound(p, source, target, assocs, num_nodes, visited, depth);
            }
        }
    }
}

/// When search has finished, the recorded depth of a node bounds every
/// walk to it from below.
proof fn lemma_bfs_minimal(
    source: usize,
    target: usize,
    assocs: Seq<Association>,
    num_nodes: nat,
    visited: Seq<bool>,
    depth: Seq<u128>,
)
    requires
        source < num_nodes,
        target < num_nodes,
        visited.len() == num_nodes,
        depth.len() == num_nodes,
        visited[source as int],
        depth[source as int] == 0,
        forall|v: int, w: int|
            0 <= v < num_nodes && visited[v] && #[trigger] has_edge(assocs, num_nodes, v, w)
                ==> 0 <= w < num_nodes && visited[w] && depth[w] <= depth[v] + 1,
    ensures
        forall|p: Seq<usize>|
            is_path_between(p, source, target, assocs, num_nodes) ==> p.len() >= depth[target as int]
                + 1,
{
    assert forall|p: Seq<usize>|
        is_path_between(p, source, target, assocs, num_nodes) implies p.len() >= depth[target as int]
        + 1 by {
        lemma_path_depth_bound(p, source, target, assocs, num_nodes, visited, depth);
    }
}

/// Find a shortest path between two nodes by breadth-first search over
/// the forward adjacency only.  `source == target` yields the
/// single-node path whatever the graph holds; otherwise the result is a
/// forward walk of minimal length from source to target, or the empty
/// sequence when no walk exists — in particular when either endpoint is
/// not a valid node index.
#[verifier::loop_isolation(false)]
#[verifier::rlimit(100)]
pub fn find_activation_path(
    num_nodes: usize,
    associations: &Vec<Association>,
    source: usize,
    target: usize,
) -> (path: Vec<usize>)
    ensures
        source != target && source >= num_nodes ==> path@.len() == 0,
        source == target ==> path@ == seq![source],
        source != target && path@.len() > 0 ==> is_path_between(
            path@,
            source,
            target,
            associations@,
            num_nodes as nat,
        ) && (forall|p: Seq<usize>|
            is_path_between(p, source, target, associations@, num_nodes as nat) ==> p.len()
                >= path@.len()),
        source != target && path@.len() == 0 ==> (forall|p: Seq<usize>|
            !is_path_between(p, source, target, associations@, num_nodes as nat)),
{
    if source == target {
        let mut p: Vec<usize> = Vec::new();
        p.push(source);
        proof {
            assert(p@ =~= seq![source]);
        }
        return p;
    }

    if source >= num_nodes {
        proof {
            assert forall|p: Seq<usize>|
                !is_path_between(p, source, target, associations@, num_nodes as nat) by {
                if is_path_between(p, source, target, associations@, num_nodes as nat) {
                    if p.len() == 1 {
                        assert(p[0] == source && p.last() == target);
                    } else {
                        assert(has_edge(associations@, num_nodes as nat, p[0] as int, p[1] as int));
                    }
                }
            }
        }
        return Vec::new();
    }

    let adj = build_adjacency(associations, num_nodes);
    let forward_adj = adj.0;
    proof {
        assert forall|v: int, k: int|
            0 <= v < num_nodes && 0 <= k < forward_row(associations@, num_nodes as nat, v).len()
                implies (#[trigger] forward_row(associations@, num_nodes as nat, v)[k]).0
                < num_nodes by {
            crate::graph::lemma_forward_row_targets(associations@, num_nodes as nat, v);
        }
    }

    let mut visited: Vec<bool> = Vec::new();
    let mut parent: Vec<usize> = Vec::new();
    let mut depth: Vec<u128> = Vec::new();
    let mut i: usize = 0;
    while i < num_nodes
        invariant
            i <= num_nodes,
            visited@.len() == i,
            parent@.len() == i,
            depth@.len() == i,
            forall|k: int| 0 <= k < i ==> #[trigger] visited@[k] == false,
            forall|k: int| 0 <= k < i ==> #[trigger] depth@[k] == 0,
        decreases num_nodes - i,
    {
        visited.push(false);
        parent.push(0);
        depth.push(0);
        i = i + 1;
    }
    visited[source] = true;
    let mut frontier: Vec<usize> = Vec::new();
    frontier.push(source);
    let ghost mut round: int = 0;
    proof {
        assert(frontier@ =~= seq![source]);
        assert(frontier@[0] == source);
        assert(frontier@.contains(source));
    }

    while frontier.len() > 0
        invariant
            visited@.len() == num_nodes,
            parent@.len() == num_nodes,
            depth@.len() == num_nodes,
            visited@[source as int],
            depth@[source as int] == 0,
            round >= 0,
            forall|idx: int|
                0 <= idx < frontier@.len() ==> depth@[(#[trigger] frontier@[idx]) as int] == round,
            forall|v: int| 0 <= v < num_nodes && #[trigger] visited@[v] ==> depth@[v] <= round,
            forall|v: int|
                0 <= v < num_nodes && #[trigger] visited@[v] && v != source as int
                    ==> parent@[v] < num_nodes && visited@[parent@[v] as int] && has_edge(
                    associations@,
                    num_nodes as nat,
                    parent@[v] as int,
                    v,
                ) && depth@[v] == depth@[parent@[v] as int] + 1,
            forall|idx: int|
                0 <= idx < frontier@.len() ==> (#[trigger] frontier@[idx]) < num_nodes
                    && visited@[frontier@[idx] as int],
            forall|v: int, w: int|
                0 <= v < num_nodes && visited@[v] && #[trigger] has_edge(
                    associations@,
                    num_nodes as nat,
                    v,
                    w,
                ) && !frontier@.contains(v as usize) ==> 0 <= w < num_nodes && visited@[w]
                    && depth@[w] <= depth@[v] + 1,
            forall|v: int|
                0 <= v < num_nodes && #[trigger] visited@[v] ==> depth@[v] <= count_true(
                    visited@,
                ),
        decreases num_nodes - count_true(visited@), frontier@.len(),
    {
        proof {
            crate::spreading::lemma_count_true_le(visited@);
        }
        let ghost count0 = count_true(visited@);
        let ghost frontier0 = frontier@;
        let mut next: Vec<usize> = Vec::new();
        proof {
            assert(frontier0.skip(0) =~= frontier0);
        }
        let mut fi: usize = 0;
        while fi < frontier.len()
            invariant
                fi <= frontier0.len(),
                frontier@ == frontier0,
                visited@.len() == num_nodes,
                parent@.len() == num_nodes,
                depth@.len() == num_nodes,
                visited@[source as int],
                depth@[source as int] == 0,
                round >= 0,
                forall|idx: int|
                    0 <= idx < frontier0.len() ==> depth@[(#[trigger] frontier0[idx]) as int]
                        == round,
                forall|v: int|
                    0 <= v < num_nodes && #[trigger] visited@[v] ==> depth@[v] <= round + 1,
                forall|idx: int|
                    0 <= idx < next@.len() ==> depth@[(#[trigger] next@[idx]) as int] == round + 1,
                forall|v: int|
                    0 <= v < num_nodes && #[trigger] visited@[v] && v != source as int
                        ==> parent@[v] < num_nodes && visited@[parent@[v] as int] && has_edge(
                        associations@,
                        num_nodes as nat,
                        parent@[v] as int,
                        v,
                    ) && depth@[v] == depth@[parent@[v] as int] + 1,
                forall|idx: int|
                    0 <= idx < frontier0.len() ==> (#[trigger] frontier0[idx]) < num_nodes
                        && visited@[frontier0[idx] as int],
                forall|idx: int|
                    0 <= idx < next@.len() ==> (#[trigger] next@[idx]) < num_nodes
                        && visited@[next@[idx] as int],
                forall|v: int, w: int|
                    0 <= v < num_nodes && visited@[v] && #[trigger] has_edge(
                        associations@,
                        num_nodes as nat,
                        v,
                        w,
                    ) && !frontier0.skip(fi as int).contains(v as usize) && !next@.contains(
                        v as usize,
                    ) ==> 0 <= w < num_nodes && visited@[w] && depth@[w] <= depth@[v] + 1,
                forall|v: int|
                    0 <= v < num_nodes && #[trigger] visited@[v] ==> depth@[v] <= count_true(
                        visited@,
                    ),
                count_true(visited@) == count0 + next@.len(),
            decreases frontier0.len() - fi,
        {
            let u = frontier[fi];
            let elen = forward_adj[u].len();
            let mut e: usize = 0;
            while e < elen
                invariant
                    e <= elen,
                    frontier@ == frontier0,
                    visited@.len() == num_nodes,
                    parent@.len() == num_nodes,
                    depth@.len() == num_nodes,
                    visited@[source as int],
                    depth@[source as int] == 0,
                    u < num_nodes,
                    visited@[u as int],
                    elen == forward_row(associations@, num_nodes as nat, u as int).len(),
                    round >= 0,
                    depth@[u as int] == round,
                    forall|idx: int|
                        0 <= idx < frontier0.len() ==> depth@[(#[trigger] frontier0[idx]) as int]
                            == round,
                    forall|v: int|
                        0 <= v < num_nodes && #[trigger] visited@[v] ==> depth@[v] <= round + 1,
                    forall|idx: int|
                        0 <= idx < next@.len() ==> depth@[(#[trigger] next@[idx]) as int] == round
                            + 1,
                    forall|v: int|
                        0 <= v < num_nodes && #[trigger] visited@[v] && v != source as int
                            ==> parent@[v] < num_nodes && visited@[parent@[v] as int] && has_edge(
                            associations@,
                            num_nodes as nat,
                            parent@[v] as int,
                            v,
                        ) && depth@[v] == depth@[parent@[v] as int] + 1,
                    forall|idx: int|
                        0 <= idx < frontier0.len() ==> (#[trigger] frontier0[idx]) < num_nodes
                            && visited@[frontier0[idx] as int],
                    forall|idx: int|
                        0 <= idx < next@.len() ==> (#[trigger] next@[idx]) < num_nodes
                            && visited@[next@[idx] as int],
                    forall|v: int, w: int|
                        0 <= v < num_nodes && visited@[v] && #[trigger] has_edge(
                            associations@,
                            num_nodes as nat,
                            v,
                            w,
                        ) && !frontier0.skip(fi as int).contains(v as usize) && !next@.contains(
                            v as usize,
                        ) ==> 0 <= w < num_nodes && visited@[w] && depth@[w] <= depth@[v] + 1,
                    forall|v: int|
                        0 <= v < num_nodes && #[trigger] visited@[v] ==> depth@[v] <= count_true(
                            visited@,
                        ),
                    count_true(visited@) == count0 + next@.len(),
                    forall|k: int|
                        0 <= k < e ==> visited@[(#[trigger] forward_row(
                            associations@,
                            num_nodes as nat,
                            u as int,
                        )[k]).0 as int] && depth@[forward_row(
                            associations@,
                            num_nodes as nat,
                            u as int,
                        )[k].0 as int] <= depth@[u as int] + 1,
                decreases elen - e,
            {
                let w = forward_adj[u][e].0;
                proof {
                    assert(forward_row(associations@, num_nodes as nat, u as int)[e as int].0 == w);
                }
                if !visited[w] {
                    proof {
                        crate::spreading::lemma_count_true_update(visited@, w as int);
                        crate::spreading::lemma_count_true_le(visited@);
                    }
                    let ghost next0 = next@;
                    visited[w] = true;
                    parent[w] = u;
                    let du = depth[u];
                    depth[w] = du + 1;
                    next.push(w);
                    proof {
                        assert(has_edge(associations@, num_nodes as nat, u as int, w as int));
                        assert forall|x: usize| #[trigger] next0.contains(x) implies next@.contains(
                            x,
                        ) by {
                            let idx = choose|idx: int| 0 <= idx < next0.len() && next0[idx] == x;
                            assert(next@[idx] == x);
                        }
                        assert(next@[next@.len() - 1] == w);
                        assert(next@.contains(w));
                    }
                }
                e = e + 1;
            }
            proof {
                assert forall|w: int|
                    has_edge(associations@, num_nodes as nat, u as int, w) implies 0 <= w
                    < num_nodes && visited@[w] && depth@[w] <= depth@[u as int] + 1 by {
                    let k = choose|k: int|
                        0 <= k < forward_row(associations@, num_nodes as nat, u as int).len() && (
                        #[trigger] forward_row(associations@, num_nodes as nat, u as int)[k]).0 == w;
                    assert(visited@[forward_row(associations@, num_nodes as nat, u as int)[k].0 as int]);
                }
                assert forall|v: int, w: int|
                    0 <= v < num_nodes && visited@[v] && #[trigger] has_edge(
                        associations@,
                        num_nodes as nat,
                        v,
                        w,
                    ) && !frontier0.skip(fi + 1 as int).contains(v as usize) && !next@.contains(
                        v as usize,
                    ) implies 0 <= w < num_nodes && visited@[w] && depth@[w] <= depth@[v] + 1 by {
                    if v == u as int {
                    } else {
                        if frontier0.skip(fi as int).contains(v as usize) {
                            assert(frontier0.skip(fi as int)[0] == frontier0[fi as int]);
                            lemma_skip_contains(frontier0, fi as int, v as usize);
                        }
                    }
                }
            }
            fi = fi + 1;
        }
        proof {
            assert(frontier0.skip(frontier0.len() as int).len() == 0);
            crate::spreading::lemma_count_true_le(visited@);
            round = round + 1;
        }
        frontier = next;
    }

    proof {
        lemma_all_processed(associations@, num_nodes as nat, visited@, depth@, frontier@);
    }

    if target < num_nodes && visited[target] {
        let mut rev: Vec<usize> = Vec::new();
        let mut node: usize = target;
        proof {
            assert(rev@.reverse() =~= Seq::<usize>::empty());
            assert((seq![node] + rev@.reverse()) =~= seq![target]);
        }
        while node != source
            invariant
                node < num_nodes,
                visited@[node as int],
                is_path_between(
                    (seq![node] + rev@.reverse()),
                    node,
                    target,
                    associations@,
                    num_nodes as nat,
                ),
                (seq![node] + rev@.reverse()).len() == depth@[target as int] - depth@[node as int] + 1,
            decreases depth@[node as int],
        {
            let ghost old_node = node;
            let ghost old_rev = rev@;
            rev.push(node);
            node = parent[node];
            proof {
                assert((seq![node] + rev@.reverse()) =~= (seq![node] + (seq![old_node]
                    + old_rev.reverse())));
                let p_old = seq![old_node] + old_rev.reverse();
                let p_new = seq![node] + rev@.reverse();
                assert(p_new =~= seq![node] + p_old);
                assert(has_edge(associations@, num_nodes as nat, node as int, old_node as int));
                assert forall|i: int| 0 <= i < p_new.len() - 1 implies has_edge(
                    associations@,
                    num_nodes as nat,
                    #[trigger] p_new[i] as int,
                    p_new[i + 1] as int,
                ) by {
                    if i > 0 {
                        assert(p_new[i] == p_old[i - 1] && p_new[i + 1] == p_old[i]);
                    }
                }
            }
        }
        let ghost rev_pre = rev@;
        rev.push(source);
        let mut path: Vec<usize> = Vec::new();
        let mut ri: usize = rev.len();
        while ri > 0
            invariant
                ri <= rev@.len(),
                path@.len() == rev@.len() - ri,
                forall|k: int|
                    0 <= k < path@.len() ==> #[trigger] path@[k] == rev@[rev@.len() - 1 - k],
            decreases ri,
        {
            ri = ri - 1;
            path.push(rev[ri]);
        }
        proof {
            assert(rev@.drop_last() =~= rev_pre);
            lemma_reverse_vec(rev@, path@);
            assert(path@ == seq![source] + rev_pre.reverse());
            assert(is_path_between(path@, source, target, associations@, num_nodes as nat));
            assert(path@.len() == depth@[target as int] + 1);
            lemma_bfs_minimal(source, target, associations@, num_nodes as nat, visited@, depth@);
        }
        return path;
    }

    proof {
        lemma_bfs_complete(source, target, associations@, num_nodes as nat, visited@, depth@);
    }
    Vec::new()
}

} // verus!
