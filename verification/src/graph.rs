//! Graph builder: turns a flat edge list into forward and backward
//! adjacency lists.
//!
//! Edges whose endpoints are out of range are silently skipped; the
//! remaining edges appear in each node's list in edge-input order.

use vstd::prelude::*;
use crate::fixed::Fixed;

verus! {

/// An edge in the association graph.
#[derive(Clone, Debug, PartialEq, Eq, Structural)]
pub struct Association {
    /// Source node index.
    pub source: usize,
    /// Target node index.
    pub target: usize,
    /// Forward strength (source to target).
    pub forward_strength: Fixed,
    /// Backward strength (target to source).
    pub backward_strength: Fixed,
}

/// An edge takes effect only when both endpoints are valid node indices.
pub open spec fn valid_edge(a: Association, num_nodes: nat) -> bool {
    a.source < num_nodes && a.target < num_nodes
}

/// The forward adjacency row of node `i`: the `(target, forward_strength)`
/// pairs of the valid edges leaving `i`, in edge-input order.
pub open spec fn forward_row(assocs: Seq<Association>, num_nodes: nat, i: int) -> Seq<(usize, Fixed)>
    decreases assocs.len(),
{
    if assocs.len() == 0 {
        Seq::empty()
    } else {
        let prev = forward_row(assocs.drop_last(), num_nodes, i);
        let a = assocs.last();
        if valid_edge(a, num_nodes) && a.source == i {
            prev.push((a.target, a.forward_strength))
        } else {
            prev
        }
    }
}

/// The backward adjacency row of node `i`: the `(source, backward_strength)`
/// pairs of the valid edges entering `i`, in edge-input order.
pub open spec fn backward_row(assocs: Seq<Association>, num_nodes: nat, i: int) -> Seq<(usize, Fixed)>
    decreases assocs.len(),
{
    if assocs.len() == 0 {
        Seq::empty()
    } else {
        let prev = backward_row(assocs.drop_last(), num_nodes, i);
        let a = assocs.last();
        if valid_edge(a, num_nodes) && a.target == i {
            prev.push((a.source, a.backward_strength))
        } else {
            prev
        }
    }
}

/// Build the forward and backward adjacency lists of a graph.
///
/// The result is a pair `(forward, backward)`, each with exactly
/// `num_nodes` rows; row `i` lists the neighbors of node `i` with the
/// strength of the connecting edge, in edge-input order.  Out-of-range
/// edges are skipped, not reported.
pub fn build_adjacency(associations: &Vec<Association>, num_nodes: usize) -> (adj: (
    Vec<Vec<(usize, Fixed)>>,
    Vec<Vec<(usize, Fixed)>>,
))
    ensures
        adj.0@.len() == num_nodes,
        adj.1@.len() == num_nodes,
        forall|i: int|
            0 <= i < num_nodes ==> adj.0@[i]@ == forward_row(
                associations@,
                num_nodes as nat,
                i,
            ),
        forall|i: int|
            0 <= i < num_nodes ==> adj.1@[i]@ == backward_row(
                associations@,
                num_nodes as nat,
                i,
            ),
{
    let mut forward: Vec<Vec<(usize, Fixed)>> = Vec::new();
    let mut backward: Vec<Vec<(usize, Fixed)>> = Vec::new();
    let mut i: usize = 0;
    while i < num_nodes
        invariant
            i <= num_nodes,
            forward@.len() == i,
            backward@.len() == i,
            forall|k: int| 0 <= k < i ==> #[trigger] forward@[k]@ == Seq::<(usize, Fixed)>::empty(),
            forall|k: int| 0 <= k < i ==> #[trigger] backward@[k]@ == Seq::<(usize, Fixed)>::empty(),
        decreases num_nodes - i,
    {
        forward.push(Vec::new());
        backward.push(Vec::new());
        i = i + 1;
    }

    proof {
        assert(associations@.take(0) =~= Seq::<Association>::empty());
    }
    let mut j: usize = 0;
    while j < associations.len()
        invariant
            j <= associations@.len(),
            forward@.len() == num_nodes,
            backward@.len() == num_nodes,
            forall|k: int|
                0 <= k < num_nodes ==> #[trigger] forward@[k]@ == forward_row(
                    associations@.take(j as int),
                    num_nodes as nat,
                    k,
                ),
            forall|k: int|
                0 <= k < num_nodes ==> #[trigger] backward@[k]@ == backward_row(
                    associations@.take(j as int),
                    num_nodes as nat,
                    k,
                ),
        decreases associations@.len() - j,
    {
        let a = &associations[j];
        if a.source < num_nodes && a.target < num_nodes {
            let src = a.source;
            let tgt = a.target;
            forward[src].push((a.target, a.forward_strength));
            backward[tgt].push((a.source, a.backward_strength));
        }
        proof {
            let pre = associations@.take(j as int);
            let post = associations@.take(j + 1 as int);
            assert(post.drop_last() =~= pre);
            assert(post.last() == associations@[j as int]);
        }
        j = j + 1;
    }
    proof {
        assert(associations@.take(associations@.len() as int) =~= associations@);
    }
    (forward, backward)
}

/// Every neighbor a forward row names is a valid node index.
pub proof fn lemma_forward_row_targets(assocs: Seq<Association>, num_nodes: nat, i: int)
    ensures
        forall|k: int|
            0 <= k < forward_row(assocs, num_nodes, i).len() ==> (#[trigger] forward_row(
                assocs,
                num_nodes,
                i,
            )[k]).0 < num_nodes,
    decreases assocs.len(),
{
    if assocs.len() > 0 {
        lemma_forward_row_targets(assocs.drop_last(), num_nodes, i);
        let row = forward_row(assocs, num_nodes, i);
        let prev = forward_row(assocs.drop_last(), num_nodes, i);
        assert forall|k: int| 0 <= k < row.len() implies (#[trigger] row[k]).0 < num_nodes by {
            if k < prev.len() {
                assert(row[k] == prev[k]);
            }
        }
    }
}

/// Every neighbor a backward row names is a valid node index.
pub proof fn lemma_backward_row_sources(assocs: Seq<Association>, num_nodes: nat, i: int)
    ensures
        forall|k: int|
            0 <= k < backward_row(assocs, num_nodes, i).len() ==> (#[trigger] backward_row(
                assocs,
                num_nodes,
                i,
            )[k]).0 < num_nodes,
    decreases assocs.len(),
{
    if assocs.len() > 0 {
        lemma_backward_row_sources(assocs.drop_last(), num_nodes, i);
        let row = backward_row(assocs, num_nodes, i);
        let prev = backward_row(assocs.drop_last(), num_nodes, i);
        assert forall|k: int| 0 <= k < row.len() implies (#[trigger] row[k]).0 < num_nodes by {
            if k < prev.len() {
                assert(row[k] == prev[k]);
            }
        }
    }
}

/// The adjacency a given edge list produces is a function of that list
/// alone: any two structures whose rows agree with the rows the builder
/// guarantees are equal, so repeating the build on identical inputs
/// yields identical forward and backward adjacency.
pub proof fn lemma_build_adjacency_deterministic(
    assocs: Seq<Association>,
    num_nodes: nat,
    first_forward: Seq<Seq<(usize, Fixed)>>,
    first_backward: Seq<Seq<(usize, Fixed)>>,
    second_forward: Seq<Seq<(usize, Fixed)>>,
    second_backward: Seq<Seq<(usize, Fixed)>>,
)
    requires
        first_forward.len() == num_nodes,
        first_backward.len() == num_nodes,
        second_forward.len() == num_nodes,
        second_backward.len() == num_nodes,
        forall|i: int|
            0 <= i < num_nodes ==> #[trigger] first_forward[i] == forward_row(assocs, num_nodes, i),
        forall|i: int|
            0 <= i < num_nodes ==> #[trigger] second_forward[i] == forward_row(assocs, num_nodes, i),
        forall|i: int|
            0 <= i < num_nodes ==> #[trigger] first_backward[i] == backward_row(assocs, num_nodes, i),
        forall|i: int|
            0 <= i < num_nodes ==> #[trigger] second_backward[i] == backward_row(assocs, num_nodes, i),
    ensures
        first_forward == second_forward,
        first_backward == second_backward,
{
    assert(first_forward =~= second_forward);
    assert(first_backward =~= second_backward);
}

} // verus!
