//! The graph side of PageRank: the out-edge lists a power iteration walks.
use vstd::prelude::*;

verus! {

/// Schema version of the pagerank surface.
pub const SCHEMA_VERSION: &'static str = "1.0.0";

/// The targets of the edges of `edges` leaving node `i`, in edge order,
/// among edges whose ends are both below `n`.
pub open spec fn targets_of(edges: Seq<(usize, usize)>, n: nat, i: nat) -> Seq<usize>
    decreases edges.len(),
{
    if edges.len() == 0 {
        Seq::empty()
    } else {
        let (from, to) = edges.last();
        targets_of(edges.drop_last(), n, i) + if from < n && to < n && from == i {
            seq![to]
        } else {
            Seq::empty()
        }
    }
}

/// The out-edge list of every node of a graph of `num_nodes` nodes; edges
/// referencing out-of-range nodes are ignored.
pub fn out_edges(num_nodes: usize, edges: &[(usize, usize)]) -> (r: Vec<Vec<usize>>)
    ensures
        r@.len() == num_nodes,
        forall|i: int| 0 <= i < num_nodes ==> (#[trigger] r@[i])@ == targets_of(
            edges@,
            num_nodes as nat,
            i as nat,
        ),
{
    let mut out: Vec<Vec<usize>> = Vec::new();
    let mut i: usize = 0;
    while i < num_nodes
        invariant
            i <= num_nodes,
            out@.len() == i,
            forall|j: int| 0 <= j < i ==> (#[trigger] out@[j])@ == Seq::<usize>::empty(),
        decreases num_nodes - i,
    {
        out.push(Vec::new());
        i += 1;
    }
    let mut e: usize = 0;
    proof {
        assert(edges@.take(0) =~= Seq::<(usize, usize)>::empty());
    }
    while e < edges.len()
        invariant
            e <= edges@.len(),
            out@.len() == num_nodes,
            forall|j: int| 0 <= j < num_nodes ==> (#[trigger] out@[j])@ == targets_of(
                edges@.take(e as int),
                num_nodes as nat,
                j as nat,
            ),
        decreases edges@.len() - e,
    {
        let (from, to) = edges[e];
        proof {
            assert(edges@.take(e + 1).drop_last() =~= edges@.take(e as int));
            assert(edges@.take(e + 1).last() == (from, to));
        }
        if from < num_nodes && to < num_nodes {
            let ghost before = out@;
            out[from].push(to);
            proof {
                assert forall|j: int| 0 <= j < num_nodes implies (#[trigger] out@[j])@ == targets_of(
                    edges@.take(e + 1),
                    num_nodes as nat,
                    j as nat,
                ) by {
                    if j == from {
                        assert(out@[j]@ =~= before[j]@.push(to));
                    } else {
                        assert(out@[j] == before[j]);
                        assert(targets_of(edges@.take(e + 1), num_nodes as nat, j as nat)
                            =~= targets_of(edges@.take(e as int), num_nodes as nat, j as nat));
                    }
                }
            }
        } else {
            proof {
                assert forall|j: int| 0 <= j < num_nodes implies (#[trigger] out@[j])@ == targets_of(
                    edges@.take(e + 1),
                    num_nodes as nat,
                    j as nat,
                ) by {
                    assert(targets_of(edges@.take(e + 1), num_nodes as nat, j as nat)
                        =~= targets_of(edges@.take(e as int), num_nodes as nat, j as nat));
                }
            }
        }
        e += 1;
    }
    proof {
        assert(edges@.take(edges@.len() as int) =~= edges@);
    }
    out
}

} // verus!
