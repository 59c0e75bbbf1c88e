//! Flow-weighted degree centrality: for every node the sum of the
//! weights of its incident edges, incoming plus outgoing, each self-loop
//! counted once per direction, normalized by the number of other nodes.
//! The table carries the exact integer numerator and the shared divisor;
//! conversion to a floating-point quotient is left to callers, so no
//! precision is lost inside the analysis.

use vstd::prelude::*;
use crate::error::AnalysisError;
use crate::graph::FlowGraph;
use crate::graph::graph_shape_ok;
use crate::graph::total_weight;

verus! {

/// The summed weight of the edges incident to node `i`: incoming plus
/// outgoing, a self-loop contributing its weight twice.
pub open spec fn incident_weight(es: Seq<(usize, usize, u32)>, i: int) -> int
    decreases es.len(),
{
    if es.len() == 0 {
        0
    } else {
        incident_weight(es.drop_last(), i) + (
        if es.last().0 as int == i {
            es.last().2 as int
        } else {
            0
        }) + (
        if es.last().1 as int == i {
            es.last().2 as int
        } else {
            0
        })
    }
}

/// The total weight of a prefix is at most the total weight of the list.
pub proof fn lemma_total_weight_prefix(es: Seq<(usize, usize, u32)>, k: int)
    requires
        0 <= k <= es.len(),
    ensures
        total_weight(es.take(k)) <= total_weight(es),
    decreases es.len() - k,
{
    if k == es.len() {
        assert(es.take(k) =~= es);
    } else {
        assert(es.take(k + 1).drop_last() =~= es.take(k));
        assert(es.take(k + 1).last() == es[k]);
        lemma_total_weight_prefix(es, k + 1);
    }
}

/// A node no edge touches has incident weight exactly zero — so its
/// centrality score is exactly zero, whatever the divisor.
pub proof fn lemma_isolated_node_zero(es: Seq<(usize, usize, u32)>, i: int)
    requires
        forall|k: int| 0 <= k < es.len() ==> (#[trigger] es[k]).0 as int != i && es[k].1 as int != i,
    ensures
        incident_weight(es, i) == 0,
    decreases es.len(),
{
    if es.len() > 0 {
        assert(forall|k: int| 0 <= k < es.drop_last().len() ==> es.drop_last()[k] == es[k]);
        lemma_isolated_node_zero(es.drop_last(), i);
        assert(es.last() == es[es.len() - 1]);
    }
}

/// Per-node centrality scores as exact rationals: for node `i` the score
/// is `entries[i].1 / divisor`, where the divisor is the node count less
/// one, shared by all entries. A graph without nodes yields an empty
/// table with divisor zero.
pub struct CentralityTable {
    pub entries: Vec<(String, u64)>,
    pub divisor: u64,
}

/// Scores every node of the graph: the entry of node `i` carries its
/// label and its summed incident weight, and the shared divisor is the
/// node count less one. A single-node graph has divisor zero, reported
/// as `UndefinedCentrality` rather than an infinite or undefined
/// quotient.
pub fn analyze_centrality(g: &FlowGraph) -> (r: Result<CentralityTable, AnalysisError>)
    requires
        g.wf(),
    ensures
        g.labels_view().len() == 1 <==> (r is Err),
        r is Err ==> r == Err::<CentralityTable, AnalysisError>(AnalysisError::UndefinedCentrality),
        r matches Ok(t) ==> {
            &&& t.entries@.len() == g.labels_view().len()
            &&& t.divisor == if g.labels_view().len() == 0 {
                0int
            } else {
                g.labels_view().len() - 1
            }
            &&& forall|i: int|
                0 <= i < t.entries@.len() ==> (#[trigger] t.entries@[i]).0@ == g.labels_view()[i]
            &&& forall|i: int|
                0 <= i < t.entries@.len() ==> (#[trigger] t.entries@[i]).1 == incident_weight(
                    g.edges_view(),
                    i,
                )
        },
{
    let n = g.node_count();
    if n == 1 {
        return Err(AnalysisError::UndefinedCentrality);
    }
    proof {
        g.lemma_wf_shape();
    }
    let labels = g.node_labels();
    let edges = g.edge_triples();
    let divisor: u64 = if n == 0 {
        0
    } else {
        (n - 1) as u64
    };
    let mut entries: Vec<(String, u64)> = Vec::new();
    let mut i: usize = 0;
    while i < n
        invariant
            n == g.labels_view().len(),
            labels@.len() == n,
            forall|j: int| 0 <= j < n ==> labels@[j]@ == g.labels_view()[j],
            edges@ == g.edges_view(),
            graph_shape_ok(g.labels_view(), g.edges_view()),
            0 <= i <= n,
            entries@.len() == i,
            forall|j: int| 0 <= j < i ==> (#[trigger] entries@[j]).0@ == g.labels_view()[j],
            forall|j: int|
                0 <= j < i ==> (#[trigger] entries@[j]).1 == incident_weight(g.edges_view(), j),
        decreases n - i,
    {
        let mut acc: u64 = 0;
        let mut k: usize = 0;
        while k < edges.len()
            invariant
                edges@ == g.edges_view(),
                graph_shape_ok(g.labels_view(), g.edges_view()),
                0 <= k <= edges@.len(),
                acc == incident_weight(edges@.take(k as int), i as int),
                acc <= 2 * total_weight(edges@.take(k as int)),
            decreases edges@.len() - k,
        {
            proof {
                crate::graph::lemma_take_succ(edges@, k as int);
                assert(edges@.take(k as int + 1).drop_last() =~= edges@.take(k as int));
                assert(edges@.take(k as int + 1).last() == edges@[k as int]);
                lemma_total_weight_prefix(edges@, k as int + 1);
            }
            let e = edges[k];
            if e.0 == i {
                acc = acc + e.2 as u64;
            }
            if e.1 == i {
                acc = acc + e.2 as u64;
            }
            k = k + 1;
        }
        proof {
            assert(edges@.take(edges@.len() as int) =~= edges@);
        }
        entries.push((labels[i].clone(), acc));
        i = i + 1;
    }
    Ok(CentralityTable { entries, divisor })
}

} // verus!
