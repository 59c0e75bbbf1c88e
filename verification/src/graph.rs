//! The passenger-flow graph: a directed graph whose nodes are region
//! labels and whose edges carry the total passenger count observed on an
//! ordered (origin, destination) pair. Each record is classified against
//! a fixed domestic anchor label; repeated observations of the same pair
//! accumulate onto one edge. The graph is mirrored into a petgraph
//! directed graph, built once and then read-only.

use vstd::prelude::*;
use petgraph::graph::DiGraph;
use crate::digraph::graph_edges;
use crate::digraph::graph_nodes;
use crate::digraph::digraph_add_edge;
use crate::digraph::digraph_add_node;
use crate::digraph::digraph_edge_triples;
use crate::digraph::digraph_new;
use crate::digraph::digraph_node_count;
use crate::digraph::digraph_node_labels;
use crate::record::ActivityRecord;
use crate::record::ActivityType;
use crate::record::RecordModel;
use crate::record::models;

verus! {

/// The fixed domestic anchor label against which all regional flows are
/// measured.
pub open spec fn anchor() -> Seq<char> {
    "US"@
}

/// The anchor label as an owned string.
pub fn anchor_label() -> (s: String)
    ensures
        s@ == anchor(),
{
    String::from_str("US")
}

/// The ordered (origin, destination) label pair a record contributes
/// flow to, or `None` when the record's activity kind is unrecognized
/// and the record is skipped.
pub open spec fn classify(kind: ActivityType, region: Seq<char>, anchor_l: Seq<char>) -> Option<
    (Seq<char>, Seq<char>),
> {
    match kind {
        ActivityType::Enplaned => Some((anchor_l, region)),
        ActivityType::Deplaned => Some((region, anchor_l)),
        ActivityType::ThruTransit => Some((anchor_l, anchor_l)),
        ActivityType::Unknown => None,
    }
}

/// Whether a record contributes flow to exactly the pair (a, b).
pub open spec fn classifies_to(r: RecordModel, anchor_l: Seq<char>, a: Seq<char>, b: Seq<char>) -> bool {
    classify(r.kind, r.region, anchor_l) == Some((a, b))
}

/// The flow one record contributes to the pair (a, b).
pub open spec fn record_flow(r: RecordModel, anchor_l: Seq<char>, a: Seq<char>, b: Seq<char>) -> int {
    if classifies_to(r, anchor_l, a, b) {
        r.count as int
    } else {
        0
    }
}

/// The total flow a record sequence contributes to the pair (a, b).
pub open spec fn pair_weight(rs: Seq<RecordModel>, anchor_l: Seq<char>, a: Seq<char>, b: Seq<char>) -> int
    decreases rs.len(),
{
    if rs.len() == 0 {
        0
    } else {
        pair_weight(rs.drop_last(), anchor_l, a, b) + record_flow(rs.last(), anchor_l, a, b)
    }
}

/// Whether some record of the sequence is classified to the pair (a, b).
pub open spec fn pair_present(rs: Seq<RecordModel>, anchor_l: Seq<char>, a: Seq<char>, b: Seq<char>) -> bool {
    exists|i: int| 0 <= i < rs.len() && #[trigger] classifies_to(rs[i], anchor_l, a, b)
}

/// Whether a record's classified pair has `l` as an endpoint.
pub open spec fn record_touches(r: RecordModel, anchor_l: Seq<char>, l: Seq<char>) -> bool {
    match classify(r.kind, r.region, anchor_l) {
        Some(p) => p.0 == l || p.1 == l,
        None => false,
    }
}

/// The set of node labels induced by a record sequence: every endpoint of
/// every classified record.
pub open spec fn node_set(rs: Seq<RecordModel>, anchor_l: Seq<char>) -> Set<Seq<char>> {
    Set::new(|l: Seq<char>| exists|i: int| 0 <= i < rs.len() && #[trigger] record_touches(rs[i], anchor_l, l))
}

/// The sum of the passenger counts of all records.
pub open spec fn total_count(rs: Seq<RecordModel>) -> int
    decreases rs.len(),
{
    if rs.len() == 0 {
        0
    } else {
        total_count(rs.drop_last()) + rs.last().count
    }
}

/// The sum of the passenger counts of the classified records alone.
pub open spec fn classified_total(rs: Seq<RecordModel>, anchor_l: Seq<char>) -> int
    decreases rs.len(),
{
    if rs.len() == 0 {
        0
    } else {
        classified_total(rs.drop_last(), anchor_l) + (
        if classify(rs.last().kind, rs.last().region, anchor_l) is Some {
            rs.last().count as int
        } else {
            0
        })
    }
}

/// The sum of the weights of a list of edge triples.
pub open spec fn total_weight(es: Seq<(usize, usize, u32)>) -> int
    decreases es.len(),
{
    if es.len() == 0 {
        0
    } else {
        total_weight(es.drop_last()) + es.last().2
    }
}

/// The views of a list of owned labels.
pub open spec fn label_views(ls: Seq<String>) -> Seq<Seq<char>> {
    ls.map_values(|s: String| s@)
}

/// Whether a label occurs in a list of label views.
pub open spec fn has_label(vs: Seq<Seq<char>>, l: Seq<char>) -> bool {
    exists|j: int| 0 <= j < vs.len() && vs[j] == l
}

/// Whether all labels of a list are pairwise distinct.
pub open spec fn distinct_labels(vs: Seq<Seq<char>>) -> bool {
    forall|i: int, j: int| 0 <= i < j < vs.len() ==> vs[i] != vs[j]
}

/// The directed passenger-flow graph: interned node labels, one
/// accumulated edge per ordered (origin, destination) index pair, and a
/// petgraph mirror holding the same nodes and edges.
pub struct FlowGraph {
    graph: DiGraph<String, u32>,
    labels: Vec<String>,
    edges: Vec<(usize, usize, u32)>,
}

/// The structural part of graph well-formedness, over the views alone:
/// labels are pairwise distinct, every edge joins existing nodes, at most
/// one edge exists per ordered index pair, and the summed edge weight
/// fits the weight type.
pub open spec fn graph_shape_ok(vs: Seq<Seq<char>>, es: Seq<(usize, usize, u32)>) -> bool {
    &&& distinct_labels(vs)
    &&& forall|k: int|
        0 <= k < es.len() ==> (#[trigger] es[k]).0 < vs.len() && es[k].1 < vs.len()
    &&& forall|k: int, l: int|
        0 <= k < l < es.len() ==> !(es[k].0 == es[l].0 && es[k].1 == es[l].1)
    &&& total_weight(es) <= u32::MAX
}

impl FlowGraph {
    /// The node labels, in interning order.
    pub closed spec fn labels_view(self) -> Seq<Seq<char>> {
        label_views(self.labels@)
    }

    /// The edges as (origin index, destination index, weight) triples.
    pub closed spec fn edges_view(self) -> Seq<(usize, usize, u32)> {
        self.edges@
    }

    /// Well-formedness: the structural conditions of `graph_shape_ok`,
    /// and the petgraph mirror holds exactly the same nodes and edges.
    pub closed spec fn wf(self) -> bool {
        &&& graph_shape_ok(self.labels_view(), self.edges_view())
        &&& graph_nodes(self.graph) == self.labels_view()
        &&& graph_edges(self.graph) == self.edges@
    }

    /// A well-formed graph satisfies the structural conditions.
    pub proof fn lemma_wf_shape(self)
        requires
            self.wf(),
        ensures
            graph_shape_ok(self.labels_view(), self.edges_view()),
    {
    }

    /// Assembles a graph from explicit node and edge lists, validating
    /// the structural invariant: `None` exactly when the lists repeat a
    /// label, point an edge at a missing node, repeat an ordered pair,
    /// or carry more total weight than the weight type holds. The length
    /// bounds are forced by petgraph's 32-bit indices.
    pub fn from_parts(labels: Vec<String>, edges: Vec<(usize, usize, u32)>) -> (r: Option<
        FlowGraph,
    >)
        requires
            labels@.len() < 0xFFFF_FFFF,
            edges@.len() < 0xFFFF_FFFF,
        ensures
            r is Some <==> graph_shape_ok(label_views(labels@), edges@),
            r matches Some(g) ==> g.wf() && g.labels_view() == label_views(labels@)
                && g.edges_view() == edges@,
    {
        let ghost vs = label_views(labels@);
        let mut i: usize = 0;
        while i < labels.len()
            invariant
                vs == label_views(labels@),
                0 <= i <= labels@.len(),
                forall|p: int, q: int| 0 <= p < q < i ==> vs[p] != vs[q],
            decreases labels@.len() - i,
        {
            let mut j: usize = 0;
            while j < i
                invariant
                    vs == label_views(labels@),
                    0 <= j <= i < labels@.len(),
                    forall|q: int| 0 <= q < j ==> vs[q] != vs[i as int],
                decreases i - j,
            {
                if labels[j].eq(&labels[i]) {
                    proof {
                        assert(vs[j as int] == vs[i as int]);
                        assert(!distinct_labels(vs));
                    }
                    return None;
                }
                j = j + 1;
            }
            i = i + 1;
        }
        let mut k: usize = 0;
        while k < edges.len()
            invariant
                0 <= k <= edges@.len(),
                forall|e: int|
                    0 <= e < k ==> (#[trigger] edges@[e]).0 < labels@.len() && edges@[e].1
                        < labels@.len(),
            decreases edges@.len() - k,
        {
            let t = edges[k];
            if t.0 >= labels.len() || t.1 >= labels.len() {
                return None;
            }
            k = k + 1;
        }
        let mut k: usize = 0;
        while k < edges.len()
            invariant
                0 <= k <= edges@.len(),
                forall|e: int, f: int|
                    0 <= e < f < k ==> !(edges@[e].0 == edges@[f].0 && edges@[e].1 == edges@[f].1),
            decreases edges@.len() - k,
        {
            let t = edges[k];
            let mut j: usize = 0;
            while j < k
                invariant
                    t == edges@[k as int],
                    0 <= j <= k < edges@.len(),
                    forall|e: int|
                        0 <= e < j ==> !((#[trigger] edges@[e]).0 == edges@[k as int].0
                            && edges@[e].1 == edges@[k as int].1),
                decreases k - j,
            {
                let u = edges[j];
                if u.0 == t.0 && u.1 == t.1 {
                    return None;
                }
                j = j + 1;
            }
            k = k + 1;
        }
        let mut acc: u64 = 0;
        let mut k: usize = 0;
        while k < edges.len()
            invariant
                0 <= k <= edges@.len(),
                acc == total_weight(edges@.take(k as int)),
                acc <= u32::MAX,
            decreases edges@.len() - k,
        {
            proof {
                lemma_take_succ(edges@, k as int);
                assert(edges@.take(k as int + 1).drop_last() =~= edges@.take(k as int));
                crate::centrality::lemma_total_weight_prefix(edges@, k as int + 1);
            }
            let w = edges[k].2 as u64;
            if acc + w > 0xFFFF_FFFFu64 {
                return None;
            }
            acc = acc + w;
            k = k + 1;
        }
        proof {
            assert(edges@.take(edges@.len() as int) =~= edges@);
        }
        let pg = build_mirror(&labels, &edges);
        Some(FlowGraph { graph: pg, labels, edges })
    }

    /// The number of distinct nodes.
    pub fn node_count(&self) -> (n: usize)
        ensures
            n == self.labels_view().len(),
    {
        self.labels.len()
    }

    /// The node labels, cloned, in interning order.
    pub fn node_labels(&self) -> (v: Vec<String>)
        ensures
            label_views(v@) == self.labels_view(),
    {
        let mut v: Vec<String> = Vec::new();
        let mut i: usize = 0;
        while i < self.labels.len()
            invariant
                0 <= i <= self.labels@.len(),
                v@.len() == i,
                forall|j: int| 0 <= j < i ==> v@[j]@ == self.labels@[j]@,
            decreases self.labels@.len() - i,
        {
            v.push(self.labels[i].clone());
            i = i + 1;
        }
        proof {
            assert(label_views(v@) =~= self.labels_view());
        }
        v
    }

    /// The edge list as (origin index, destination index, weight) triples.
    pub fn edge_triples(&self) -> (v: Vec<(usize, usize, u32)>)
        ensures
            v@ == self.edges_view(),
    {
        let mut v: Vec<(usize, usize, u32)> = Vec::new();
        let mut i: usize = 0;
        while i < self.edges.len()
            invariant
                0 <= i <= self.edges@.len(),
                v@ == self.edges@.take(i as int),
            decreases self.edges@.len() - i,
        {
            proof {
                lemma_take_succ(self.edges@, i as int);
            }
            v.push(self.edges[i]);
            i = i + 1;
        }
        proof {
            assert(self.edges@.take(self.edges@.len() as int) =~= self.edges@);
        }
        v
    }

    /// The number of nodes the petgraph mirror holds.
    pub fn petgraph_node_count(&self) -> (n: usize)
        requires
            self.wf(),
        ensures
            n == self.labels_view().len(),
    {
        digraph_node_count(&self.graph)
    }

    /// The node labels the petgraph mirror holds, in node-index order.
    pub fn petgraph_node_labels(&self) -> (v: Vec<String>)
        requires
            self.wf(),
        ensures
            label_views(v@) == self.labels_view(),
    {
        digraph_node_labels(&self.graph)
    }

    /// The edges the petgraph mirror holds, in edge-index order.
    pub fn petgraph_edge_triples(&self) -> (v: Vec<(usize, usize, u32)>)
        requires
            self.wf(),
        ensures
            v@ == self.edges_view(),
    {
        digraph_edge_triples(&self.graph)
    }

    /// The petgraph mirror itself, for callers that run further petgraph
    /// analyses over the finished graph.
    pub fn petgraph(&self) -> (g: &DiGraph<String, u32>)
        requires
            self.wf(),
        ensures
            graph_nodes(*g) == self.labels_view(),
            graph_edges(*g) == self.edges_view(),
    {
        &self.graph
    }

    /// The index of the node carrying the given label, if any.
    pub fn find_node(&self, l: &String) -> (r: Option<usize>)
        ensures
            match r {
                Some(i) => i < self.labels_view().len() && self.labels_view()[i as int] == l@,
                None => !has_label(self.labels_view(), l@),
            },
    {
        find_label_index(&self.labels, l)
    }

    /// The accumulated weight of the edge from label `a` to label `b`,
    /// or `None` when the graph has no such edge.
    pub fn weight_between(&self, a: &String, b: &String) -> (r: Option<u32>)
        requires
            self.wf(),
        ensures
            match r {
                Some(w) => exists|k: int|
                    0 <= k < self.edges_view().len() && (#[trigger] self.edges_view()[k]).2 == w
                        && self.labels_view()[self.edges_view()[k].0 as int] == a@
                        && self.labels_view()[self.edges_view()[k].1 as int] == b@,
                None => forall|k: int|
                    0 <= k < self.edges_view().len()
                        ==> !(self.labels_view()[(#[trigger] self.edges_view()[k]).0 as int] == a@
                        && self.labels_view()[self.edges_view()[k].1 as int] == b@),
            },
    {
        let ia = match find_label_index(&self.labels, a) {
            Some(i) => i,
            None => {
                return None;
            },
        };
        let ib = match find_label_index(&self.labels, b) {
            Some(i) => i,
            None => {
                return None;
            },
        };
        match find_edge_index(&self.edges, ia, ib) {
            Some(e) => Some(self.edges[e].2),
            None => None,
        }
    }
}

/// Takes one more element of a sequence prefix.
pub proof fn lemma_take_succ<T>(s: Seq<T>, k: int)
    requires
        0 <= k < s.len(),
    ensures
        s.take(k + 1) == s.take(k).push(s[k]),
{
    assert(s.take(k + 1) =~= s.take(k).push(s[k]));
}

/// Whether the edge list holds an edge whose endpoints carry the labels
/// `a` and `b`, in that order.
pub open spec fn edge_with_labels(
    vs: Seq<Seq<char>>,
    es: Seq<(usize, usize, u32)>,
    a: Seq<char>,
    b: Seq<char>,
) -> bool {
    exists|e: int|
        0 <= e < es.len() && vs[(#[trigger] es[e]).0 as int] == a && vs[es[e].1 as int] == b
}

/// The flow contributed to any pair is never negative.
pub proof fn lemma_pair_weight_nonneg(rs: Seq<RecordModel>, anchor_l: Seq<char>, a: Seq<char>, b: Seq<char>)
    ensures
        pair_weight(rs, anchor_l, a, b) >= 0,
    decreases rs.len(),
{
    if rs.len() > 0 {
        lemma_pair_weight_nonneg(rs.drop_last(), anchor_l, a, b);
    }
}

/// The flow on one pair is at most the total classified flow.
pub proof fn lemma_pair_weight_le_classified(
    rs: Seq<RecordModel>,
    anchor_l: Seq<char>,
    a: Seq<char>,
    b: Seq<char>,
)
    ensures
        pair_weight(rs, anchor_l, a, b) <= classified_total(rs, anchor_l),
    decreases rs.len(),
{
    if rs.len() > 0 {
        lemma_pair_weight_le_classified(rs.drop_last(), anchor_l, a, b);
    }
}

/// The classified flow is at most the total passenger count.
pub proof fn lemma_classified_le_total(rs: Seq<RecordModel>, anchor_l: Seq<char>)
    ensures
        classified_total(rs, anchor_l) <= total_count(rs),
    decreases rs.len(),
{
    if rs.len() > 0 {
        lemma_classified_le_total(rs.drop_last(), anchor_l);
    }
}

/// The classified flow of a prefix is at most that of the whole sequence.
pub proof fn lemma_classified_prefix(rs: Seq<RecordModel>, anchor_l: Seq<char>, k: int)
    requires
        0 <= k <= rs.len(),
    ensures
        classified_total(rs.take(k), anchor_l) <= classified_total(rs, anchor_l),
    decreases rs.len() - k,
{
    if k == rs.len() {
        assert(rs.take(k) =~= rs);
    } else {
        lemma_take_succ(rs, k);
        assert(rs.take(k).push(rs[k]).drop_last() =~= rs.take(k));
        lemma_classified_prefix(rs, anchor_l, k + 1);
    }
}

/// A pair no record is classified to carries no flow.
pub proof fn lemma_absent_pair_weight_zero(
    rs: Seq<RecordModel>,
    anchor_l: Seq<char>,
    a: Seq<char>,
    b: Seq<char>,
)
    requires
        !pair_present(rs, anchor_l, a, b),
    ensures
        pair_weight(rs, anchor_l, a, b) == 0,
    decreases rs.len(),
{
    if rs.len() > 0 {
        assert(!pair_present(rs.drop_last(), anchor_l, a, b)) by {
            if pair_present(rs.drop_last(), anchor_l, a, b) {
                let i = choose|i: int|
                    0 <= i < rs.drop_last().len() && #[trigger] classifies_to(
                        rs.drop_last()[i],
                        anchor_l,
                        a,
                        b,
                    );
                assert(classifies_to(rs[i], anchor_l, a, b));
            }
        }
        lemma_absent_pair_weight_zero(rs.drop_last(), anchor_l, a, b);
        assert(!classifies_to(rs.last(), anchor_l, a, b)) by {
            if classifies_to(rs.last(), anchor_l, a, b) {
                assert(classifies_to(rs[rs.len() - 1], anchor_l, a, b));
            }
        }
    }
}

/// Replacing one edge replaces exactly its weight in the total.
pub proof fn lemma_total_weight_update(es: Seq<(usize, usize, u32)>, i: int, t: (usize, usize, u32))
    requires
        0 <= i < es.len(),
    ensures
        total_weight(es.update(i, t)) == total_weight(es) - es[i].2 + t.2,
    decreases es.len(),
{
    let es2 = es.update(i, t);
    if i == es.len() - 1 {
        assert(es2.drop_last() =~= es.drop_last());
    } else {
        assert(es2.drop_last() =~= es.drop_last().update(i, t));
        lemma_total_weight_update(es.drop_last(), i, t);
    }
}

/// In a distinct label list, equal labels stand at equal positions.
pub proof fn lemma_distinct_index(vs: Seq<Seq<char>>, i: int, j: int)
    requires
        distinct_labels(vs),
        0 <= i < vs.len(),
        0 <= j < vs.len(),
        vs[i] == vs[j],
    ensures
        i == j,
{
}

/// How one more record changes the flow, presence, node and count
/// functions of a record sequence.
pub proof fn lemma_step_facts(pre: Seq<RecordModel>, r: RecordModel, anchor_l: Seq<char>)
    ensures
        forall|a: Seq<char>, b: Seq<char>|
            pair_weight(pre.push(r), anchor_l, a, b) == pair_weight(pre, anchor_l, a, b)
                + record_flow(r, anchor_l, a, b),
        forall|a: Seq<char>, b: Seq<char>|
            pair_present(pre.push(r), anchor_l, a, b) <==> (pair_present(pre, anchor_l, a, b)
                || classifies_to(r, anchor_l, a, b)),
        classified_total(pre.push(r), anchor_l) == classified_total(pre, anchor_l) + (
        if classify(r.kind, r.region, anchor_l) is Some {
            r.count as int
        } else {
            0
        }),
        total_count(pre.push(r)) == total_count(pre) + r.count,
        forall|l: Seq<char>|
            node_set(pre.push(r), anchor_l).contains(l) <==> (node_set(pre, anchor_l).contains(l)
                || record_touches(r, anchor_l, l)),
{
    let post = pre.push(r);
    assert(post.drop_last() =~= pre);
    assert(post.last() == r);
    assert forall|a: Seq<char>, b: Seq<char>|
        pair_present(post, anchor_l, a, b) <==> (pair_present(pre, anchor_l, a, b)
            || classifies_to(r, anchor_l, a, b)) by {
        if pair_present(post, anchor_l, a, b) {
            let i = choose|i: int| 0 <= i < post.len() && #[trigger] classifies_to(post[i], anchor_l, a, b);
            if i < pre.len() {
                assert(classifies_to(pre[i], anchor_l, a, b));
            } else {
                assert(classifies_to(r, anchor_l, a, b));
            }
        }
        if pair_present(pre, anchor_l, a, b) {
            let i = choose|i: int| 0 <= i < pre.len() && #[trigger] classifies_to(pre[i], anchor_l, a, b);
            assert(classifies_to(post[i], anchor_l, a, b));
        }
        if classifies_to(r, anchor_l, a, b) {
            assert(classifies_to(post[pre.len() as int], anchor_l, a, b));
        }
    }
    assert forall|l: Seq<char>|
        node_set(post, anchor_l).contains(l) <==> (node_set(pre, anchor_l).contains(l)
            || record_touches(r, anchor_l, l)) by {
        if node_set(post, anchor_l).contains(l) {
            let i = choose|i: int| 0 <= i < post.len() && #[trigger] record_touches(post[i], anchor_l, l);
            if i < pre.len() {
                assert(record_touches(pre[i], anchor_l, l));
            }
        }
        if node_set(pre, anchor_l).contains(l) {
            let i = choose|i: int| 0 <= i < pre.len() && #[trigger] record_touches(pre[i], anchor_l, l);
            assert(record_touches(post[i], anchor_l, l));
        }
        if record_touches(r, anchor_l, l) {
            assert(record_touches(post[pre.len() as int], anchor_l, l));
        }
    }
}

/// Appending a label extends the occurrence predicate by that label.
pub proof fn lemma_has_label_push(vs: Seq<Seq<char>>, x: Seq<char>)
    ensures
        forall|l: Seq<char>| has_label(vs.push(x), l) <==> (has_label(vs, l) || l == x),
{
    assert forall|l: Seq<char>| has_label(vs.push(x), l) <==> (has_label(vs, l) || l == x) by {
        if has_label(vs.push(x), l) {
            let j = choose|j: int| 0 <= j < vs.push(x).len() && vs.push(x)[j] == l;
            if j < vs.len() {
                assert(vs[j] == l);
            }
        }
        if has_label(vs, l) {
            let j = choose|j: int| 0 <= j < vs.len() && vs[j] == l;
            assert(vs.push(x)[j] == l);
        }
        if l == x {
            assert(vs.push(x)[vs.len() as int] == l);
        }
    }
}

/// Linear search for a label among the interned labels.
fn find_label_index(labels: &Vec<String>, l: &String) -> (r: Option<usize>)
    ensures
        match r {
            Some(i) => i < labels@.len() && label_views(labels@)[i as int] == l@,
            None => !has_label(label_views(labels@), l@),
        },
{
    let mut i: usize = 0;
    while i < labels.len()
        invariant
            0 <= i <= labels@.len(),
            forall|j: int| 0 <= j < i ==> label_views(labels@)[j] != l@,
        decreases labels@.len() - i,
    {
        if labels[i].eq(l) {
            return Some(i);
        }
        i = i + 1;
    }
    None
}

/// Linear search for the edge joining the ordered index pair (a, b).
fn find_edge_index(edges: &Vec<(usize, usize, u32)>, a: usize, b: usize) -> (r: Option<usize>)
    ensures
        match r {
            Some(i) => i < edges@.len() && edges@[i as int].0 == a && edges@[i as int].1 == b,
            None => forall|j: int|
                0 <= j < edges@.len() ==> !((#[trigger] edges@[j]).0 == a && edges@[j].1 == b),
        },
{
    let mut i: usize = 0;
    while i < edges.len()
        invariant
            0 <= i <= edges@.len(),
            forall|j: int| 0 <= j < i ==> !((#[trigger] edges@[j]).0 == a && edges@[j].1 == b),
        decreases edges@.len() - i,
    {
        let e = edges[i];
        if e.0 == a && e.1 == b {
            return Some(i);
        }
        i = i + 1;
    }
    None
}

/// Interns a label: returns the index of the existing occurrence, or
/// appends the label and returns its fresh index. Distinctness is
/// preserved and existing indices keep their labels.
fn intern_label(labels: &mut Vec<String>, l: &String) -> (i: usize)
    requires
        distinct_labels(label_views(old(labels)@)),
    ensures
        distinct_labels(label_views(final(labels)@)),
        i < final(labels)@.len(),
        label_views(final(labels)@)[i as int] == l@,
        label_views(final(labels)@) == if has_label(label_views(old(labels)@), l@) {
            label_views(old(labels)@)
        } else {
            label_views(old(labels)@).push(l@)
        },
{
    match find_label_index(labels, l) {
        Some(i) => i,
        None => {
            let i = labels.len();
            labels.push(l.clone());
            proof {
                assert(label_views(labels@) =~= label_views(old(labels)@).push(l@));
            }
            i
        },
    }
}

/// The fold step that accumulates the flow of one record onto a pair.
pub open spec fn flow_fold_fn(anchor_l: Seq<char>, a: Seq<char>, b: Seq<char>) -> spec_fn(
    RecordModel,
    int,
) -> int {
    |x: RecordModel, acc: int| acc + record_flow(x, anchor_l, a, b)
}

/// The fold step that accumulates one record's passenger count.
pub open spec fn count_fold_fn() -> spec_fn(RecordModel, int) -> int {
    |x: RecordModel, acc: int| acc + x.count
}

/// The pair flow is a right fold of the record sequence.
proof fn lemma_pair_weight_is_fold(
    rs: Seq<RecordModel>,
    anchor_l: Seq<char>,
    a: Seq<char>,
    b: Seq<char>,
    v: int,
)
    ensures
        rs.fold_right(flow_fold_fn(anchor_l, a, b), v) == v + pair_weight(rs, anchor_l, a, b),
    decreases rs.len(),
{
    if rs.len() > 0 {
        lemma_pair_weight_is_fold(
            rs.drop_last(),
            anchor_l,
            a,
            b,
            v + record_flow(rs.last(), anchor_l, a, b),
        );
    }
}

/// The total passenger count is a right fold of the record sequence.
proof fn lemma_total_count_is_fold(rs: Seq<RecordModel>, v: int)
    ensures
        rs.fold_right(count_fold_fn(), v) == v + total_count(rs),
    decreases rs.len(),
{
    if rs.len() > 0 {
        lemma_total_count_is_fold(rs.drop_last(), v + rs.last().count);
    }
}

/// Graph construction is order-independent: two record sequences holding
/// the same multiset of records induce the same flow on every ordered
/// label pair, the same pair presence, the same node set, and the same
/// total passenger count — so building from a shuffled input yields a
/// graph with identical node labels and identical edge weights.
pub proof fn lemma_order_independent(r1: Seq<RecordModel>, r2: Seq<RecordModel>, anchor_l: Seq<char>)
    requires
        r1.to_multiset() == r2.to_multiset(),
    ensures
        forall|a: Seq<char>, b: Seq<char>|
            pair_weight(r1, anchor_l, a, b) == pair_weight(r2, anchor_l, a, b),
        forall|a: Seq<char>, b: Seq<char>|
            pair_present(r1, anchor_l, a, b) <==> pair_present(r2, anchor_l, a, b),
        node_set(r1, anchor_l) == node_set(r2, anchor_l),
        total_count(r1) == total_count(r2),
{
    broadcast use vstd::seq_lib::group_to_multiset_ensures;

    assert forall|a: Seq<char>, b: Seq<char>|
        pair_weight(r1, anchor_l, a, b) == pair_weight(r2, anchor_l, a, b) by {
        let f = flow_fold_fn(anchor_l, a, b);
        assert(vstd::seq_lib::commutative_foldr(f)) by {
            assert forall|x: RecordModel, y: RecordModel, v: int| #[trigger]
                f(x, f(y, v)) == f(y, f(x, v)) by {}
        }
        vstd::seq_lib::lemma_fold_right_permutation(r1, r2, f, 0);
        lemma_pair_weight_is_fold(r1, anchor_l, a, b, 0);
        lemma_pair_weight_is_fold(r2, anchor_l, a, b, 0);
    }
    assert forall|a: Seq<char>, b: Seq<char>|
        pair_present(r1, anchor_l, a, b) <==> pair_present(r2, anchor_l, a, b) by {
        if pair_present(r1, anchor_l, a, b) {
            let i = choose|i: int| 0 <= i < r1.len() && #[trigger] classifies_to(r1[i], anchor_l, a, b);
            assert(r1.contains(r1[i]));
            assert(r1.to_multiset().count(r1[i]) > 0);
            assert(r2.to_multiset().count(r1[i]) > 0);
            assert(r2.contains(r1[i]));
            let j = choose|j: int| 0 <= j < r2.len() && r2[j] == r1[i];
            assert(classifies_to(r2[j], anchor_l, a, b));
        }
        if pair_present(r2, anchor_l, a, b) {
            let i = choose|i: int| 0 <= i < r2.len() && #[trigger] classifies_to(r2[i], anchor_l, a, b);
            assert(r2.contains(r2[i]));
            assert(r2.to_multiset().count(r2[i]) > 0);
            assert(r1.to_multiset().count(r2[i]) > 0);
            assert(r1.contains(r2[i]));
            let j = choose|j: int| 0 <= j < r1.len() && r1[j] == r2[i];
            assert(classifies_to(r1[j], anchor_l, a, b));
        }
    }
    assert forall|l: Seq<char>|
        node_set(r1, anchor_l).contains(l) <==> node_set(r2, anchor_l).contains(l) by {
        if node_set(r1, anchor_l).contains(l) {
            let i = choose|i: int| 0 <= i < r1.len() && #[trigger] record_touches(r1[i], anchor_l, l);
            assert(r1.contains(r1[i]));
            assert(r1.to_multiset().count(r1[i]) > 0);
            assert(r2.to_multiset().count(r1[i]) > 0);
            assert(r2.contains(r1[i]));
            let j = choose|j: int| 0 <= j < r2.len() && r2[j] == r1[i];
            assert(record_touches(r2[j], anchor_l, l));
        }
        if node_set(r2, anchor_l).contains(l) {
            let i = choose|i: int| 0 <= i < r2.len() && #[trigger] record_touches(r2[i], anchor_l, l);
            assert(r2.contains(r2[i]));
            assert(r2.to_multiset().count(r2[i]) > 0);
            assert(r1.to_multiset().count(r2[i]) > 0);
            assert(r1.contains(r2[i]));
            let j = choose|j: int| 0 <= j < r1.len() && r1[j] == r2[i];
            assert(record_touches(r1[j], anchor_l, l));
        }
    }
    assert(node_set(r1, anchor_l) =~= node_set(r2, anchor_l));
    let cf = count_fold_fn();
    assert(vstd::seq_lib::commutative_foldr(cf)) by {
        assert forall|x: RecordModel, y: RecordModel, v: int| #[trigger]
            cf(x, cf(y, v)) == cf(y, cf(x, v)) by {}
    }
    vstd::seq_lib::lemma_fold_right_permutation(r1, r2, cf, 0);
    lemma_total_count_is_fold(r1, 0);
    lemma_total_count_is_fold(r2, 0);
}

/// For an input of `ThruTransit` records alone, all flow concentrates on
/// the anchor self-loop: the flow on the (anchor, anchor) pair is the sum
/// of all passenger counts, every other pair carries no flow, and no
/// other pair is present in the graph.
pub proof fn lemma_thru_transit_concentration(rs: Seq<RecordModel>, anchor_l: Seq<char>)
    requires
        forall|i: int| 0 <= i < rs.len() ==> (#[trigger] rs[i]).kind == ActivityType::ThruTransit,
    ensures
        pair_weight(rs, anchor_l, anchor_l, anchor_l) == total_count(rs),
        forall|a: Seq<char>, b: Seq<char>|
            !(a == anchor_l && b == anchor_l) ==> pair_weight(rs, anchor_l, a, b) == 0,
        forall|a: Seq<char>, b: Seq<char>|
            pair_present(rs, anchor_l, a, b) ==> (a == anchor_l && b == anchor_l),
    decreases rs.len(),
{
    assert forall|a: Seq<char>, b: Seq<char>|
        pair_present(rs, anchor_l, a, b) implies (a == anchor_l && b == anchor_l) by {
        let i = choose|i: int| 0 <= i < rs.len() && #[trigger] classifies_to(rs[i], anchor_l, a, b);
        assert(rs[i].kind == ActivityType::ThruTransit);
    }
    if rs.len() > 0 {
        let prefix = rs.drop_last();
        assert(forall|i: int| 0 <= i < prefix.len() ==> (#[trigger] prefix[i]).kind
            == ActivityType::ThruTransit) by {
            assert(forall|i: int| 0 <= i < prefix.len() ==> prefix[i] == rs[i]);
        }
        lemma_thru_transit_concentration(prefix, anchor_l);
        assert(rs.last().kind == ActivityType::ThruTransit);
        assert(record_flow(rs.last(), anchor_l, anchor_l, anchor_l) == rs.last().count as int);
        assert forall|a: Seq<char>, b: Seq<char>|
            !(a == anchor_l && b == anchor_l) implies pair_weight(rs, anchor_l, a, b) == 0 by {
            assert(!classifies_to(rs.last(), anchor_l, a, b)) by {
                if classifies_to(rs.last(), anchor_l, a, b) {
                    assert(classify(rs.last().kind, rs.last().region, anchor_l)
                        == Some((anchor_l, anchor_l)));
                    assert(a == anchor_l && b == anchor_l);
                }
            }
            assert(pair_weight(prefix, anchor_l, a, b) == 0);
            assert(record_flow(rs.last(), anchor_l, a, b) == 0);
            assert(pair_weight(rs, anchor_l, a, b) == pair_weight(prefix, anchor_l, a, b)
                + record_flow(rs.last(), anchor_l, a, b));
        }
    }
}

/// Mirrors finished node and edge lists into a fresh petgraph graph.
/// The length bounds are forced by petgraph's 32-bit indices.
fn build_mirror(labels: &Vec<String>, edges: &Vec<(usize, usize, u32)>) -> (pg: DiGraph<String, u32>)
    requires
        labels@.len() < 0xFFFF_FFFF,
        edges@.len() < 0xFFFF_FFFF,
        forall|e: int|
            0 <= e < edges@.len() ==> (#[trigger] edges@[e]).0 < labels@.len() && edges@[e].1
                < labels@.len(),
    ensures
        graph_nodes(pg) == label_views(labels@),
        graph_edges(pg) == edges@,
{
    let mut pg = digraph_new();
    let mut i: usize = 0;
    while i < labels.len()
        invariant
            0 <= i <= labels@.len(),
            labels@.len() < 0xFFFF_FFFF,
            graph_nodes(pg) == label_views(labels@).take(i as int),
            graph_edges(pg) == Seq::<(usize, usize, u32)>::empty(),
        decreases labels@.len() - i,
    {
        proof {
            lemma_take_succ(label_views(labels@), i as int);
        }
        digraph_add_node(&mut pg, labels[i].clone());
        i = i + 1;
    }
    proof {
        assert(label_views(labels@).take(labels@.len() as int) =~= label_views(labels@));
    }
    let mut j: usize = 0;
    while j < edges.len()
        invariant
            0 <= j <= edges@.len(),
            edges@.len() < 0xFFFF_FFFF,
            graph_nodes(pg) == label_views(labels@),
            graph_edges(pg) == edges@.take(j as int),
            forall|e: int|
                0 <= e < edges@.len() ==> (#[trigger] edges@[e]).0 < labels@.len()
                    && edges@[e].1 < labels@.len(),
        decreases edges@.len() - j,
    {
        proof {
            lemma_take_succ(edges@, j as int);
        }
        let t = edges[j];
        digraph_add_edge(&mut pg, t.0, t.1, t.2);
        j = j + 1;
    }
    proof {
        assert(edges@.take(edges@.len() as int) =~= edges@);
    }
    pg
}

/// What construction guarantees: the graph is well-formed, its node
/// labels are exactly the endpoints of the classified records, every
/// edge joins a pair some record is classified to and carries the total
/// flow of that pair, and every classified pair has its edge.
pub open spec fn built_from(g: FlowGraph, rs: Seq<RecordModel>, anchor_l: Seq<char>) -> bool {
    &&& g.wf()
    &&& g.labels_view().to_set() == node_set(rs, anchor_l)
    &&& forall|e: int|
        0 <= e < g.edges_view().len() ==> (#[trigger] g.edges_view()[e]).2 == pair_weight(
            rs,
            anchor_l,
            g.labels_view()[g.edges_view()[e].0 as int],
            g.labels_view()[g.edges_view()[e].1 as int],
        )
    &&& forall|e: int|
        0 <= e < g.edges_view().len() ==> pair_present(
            rs,
            anchor_l,
            g.labels_view()[(#[trigger] g.edges_view()[e]).0 as int],
            g.labels_view()[g.edges_view()[e].1 as int],
        )
    &&& forall|a: Seq<char>, b: Seq<char>|
        pair_present(rs, anchor_l, a, b) ==> edge_with_labels(g.labels_view(), g.edges_view(), a, b)
}

/// Order independence at the graph level: two graphs built from record
/// streams holding the same multiset of records have the same node label
/// set, an edge between a pair of labels in one exactly when in the
/// other, and equal weights on equally labeled edges.
pub proof fn lemma_built_graphs_agree(
    g1: FlowGraph,
    g2: FlowGraph,
    r1: Seq<RecordModel>,
    r2: Seq<RecordModel>,
    anchor_l: Seq<char>,
)
    requires
        built_from(g1, r1, anchor_l),
        built_from(g2, r2, anchor_l),
        r1.to_multiset() == r2.to_multiset(),
    ensures
        g1.labels_view().to_set() == g2.labels_view().to_set(),
        forall|a: Seq<char>, b: Seq<char>|
            edge_with_labels(g1.labels_view(), g1.edges_view(), a, b) <==> edge_with_labels(
                g2.labels_view(),
                g2.edges_view(),
                a,
                b,
            ),
        forall|e: int, f: int|
            0 <= e < g1.edges_view().len() && 0 <= f < g2.edges_view().len()
                && g1.labels_view()[(#[trigger] g1.edges_view()[e]).0 as int]
                == g2.labels_view()[(#[trigger] g2.edges_view()[f]).0 as int]
                && g1.labels_view()[g1.edges_view()[e].1 as int]
                == g2.labels_view()[g2.edges_view()[f].1 as int] ==> g1.edges_view()[e].2
                == g2.edges_view()[f].2,
{
    lemma_order_independent(r1, r2, anchor_l);
    assert forall|a: Seq<char>, b: Seq<char>|
        edge_with_labels(g1.labels_view(), g1.edges_view(), a, b) <==> edge_with_labels(
            g2.labels_view(),
            g2.edges_view(),
            a,
            b,
        ) by {
        if edge_with_labels(g1.labels_view(), g1.edges_view(), a, b) {
            let e = choose|e: int|
                0 <= e < g1.edges_view().len() && g1.labels_view()[(#[trigger] g1.edges_view()[e]).0 as int]
                    == a && g1.labels_view()[g1.edges_view()[e].1 as int] == b;
            assert(pair_present(r1, anchor_l, a, b));
            assert(pair_present(r2, anchor_l, a, b));
        }
        if edge_with_labels(g2.labels_view(), g2.edges_view(), a, b) {
            let f = choose|f: int|
                0 <= f < g2.edges_view().len() && g2.labels_view()[(#[trigger] g2.edges_view()[f]).0 as int]
                    == a && g2.labels_view()[g2.edges_view()[f].1 as int] == b;
            assert(pair_present(r2, anchor_l, a, b));
            assert(pair_present(r1, anchor_l, a, b));
        }
    }
}

/// Concentration at the graph level: a graph built from `ThruTransit`
/// records alone has at most one edge, every edge is the anchor
/// self-loop carrying the whole passenger count, and the sum of all edge
/// weights equals the sum of all passenger counts.
pub proof fn lemma_thru_transit_graph(g: FlowGraph, rs: Seq<RecordModel>, anchor_l: Seq<char>)
    requires
        built_from(g, rs, anchor_l),
        forall|i: int| 0 <= i < rs.len() ==> (#[trigger] rs[i]).kind == ActivityType::ThruTransit,
    ensures
        g.edges_view().len() <= 1,
        forall|e: int|
            0 <= e < g.edges_view().len() ==> g.labels_view()[(#[trigger] g.edges_view()[e]).0 as int]
                == anchor_l && g.labels_view()[g.edges_view()[e].1 as int] == anchor_l
                && g.edges_view()[e].2 == total_count(rs),
        total_weight(g.edges_view()) == total_count(rs),
{
    lemma_thru_transit_concentration(rs, anchor_l);
    g.lemma_wf_shape();
    let lv = g.labels_view();
    let es = g.edges_view();
    assert forall|e: int|
        0 <= e < es.len() implies lv[(#[trigger] es[e]).0 as int] == anchor_l
        && lv[es[e].1 as int] == anchor_l && es[e].2 == total_count(rs) by {
        assert(pair_present(rs, anchor_l, lv[es[e].0 as int], lv[es[e].1 as int]));
    }
    if es.len() >= 2 {
        assert(lv[es[0].0 as int] == lv[es[1].0 as int]);
        lemma_distinct_index(lv, es[0].0 as int, es[1].0 as int);
        lemma_distinct_index(lv, es[0].1 as int, es[1].1 as int);
        assert(false);
    }
    if es.len() == 0 {
        if rs.len() > 0 {
            assert(classifies_to(rs[0], anchor_l, anchor_l, anchor_l));
            assert(pair_present(rs, anchor_l, anchor_l, anchor_l));
            assert(edge_with_labels(lv, es, anchor_l, anchor_l));
            assert(false);
        }
        assert(total_count(rs) == 0);
    } else {
        assert(es.drop_last() =~= Seq::<(usize, usize, u32)>::empty());
        assert(total_weight(Seq::<(usize, usize, u32)>::empty()) == 0);
        assert(es.last() == es[0]);
        assert(total_weight(es) == total_weight(es.drop_last()) + es.last().2);
        assert(total_weight(es) == es[0].2);
    }
}

/// Builds the passenger-flow graph for the given anchor label.
///
/// Every record is classified against the anchor; unrecognized records
/// are skipped. The nodes are exactly the endpoints of the classified
/// records, each label interned once, and for every ordered label pair
/// there is one edge exactly when some record is classified to it, whose
/// weight is the total flow of the records classified to it.
///
/// The length bound is forced by petgraph's 32-bit node indices, and the
/// total-count bound by the 32-bit edge weights.
pub fn build_flow_graph(records: &[ActivityRecord], anchor_l: &String) -> (g: FlowGraph)
    requires
        records@.len() < 0xFFFF_FFFE,
        total_count(models(records@)) <= u32::MAX,
    ensures
        built_from(g, models(records@), anchor_l@),
{
    let ghost rs = models(records@);
    let mut labels: Vec<String> = Vec::new();
    let mut edges: Vec<(usize, usize, u32)> = Vec::new();
    let mut k: usize = 0;
    while k < records.len()
        invariant
            rs == models(records@),
            rs.len() == records@.len(),
            records@.len() < 0xFFFF_FFFE,
            total_count(rs) <= u32::MAX,
            0 <= k <= records@.len(),
            distinct_labels(label_views(labels@)),
            labels@.len() <= 1 + k,
            labels@.len() == 0 || has_label(label_views(labels@), anchor_l@),
            edges@.len() <= k,
            forall|e: int|
                0 <= e < edges@.len() ==> (#[trigger] edges@[e]).0 < labels@.len()
                    && edges@[e].1 < labels@.len(),
            forall|e: int, f: int|
                0 <= e < f < edges@.len() ==> !(edges@[e].0 == edges@[f].0 && edges@[e].1
                    == edges@[f].1),
            forall|e: int|
                0 <= e < edges@.len() ==> (#[trigger] edges@[e]).2 == pair_weight(
                    rs.take(k as int),
                    anchor_l@,
                    label_views(labels@)[edges@[e].0 as int],
                    label_views(labels@)[edges@[e].1 as int],
                ),
            forall|e: int|
                0 <= e < edges@.len() ==> pair_present(
                    rs.take(k as int),
                    anchor_l@,
                    label_views(labels@)[(#[trigger] edges@[e]).0 as int],
                    label_views(labels@)[edges@[e].1 as int],
                ),
            forall|a: Seq<char>, b: Seq<char>|
                pair_present(rs.take(k as int), anchor_l@, a, b) ==> edge_with_labels(
                    label_views(labels@),
                    edges@,
                    a,
                    b,
                ),
            forall|l: Seq<char>|
                has_label(label_views(labels@), l) <==> node_set(
                    rs.take(k as int),
                    anchor_l@,
                ).contains(l),
            total_weight(edges@) == classified_total(rs.take(k as int), anchor_l@),
        decreases records@.len() - k,
    {
        let rec = &records[k];
        let ghost pre = rs.take(k as int);
        let ghost r = rs[k as int];
        let ghost post = rs.take(k as int + 1);
        let ghost labels0 = label_views(labels@);
        let ghost edges0 = edges@;
        proof {
            lemma_take_succ(rs, k as int);
            assert(post == pre.push(r));
            lemma_step_facts(pre, r, anchor_l@);
            assert(r == records@[k as int]@);
        }
        let endpoints: Option<(&String, &String)> = match rec.activity_type {
            ActivityType::Enplaned => Some((anchor_l, &rec.geo_region)),
            ActivityType::Deplaned => Some((&rec.geo_region, anchor_l)),
            ActivityType::ThruTransit => Some((anchor_l, anchor_l)),
            ActivityType::Unknown => None,
        };
        match endpoints {
            Some((oa, ob)) => {
                proof {
                    assert(classify(r.kind, r.region, anchor_l@) == Some((oa@, ob@)));
                    assert(oa@ == anchor_l@ || ob@ == anchor_l@);
                }
                let ia = intern_label(&mut labels, oa);
                let ghost lv1 = label_views(labels@);
                let ib = intern_label(&mut labels, ob);
                let ghost lv = label_views(labels@);
                let ghost aa = lv[ia as int];
                let ghost bb = lv[ib as int];
                proof {
                    lemma_has_label_push(labels0, oa@);
                    lemma_has_label_push(lv1, ob@);
                    assert(forall|j: int| 0 <= j < labels0.len() ==> lv1[j] == labels0[j]);
                    assert(forall|j: int| 0 <= j < lv1.len() ==> lv[j] == lv1[j]);
                    assert(aa == oa@);
                    assert(bb == ob@);
                    assert(classifies_to(r, anchor_l@, aa, bb));
                    assert forall|l: Seq<char>|
                        has_label(lv, l) <==> (has_label(labels0, l) || record_touches(
                            r,
                            anchor_l@,
                            l,
                        )) by {
                        assert(record_touches(r, anchor_l@, l) <==> (l == aa || l == bb));
                    }
                    // the bound on the label count
                    if labels0.len() > 0 {
                        assert(has_label(labels0, anchor_l@));
                        assert(has_label(lv1, oa@) ==> lv.len() <= lv1.len() + 1);
                        assert(lv.len() <= labels0.len() + 1);
                    }
                    // the anchor is now present
                    assert(has_label(lv, anchor_l@));
                    // flow bound for the accumulated pair
                    lemma_pair_weight_le_classified(post, anchor_l@, aa, bb);
                    lemma_classified_prefix(rs, anchor_l@, k as int + 1);
                    lemma_classified_le_total(rs, anchor_l@);
                    assert(pair_weight(post, anchor_l@, aa, bb) <= u32::MAX);
                    lemma_pair_weight_nonneg(pre, anchor_l@, aa, bb);
                }
                match find_edge_index(&edges, ia, ib) {
                    Some(e) => {
                        let w = edges[e].2;
                        proof {
                            assert(labels0[edges0[e as int].0 as int] == lv[edges0[e as int].0 as int]);
                            assert(labels0[edges0[e as int].1 as int] == lv[edges0[e as int].1 as int]);
                            assert(w == pair_weight(pre, anchor_l@, aa, bb));
                            assert(w + rec.passenger_count == pair_weight(post, anchor_l@, aa, bb));
                        }
                        let w2 = w + rec.passenger_count;
                        edges[e] = (ia, ib, w2);
                        proof {
                            lemma_total_weight_update(edges0, e as int, (ia, ib, w2));
                            lemma_edge_invariants_after(
                                pre,
                                post,
                                r,
                                anchor_l@,
                                labels0,
                                lv,
                                edges0,
                                edges@,
                                ia,
                                ib,
                                e as int,
                                w2,
                            );
                        }
                    },
                    None => {
                        proof {
                            assert(!pair_present(pre, anchor_l@, aa, bb)) by {
                                if pair_present(pre, anchor_l@, aa, bb) {
                                    assert(edge_with_labels(labels0, edges0, aa, bb));
                                    let e = choose|e: int|
                                        0 <= e < edges0.len() && labels0[(#[trigger] edges0[e]).0 as int]
                                            == aa && labels0[edges0[e].1 as int] == bb;
                                    assert(lv[edges0[e].0 as int] == aa);
                                    lemma_distinct_index(lv, edges0[e].0 as int, ia as int);
                                    lemma_distinct_index(lv, edges0[e].1 as int, ib as int);
                                }
                            }
                            lemma_absent_pair_weight_zero(pre, anchor_l@, aa, bb);
                            assert(rec.passenger_count == pair_weight(post, anchor_l@, aa, bb));
                        }
                        edges.push((ia, ib, rec.passenger_count));
                        proof {
                            assert(edges@.drop_last() =~= edges0);
                            lemma_edge_invariants_after(
                                pre,
                                post,
                                r,
                                anchor_l@,
                                labels0,
                                lv,
                                edges0,
                                edges@,
                                ia,
                                ib,
                                edges0.len() as int,
                                rec.passenger_count,
                            );
                        }
                    },
                }
            },
            None => {
                proof {
                    assert(classify(r.kind, r.region, anchor_l@) is None);
                    assert forall|a: Seq<char>, b: Seq<char>|
                        pair_weight(post, anchor_l@, a, b) == pair_weight(pre, anchor_l@, a, b) by {
                        assert(record_flow(r, anchor_l@, a, b) == 0);
                    }
                    assert forall|l: Seq<char>| !record_touches(r, anchor_l@, l) by {}
                }
            },
        }
        k = k + 1;
    }
    proof {
        assert(rs.take(records@.len() as int) =~= rs);
    }
    let pg = build_mirror(&labels, &edges);
    let g = FlowGraph { graph: pg, labels, edges };
    proof {
        lemma_classified_le_total(rs, anchor_l@);
        assert forall|l: Seq<char>|
            g.labels_view().to_set().contains(l) <==> node_set(rs, anchor_l@).contains(l) by {
            assert(g.labels_view().to_set().contains(l) <==> g.labels_view().contains(l));
            assert(g.labels_view().contains(l) <==> has_label(g.labels_view(), l));
        }
        assert(g.labels_view().to_set() =~= node_set(rs, anchor_l@));
    }
    g
}

/// Re-establishes the per-edge loop invariants of the graph builder after
/// one classified record has been folded in: the edge at `eidx` joins the
/// index pair (ia, ib) and carries the flow of the extended prefix, every
/// other edge is unchanged, and labels have only been appended.
proof fn lemma_edge_invariants_after(
    pre: Seq<RecordModel>,
    post: Seq<RecordModel>,
    r: RecordModel,
    anchor_l: Seq<char>,
    labels0: Seq<Seq<char>>,
    lv: Seq<Seq<char>>,
    old_es: Seq<(usize, usize, u32)>,
    new_es: Seq<(usize, usize, u32)>,
    ia: usize,
    ib: usize,
    eidx: int,
    wnew: u32,
)
    requires
        post == pre.push(r),
        distinct_labels(lv),
        ia < lv.len(),
        ib < lv.len(),
        labels0.len() <= lv.len(),
        forall|j: int| 0 <= j < labels0.len() ==> lv[j] == labels0[j],
        classifies_to(r, anchor_l, lv[ia as int], lv[ib as int]),
        forall|e: int|
            0 <= e < old_es.len() ==> (#[trigger] old_es[e]).0 < labels0.len() && old_es[e].1
                < labels0.len(),
        forall|e: int, f: int|
            0 <= e < f < old_es.len() ==> !(old_es[e].0 == old_es[f].0 && old_es[e].1
                == old_es[f].1),
        forall|e: int|
            0 <= e < old_es.len() ==> (#[trigger] old_es[e]).2 == pair_weight(
                pre,
                anchor_l,
                labels0[old_es[e].0 as int],
                labels0[old_es[e].1 as int],
            ),
        forall|e: int|
            0 <= e < old_es.len() ==> pair_present(
                pre,
                anchor_l,
                labels0[(#[trigger] old_es[e]).0 as int],
                labels0[old_es[e].1 as int],
            ),
        forall|a: Seq<char>, b: Seq<char>|
            pair_present(pre, anchor_l, a, b) ==> edge_with_labels(labels0, old_es, a, b),
        0 <= eidx < new_es.len(),
        new_es[eidx] == (ia, ib, wnew),
        wnew == pair_weight(post, anchor_l, lv[ia as int], lv[ib as int]),
        new_es.len() == if eidx == old_es.len() {
            old_es.len() + 1
        } else {
            old_es.len()
        },
        forall|f: int| 0 <= f < new_es.len() && f != eidx ==> new_es[f] == old_es[f],
        forall|f: int|
            0 <= f < old_es.len() && f != eidx ==> !((#[trigger] old_es[f]).0 == ia && old_es[f].1
                == ib),
        eidx < old_es.len() ==> old_es[eidx].0 == ia && old_es[eidx].1 == ib,
    ensures
        forall|e: int|
            0 <= e < new_es.len() ==> (#[trigger] new_es[e]).0 < lv.len() && new_es[e].1
                < lv.len(),
        forall|e: int, f: int|
            0 <= e < f < new_es.len() ==> !(new_es[e].0 == new_es[f].0 && new_es[e].1
                == new_es[f].1),
        forall|e: int|
            0 <= e < new_es.len() ==> (#[trigger] new_es[e]).2 == pair_weight(
                post,
                anchor_l,
                lv[new_es[e].0 as int],
                lv[new_es[e].1 as int],
            ),
        forall|e: int|
            0 <= e < new_es.len() ==> pair_present(
                post,
                anchor_l,
                lv[(#[trigger] new_es[e]).0 as int],
                lv[new_es[e].1 as int],
            ),
        forall|a: Seq<char>, b: Seq<char>|
            pair_present(post, anchor_l, a, b) ==> edge_with_labels(lv, new_es, a, b),
{
    lemma_step_facts(pre, r, anchor_l);
    let aa = lv[ia as int];
    let bb = lv[ib as int];
    assert forall|e: int, f: int|
        0 <= e < f < new_es.len() implies !(new_es[e].0 == new_es[f].0 && new_es[e].1
        == new_es[f].1) by {
        if e != eidx && f != eidx {
        } else if e == eidx {
            assert(new_es[f] == old_es[f]);
        } else {
            assert(new_es[e] == old_es[e]);
        }
    }
    assert forall|e: int|
        0 <= e < new_es.len() implies (#[trigger] new_es[e]).2 == pair_weight(
        post,
        anchor_l,
        lv[new_es[e].0 as int],
        lv[new_es[e].1 as int],
    ) && pair_present(post, anchor_l, lv[new_es[e].0 as int], lv[new_es[e].1 as int]) by {
        if e == eidx {
            assert(classifies_to(post[pre.len() as int], anchor_l, aa, bb));
            assert(pair_present(post, anchor_l, aa, bb));
        } else {
            let a = lv[new_es[e].0 as int];
            let b = lv[new_es[e].1 as int];
            assert(new_es[e] == old_es[e]);
            assert(labels0[old_es[e].0 as int] == a);
            assert(labels0[old_es[e].1 as int] == b);
            assert(record_flow(r, anchor_l, a, b) == 0) by {
                if classifies_to(r, anchor_l, a, b) {
                    assert(a == aa && b == bb);
                    lemma_distinct_index(lv, old_es[e].0 as int, ia as int);
                    lemma_distinct_index(lv, old_es[e].1 as int, ib as int);
                }
            }
            assert(pair_weight(post, anchor_l, a, b) == pair_weight(pre, anchor_l, a, b));
        }
    }
    assert forall|a: Seq<char>, b: Seq<char>|
        pair_present(post, anchor_l, a, b) implies edge_with_labels(lv, new_es, a, b) by {
        if pair_present(pre, anchor_l, a, b) {
            assert(edge_with_labels(labels0, old_es, a, b));
            let f = choose|f: int|
                0 <= f < old_es.len() && labels0[(#[trigger] old_es[f]).0 as int] == a
                    && labels0[old_es[f].1 as int] == b;
            if f == eidx {
                assert(old_es[f].0 == ia && old_es[f].1 == ib);
                assert(labels0[ia as int] == lv[ia as int]);
                assert(labels0[ib as int] == lv[ib as int]);
                assert(a == aa && b == bb);
                assert(lv[(new_es[eidx]).0 as int] == a && lv[(new_es[eidx]).1 as int] == b);
            } else {
                assert(new_es[f] == old_es[f]);
                assert(lv[(new_es[f]).0 as int] == a && lv[(new_es[f]).1 as int] == b);
            }
        } else {
            assert(classifies_to(r, anchor_l, a, b));
            assert(a == aa && b == bb);
            assert(lv[(new_es[eidx]).0 as int] == a && lv[(new_es[eidx]).1 as int] == b);
        }
    }
}

/// Builds the passenger-flow graph against the fixed domestic anchor.
pub fn construct_graph(records: &[ActivityRecord]) -> (g: FlowGraph)
    requires
        records@.len() < 0xFFFF_FFFE,
        total_count(models(records@)) <= u32::MAX,
    ensures
        built_from(g, models(records@), anchor()),
{
    let a = anchor_label();
    build_flow_graph(records, &a)
}

} // verus!
