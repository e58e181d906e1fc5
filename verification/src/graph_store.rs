//! Directed-graph storage for the project graph and the action graph.
//!
//! Both graphs keep their structure in a `petgraph` directed graph whose
//! node weights are plain `u32` slots: the owner of the graph keeps the
//! payload (a project, an action) in a vector of its own, in lock-step with
//! the node indices. The petgraph calls stand behind trusted wrappers; the
//! contents of a graph are named by `store_node_slots` and `store_edge_pairs`,
//! and every wrapper's contract is stated over those two names.

use vstd::prelude::*;

verus! {

/// The one concrete graph type the crate stores: directed, `u32` node
/// weights, unit edge weights, `u32` indices (petgraph's default).
pub type StoreGraph = petgraph::graph::Graph<u32, (), petgraph::Directed, u32>;

#[verifier::external_type_specification]
#[verifier::external_body]
#[verifier::reject_recursive_types(N)]
#[verifier::reject_recursive_types(E)]
#[verifier::reject_recursive_types(Ty)]
#[verifier::reject_recursive_types(Ix)]
pub struct ExGraph<N, E, Ty, Ix>(petgraph::graph::Graph<N, E, Ty, Ix>);

#[verifier::external_type_specification]
#[verifier::external_body]
pub struct ExDirected(petgraph::Directed);

/// The node weights of `g`, in node-index order.
pub uninterp spec fn store_node_slots(g: StoreGraph) -> Seq<u32>;

/// The edges of `g` as (source index, target index), in insertion order.
pub uninterp spec fn store_edge_pairs(g: StoreGraph) -> Seq<(u32, u32)>;

/// The targets of the edges leaving node `a`, in edge-insertion order.
pub open spec fn out_targets(edges: Seq<(u32, u32)>, a: u32) -> Seq<u32>
    decreases edges.len(),
{
    if edges.len() == 0 {
        Seq::empty()
    } else if edges.last().0 == a {
        out_targets(edges.drop_last(), a).push(edges.last().1)
    } else {
        out_targets(edges.drop_last(), a)
    }
}

/// The sources of the edges entering node `b`, in edge-insertion order.
pub open spec fn in_sources(edges: Seq<(u32, u32)>, b: u32) -> Seq<u32>
    decreases edges.len(),
{
    if edges.len() == 0 {
        Seq::empty()
    } else if edges.last().1 == b {
        in_sources(edges.drop_last(), b).push(edges.last().0)
    } else {
        in_sources(edges.drop_last(), b)
    }
}

/// Edge targets distribute over concatenation of edge lists.
pub proof fn lemma_out_targets_concat(a: Seq<(u32, u32)>, b: Seq<(u32, u32)>, x: u32)
    ensures
        out_targets(a + b, x) == out_targets(a, x) + out_targets(b, x),
    decreases b.len(),
{
    if b.len() == 0 {
        assert(a + b =~= a);
        assert(out_targets(b, x) =~= Seq::<u32>::empty());
        assert(out_targets(a, x) + out_targets(b, x) =~= out_targets(a, x));
    } else {
        assert((a + b).drop_last() =~= a + b.drop_last());
        assert((a + b).last() == b.last());
        lemma_out_targets_concat(a, b.drop_last(), x);
        if b.last().0 == x {
            assert(out_targets(a, x) + out_targets(b, x) =~= (out_targets(a, x) + out_targets(
                b.drop_last(),
                x,
            )).push(b.last().1));
        }
    }
}

/// An edge target is listed exactly when the edge is present.
pub proof fn lemma_out_targets_membership(edges: Seq<(u32, u32)>, x: u32, t: u32)
    ensures
        out_targets(edges, x).contains(t) <==> edges.contains((x, t)),
    decreases edges.len(),
{
    if edges.len() == 0 {
    } else {
        lemma_out_targets_membership(edges.drop_last(), x, t);
        assert(edges.contains((x, t)) <==> (edges.last() == (x, t) || edges.drop_last().contains(
            (x, t),
        ))) by {
            if edges.contains((x, t)) {
                let i = choose|i: int| 0 <= i < edges.len() && edges[i] == (x, t);
                if i < edges.len() - 1 {
                    assert(edges.drop_last()[i] == (x, t));
                }
            }
            if edges.drop_last().contains((x, t)) {
                let i = choose|i: int|
                    0 <= i < edges.drop_last().len() && edges.drop_last()[i] == (x, t);
                assert(edges[i] == (x, t));
            }
        }
        if edges.last().0 == x {
            if edges.last().1 == t {
                assert(out_targets(edges, x).last() == t);
            } else {
                if out_targets(edges, x).contains(t) {
                    let j = choose|j: int|
                        0 <= j < out_targets(edges, x).len() && out_targets(edges, x)[j] == t;
                    if j < out_targets(edges, x).len() - 1 {
                        assert(out_targets(edges.drop_last(), x)[j] == t);
                    }
                }
                if out_targets(edges.drop_last(), x).contains(t) {
                    let j = choose|j: int|
                        0 <= j < out_targets(edges.drop_last(), x).len() && out_targets(
                            edges.drop_last(),
                            x,
                        )[j] == t;
                    assert(out_targets(edges, x)[j] == t);
                }
            }
        }
    }
}

/// An edge source is listed exactly when the edge is present.
pub proof fn lemma_in_sources_membership(edges: Seq<(u32, u32)>, y: u32, s: u32)
    ensures
        in_sources(edges, y).contains(s) <==> edges.contains((s, y)),
    decreases edges.len(),
{
    if edges.len() == 0 {
    } else {
        lemma_in_sources_membership(edges.drop_last(), y, s);
        assert(edges.contains((s, y)) <==> (edges.last() == (s, y) || edges.drop_last().contains(
            (s, y),
        ))) by {
            if edges.contains((s, y)) {
                let i = choose|i: int| 0 <= i < edges.len() && edges[i] == (s, y);
                if i < edges.len() - 1 {
                    assert(edges.drop_last()[i] == (s, y));
                }
            }
            if edges.drop_last().contains((s, y)) {
                let i = choose|i: int|
                    0 <= i < edges.drop_last().len() && edges.drop_last()[i] == (s, y);
                assert(edges[i] == (s, y));
            }
        }
        if edges.last().1 == y {
            if edges.last().0 == s {
                assert(in_sources(edges, y).last() == s);
            } else {
                if in_sources(edges, y).contains(s) {
                    let j = choose|j: int|
                        0 <= j < in_sources(edges, y).len() && in_sources(edges, y)[j] == s;
                    if j < in_sources(edges, y).len() - 1 {
                        assert(in_sources(edges.drop_last(), y)[j] == s);
                    }
                }
                if in_sources(edges.drop_last(), y).contains(s) {
                    let j = choose|j: int|
                        0 <= j < in_sources(edges.drop_last(), y).len() && in_sources(
                            edges.drop_last(),
                            y,
                        )[j] == s;
                    assert(in_sources(edges, y)[j] == s);
                }
            }
        }
    }
}

/// Distinct edges into one node come from distinct sources.
pub proof fn lemma_in_sources_no_dup(edges: Seq<(u32, u32)>, y: u32)
    requires
        forall|i: int, j: int| 0 <= i < j < edges.len() ==> edges[i] != edges[j],
    ensures
        forall|i: int, j: int|
            0 <= i < j < in_sources(edges, y).len() ==> in_sources(edges, y)[i] != in_sources(
                edges,
                y,
            )[j],
    decreases edges.len(),
{
    if edges.len() > 0 {
        let e = edges.drop_last();
        assert forall|i: int, j: int| 0 <= i < j < e.len() implies e[i] != e[j] by {
            assert(edges[i] != edges[j]);
        }
        lemma_in_sources_no_dup(e, y);
        if edges.last().1 == y {
            let s = edges.last().0;
            if in_sources(e, y).contains(s) {
                lemma_in_sources_membership(e, y, s);
                let i = choose|i: int| 0 <= i < e.len() && e[i] == (s, y);
                assert(edges[i] == (s, y));
                assert(edges[i] != edges.last());
                assert(false);
            }
            assert forall|i: int, j: int|
                0 <= i < j < in_sources(edges, y).len() implies in_sources(edges, y)[i]
                != in_sources(edges, y)[j] by {
                if j < in_sources(edges, y).len() - 1 {
                    assert(in_sources(e, y)[i] != in_sources(e, y)[j]);
                } else {
                    assert(in_sources(e, y).contains(in_sources(e, y)[i]));
                }
            }
        }
    }
}

/// Relies on petgraph's `Graph::new`: a fresh graph has no nodes and no edges.
#[verifier::external_body]
pub(crate) fn store_new() -> (g: StoreGraph)
    ensures
        store_node_slots(g) == Seq::<u32>::empty(),
        store_edge_pairs(g) == Seq::<(u32, u32)>::empty(),
{
    petgraph::graph::Graph::new()
}

/// Relies on petgraph's `Graph::add_node`: appends a node and returns its
/// index, which equals the prior node count. Panics only at the index
/// type's maximum node count, which the precondition rules out.
#[verifier::external_body]
pub(crate) fn store_add_node(g: &mut StoreGraph, slot: u32) -> (ix: usize)
    requires
        store_node_slots(*old(g)).len() < 0xFFFF_FFFF,
    ensures
        store_node_slots(*final(g)) == store_node_slots(*old(g)).push(slot),
        store_edge_pairs(*final(g)) == store_edge_pairs(*old(g)),
        ix == store_node_slots(*old(g)).len(),
{
    g.add_node(slot).index()
}

/// Relies on petgraph's `Graph::add_edge`: appends an edge from `a` to `b`.
/// Panics if either node does not exist or at the index type's maximum edge
/// count; the preconditions rule both out.
#[verifier::external_body]
pub(crate) fn store_add_edge(g: &mut StoreGraph, a: usize, b: usize)
    requires
        a < store_node_slots(*old(g)).len(),
        b < store_node_slots(*old(g)).len(),
        store_edge_pairs(*old(g)).len() < 0xFFFF_FFFF,
    ensures
        store_node_slots(*final(g)) == store_node_slots(*old(g)),
        store_edge_pairs(*final(g)) == store_edge_pairs(*old(g)).push(
            (a as u32, b as u32),
        ),
{
    g.add_edge(
        petgraph::graph::NodeIndex::new(a),
        petgraph::graph::NodeIndex::new(b),
        (),
    );
}

/// Relies on petgraph's `Graph::neighbors_directed` with `Outgoing`: all
/// edge targets from `a`, listed in reverse order of edge addition; empty
/// if the node does not exist.
#[verifier::external_body]
pub(crate) fn store_neighbors_out(g: &StoreGraph, a: usize) -> (r: Vec<usize>)
    ensures
        r@ == out_targets(store_edge_pairs(*g), a as u32).reverse().map_values(
            |t: u32| t as usize,
        ),
{
    g.neighbors_directed(petgraph::graph::NodeIndex::new(a), petgraph::Direction::Outgoing)
        .map(|n| n.index())
        .collect()
}

/// Relies on petgraph's `Graph::neighbors_directed` with `Incoming`: all
/// edge sources into `b`, listed in reverse order of edge addition; empty
/// if the node does not exist.
#[verifier::external_body]
pub(crate) fn store_neighbors_in(g: &StoreGraph, b: usize) -> (r: Vec<usize>)
    ensures
        r@ == in_sources(store_edge_pairs(*g), b as u32).reverse().map_values(
            |s: u32| s as usize,
        ),
{
    g.neighbors_directed(petgraph::graph::NodeIndex::new(b), petgraph::Direction::Incoming)
        .map(|n| n.index())
        .collect()
}

} // verus!
