//! The storage of the network: petgraph's stable graph, whose indices survive
//! the removal of other items. Nothing here is proved; each contract restates
//! what petgraph's source shows of the method it calls.

use vstd::prelude::*;
use petgraph::graph::{EdgeIndex, NodeIndex};
use petgraph::stable_graph::StableGraph;
use petgraph::Undirected;

verus! {

/// petgraph's `StableGraph`, of which nothing is known but what the
/// contracts below say.
#[verifier::external_type_specification]
#[verifier::external_body]
#[verifier::reject_recursive_types(N)]
#[verifier::reject_recursive_types(E)]
#[verifier::reject_recursive_types(Ty)]
#[verifier::reject_recursive_types(Ix)]
pub struct ExStableGraph<N, E, Ty, Ix>(StableGraph<N, E, Ty, Ix>);

/// petgraph's marker `Undirected` for graphs whose edges have no direction.
#[verifier::external_type_specification]
#[verifier::external_body]
pub struct ExUndirected(Undirected);

/// The nodes a graph holds: each live index with what is stored there, two
/// coordinates and a generation.
pub uninterp spec fn graph_nodes(g: StableGraph<(i32, i32, u64), u64, Undirected, u32>) -> Map<
    u32,
    (i32, i32, u64),
>;

/// The edges a graph holds: each live index with the two node indices the
/// edge was added with, in that order, and the generation stored with it.
pub uninterp spec fn graph_edges(g: StableGraph<(i32, i32, u64), u64, Undirected, u32>) -> Map<
    u32,
    (u32, u32, u64),
>;

/// The edges among `edges` that do not end at node `a`.
pub open spec fn edges_clear_of(edges: Map<u32, (u32, u32, u64)>, a: u32) -> Map<
    u32,
    (u32, u32, u64),
> {
    Map::new(
        |e: u32| edges.contains_key(e) && edges[e].0 != a && edges[e].1 != a,
        |e: u32| edges[e],
    )
}

/// `StableGraph::with_capacity`: the result holds no node and no edge.
#[verifier::external_body]
pub(crate) fn graph_new() -> (g: StableGraph<(i32, i32, u64), u64, Undirected, u32>)
    ensures
        (graph_nodes(g) == Map::<u32, (i32, i32, u64)>::empty()),
        (graph_edges(g) == Map::<u32, (u32, u32, u64)>::empty()),
{
    StableGraph::with_capacity(0, 0)
}

/// `StableGraph::node_count`: the number of live nodes.
#[verifier::external_body]
pub(crate) fn graph_node_count(g: &StableGraph<(i32, i32, u64), u64, Undirected, u32>) -> (n: usize)
    ensures
        n == graph_nodes(*g).dom().len(),
{
    g.node_count()
}

/// `StableGraph::edge_count`: the number of live edges.
#[verifier::external_body]
pub(crate) fn graph_edge_count(g: &StableGraph<(i32, i32, u64), u64, Undirected, u32>) -> (n: usize)
    ensures
        n == graph_edges(*g).dom().len(),
{
    g.edge_count()
}

/// `StableGraph::add_node`: stores the coordinates and the generation under
/// an index that was not live, either a slot freed by a removal or the next
/// one; which of them is not claimed. Nothing else changes. It panics once
/// every index of `u32` but the last is taken, which the bound on the live
/// nodes rules out, so the call is taken not to unwind.
#[verifier::external_body]
pub(crate) fn graph_add_node(
    g: &mut StableGraph<(i32, i32, u64), u64, Undirected, u32>,
    x: i32,
    y: i32,
    generation: u64,
) -> (id: u32)
    requires
        graph_nodes(*old(g)).dom().len() < u32::MAX,
    ensures
        !graph_nodes(*old(g)).contains_key(id),
        graph_nodes(*final(g)) == graph_nodes(*old(g)).insert(id, (x, y, generation)),
        graph_edges(*final(g)) == graph_edges(*old(g)),
    no_unwind
{
    g.add_node((x, y, generation)).index() as u32
}

/// `StableGraph::add_edge`: stores an edge from `a` to `b`, with the
/// generation, under an index that was not live; which one is not claimed.
/// Nothing else changes. It panics where an endpoint is not a live node or
/// the edge indices are used up, which the conditions rule out, so the call
/// is taken not to unwind.
#[verifier::external_body]
pub(crate) fn graph_add_edge(
    g: &mut StableGraph<(i32, i32, u64), u64, Undirected, u32>,
    a: u32,
    b: u32,
    generation: u64,
) -> (id: u32)
    requires
        graph_nodes(*old(g)).contains_key(a),
        graph_nodes(*old(g)).contains_key(b),
        graph_edges(*old(g)).dom().len() < u32::MAX,
    ensures
        !graph_edges(*old(g)).contains_key(id),
        graph_edges(*final(g)) == graph_edges(*old(g)).insert(id, (a, b, generation)),
        graph_nodes(*final(g)) == graph_nodes(*old(g)),
    no_unwind
{
    g.add_edge(NodeIndex::new(a as usize), NodeIndex::new(b as usize), generation).index() as u32
}

/// `StableGraph::remove_edge`: takes the edge out if it is live and returns
/// the generation that was stored with it; nothing for any other index. No
/// other edge and no node changes. Its source has no panic on any index, so
/// the call is taken not to unwind.
#[verifier::external_body]
pub(crate) fn graph_remove_edge(
    g: &mut StableGraph<(i32, i32, u64), u64, Undirected, u32>,
    e: u32,
) -> (stored: Option<u64>)
    ensures
        stored == if graph_edges(*old(g)).contains_key(e) {
            Some(graph_edges(*old(g))[e].2)
        } else {
            None
        },
        graph_edges(*final(g)) == graph_edges(*old(g)).remove(e),
        graph_nodes(*final(g)) == graph_nodes(*old(g)),
    no_unwind
{
    g.remove_edge(EdgeIndex::new(e as usize))
}

/// `StableGraph::remove_node`: takes a live node out, together with every
/// edge that has it as an endpoint, and returns what was stored there; for
/// an index that is not live it returns nothing and changes nothing. Its
/// source has no panic on any index, so the call is taken not to unwind.
#[verifier::external_body]
pub(crate) fn graph_remove_node(
    g: &mut StableGraph<(i32, i32, u64), u64, Undirected, u32>,
    a: u32,
) -> (stored: Option<(i32, i32, u64)>)
    ensures
        stored == if graph_nodes(*old(g)).contains_key(a) {
            Some(graph_nodes(*old(g))[a])
        } else {
            None
        },
        graph_nodes(*final(g)) == graph_nodes(*old(g)).remove(a),
        graph_edges(*final(g)) == if graph_nodes(*old(g)).contains_key(a) {
            edges_clear_of(graph_edges(*old(g)), a)
        } else {
            graph_edges(*old(g))
        },
    no_unwind
{
    g.remove_node(NodeIndex::new(a as usize))
}

/// `StableGraph::node_weight`: what is stored at a live node, nothing for
/// any other index.
#[verifier::external_body]
pub(crate) fn graph_node_weight(
    g: &StableGraph<(i32, i32, u64), u64, Undirected, u32>,
    a: u32,
) -> (stored: Option<(i32, i32, u64)>)
    ensures
        stored == if graph_nodes(*g).contains_key(a) {
            Some(graph_nodes(*g)[a])
        } else {
            None
        },
{
    g.node_weight(NodeIndex::new(a as usize)).copied()
}

/// `StableGraph::edge_endpoints`: the two ends of a live edge, in the order
/// they were given when it was added; nothing for any other index.
#[verifier::external_body]
pub(crate) fn graph_edge_endpoints(
    g: &StableGraph<(i32, i32, u64), u64, Undirected, u32>,
    e: u32,
) -> (ends: Option<(u32, u32)>)
    ensures
        ends == if graph_edges(*g).contains_key(e) {
            Some((graph_edges(*g)[e].0, graph_edges(*g)[e].1))
        } else {
            None
        },
{
    g.edge_endpoints(EdgeIndex::new(e as usize)).map(|(a, b)| (a.index() as u32, b.index() as u32))
}

/// `StableGraph::edge_weight`: the generation stored with a live edge;
/// nothing for any other index.
#[verifier::external_body]
pub(crate) fn graph_edge_weight(
    g: &StableGraph<(i32, i32, u64), u64, Undirected, u32>,
    e: u32,
) -> (stored: Option<u64>)
    ensures
        stored == if graph_edges(*g).contains_key(e) {
            Some(graph_edges(*g)[e].2)
        } else {
            None
        },
{
    g.edge_weight(EdgeIndex::new(e as usize)).copied()
}

/// `StableGraph::node_indices`: every live node index once, in rising order.
#[verifier::external_body]
pub(crate) fn graph_node_indices(g: &StableGraph<(i32, i32, u64), u64, Undirected, u32>) -> (ids: Vec<u32>)
    ensures
        forall|i: int, j: int| 0 <= i < j < ids@.len() ==> ids@[i] < ids@[j],
        forall|k: u32| #[trigger] graph_nodes(*g).contains_key(k) <==> ids@.contains(k),
{
    g.node_indices().map(|i| i.index() as u32).collect()
}

/// `StableGraph::edge_indices`: every live edge index once, in rising order.
#[verifier::external_body]
pub(crate) fn graph_edge_indices(g: &StableGraph<(i32, i32, u64), u64, Undirected, u32>) -> (ids: Vec<u32>)
    ensures
        forall|i: int, j: int| 0 <= i < j < ids@.len() ==> ids@[i] < ids@[j],
        forall|k: u32| #[trigger] graph_edges(*g).contains_key(k) <==> ids@.contains(k),
{
    g.edge_indices().map(|i| i.index() as u32).collect()
}

} // verus!
