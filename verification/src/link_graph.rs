//! The directed graph of the mesh, kept in a `petgraph` graph whose node
//! weights are node identifiers and whose edge weights are link weights.
//!
//! Nodes and edges are addressed by their positions (`u32` indices) in the
//! graph. Removing an edge or a node moves the last one into the freed
//! position, as petgraph documents.
use vstd::prelude::*;
use petgraph::graph::Graph;
use petgraph::Directed;
use petgraph::visit::EdgeRef;
use crate::routing::LinkWeight;

verus! {

#[verifier::external_type_specification]
#[verifier::external_body]
#[verifier::reject_recursive_types(N)]
#[verifier::reject_recursive_types(E)]
#[verifier::reject_recursive_types(Ty)]
#[verifier::reject_recursive_types(Ix)]
pub struct ExPetGraph<N, E, Ty, Ix>(Graph<N, E, Ty, Ix>);

#[verifier::external_type_specification]
#[verifier::external_body]
pub struct ExPetDirected(Directed);

/// The identifiers held by the graph's nodes, by node index.
pub uninterp spec fn graph_node_names(g: Graph<String, LinkWeight, Directed, u32>) -> Seq<Seq<char>>;

/// The graph's edges, by edge index: source index, target index, hop cost
/// and round-trip time of the link weight.
pub uninterp spec fn graph_edge_list(g: Graph<String, LinkWeight, Directed, u32>) -> Seq<(u32, u32, u32, u64)>;

/// `Graph::new`: a graph without nodes or edges.
#[verifier::external_body]
pub(crate) fn graph_new() -> (g: Graph<String, LinkWeight, Directed, u32>)
    ensures
        graph_node_names(g) == Seq::<Seq<char>>::empty(),
        graph_edge_list(g) == Seq::<(u32, u32, u32, u64)>::empty(),
{
    Graph::new()
}

/// `Graph::node_count`: the number of nodes.
#[verifier::external_body]
pub(crate) fn graph_node_count(g: &Graph<String, LinkWeight, Directed, u32>) -> (n: usize)
    ensures
        n == graph_node_names(*g).len(),
{
    g.node_count()
}

/// `Graph::edge_count`: the number of edges.
#[verifier::external_body]
pub(crate) fn graph_edge_count(g: &Graph<String, LinkWeight, Directed, u32>) -> (n: usize)
    ensures
        n == graph_edge_list(*g).len(),
{
    g.edge_count()
}

/// `Graph::add_node`: appends a node and returns its index. Petgraph panics
/// when the index would be `u32::MAX`, which `requires` leaves out.
#[verifier::external_body]
pub(crate) fn graph_add_node(g: &mut Graph<String, LinkWeight, Directed, u32>, name: String) -> (ix: u32)
    requires
        graph_node_names(*old(g)).len() < u32::MAX,
    ensures
        graph_node_names(*final(g)) == graph_node_names(*old(g)).push(name@),
        graph_edge_list(*final(g)) == graph_edge_list(*old(g)),
        ix == graph_node_names(*old(g)).len(),
{
    g.add_node(name).index() as u32
}

/// Indexing a node (`graph[ix]`), cloned: the identifier at that index.
#[verifier::external_body]
pub(crate) fn graph_node_name(g: &Graph<String, LinkWeight, Directed, u32>, ix: u32) -> (name: String)
    requires
        ix < graph_node_names(*g).len(),
    ensures
        name@ == graph_node_names(*g)[ix as int],
{
    g[petgraph::graph::NodeIndex::new(ix as usize)].clone()
}

/// Whether the edge list holds an edge from `a` to `b`.
pub open spec fn has_edge_between(edges: Seq<(u32, u32, u32, u64)>, a: u32, b: u32) -> bool {
    exists|i: int| 0 <= i < edges.len() && (#[trigger] edges[i]).0 == a && edges[i].1 == b
}

/// `Graph::update_edge`: if an edge from `a` to `b` exists, one such edge
/// gets the new weight in place; otherwise a new edge is appended. The
/// index of the affected edge is returned. Both nodes must exist, and a new
/// edge needs the edge count below `u32::MAX`, else petgraph panics.
#[verifier::external_body]
pub(crate) fn graph_update_edge(
    g: &mut Graph<String, LinkWeight, Directed, u32>,
    a: u32,
    b: u32,
    w: LinkWeight,
) -> (e: u32)
    requires
        a < graph_node_names(*old(g)).len(),
        b < graph_node_names(*old(g)).len(),
        has_edge_between(graph_edge_list(*old(g)), a, b) || graph_edge_list(*old(g)).len() < u32::MAX,
    ensures
        graph_node_names(*final(g)) == graph_node_names(*old(g)),
        has_edge_between(graph_edge_list(*old(g)), a, b) ==> {
            &&& e < graph_edge_list(*old(g)).len()
            &&& graph_edge_list(*old(g))[e as int].0 == a
            &&& graph_edge_list(*old(g))[e as int].1 == b
            &&& graph_edge_list(*final(g)) == graph_edge_list(*old(g)).update(
                e as int,
                (a, b, w.hop_cost, w.rtt_micros),
            )
        },
        !has_edge_between(graph_edge_list(*old(g)), a, b) ==> {
            &&& e == graph_edge_list(*old(g)).len()
            &&& graph_edge_list(*final(g)) == graph_edge_list(*old(g)).push(
                (a, b, w.hop_cost, w.rtt_micros),
            )
        },
{
    g.update_edge(
        petgraph::graph::NodeIndex::new(a as usize),
        petgraph::graph::NodeIndex::new(b as usize),
        w,
    ).index() as u32
}

/// `Graph::find_edge`: the index of an edge from `a` to `b`, if any.
#[verifier::external_body]
pub(crate) fn graph_find_edge(g: &Graph<String, LinkWeight, Directed, u32>, a: u32, b: u32) -> (e: Option<u32>)
    requires
        a < graph_node_names(*g).len(),
    ensures
        match e {
            Some(i) => i < graph_edge_list(*g).len() && graph_edge_list(*g)[i as int].0 == a
                && graph_edge_list(*g)[i as int].1 == b,
            None => !has_edge_between(graph_edge_list(*g), a, b),
        },
{
    g.find_edge(
        petgraph::graph::NodeIndex::new(a as usize),
        petgraph::graph::NodeIndex::new(b as usize),
    ).map(|e| e.index() as u32)
}

/// `Graph::remove_edge`: removes the edge at index `e`; the last edge takes
/// its index.
#[verifier::external_body]
pub(crate) fn graph_remove_edge(g: &mut Graph<String, LinkWeight, Directed, u32>, e: u32)
    requires
        e < graph_edge_list(*old(g)).len(),
    ensures
        graph_node_names(*final(g)) == graph_node_names(*old(g)),
        graph_edge_list(*final(g)) == graph_edge_list(*old(g)).update(
            e as int,
            graph_edge_list(*old(g)).last(),
        ).drop_last(),
{
    g.remove_edge(petgraph::graph::EdgeIndex::new(e as usize));
}

/// The index an edge endpoint had before node `a` was removed from a graph
/// of `count` nodes: the last node took over index `a`.
pub open spec fn index_before_removal(x: u32, a: u32, count: nat) -> u32 {
    if x == a {
        (count - 1) as u32
    } else {
        x
    }
}

/// `Graph::remove_node`: removes node `a` and every edge into or out of it;
/// the last node takes index `a`, and the edges are reordered. As a
/// multiset, the new edge list holds exactly the old edges that did not
/// touch `a`, renumbered.
#[verifier::external_body]
pub(crate) fn graph_remove_node(g: &mut Graph<String, LinkWeight, Directed, u32>, a: u32)
    requires
        a < graph_node_names(*old(g)).len(),
    ensures
        graph_node_names(*final(g)) == graph_node_names(*old(g)).update(
            a as int,
            graph_node_names(*old(g)).last(),
        ).drop_last(),
        graph_edge_list(*final(g)).len() <= graph_edge_list(*old(g)).len(),
        forall|q: (u32, u32, u32, u64)|
            #[trigger] graph_edge_list(*final(g)).to_multiset().count(q) == if q.0 < graph_node_names(
                *old(g),
            ).len() - 1 && q.1 < graph_node_names(*old(g)).len() - 1 {
                graph_edge_list(*old(g)).to_multiset().count(
                    (
                        index_before_removal(q.0, a, graph_node_names(*old(g)).len()),
                        index_before_removal(q.1, a, graph_node_names(*old(g)).len()),
                        q.2,
                        q.3,
                    ),
                )
            } else {
                0
            },
{
    g.remove_node(petgraph::graph::NodeIndex::new(a as usize));
}

/// `Graph::edge_references`: every edge, in index order.
#[verifier::external_body]
pub(crate) fn graph_edges(g: &Graph<String, LinkWeight, Directed, u32>) -> (edges: Vec<(u32, u32, u32, u64)>)
    ensures
        edges@ == graph_edge_list(*g),
{
    g.edge_references().map(|e| (e.source().index() as u32, e.target().index() as u32, e.weight().hop_cost, e.weight().rtt_micros)).collect()
}

} // verus!
