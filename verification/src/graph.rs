//! The directed graph in which a search keeps the tree nodes it has seen.
//!
//! The graph itself is petgraph's `StableGraph`. What it holds is known here
//! through four quantities, and each call into it is stated over them.

use petgraph::graph::NodeIndex;
use petgraph::stable_graph::StableGraph;
use petgraph::Directed;
use vstd::prelude::*;

verus! {

#[verifier::external_type_specification]
#[verifier::external_body]
#[verifier::reject_recursive_types(N)]
#[verifier::reject_recursive_types(E)]
#[verifier::reject_recursive_types(Ty)]
#[verifier::reject_recursive_types(Ix)]
pub struct ExStableGraph<N, E, Ty, Ix>(StableGraph<N, E, Ty, Ix>);

#[verifier::external_type_specification]
#[verifier::external_body]
pub struct ExDirected(Directed);

/// The nodes of `g`: for each index of a node that is there, the path it
/// stands for.
pub uninterp spec fn graph_weights(g: StableGraph<Vec<Vec<u8>>, (), Directed, u32>) -> Map<
    int,
    Seq<Seq<u8>>,
>;

/// The edges of `g`: for each node that is there, the nodes its outgoing edges
/// lead to, the edge added last first.
pub uninterp spec fn graph_successors(g: StableGraph<Vec<Vec<u8>>, (), Directed, u32>) -> Map<
    int,
    Seq<int>,
>;

/// How many node indices `g` has handed out, those of removed nodes included.
pub uninterp spec fn graph_node_slots(g: StableGraph<Vec<Vec<u8>>, (), Directed, u32>) -> nat;

/// How many edge indices `g` has handed out, those of removed edges included.
pub uninterp spec fn graph_edge_slots(g: StableGraph<Vec<Vec<u8>>, (), Directed, u32>) -> nat;

/// The largest number of node or edge indices a graph hands out: one index is
/// kept back to mean "none".
pub const GRAPH_LIMIT: usize = 0xffff_fffe;

/// Calls `StableGraph::new`.
///
/// Believed of it: the new graph has no node and no edge and has handed out no
/// index.
#[verifier::external_body]
pub(crate) fn graph_new() -> (g: StableGraph<Vec<Vec<u8>>, (), Directed, u32>)
    ensures
        graph_weights(g).dom() =~= Set::<int>::empty(),
        graph_successors(g).dom() =~= Set::<int>::empty(),
        graph_node_slots(g) == 0,
        graph_edge_slots(g) == 0,
{
    StableGraph::new()
}

/// Calls `StableGraph::add_node`, which panics in a graph that has handed out
/// every node index it has.
///
/// Believed of it: the node is new and has no edges; its index is one the
/// graph has handed out by now, at most one more than before; and nothing
/// else changes.
#[verifier::external_body]
pub(crate) fn graph_add_node(
    g: &mut StableGraph<Vec<Vec<u8>>, (), Directed, u32>,
    weight: Vec<Vec<u8>>,
) -> (node: usize)
    requires
        graph_node_slots(*old(g)) <= GRAPH_LIMIT,
    ensures
        !graph_weights(*old(g)).dom().contains(node as int),
        graph_weights(*final(g)) == graph_weights(*old(g)).insert(node as int, weight.deep_view()),
        graph_successors(*final(g)) == graph_successors(*old(g)).insert(
            node as int,
            Seq::<int>::empty(),
        ),
        node < graph_node_slots(*final(g)),
        graph_node_slots(*old(g)) <= graph_node_slots(*final(g)) <= graph_node_slots(*old(g)) + 1,
        graph_edge_slots(*final(g)) == graph_edge_slots(*old(g)),
{
    g.add_node(weight).index()
}

/// Calls `StableGraph::add_edge`, which panics where one of the two nodes is
/// not there and in a graph that has handed out every edge index it has.
///
/// Believed of it: the edge becomes the first of the outgoing edges of `from`,
/// at most one more edge index is handed out, and nothing else changes.
#[verifier::external_body]
pub(crate) fn graph_add_edge(
    g: &mut StableGraph<Vec<Vec<u8>>, (), Directed, u32>,
    from: usize,
    to: usize,
)
    requires
        graph_weights(*old(g)).dom().contains(from as int),
        graph_weights(*old(g)).dom().contains(to as int),
        from <= GRAPH_LIMIT,
        to <= GRAPH_LIMIT,
        graph_edge_slots(*old(g)) <= GRAPH_LIMIT,
    ensures
        graph_weights(*final(g)) == graph_weights(*old(g)),
        graph_successors(*final(g)) == graph_successors(*old(g)).insert(
            from as int,
            seq![to as int] + graph_successors(*old(g))[from as int],
        ),
        graph_node_slots(*final(g)) == graph_node_slots(*old(g)),
        graph_edge_slots(*old(g)) <= graph_edge_slots(*final(g)) <= graph_edge_slots(*old(g)) + 1,
{
    g.add_edge(NodeIndex::new(from), NodeIndex::new(to), ());
}

/// Calls `StableGraph::node_weight` and copies what it finds.
///
/// Believed of it: it finds the path of the node `node` exactly where that
/// node is there.
#[verifier::external_body]
pub(crate) fn graph_node_weight(g: &StableGraph<Vec<Vec<u8>>, (), Directed, u32>, node: usize) -> (r:
    Option<Vec<Vec<u8>>>)
    requires
        node <= GRAPH_LIMIT,
    ensures
        match r {
            Some(weight) => graph_weights(*g).dom().contains(node as int) && weight.deep_view()
                == graph_weights(*g)[node as int],
            None => !graph_weights(*g).dom().contains(node as int),
        },
{
    g.node_weight(NodeIndex::new(node)).cloned()
}

/// Calls `StableGraph::neighbors` and collects the indices it walks over.
///
/// Believed of it: it walks over the targets of the outgoing edges of `node`,
/// the edge added last first, and over nothing where the node is not there.
#[verifier::external_body]
pub(crate) fn graph_neighbors(g: &StableGraph<Vec<Vec<u8>>, (), Directed, u32>, node: usize) -> (r:
    Vec<usize>)
    requires
        node <= GRAPH_LIMIT,
    ensures
        r@.len() == if graph_weights(*g).dom().contains(node as int) {
            graph_successors(*g)[node as int].len()
        } else {
            0
        },
        forall|k: int| 0 <= k < r@.len() ==> r@[k] as int == graph_successors(*g)[node as int][k],
{
    g.neighbors(NodeIndex::new(node)).map(|n| n.index()).collect()
}

} // verus!
