//! The graph of a depth-first search: the tree nodes seen so far, each with
//! the path it stands for, and an edge from a node to each child found for it.

use crate::entries::{Component, Path};
use crate::errors::{IndexError, MSG_GRAPH_FULL, MSG_NO_NODE};
use crate::graph::{graph_add_edge, graph_add_node, graph_edge_slots, graph_neighbors, graph_new,
    graph_node_slots, graph_node_weight, graph_successors, graph_weights, GRAPH_LIMIT};
use crate::paths::{clone_path, path_prefix};
use petgraph::stable_graph::StableGraph;
use petgraph::Directed;
use vstd::prelude::*;

verus! {

/// What a node of the graph holds: the components of the path it stands for.
#[derive(Clone, Debug)]
pub struct GraphTimeItem(pub Vec<Component>);

impl GraphTimeItem {
    /// The components of the path this node stands for, each read for what it
    /// is.
    pub fn fields(&self) -> (r: crate::errors::IndexResult<Vec<crate::conversions::PathField>>)
        ensures
            crate::conversions::reads_as(self.0.deep_view(), r),
    {
        let path = crate::entries::WrappedPath(clone_path(&self.0));
        assert(path.0.deep_view() == self.0.deep_view());
        assert(path.0@.len() == path.0.deep_view().len() == self.0@.len());
        path.fields()
    }
}

/// What a graph holds, as mathematics: the path of each node, and for each
/// node the nodes its edges lead to, the edge added last first.
pub struct GraphModel {
    pub weights: Map<int, Seq<Seq<u8>>>,
    pub successors: Map<int, Seq<int>>,
}

impl GraphModel {
    /// The graph without nodes.
    pub open spec fn empty() -> GraphModel {
        GraphModel { weights: Map::empty(), successors: Map::empty() }
    }

    /// This graph with the new node `node` that holds `weight` and has no edge.
    pub open spec fn add_root(self, node: int, weight: Seq<Seq<u8>>) -> GraphModel {
        GraphModel {
            weights: self.weights.insert(node, weight),
            successors: self.successors.insert(node, Seq::empty()),
        }
    }

    /// This graph with the new node `node` that holds `weight`, and an edge to
    /// it that becomes the first edge of `parent`.
    pub open spec fn add_child(self, parent: int, node: int, weight: Seq<Seq<u8>>) -> GraphModel {
        GraphModel {
            weights: self.weights.insert(node, weight),
            successors: self.successors.insert(node, Seq::empty()).insert(
                parent,
                seq![node] + self.successors.insert(node, Seq::empty())[parent],
            ),
        }
    }

    /// This graph with the new nodes `nodes`, which hold `weights` in turn,
    /// each hung from `parent`.
    pub open spec fn add_children(self, parent: int, nodes: Seq<int>, weights: Seq<Seq<Seq<u8>>>)
        -> GraphModel
        decreases nodes.len(),
    {
        if nodes.len() == 0 || weights.len() == 0 {
            self
        } else {
            self.add_children(parent, nodes.drop_last(), weights.drop_last()).add_child(
                parent,
                nodes.last(),
                weights.last(),
            )
        }
    }

    /// This graph with the new nodes `nodes`, which hold `weights` in turn,
    /// the first without an edge to it and each later one hung from the one
    /// before it.
    pub open spec fn add_chain(self, nodes: Seq<int>, weights: Seq<Seq<Seq<u8>>>) -> GraphModel
        decreases nodes.len(),
    {
        if nodes.len() == 0 || weights.len() == 0 {
            self
        } else if nodes.len() == 1 {
            self.add_root(nodes.last(), weights.last())
        } else {
            self.add_chain(nodes.drop_last(), weights.drop_last()).add_child(
                nodes[nodes.len() - 2],
                nodes.last(),
                weights.last(),
            )
        }
    }

    /// Every node has a list of edges, and every edge leads to a node.
    pub open spec fn closed(self) -> bool {
        &&& self.successors.dom() == self.weights.dom()
        &&& forall|n: int, k: int|
            self.weights.dom().contains(n) && 0 <= k < self.successors[n].len()
                ==> self.weights.dom().contains(#[trigger] self.successors[n][k])
    }
}

/// The prefixes of `path` that are longer than `depth`, shortest first.
pub open spec fn prefixes_beyond(path: Seq<Seq<u8>>, depth: nat) -> Seq<Seq<Seq<u8>>> {
    Seq::new(
        if path.len() > depth { (path.len() - depth) as nat } else { 0 },
        |k: int| path.subrange(0, depth + k + 1),
    )
}

/// The state of a search: the graph, and how many nodes and edges have been put
/// into it.
pub struct SearchState {
    pub graph: StableGraph<Vec<Vec<u8>>, (), Directed, u32>,
    pub nodes: usize,
    pub edges: usize,
}

impl SearchState {
    pub open spec fn model(self) -> GraphModel {
        GraphModel { weights: graph_weights(self.graph), successors: graph_successors(self.graph) }
    }

    /// The graph is closed, its nodes have indices below the count of nodes put
    /// in, and the counts bound what the graph has handed out.
    pub open spec fn wf(self) -> bool {
        &&& self.model().closed()
        &&& graph_node_slots(self.graph) <= self.nodes <= GRAPH_LIMIT + 1
        &&& graph_edge_slots(self.graph) <= self.edges <= GRAPH_LIMIT + 1
        &&& forall|n: int| #[trigger]
            self.model().weights.dom().contains(n) ==> 0 <= n < graph_node_slots(self.graph)
    }

    /// Whether `count` more nodes, each with an edge to it, fit in.
    pub open spec fn has_room(self, count: nat) -> bool {
        self.nodes + count <= GRAPH_LIMIT + 1 && self.edges + count <= GRAPH_LIMIT + 1
    }

    /// An empty graph.
    pub fn new() -> (s: SearchState)
        ensures
            s.wf(),
            s.nodes == 0,
            s.edges == 0,
            s.model() == GraphModel::empty(),
    {
        let s = SearchState { graph: graph_new(), nodes: 0, edges: 0 };
        assert(s.model().weights =~= Map::<int, Seq<Seq<u8>>>::empty());
        assert(s.model().successors =~= Map::<int, Seq<int>>::empty());
        s
    }

    /// The path that the node `node` stands for, if the node is there.
    pub fn node_weight(&self, node: usize) -> (r: Option<GraphTimeItem>)
        requires
            self.wf(),
        ensures
            match r {
                Some(item) => self.model().weights.dom().contains(node as int)
                    && item.0.deep_view() == self.model().weights[node as int],
                None => !self.model().weights.dom().contains(node as int),
            },
    {
        if node > GRAPH_LIMIT {
            return None;
        }
        match graph_node_weight(&self.graph, node) {
            Some(weight) => Some(GraphTimeItem(weight)),
            None => None,
        }
    }

    /// The nodes that the edges of `node` lead to, the edge added last first.
    pub fn successors(&self, node: usize) -> (r: Vec<usize>)
        requires
            self.wf(),
        ensures
            r@.len() == if self.model().weights.dom().contains(node as int) {
                self.model().successors[node as int].len()
            } else {
                0
            },
            forall|k: int|
                0 <= k < r@.len() ==> r@[k] as int == self.model().successors[node as int][k],
            forall|k: int|
                0 <= k < r@.len() ==> self.model().weights.dom().contains(#[trigger] r@[k] as int),
    {
        if node > GRAPH_LIMIT {
            return Vec::new();
        }
        let r = graph_neighbors(&self.graph, node);
        assert forall|k: int| 0 <= k < r@.len() implies self.model().weights.dom().contains(
            #[trigger] r@[k] as int,
        ) by {
            assert(self.model().weights.dom().contains(
                self.model().successors[node as int][k],
            ));
        }
        r
    }

    /// Puts a node that holds `weight` into the graph, hung from `parent` where
    /// one is given.
    fn add_node_under(&mut self, weight: Path, parent: Option<usize>) -> (node: usize)
        requires
            old(self).wf(),
            old(self).has_room(1),
            parent is Some ==> old(self).model().weights.dom().contains(parent.unwrap() as int),
        ensures
            final(self).wf(),
            final(self).nodes == old(self).nodes + 1,
            final(self).edges == old(self).edges + if parent is Some { 1int } else { 0int },
            !old(self).model().weights.dom().contains(node as int),
            final(self).model() == match parent {
                Some(p) => old(self).model().add_child(p as int, node as int, weight.deep_view()),
                None => old(self).model().add_root(node as int, weight.deep_view()),
            },
    {
        let node = graph_add_node(&mut self.graph, weight);
        self.nodes = self.nodes + 1;
        match parent {
            Some(p) => {
                graph_add_edge(&mut self.graph, p, node);
                self.edges = self.edges + 1;
                assert(self.model().successors =~= old(self).model().add_child(
                    p as int,
                    node as int,
                    weight.deep_view(),
                ).successors);
                assert(self.model().closed()) by {
                    let before = old(self).model();
                    let after = self.model();
                    assert(after.successors.dom() =~= after.weights.dom());
                    assert forall|n: int, k: int|
                        after.weights.dom().contains(n) && 0 <= k < after.successors[n].len()
                        implies after.weights.dom().contains(#[trigger] after.successors[n][k]) by {
                        if n == p {
                            if k > 0 {
                                assert(after.successors[n][k] == before.successors[n][k - 1]);
                                assert(before.weights.dom().contains(before.successors[n][k - 1]));
                            }
                        } else if n == node {
                        } else {
                            assert(before.weights.dom().contains(before.successors[n][k]));
                        }
                    }
                }
            },
            None => {
                assert(self.model().closed()) by {
                    let before = old(self).model();
                    let after = self.model();
                    assert(after.successors.dom() =~= after.weights.dom());
                    assert forall|n: int, k: int|
                        after.weights.dom().contains(n) && 0 <= k < after.successors[n].len()
                        implies after.weights.dom().contains(#[trigger] after.successors[n][k]) by {
                        if n != node {
                            assert(before.weights.dom().contains(before.successors[n][k]));
                        }
                    }
                }
            },
        }
        node
    }
}

/// The node indices of `nodes` as mathematical integers.
pub open spec fn as_ints(nodes: Seq<usize>) -> Seq<int> {
    Seq::new(nodes.len(), |k: int| nodes[k] as int)
}

/// No node stands twice in `nodes`.
pub open spec fn are_distinct(nodes: Seq<usize>) -> bool {
    forall|i: int, j: int| 0 <= i < j < nodes.len() ==> nodes[i] != nodes[j]
}

/// No node stands twice in the lists of `lists`, neither in one list nor in
/// two.
pub open spec fn lists_distinct(lists: Seq<Vec<usize>>) -> bool {
    forall|a: int, i: int, b: int, j: int|
        0 <= a < lists.len() && 0 <= i < lists[a]@.len() && 0 <= b < lists.len() && 0 <= j
            < lists[b]@.len() && (a != b || i != j) ==> #[trigger] lists[a]@[i]
            != #[trigger] lists[b]@[j]
}

/// Each of `nodes` is in `after` and was not in `before`.
pub open spec fn are_new(nodes: Seq<usize>, before: GraphModel, after: GraphModel) -> bool {
    forall|k: int|
        0 <= k < nodes.len() ==> !before.weights.dom().contains(#[trigger] nodes[k] as int)
            && after.weights.dom().contains(nodes[k] as int)
}

/// The prefixes of `path` that are longer than `depth`, shortest first.
pub fn prefixes(path: &Path, depth: usize) -> (r: Vec<Path>)
    ensures
        r.deep_view() == prefixes_beyond(path.deep_view(), depth as nat),
        r@.len() == if path@.len() > depth { path@.len() - depth } else { 0 },
{
    let mut r: Vec<Path> = Vec::new();
    if path.len() <= depth {
        assert(r.deep_view() =~= prefixes_beyond(path.deep_view(), depth as nat));
        return r;
    }
    let mut n: usize = depth;
    while n < path.len()
        invariant
            depth <= n <= path.len(),
            r@.len() == n - depth,
            r.deep_view() == Seq::new(
                (n - depth) as nat,
                |k: int| path.deep_view().subrange(0, depth + k + 1),
            ),
        decreases path.len() - n,
    {
        let prefix = path_prefix(path, n + 1);
        let ghost before = r;
        r.push(prefix);
        proof {
            crate::paths::lemma_push_deep_view(before, r, prefix);
            assert(r.deep_view() =~= Seq::new(
                (n + 1 - depth) as nat,
                |k: int| path.deep_view().subrange(0, depth + k + 1),
            ));
        }
        n = n + 1;
    }
    r
}

impl SearchState {
    /// Whether the node `node` is in the graph.
    pub fn contains(&self, node: usize) -> (b: bool)
        requires
            self.wf(),
        ensures
            b == self.model().weights.dom().contains(node as int),
    {
        self.node_weight(node).is_some()
    }

    /// Whether `count` more nodes, each with an edge to it, fit in.
    pub fn room_for(&self, count: usize) -> (b: bool)
        requires
            self.wf(),
        ensures
            b == self.has_room(count as nat),
    {
        count <= GRAPH_LIMIT + 1 - self.nodes && count <= GRAPH_LIMIT + 1 - self.edges
    }

    /// Given paths add them to the graph and add an edge from the node
    /// `position` to each newly added path. It gives back the new nodes in the
    /// order of the paths. It fails, and changes nothing, where the node
    /// `position` is not in the graph or the paths do not fit in.
    pub fn populate_next_nodes_from_position(&mut self, paths: Vec<Path>, position: usize) -> (r:
        Result<Vec<usize>, IndexError>)
        requires
            old(self).wf(),
        ensures
            final(self).wf(),
            match r {
                Ok(nodes) => {
                    &&& old(self).model().weights.dom().contains(position as int)
                    &&& old(self).has_room(paths@.len())
                    &&& nodes@.len() == paths@.len()
                    &&& final(self).model() == old(self).model().add_children(
                        position as int,
                        as_ints(nodes@),
                        paths.deep_view(),
                    )
                    &&& are_new(nodes@, old(self).model(), final(self).model())
                    &&& are_distinct(nodes@)
                    &&& final(self).nodes == old(self).nodes + paths@.len()
                    &&& final(self).edges == old(self).edges + paths@.len()
                },
                Err(e) => {
                    &&& *final(self) == *old(self)
                    &&& if !old(self).model().weights.dom().contains(position as int) {
                        e == IndexError::InternalError(MSG_NO_NODE)
                    } else {
                        e == IndexError::InternalError(MSG_GRAPH_FULL) && !old(self).has_room(
                            paths@.len(),
                        )
                    }
                },
            },
    {
        if !self.contains(position) {
            return Err(IndexError::InternalError(MSG_NO_NODE));
        }
        if !self.room_for(paths.len()) {
            return Err(IndexError::InternalError(MSG_GRAPH_FULL));
        }
        let ghost start = self.model();
        let ghost all = paths.deep_view();
        let mut added_indexes: Vec<usize> = Vec::new();
        let mut i: usize = 0;
        assert(as_ints(added_indexes@) =~= Seq::<int>::empty());
        while i < paths.len()
            invariant
                i <= paths.len(),
                all == paths.deep_view(),
                all.len() == paths@.len(),
                self.wf(),
                added_indexes@.len() == i,
                self.nodes == old(self).nodes + i,
                self.edges == old(self).edges + i,
                old(self).has_room(paths@.len()),
                start == old(self).model(),
                start.weights.dom().contains(position as int),
                self.model().weights.dom().contains(position as int),
                self.model() == start.add_children(
                    position as int,
                    as_ints(added_indexes@),
                    all.subrange(0, i as int),
                ),
                are_new(added_indexes@, start, self.model()),
                are_distinct(added_indexes@),
                forall|n: int| start.weights.dom().contains(n) ==> self.model().weights.dom().contains(n),
            decreases paths.len() - i,
        {
            let weight = clone_path(&paths[i]);
            let ghost before = self.model();
            let ghost ids_before = added_indexes@;
            let node = self.add_node_under(weight, Some(position));
            added_indexes.push(node);
            proof {
                assert(all[i as int] == paths@[i as int].deep_view());
                let ids = as_ints(added_indexes@);
                let ws = all.subrange(0, i + 1);
                assert(ids.drop_last() =~= as_ints(ids_before));
                assert(ws.drop_last() =~= all.subrange(0, i as int));
                assert(ids.last() == node as int);
                assert(ws.last() == weight.deep_view());
                assert forall|k: int| 0 <= k < added_indexes@.len() implies !start.weights.dom().contains(
                    #[trigger] added_indexes@[k] as int,
                ) && self.model().weights.dom().contains(added_indexes@[k] as int) by {
                    if k < i {
                        assert(added_indexes@[k] == ids_before[k]);
                    }
                }
                assert forall|a: int, b: int| 0 <= a < b < added_indexes@.len() implies added_indexes@[a]
                    != added_indexes@[b] by {
                    assert(added_indexes@[a] == ids_before[a]);
                    assert(before.weights.dom().contains(ids_before[a] as int));
                    if b < i {
                        assert(added_indexes@[b] == ids_before[b]);
                    }
                }
            }
            i = i + 1;
        }
        assert(all.subrange(0, all.len() as int) =~= all);
        Ok(added_indexes)
    }

    /// Adds a node for each of `weights` in turn, the first without an edge to
    /// it, each later one hung from the one before.
    fn add_chain_nodes(&mut self, weights: Vec<Path>) -> (nodes: Vec<usize>)
        requires
            old(self).wf(),
            old(self).has_room(weights@.len()),
        ensures
            final(self).wf(),
            nodes@.len() == weights@.len(),
            final(self).model() == old(self).model().add_chain(
                as_ints(nodes@),
                weights.deep_view(),
            ),
            are_new(nodes@, old(self).model(), final(self).model()),
            are_distinct(nodes@),
            final(self).nodes == old(self).nodes + weights@.len(),
            final(self).edges <= old(self).edges + weights@.len(),
            forall|n: int|
                old(self).model().weights.dom().contains(n) ==> final(self).model().weights.dom().contains(
                    n,
                ),
    {
        let ghost start = self.model();
        let ghost all = weights.deep_view();
        let mut nodes: Vec<usize> = Vec::new();
        let mut previous: Option<usize> = None;
        let mut i: usize = 0;
        assert(as_ints(nodes@) =~= Seq::<int>::empty());
        while i < weights.len()
            invariant
                i <= weights.len(),
                all == weights.deep_view(),
                all.len() == weights@.len(),
                self.wf(),
                nodes@.len() == i,
                self.nodes == old(self).nodes + i,
                self.edges <= old(self).edges + i,
                old(self).has_room(weights@.len()),
                start == old(self).model(),
                previous is Some <==> i > 0,
                i > 0 ==> previous == Some(nodes@[i - 1]),
                self.model() == start.add_chain(as_ints(nodes@), all.subrange(0, i as int)),
                are_new(nodes@, start, self.model()),
                are_distinct(nodes@),
                forall|n: int| start.weights.dom().contains(n) ==> self.model().weights.dom().contains(n),
            decreases weights.len() - i,
        {
            let weight = clone_path(&weights[i]);
            let ghost ids_before = nodes@;
            let ghost before = self.model();
            let node = self.add_node_under(weight, previous);
            nodes.push(node);
            proof {
                assert(all[i as int] == weights@[i as int].deep_view());
                let ids = as_ints(nodes@);
                let ws = all.subrange(0, i + 1);
                assert(ids.drop_last() =~= as_ints(ids_before));
                assert(ws.drop_last() =~= all.subrange(0, i as int));
                assert(ids.last() == node as int);
                assert(ws.last() == weight.deep_view());
                if i > 0 {
                    assert(ids[ids.len() - 2] == ids_before[i - 1] as int);
                }
                assert forall|k: int| 0 <= k < nodes@.len() implies !start.weights.dom().contains(
                    #[trigger] nodes@[k] as int,
                ) && self.model().weights.dom().contains(nodes@[k] as int) by {
                    if k < i {
                        assert(nodes@[k] == ids_before[k]);
                    }
                }
                assert forall|a: int, b: int| 0 <= a < b < nodes@.len() implies nodes@[a]
                    != nodes@[b] by {
                    assert(nodes@[a] == ids_before[a]);
                    assert(before.weights.dom().contains(ids_before[a] as int));
                    if b < i {
                        assert(nodes@[b] == ids_before[b]);
                    }
                }
            }
            previous = Some(node);
            i = i + 1;
        }
        assert(all.subrange(0, all.len() as int) =~= all);
        nodes
    }
}

/// How many nodes the prefixes beyond `depth` of all of `paths` make.
pub open spec fn nodes_needed(paths: Seq<Seq<Seq<u8>>>, depth: nat) -> nat
    decreases paths.len(),
{
    if paths.len() == 0 {
        0
    } else {
        nodes_needed(paths.drop_last(), depth) + prefixes_beyond(paths.last(), depth).len()
    }
}

/// The lists of node indices of `lists` as mathematical integers.
pub open spec fn as_int_lists(lists: Seq<Vec<usize>>) -> Seq<Seq<int>> {
    Seq::new(lists.len(), |k: int| as_ints(lists[k]@))
}

impl GraphModel {
    /// This graph with a chain of new nodes for each path of `paths`: the
    /// nodes `nodes[k]` stand for the prefixes of `paths[k]` beyond `depth`.
    pub open spec fn add_chains(self, nodes: Seq<Seq<int>>, paths: Seq<Seq<Seq<u8>>>, depth: nat)
        -> GraphModel
        decreases nodes.len(),
    {
        if nodes.len() == 0 || paths.len() == 0 {
            self
        } else {
            self.add_chains(nodes.drop_last(), paths.drop_last(), depth).add_chain(
                nodes.last(),
                prefixes_beyond(paths.last(), depth),
            )
        }
    }

    /// This graph with new nodes for the prefixes beyond `depth` of each path
    /// of `paths`, every one of them hung from `parent`.
    pub open spec fn add_stars(
        self,
        parent: int,
        nodes: Seq<Seq<int>>,
        paths: Seq<Seq<Seq<u8>>>,
        depth: nat,
    ) -> GraphModel
        decreases nodes.len(),
    {
        if nodes.len() == 0 || paths.len() == 0 {
            self
        } else {
            self.add_stars(parent, nodes.drop_last(), paths.drop_last(), depth).add_children(
                parent,
                nodes.last(),
                prefixes_beyond(paths.last(), depth),
            )
        }
    }
}

/// Every path of `paths` has `n` components.
pub open spec fn all_of_length(paths: Seq<Seq<Seq<u8>>>, n: nat) -> bool {
    forall|k: int| 0 <= k < paths.len() ==> (#[trigger] paths[k]).len() == n
}

/// Whether every path of `paths` has `n` components.
pub fn have_length(paths: &Vec<Path>, n: usize) -> (b: bool)
    ensures
        b == all_of_length(paths.deep_view(), n as nat),
{
    let mut i: usize = 0;
    while i < paths.len()
        invariant
            i <= paths.len(),
            forall|k: int| 0 <= k < i ==> (#[trigger] paths.deep_view()[k]).len() == n,
        decreases paths.len() - i,
    {
        assert(paths.deep_view()[i as int] == paths@[i as int].deep_view());
        if paths[i].len() != n {
            return false;
        }
        i = i + 1;
    }
    true
}

/// Paths that are one component longer than `depth` make one node each.
pub proof fn lemma_nodes_needed_of_children(paths: Seq<Seq<Seq<u8>>>, depth: nat)
    requires
        all_of_length(paths, depth + 1),
    ensures
        nodes_needed(paths, depth) == paths.len(),
    decreases paths.len(),
{
    if paths.len() > 0 {
        assert(paths.last() == paths[paths.len() - 1]);
        assert forall|k: int| 0 <= k < paths.drop_last().len() implies (
        #[trigger] paths.drop_last()[k]).len() == depth + 1 by {
            assert(paths.drop_last()[k] == paths[k]);
        }
        lemma_nodes_needed_of_children(paths.drop_last(), depth);
    }
}

proof fn lemma_nodes_needed_grows(paths: Seq<Seq<Seq<u8>>>, count: int, depth: nat)
    requires
        0 <= count <= paths.len(),
    ensures
        nodes_needed(paths.subrange(0, count), depth) <= nodes_needed(paths, depth),
    decreases paths.len() - count,
{
    if count < paths.len() {
        let next = paths.subrange(0, count + 1);
        assert(next.drop_last() =~= paths.subrange(0, count));
        lemma_nodes_needed_grows(paths, count + 1, depth);
    } else {
        assert(paths.subrange(0, count) =~= paths);
    }
}

/// Whether the prefixes beyond `depth` of all of `paths` are at most `limit`
/// many.
fn needs_at_most(paths: &Vec<Path>, depth: usize, limit: usize) -> (b: bool)
    ensures
        b == (nodes_needed(paths.deep_view(), depth as nat) <= limit),
{
    let ghost all = paths.deep_view();
    let mut total: usize = 0;
    let mut i: usize = 0;
    assert(all.subrange(0, 0) =~= Seq::<Seq<Seq<u8>>>::empty());
    while i < paths.len()
        invariant
            i <= paths.len(),
            all == paths.deep_view(),
            all.len() == paths@.len(),
            total == nodes_needed(all.subrange(0, i as int), depth as nat),
            total <= limit,
        decreases paths.len() - i,
    {
        let count: usize = if paths[i].len() > depth {
            paths[i].len() - depth
        } else {
            0
        };
        proof {
            let next = all.subrange(0, i + 1);
            assert(next.drop_last() =~= all.subrange(0, i as int));
            assert(next.last() == paths@[i as int].deep_view());
            lemma_nodes_needed_grows(all, i + 1, depth as nat);
        }
        if count > limit - total {
            return false;
        }
        total = total + count;
        i = i + 1;
    }
    assert(all.subrange(0, all.len() as int) =~= all);
    true
}

impl SearchState {
    /// Populate the graph with paths: for every path a chain of nodes, one for
    /// each prefix of the path that is longer than `depth`, the shortest first
    /// and each later one hung from the one before. It gives back the new
    /// nodes of each path. It fails, and changes nothing, where they do not
    /// fit in.
    pub fn populate_from_paths(&mut self, paths: &Vec<Path>, depth: usize) -> (r: Result<
        Vec<Vec<usize>>,
        IndexError,
    >)
        requires
            old(self).wf(),
        ensures
            final(self).wf(),
            match r {
                Ok(nodes) => {
                    &&& old(self).has_room(nodes_needed(paths.deep_view(), depth as nat))
                    &&& nodes@.len() == paths@.len()
                    &&& forall|k: int|
                        0 <= k < nodes@.len() ==> (#[trigger] nodes@[k])@.len() == prefixes_beyond(
                            paths.deep_view()[k],
                            depth as nat,
                        ).len()
                    &&& final(self).model() == old(self).model().add_chains(
                        as_int_lists(nodes@),
                        paths.deep_view(),
                        depth as nat,
                    )
                    &&& forall|k: int|
                        0 <= k < nodes@.len() ==> are_new(
                            (#[trigger] nodes@[k])@,
                            old(self).model(),
                            final(self).model(),
                        )
                    &&& lists_distinct(nodes@)
                },
                Err(e) => {
                    &&& *final(self) == *old(self)
                    &&& e == IndexError::InternalError(MSG_GRAPH_FULL)
                    &&& !old(self).has_room(nodes_needed(paths.deep_view(), depth as nat))
                },
            },
    {
        let free_nodes = GRAPH_LIMIT + 1 - self.nodes;
        let free_edges = GRAPH_LIMIT + 1 - self.edges;
        let free = if free_nodes < free_edges { free_nodes } else { free_edges };
        if !needs_at_most(paths, depth, free) {
            return Err(IndexError::InternalError(MSG_GRAPH_FULL));
        }
        let ghost start = self.model();
        let ghost all = paths.deep_view();
        let mut out: Vec<Vec<usize>> = Vec::new();
        let mut i: usize = 0;
        assert(as_int_lists(out@) =~= Seq::<Seq<int>>::empty());
        assert(all.subrange(0, 0) =~= Seq::<Seq<Seq<u8>>>::empty());
        while i < paths.len()
            invariant
                i <= paths.len(),
                all == paths.deep_view(),
                all.len() == paths@.len(),
                self.wf(),
                out@.len() == i,
                start == old(self).model(),
                old(self).has_room(nodes_needed(all, depth as nat)),
                self.nodes == old(self).nodes + nodes_needed(all.subrange(0, i as int), depth as nat),
                self.edges <= old(self).edges + nodes_needed(
                    all.subrange(0, i as int),
                    depth as nat,
                ),
                self.model() == start.add_chains(
                    as_int_lists(out@),
                    all.subrange(0, i as int),
                    depth as nat,
                ),
                forall|k: int|
                    0 <= k < i ==> (#[trigger] out@[k])@.len() == prefixes_beyond(
                        all[k],
                        depth as nat,
                    ).len(),
                forall|k: int| 0 <= k < i ==> are_new((#[trigger] out@[k])@, start, self.model()),
                lists_distinct(out@),
                forall|n: int| start.weights.dom().contains(n) ==> self.model().weights.dom().contains(n),
            decreases paths.len() - i,
        {
            proof {
                let next = all.subrange(0, i + 1);
                assert(next.drop_last() =~= all.subrange(0, i as int));
                assert(next.last() == paths@[i as int].deep_view());
                lemma_nodes_needed_grows(all, i + 1, depth as nat);
            }
            let weights = prefixes(&paths[i], depth);
            let ghost before = self.model();
            let ghost out_before = out@;
            let nodes = self.add_chain_nodes(weights);
            out.push(nodes);
            proof {
                let lists = as_int_lists(out@);
                assert(lists.drop_last() =~= as_int_lists(out_before));
                assert(lists.last() == as_ints(nodes@));
                assert forall|a: int, x: int, b: int, y: int|
                    0 <= a < out@.len() && 0 <= x < out@[a]@.len() && 0 <= b < out@.len() && 0 <= y
                        < out@[b]@.len() && (a != b || x != y) implies #[trigger] out@[a]@[x]
                    != #[trigger] out@[b]@[y] by {
                    if a < i {
                        assert(out@[a] == out_before[a]);
                        assert(are_new(out_before[a]@, start, before));
                        assert(before.weights.dom().contains(out_before[a]@[x] as int));
                    }
                    if b < i {
                        assert(out@[b] == out_before[b]);
                        assert(are_new(out_before[b]@, start, before));
                        assert(before.weights.dom().contains(out_before[b]@[y] as int));
                    }
                    if a == i {
                        assert(!before.weights.dom().contains(nodes@[x] as int));
                    }
                    if b == i {
                        assert(!before.weights.dom().contains(nodes@[y] as int));
                    }
                    if a < i && b < i {
                        assert(out_before[a]@[x] != out_before[b]@[y]);
                    }
                }
                assert forall|k: int| 0 <= k < i + 1 implies are_new(
                    (#[trigger] out@[k])@,
                    start,
                    self.model(),
                ) by {
                    if k < i {
                        assert(out@[k] == out_before[k]);
                        assert(are_new(out_before[k]@, start, before));
                    }
                }
            }
            i = i + 1;
        }
        assert(all.subrange(0, all.len() as int) =~= all);
        Ok(out)
    }

    /// Add paths onto the node `parent_node`: for every path one node for each
    /// prefix of the path that is longer than `depth`, each of them hung from
    /// `parent_node`. It gives back the last node made for the first path (0
    /// where none was made) and the new nodes of each path. It fails, and
    /// changes nothing, where the node `parent_node` is not in the graph or
    /// the new nodes do not fit in.
    pub fn populate_from_paths_forward(&mut self, paths: Vec<Path>, depth: usize, parent_node: usize)
        -> (r: Result<(usize, Vec<Vec<usize>>), IndexError>)
        requires
            old(self).wf(),
        ensures
            final(self).wf(),
            match r {
                Ok((first, nodes)) => {
                    &&& old(self).model().weights.dom().contains(parent_node as int)
                    &&& old(self).has_room(nodes_needed(paths.deep_view(), depth as nat))
                    &&& nodes@.len() == paths@.len()
                    &&& forall|k: int|
                        0 <= k < nodes@.len() ==> (#[trigger] nodes@[k])@.len() == prefixes_beyond(
                            paths.deep_view()[k],
                            depth as nat,
                        ).len()
                    &&& final(self).model() == old(self).model().add_stars(
                        parent_node as int,
                        as_int_lists(nodes@),
                        paths.deep_view(),
                        depth as nat,
                    )
                    &&& forall|k: int|
                        0 <= k < nodes@.len() ==> are_new(
                            (#[trigger] nodes@[k])@,
                            old(self).model(),
                            final(self).model(),
                        )
                    &&& lists_distinct(nodes@)
                    &&& first == if nodes@.len() > 0 && nodes@[0]@.len() > 0 {
                        nodes@[0]@.last()
                    } else {
                        0
                    }
                },
                Err(e) => {
                    &&& *final(self) == *old(self)
                    &&& if !old(self).model().weights.dom().contains(parent_node as int) {
                        e == IndexError::InternalError(MSG_NO_NODE)
                    } else {
                        e == IndexError::InternalError(MSG_GRAPH_FULL) && !old(self).has_room(
                            nodes_needed(paths.deep_view(), depth as nat),
                        )
                    }
                },
            },
    {
        if !self.contains(parent_node) {
            return Err(IndexError::InternalError(MSG_NO_NODE));
        }
        let free_nodes = GRAPH_LIMIT + 1 - self.nodes;
        let free_edges = GRAPH_LIMIT + 1 - self.edges;
        let free = if free_nodes < free_edges { free_nodes } else { free_edges };
        if !needs_at_most(&paths, depth, free) {
            return Err(IndexError::InternalError(MSG_GRAPH_FULL));
        }
        let ghost start = self.model();
        let ghost all = paths.deep_view();
        let mut out: Vec<Vec<usize>> = Vec::new();
        let mut first_node_index: usize = 0;
        let mut i: usize = 0;
        assert(as_int_lists(out@) =~= Seq::<Seq<int>>::empty());
        assert(all.subrange(0, 0) =~= Seq::<Seq<Seq<u8>>>::empty());
        while i < paths.len()
            invariant
                i <= paths.len(),
                all == paths.deep_view(),
                all.len() == paths@.len(),
                self.wf(),
                out@.len() == i,
                start == old(self).model(),
                old(self).has_room(nodes_needed(all, depth as nat)),
                self.nodes == old(self).nodes + nodes_needed(all.subrange(0, i as int), depth as nat),
                self.edges == old(self).edges + nodes_needed(
                    all.subrange(0, i as int),
                    depth as nat,
                ),
                self.model() == start.add_stars(
                    parent_node as int,
                    as_int_lists(out@),
                    all.subrange(0, i as int),
                    depth as nat,
                ),
                forall|k: int|
                    0 <= k < i ==> (#[trigger] out@[k])@.len() == prefixes_beyond(
                        all[k],
                        depth as nat,
                    ).len(),
                forall|k: int| 0 <= k < i ==> are_new((#[trigger] out@[k])@, start, self.model()),
                lists_distinct(out@),
                forall|n: int| start.weights.dom().contains(n) ==> self.model().weights.dom().contains(n),
                self.model().weights.dom().contains(parent_node as int),
                first_node_index == if i > 0 && out@[0]@.len() > 0 {
                    out@[0]@.last()
                } else {
                    0
                },
            decreases paths.len() - i,
        {
            proof {
                let next = all.subrange(0, i + 1);
                assert(next.drop_last() =~= all.subrange(0, i as int));
                assert(next.last() == paths@[i as int].deep_view());
                lemma_nodes_needed_grows(all, i + 1, depth as nat);
            }
            let weights = prefixes(&paths[i], depth);
            let ghost before = self.model();
            let ghost out_before = out@;
            let attempt = self.populate_next_nodes_from_position(weights, parent_node);
            assert(attempt is Ok);
            let nodes = match attempt {
                Ok(nodes) => nodes,
                Err(_) => Vec::new(),
            };
            if i == 0 && nodes.len() > 0 {
                first_node_index = nodes[nodes.len() - 1];
            }
            out.push(nodes);
            proof {
                let lists = as_int_lists(out@);
                assert(lists.drop_last() =~= as_int_lists(out_before));
                assert(lists.last() == as_ints(nodes@));
                assert forall|a: int, x: int, b: int, y: int|
                    0 <= a < out@.len() && 0 <= x < out@[a]@.len() && 0 <= b < out@.len() && 0 <= y
                        < out@[b]@.len() && (a != b || x != y) implies #[trigger] out@[a]@[x]
                    != #[trigger] out@[b]@[y] by {
                    if a < i {
                        assert(out@[a] == out_before[a]);
                        assert(are_new(out_before[a]@, start, before));
                        assert(before.weights.dom().contains(out_before[a]@[x] as int));
                    }
                    if b < i {
                        assert(out@[b] == out_before[b]);
                        assert(are_new(out_before[b]@, start, before));
                        assert(before.weights.dom().contains(out_before[b]@[y] as int));
                    }
                    if a == i {
                        assert(!before.weights.dom().contains(nodes@[x] as int));
                    }
                    if b == i {
                        assert(!before.weights.dom().contains(nodes@[y] as int));
                    }
                    if a < i && b < i {
                        assert(out_before[a]@[x] != out_before[b]@[y]);
                    }
                }
                assert forall|n: int| before.weights.dom().contains(n) implies self.model().weights.dom().contains(
                    n,
                ) by {
                    lemma_add_children_keeps(
                        before,
                        parent_node as int,
                        as_ints(nodes@),
                        weights.deep_view(),
                        n,
                    );
                }
                assert forall|k: int| 0 <= k < i + 1 implies are_new(
                    (#[trigger] out@[k])@,
                    start,
                    self.model(),
                ) by {
                    if k < i {
                        assert(out@[k] == out_before[k]);
                        assert(are_new(out_before[k]@, start, before));
                    } else {
                        assert(out@[k] == nodes);
                        assert(are_new(nodes@, before, self.model()));
                    }
                }
            }
            i = i + 1;
        }
        assert(all.subrange(0, all.len() as int) =~= all);
        Ok((first_node_index, out))
    }
}

/// Hanging new nodes into a graph takes no node out of it.
pub proof fn lemma_add_children_keeps(
    m: GraphModel,
    parent: int,
    nodes: Seq<int>,
    weights: Seq<Seq<Seq<u8>>>,
    n: int,
)
    requires
        m.weights.dom().contains(n),
    ensures
        m.add_children(parent, nodes, weights).weights.dom().contains(n),
    decreases nodes.len(),
{
    if nodes.len() != 0 && weights.len() != 0 {
        lemma_add_children_keeps(m, parent, nodes.drop_last(), weights.drop_last(), n);
    }
}

} // verus!
