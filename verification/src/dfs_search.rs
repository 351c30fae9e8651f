//! The depth-first search as a machine. It owns the graph, the walk and the
//! results; whoever drives it owns the store. The machine says what it needs
//! from the store next, and is handed what the store gave.

use crate::bfs::{kept_children, search_root, start_search};
use crate::calendar::TimePoint;
use crate::codec::pow256;
use crate::dfs::{as_ints, prefixes_beyond, GraphModel, SearchState};
use crate::dfs_methods::{buckets_of, get_next_level_path_dfs, is_bucket_order, is_search_order,
    lemma_search_order, order_buckets};
use crate::entries::{IndexConfiguration, IndexType, Order, Path};
use crate::errors::{IndexError, IndexResult, MSG_NAME_TOO_LONG, MSG_NO_NODE, MSG_PATH_LENGTH};
use crate::paths::{clone_path, clone_paths};
use crate::search::level_bound;
use crate::sorting::{answer_of, is_answer, sorted_by_rank, Keyed};
use crate::traits::IndexableEntry;
use crate::utils::{levels_after, lemma_shared_levels_bound, shared_levels};
use crate::walk::{list_contains, node_set, walk_next, without_repeats, DfsCursor};
use vstd::prelude::*;
use vstd::utf8::encode_utf8;

verus! {

/// What the machine has asked for and not been handed yet.
#[derive(Clone, Copy, Debug, PartialEq, Eq, Structural)]
pub enum Waiting {
    /// Nothing: the machine can take a step.
    Nothing,
    /// The children of the path chosen on the way down.
    Descent,
    /// The children of a node met on the walk that had none in the graph.
    Expansion(usize, IndexType),
    /// The bucket paths below a node of full depth.
    Buckets,
    /// The entries linked from a bucket.
    Links,
}

/// What the machine needs next.
#[derive(Debug)]
pub enum DfsStep {
    /// Nothing from the store: take another step.
    Continue,
    /// The children that the node at this path has in the tree.
    Children(Path),
    /// The bucket paths below the node at this path.
    Buckets(Path),
    /// The entries linked from the bucket at this path.
    Links(Path),
    /// Nothing more: the search is over.
    Done,
}

impl DfsStep {
    /// The path that the step asks about, where it asks about one.
    pub open spec fn path(self) -> Option<Seq<Seq<u8>>> {
        match self {
            DfsStep::Children(p) => Some(p.deep_view()),
            DfsStep::Buckets(p) => Some(p.deep_view()),
            DfsStep::Links(p) => Some(p.deep_view()),
            _ => None,
        }
    }
}

/// Whether an entry of the time `t` belongs to a search of the span from
/// `from` to `until`. A descending search runs from the later end to the
/// earlier.
pub open spec fn entry_within(t: TimePoint, from: TimePoint, until: TimePoint, order: Order)
    -> bool {
    match order {
        Order::Desc => t.spec_le(from) && until.spec_le(t),
        Order::Asc => from.spec_le(t) && t.spec_le(until),
    }
}

/// The entries of `entries` that belong to the search, each with its time, in
/// the order in which they stand.
pub open spec fn kept_entries<T: IndexableEntry>(
    entries: Seq<T>,
    from: TimePoint,
    until: TimePoint,
    order: Order,
) -> Seq<Keyed<TimePoint, T>>
    decreases entries.len(),
{
    if entries.len() == 0 {
        Seq::empty()
    } else if entry_within(entries.last().entry_time_spec(), from, until, order) {
        kept_entries(entries.drop_last(), from, until, order).push(
            Keyed { key: entries.last().entry_time_spec(), item: entries.last() },
        )
    } else {
        kept_entries(entries.drop_last(), from, until, order)
    }
}

/// Adds to `out` the entries of `entries` whose own time lies within the span
/// from `from` to `until`, each with its time.
pub fn keep_entries<T: IndexableEntry>(
    out: &mut Vec<Keyed<TimePoint, T>>,
    entries: Vec<T>,
    from: &TimePoint,
    until: &TimePoint,
    order: Order,
)
    ensures
        final(out)@ == old(out)@ + kept_entries(entries@, *from, *until, order),
{
    let ghost all = entries@;
    let ghost start = out@;
    let mut rest = entries;
    let ghost mut taken: int = 0;
    proof {
        assert(all.subrange(0, 0) =~= Seq::<T>::empty());
        assert(start + Seq::<Keyed<TimePoint, T>>::empty() =~= start);
    }
    while rest.len() > 0
        invariant
            0 <= taken <= all.len(),
            rest@ == all.subrange(taken, all.len() as int),
            start == old(out)@,
            out@ == start + kept_entries(all.subrange(0, taken), *from, *until, order),
        decreases rest.len(),
    {
        let entry = rest.remove(0);
        let time = entry.entry_time();
        proof {
            let next = all.subrange(0, taken + 1);
            assert(next.drop_last() =~= all.subrange(0, taken));
            assert(next.last() == entry);
        }
        let keep = match order {
            Order::Desc => time.le(from) && until.le(&time),
            Order::Asc => from.le(&time) && time.le(until),
        };
        if keep {
            out.push(Keyed { key: time, item: entry });
            assert(out@ =~= start + kept_entries(all.subrange(0, taken + 1), *from, *until, order));
        }
        proof {
            taken = taken + 1;
            assert(rest@ =~= all.subrange(taken, all.len() as int));
        }
    }
    assert(all.subrange(0, all.len() as int) =~= all);
}

/// A depth-first search under way.
pub struct DfsSearch<T> {
    /// The graph of the tree nodes seen so far.
    pub state: SearchState,
    /// The nodes made for the prefixes of the path the search started at.
    pub root_nodes: Vec<usize>,
    /// Where the walk over the graph stands.
    pub cursor: DfsCursor,
    /// The node of full depth that the walk was at last.
    pub end_node: Option<usize>,
    /// The nodes whose children were fetched during the walk.
    pub has_searched: Vec<usize>,
    /// The entries found, each with its time.
    pub out: Vec<Keyed<TimePoint, T>>,
    /// The end of the span at which the search starts.
    pub from: TimePoint,
    /// The end of the span at which the search stops.
    pub until: TimePoint,
    pub order: Order,
    /// How many entries are asked for at most.
    pub limit: Option<usize>,
    /// The levels below the path the search started at.
    pub levels: Vec<IndexType>,
    /// How many of `levels` the way down has gone through.
    pub level: usize,
    /// The paths found at the last level of the way down, the best first.
    pub paths: Vec<Path>,
    /// The node of the best path.
    pub search_node: usize,
    /// The bucket paths still to go through, the next one first.
    pub pending: Vec<Path>,
    pub waiting: Waiting,
    /// Whether the search is over.
    pub finished: bool,
}

impl<T: IndexableEntry> DfsSearch<T> {
    pub open spec fn wf(self) -> bool {
        &&& self.state.wf()
        &&& self.level <= self.levels@.len()
        &&& (self.level < self.levels@.len() && !self.finished ==> self.paths@.len() > 0
            && self.state.model().weights.dom().contains(self.search_node as int))
    }

    /// This is the search as it starts: for the span from `from` to `until` in
    /// the tree `name`, with nothing found and nothing asked for; the graph is
    /// the chain of the prefixes of the path the two ends share, the walk starts
    /// at the first node of that chain, and the way down at its last.
    pub open spec fn is_start_of(
        self,
        name: Seq<char>,
        from: TimePoint,
        until: TimePoint,
        order: Order,
        limit: Option<usize>,
        config: IndexConfiguration,
    ) -> bool {
        let root = search_root(name, from.civil, until.civil, config);
        &&& self.wf()
        &&& self.waiting is Nothing
        &&& !self.finished
        &&& self.out@.len() == 0
        &&& self.pending@.len() == 0
        &&& self.has_searched@.len() == 0
        &&& self.end_node is None
        &&& self.from == from
        &&& self.until == until
        &&& self.order == order
        &&& self.limit == limit
        &&& self.level == 0
        &&& self.levels@ == levels_after(config, shared_levels(from.civil, until.civil, config))
        &&& self.paths.deep_view() == seq![root]
        &&& self.root_nodes@.len() == root.len()
        &&& crate::dfs::are_distinct(self.root_nodes@)
        &&& self.state.model() == GraphModel::empty().add_chain(
            as_ints(self.root_nodes@),
            prefixes_beyond(root, 0),
        )
        &&& self.search_node == self.root_nodes@.last()
        &&& self.cursor.stack@ == seq![self.root_nodes@[0]]
        &&& self.cursor.discovered@.len() == 0
    }

    /// As many entries as were asked for have been found.
    pub open spec fn limit_reached(self) -> bool {
        self.limit is Some && self.out@.len() >= self.limit.unwrap()
    }

    /// The search is on its way down the levels.
    pub open spec fn descending(self) -> bool {
        !self.finished && !self.limit_reached() && self.level < self.levels@.len()
    }

    /// The search is going through the buckets of a node.
    pub open spec fn in_buckets(self) -> bool {
        !self.finished && !self.limit_reached() && self.level >= self.levels@.len()
            && self.pending@.len() > 0
    }

    /// The search is walking the graph.
    pub open spec fn walking(self) -> bool {
        !self.finished && !self.limit_reached() && self.level >= self.levels@.len()
            && self.pending@.len() == 0
    }

    /// What the walk does next.
    pub open spec fn next_of_walk(self) -> (Option<int>, Seq<int>, Set<int>) {
        walk_next(
            as_ints(self.cursor.stack@),
            node_set(self.cursor.discovered@),
            self.state.model().successors,
        )
    }

    fn is_limit_reached(&self) -> (b: bool)
        ensures
            b == self.limit_reached(),
    {
        match self.limit {
            Some(k) => self.out.len() >= k,
            None => false,
        }
    }

    /// Takes one step and says what the search needs next.
    ///
    /// A search that is over, or has found as many entries as were asked for,
    /// is done. On the way down it asks for the children of the best path. With
    /// buckets to go through it asks for the entries of the next one. Else the
    /// walk moves to its next node: at a node of full depth the search asks for
    /// the buckets below it; at a shorter node met after a node of full depth,
    /// whose children were not fetched yet, it asks for its children; at any
    /// other node it needs nothing. When the walk has no next node the search
    /// is done.
    pub fn step(&mut self, config: &IndexConfiguration) -> (r: IndexResult<DfsStep>)
        requires
            old(self).wf(),
            old(self).waiting is Nothing,
        ensures
            final(self).wf(),
            final(self).state == old(self).state,
            final(self).out == old(self).out,
            final(self).level == old(self).level,
            final(self).levels == old(self).levels,
            final(self).from == old(self).from,
            final(self).until == old(self).until,
            final(self).order == old(self).order,
            final(self).limit == old(self).limit,
            final(self).has_searched == old(self).has_searched,
            final(self).search_node == old(self).search_node,
            final(self).paths == old(self).paths,
            old(self).finished || old(self).limit_reached() ==> (r is Ok && r.unwrap() is Done)
                && final(self).finished && final(self).waiting is Nothing,
            old(self).descending() ==> r is Ok && r.unwrap() is Children && r.unwrap().path()
                == Some(old(self).paths.deep_view()[0]) && final(self).waiting is Descent && !final(self).finished && final(self).cursor == old(self).cursor && final(self).pending == old(self).pending && final(self).end_node == old(self).end_node,
            old(self).in_buckets() ==> r is Ok && r.unwrap() is Links && r.unwrap().path() == Some(
                old(self).pending.deep_view()[0],
            ) && final(self).waiting is Links && !final(self).finished && final(self).pending@
                == old(self).pending@.subrange(1, old(self).pending@.len() as int) && final(self).cursor == old(self).cursor && final(self).end_node == old(self).end_node,
            old(self).walking() ==> {
                let walk = old(self).next_of_walk();
                let weights = old(self).state.model().weights;
                &&& as_ints(final(self).cursor.stack@) == walk.1
                &&& node_set(final(self).cursor.discovered@) == walk.2
                &&& final(self).pending == old(self).pending
                &&& match walk.0 {
                    None => (r is Ok && r.unwrap() is Done) && final(self).finished && final(self).waiting is Nothing && final(self).end_node == old(self).end_node,
                    Some(node) => if !weights.dom().contains(node) {
                        r == Err::<DfsStep, IndexError>(IndexError::InternalError(MSG_NO_NODE))
                    } else if weights[node].len() == config.max_depth_size_spec() {
                        &&& r is Ok
                        &&& r.unwrap() is Buckets
                        &&& r.unwrap().path() == Some(weights[node])
                        &&& final(self).waiting is Buckets
                        &&& final(self).end_node == Some(node as usize)
                        &&& !final(self).finished
                    } else if old(self).end_node is Some && !node_set(
                        old(self).has_searched@,
                    ).contains(node) {
                        if 1 <= weights[node].len() < config.max_depth_size_spec() {
                            &&& r is Ok
                            &&& r.unwrap() is Children
                            &&& r.unwrap().path() == Some(weights[node])
                            &&& final(self).waiting == Waiting::Expansion(
                                node as usize,
                                crate::utils::level_at(weights[node].len()),
                            )
                            &&& final(self).end_node == old(self).end_node
                            &&& !final(self).finished
                        } else {
                            r == Err::<DfsStep, IndexError>(
                                IndexError::InternalError(MSG_PATH_LENGTH),
                            )
                        }
                    } else {
                        &&& (r is Ok && r.unwrap() is Continue)
                        &&& final(self).waiting is Nothing
                        &&& final(self).end_node == old(self).end_node
                        &&& !final(self).finished
                    },
                }
            },
    {
        if self.finished || self.is_limit_reached() {
            self.finished = true;
            return Ok(DfsStep::Done);
        }
        if self.level < self.levels.len() {
            self.waiting = Waiting::Descent;
            assert(self.paths.deep_view()[0] == self.paths@[0].deep_view());
            return Ok(DfsStep::Children(clone_path(&self.paths[0])));
        }
        if self.pending.len() > 0 {
            assert(self.pending.deep_view()[0] == self.pending@[0].deep_view());
            let bucket = self.pending.remove(0);
            self.waiting = Waiting::Links;
            return Ok(DfsStep::Links(bucket));
        }
        let node = match self.cursor.next(&self.state) {
            Some(node) => node,
            None => {
                self.finished = true;
                return Ok(DfsStep::Done);
            },
        };
        let weight = match self.state.node_weight(node) {
            Some(item) => item.0,
            None => { return Err(IndexError::InternalError(MSG_NO_NODE)); },
        };
        if weight.len() == config.max_depth_size() {
            self.end_node = Some(node);
            self.waiting = Waiting::Buckets;
            return Ok(DfsStep::Buckets(weight));
        }
        if self.end_node.is_some() && !list_contains(&self.has_searched, node) {
            let level = match IndexType::from_depth(weight.len()) {
                Some(level) => level,
                None => { return Err(IndexError::InternalError(MSG_PATH_LENGTH)); },
            };
            if weight.len() >= config.max_depth_size() {
                return Err(IndexError::InternalError(MSG_PATH_LENGTH));
            }
            self.waiting = Waiting::Expansion(node, level);
            return Ok(DfsStep::Children(weight));
        }
        Ok(DfsStep::Continue)
    }
}

/// Start a depth-first search of the tree `index` for the entries between
/// `from` and `until`. The search starts at the path that the two ends share;
/// the graph is seeded with a chain of nodes for the prefixes of that path, and
/// the walk will start at the first of them.
pub fn make_dfs_search<T: IndexableEntry>(
    index: String,
    from: &TimePoint,
    until: &TimePoint,
    order: &Order,
    limit: Option<usize>,
    config: &IndexConfiguration,
) -> (r: IndexResult<DfsSearch<T>>)
    ensures
        match r {
            Ok(s) => s.is_start_of(index@, *from, *until, *order, limit, *config),
            Err(e) => e == IndexError::InternalError(MSG_NAME_TOO_LONG) && encode_utf8(index@).len()
                >= pow256(4),
        },
{
    let (root, levels) = match start_search(index, from, until, config) {
        Ok(pair) => pair,
        Err(e) => { return Err(e); },
    };
    let ghost root_view = root.deep_view();
    proof {
        lemma_shared_levels_bound(from.civil, until.civil, *config, 1);
        assert(1 <= root_view.len() <= 7);
    }
    let mut paths: Vec<Path> = Vec::new();
    paths.push(root);
    assert(paths.deep_view()[0] == paths@[0].deep_view());
    assert(paths.deep_view() =~= seq![root_view]);
    let mut state = SearchState::new();
    proof {
        assert(paths.deep_view().drop_last() =~= Seq::<Seq<Seq<u8>>>::empty());
        assert(crate::dfs::nodes_needed(paths.deep_view(), 0) == root_view.len()) by {
            reveal_with_fuel(crate::dfs::nodes_needed, 2);
        }
    }
    let attempt = state.populate_from_paths(&paths, 0);
    assert(attempt is Ok);
    let mut nodes = match attempt {
        Ok(nodes) => nodes,
        Err(e) => { return Err(e); },
    };
    let ghost lists = nodes@;
    let root_nodes = match nodes.pop() {
        Some(list) => list,
        None => Vec::new(),
    };
    proof {
        assert(root_nodes == lists[0]);
        let ids = crate::dfs::as_int_lists(lists);
        assert(ids.drop_last() =~= Seq::<Seq<int>>::empty());
        assert(ids.last() == as_ints(root_nodes@));
        assert(GraphModel::empty().add_chains(ids, paths.deep_view(), 0)
            == GraphModel::empty().add_chain(as_ints(root_nodes@), prefixes_beyond(root_view, 0)))
            by {
            reveal_with_fuel(GraphModel::add_chains, 2);
        }
        assert(crate::dfs::are_new(root_nodes@, GraphModel::empty(), state.model()));
    }
    let search_node = root_nodes[root_nodes.len() - 1];
    let cursor = DfsCursor::new(root_nodes[0]);
    Ok(
        DfsSearch {
            state,
            root_nodes,
            cursor,
            end_node: None,
            has_searched: Vec::new(),
            out: Vec::new(),
            from: *from,
            until: *until,
            order: *order,
            limit,
            levels,
            level: 0,
            paths,
            search_node,
            pending: Vec::new(),
            waiting: Waiting::Nothing,
            finished: false,
        },
    )
}

impl<T: IndexableEntry> DfsSearch<T> {
    /// Takes the children of the path chosen on the way down: those within the
    /// span become the paths of the next level, in the order of the search, and
    /// get nodes hung from the node of the chosen path; the first of them is
    /// chosen next. It gives back the nodes made for each path. With no child
    /// within the span the search is over and has found nothing. Where the
    /// tree does not have the level, the level is passed over.
    pub fn descend(&mut self, children: &Vec<Path>, config: &IndexConfiguration) -> (r: IndexResult<
        Vec<Vec<usize>>,
    >)
        requires
            old(self).wf(),
            old(self).waiting is Descent,
            old(self).level < old(self).levels@.len(),
            !old(self).finished,
        ensures
            final(self).wf(),
            r is Err ==> *final(self) == *old(self),
            ({
                let before = *old(self);
                let after = *final(self);
                let level = before.levels@[before.level as int];
                let kept = kept_children(
                    children.deep_view(),
                    level_bound(before.from.civil, level),
                    level_bound(before.until.civil, level),
                    before.order,
                    *config,
                );
                if !config.enabled(level) {
                    &&& r is Ok
                    &&& r.unwrap()@.len() == 0
                    &&& after == (DfsSearch {
                        level: (before.level + 1) as usize,
                        waiting: Waiting::Nothing,
                        ..before
                    })
                } else if kept is Err {
                    r == Err::<Vec<Vec<usize>>, IndexError>(kept->Err_0)
                } else if kept.unwrap().len() == 0 {
                    &&& r is Ok
                    &&& r.unwrap()@.len() == 0
                    &&& after == (DfsSearch { finished: true, waiting: Waiting::Nothing, ..before })
                } else if r is Ok {
                    let nodes = r.unwrap();
                    &&& after == (DfsSearch {
                        state: after.state,
                        paths: after.paths,
                        search_node: after.search_node,
                        level: (before.level + 1) as usize,
                        waiting: Waiting::Nothing,
                        ..before
                    })
                    &&& is_search_order(
                        after.paths.deep_view(),
                        kept.unwrap(),
                        before.order,
                        *config,
                    )
                    &&& after.state.model() == before.state.model().add_stars(
                        before.search_node as int,
                        crate::dfs::as_int_lists(nodes@),
                        after.paths.deep_view(),
                        level.position(),
                    )
                    &&& nodes@.len() == after.paths@.len()
                    &&& crate::dfs::lists_distinct(nodes@)
                    &&& nodes@[0]@.len() > 0
                    &&& after.search_node == nodes@[0]@.last()
                } else if !crate::dfs::all_of_length(kept.unwrap(), level.position() + 1) {
                    r == Err::<Vec<Vec<usize>>, IndexError>(
                        IndexError::InternalError(MSG_PATH_LENGTH),
                    )
                } else {
                    !before.state.has_room(kept.unwrap().len()) && r == Err::<
                        Vec<Vec<usize>>,
                        IndexError,
                    >(IndexError::InternalError(crate::errors::MSG_GRAPH_FULL))
                }
            }),
    {
        let count = self.levels.len();
        assert(self.level < count);
        let level = self.levels[self.level];
        if !config.contains(level) {
            self.level = self.level + 1;
            self.waiting = Waiting::Nothing;
            return Ok(Vec::new());
        }
        let lower = match get_next_level_path_dfs(
            Vec::new(),
            children,
            &self.from,
            &self.until,
            &level,
            &self.order,
            config,
        ) {
            Ok(lower) => lower,
            Err(e) => { return Err(e); },
        };
        let ghost kept = kept_children(
            children.deep_view(),
            level_bound(self.from.civil, level),
            level_bound(self.until.civil, level),
            self.order,
            *config,
        ).unwrap();
        proof {
            lemma_search_order(lower.deep_view(), kept, self.order, *config);
        }
        if lower.len() == 0 {
            self.finished = true;
            self.waiting = Waiting::Nothing;
            return Ok(Vec::new());
        }
        let depth = level.depth();
        let ghost lower_view = lower.deep_view();
        proof {
            if crate::dfs::all_of_length(kept, (depth + 1) as nat) {
                assert forall|k: int| 0 <= k < lower_view.len() implies (
                #[trigger] lower_view[k]).len() == depth + 1 by {
                    let at = choose|at: int| 0 <= at < kept.len() && kept[at] == lower_view[k];
                }
            }
            if crate::dfs::all_of_length(lower_view, (depth + 1) as nat) {
                assert forall|k: int| 0 <= k < kept.len() implies (#[trigger] kept[k]).len()
                    == depth + 1 by {
                    let at = choose|at: int|
                        0 <= at < lower_view.len() && lower_view[at] == kept[k];
                }
                crate::dfs::lemma_nodes_needed_of_children(lower_view, depth as nat);
            }
        }
        if !crate::dfs::have_length(&lower, depth + 1) {
            return Err(IndexError::InternalError(MSG_PATH_LENGTH));
        }
        assert(lower_view[0] == lower@[0].deep_view());
        assert(crate::dfs::prefixes_beyond(lower_view[0], depth as nat).len() == 1);
        let (first, nodes) = match self.state.populate_from_paths_forward(
            clone_paths(&lower),
            depth,
            self.search_node,
        ) {
            Ok(pair) => pair,
            Err(e) => { return Err(e); },
        };
        proof {
            assert(crate::dfs::are_new(nodes@[0]@, old(self).state.model(), self.state.model()));
            assert(self.state.model().weights.dom().contains(nodes@[0]@[nodes@[0]@.len() - 1] as int));
        }
        self.search_node = first;
        self.paths = lower;
        self.level = self.level + 1;
        self.waiting = Waiting::Nothing;
        Ok(nodes)
    }

    /// Takes the children of a node met on the walk: those within the span get
    /// nodes hung from that node, in the order of the search, and the walk
    /// starts anew at the node with the rest of its stack kept. It gives back
    /// the new nodes and the paths they stand for.
    pub fn expand(&mut self, children: &Vec<Path>, config: &IndexConfiguration) -> (r: IndexResult<
        (Vec<usize>, Vec<Path>),
    >)
        requires
            old(self).wf(),
            old(self).waiting is Expansion,
        ensures
            final(self).wf(),
            r is Err ==> *final(self) == *old(self),
            ({
                let before = *old(self);
                let after = *final(self);
                let node = before.waiting->Expansion_0;
                let level = before.waiting->Expansion_1;
                let kept = kept_children(
                    children.deep_view(),
                    level_bound(before.from.civil, level),
                    level_bound(before.until.civil, level),
                    before.order,
                    *config,
                );
                if !config.enabled(level) {
                    r == Err::<(Vec<usize>, Vec<Path>), IndexError>(
                        IndexError::InternalError(MSG_PATH_LENGTH),
                    )
                } else if kept is Err {
                    r == Err::<(Vec<usize>, Vec<Path>), IndexError>(kept->Err_0)
                } else if !before.state.model().weights.dom().contains(node as int) {
                    r == Err::<(Vec<usize>, Vec<Path>), IndexError>(
                        IndexError::InternalError(MSG_NO_NODE),
                    )
                } else if !before.state.has_room(kept.unwrap().len()) {
                    r == Err::<(Vec<usize>, Vec<Path>), IndexError>(
                        IndexError::InternalError(crate::errors::MSG_GRAPH_FULL),
                    )
                } else {
                    &&& r is Ok
                    &&& after == (DfsSearch {
                        state: after.state,
                        cursor: after.cursor,
                        has_searched: after.has_searched,
                        waiting: Waiting::Nothing,
                        ..before
                    })
                    &&& is_search_order(
                        r.unwrap().1.deep_view(),
                        kept.unwrap(),
                        before.order,
                        *config,
                    )
                    &&& r.unwrap().0@.len() == r.unwrap().1@.len()
                    &&& crate::dfs::are_distinct(r.unwrap().0@)
                    &&& after.state.model() == before.state.model().add_children(
                        node as int,
                        as_ints(r.unwrap().0@),
                        r.unwrap().1.deep_view(),
                    )
                    &&& as_ints(after.cursor.stack@) == without_repeats(
                        seq![node as int] + as_ints(before.cursor.stack@),
                    )
                    &&& after.cursor.discovered@.len() == 0
                    &&& after.has_searched@ == before.has_searched@.push(node)
                }
            }),
    {
        let (node, level) = match self.waiting {
            Waiting::Expansion(node, level) => (node, level),
            _ => (0, IndexType::Year),
        };
        if !config.contains(level) {
            return Err(IndexError::InternalError(MSG_PATH_LENGTH));
        }
        let lower = match get_next_level_path_dfs(
            Vec::new(),
            children,
            &self.from,
            &self.until,
            &level,
            &self.order,
            config,
        ) {
            Ok(lower) => lower,
            Err(e) => { return Err(e); },
        };
        proof {
            let kept = kept_children(
                children.deep_view(),
                level_bound(self.from.civil, level),
                level_bound(self.until.civil, level),
                self.order,
                *config,
            ).unwrap();
            lemma_search_order(lower.deep_view(), kept, self.order, *config);
        }
        let nodes = match self.state.populate_next_nodes_from_position(clone_paths(&lower), node) {
            Ok(nodes) => nodes,
            Err(e) => { return Err(e); },
        };
        proof {
            if old(self).state.model().weights.dom().contains(self.search_node as int) {
                crate::dfs::lemma_add_children_keeps(
                    old(self).state.model(),
                    node as int,
                    as_ints(nodes@),
                    lower.deep_view(),
                    self.search_node as int,
                );
            }
        }
        self.cursor.restart_at(node);
        self.has_searched.push(node);
        self.waiting = Waiting::Nothing;
        Ok((nodes, lower))
    }

    /// Takes the bucket paths below the node of full depth that the walk is
    /// at: they are gone through in the order of the search, by the start of
    /// their buckets.
    pub fn add_buckets(&mut self, children: &Vec<Path>) -> (r: IndexResult<()>)
        requires
            old(self).wf(),
            old(self).waiting is Buckets,
        ensures
            final(self).wf(),
            match buckets_of(children.deep_view()) {
                Err(e) => r == Err::<(), IndexError>(e) && *final(self) == *old(self),
                Ok(_) => {
                    let after = *final(self);
                    &&& r is Ok
                    &&& after == (DfsSearch {
                        pending: after.pending,
                        waiting: Waiting::Nothing,
                        ..*old(self)
                    })
                    &&& is_bucket_order(
                        after.pending.deep_view(),
                        children.deep_view(),
                        after.order,
                    )
                },
            },
    {
        let ordered = match order_buckets(children, &self.order) {
            Ok(ordered) => ordered,
            Err(e) => { return Err(e); },
        };
        self.pending = ordered;
        self.waiting = Waiting::Nothing;
        Ok(())
    }

    /// Takes the entries linked from a bucket: those whose own time lies
    /// within the span are added to what was found.
    pub fn add_entries(&mut self, entries: Vec<T>)
        requires
            old(self).wf(),
            old(self).waiting is Links,
        ensures
            final(self).wf(),
            *final(self) == (DfsSearch {
                out: final(self).out,
                waiting: Waiting::Nothing,
                ..*old(self)
            }),
            final(self).out@ == old(self).out@ + kept_entries(
                entries@,
                old(self).from,
                old(self).until,
                old(self).order,
            ),
    {
        keep_entries(&mut self.out, entries, &self.from, &self.until, self.order);
        self.waiting = Waiting::Nothing;
    }

    /// The answer of the search: what was found, in the order of the search by
    /// the entries' own times, cut off after as many as were asked for.
    pub fn finish(self) -> (r: Vec<Keyed<TimePoint, T>>)
        ensures
            is_answer(r@, self.out@, self.order is Desc, self.limit),
            sorted_by_rank(r@, self.order is Desc),
            self.limit is Some ==> r@.len() <= self.limit.unwrap(),
    {
        let descending = matches!(self.order, Order::Desc);
        let limit = self.limit;
        answer_of(self.out, descending, limit)
    }
}

/// The things of `keyed` without their keys.
pub fn strip_keys<K, T>(keyed: Vec<Keyed<K, T>>) -> (r: Vec<T>)
    ensures
        r@ == Seq::new(keyed@.len(), |k: int| keyed@[k].item),
{
    let ghost all = keyed@;
    let mut rest = keyed;
    let mut r: Vec<T> = Vec::new();
    let ghost mut taken: int = 0;
    while rest.len() > 0
        invariant
            0 <= taken <= all.len(),
            rest@ == all.subrange(taken, all.len() as int),
            r@ == Seq::new(taken as nat, |k: int| all[k].item),
        decreases rest.len(),
    {
        let Keyed { key: _, item } = rest.remove(0);
        r.push(item);
        proof {
            taken = taken + 1;
            assert(rest@ =~= all.subrange(taken, all.len() as int));
            assert(r@ =~= Seq::new(taken as nat, |k: int| all[k].item));
        }
    }
    r
}

} // verus!
