//! Walking a search graph depth first, with an explicit stack.

use crate::dfs::{as_ints, SearchState};
use vstd::prelude::*;

verus! {

/// The nodes of `nodes` that are not in `seen`, in the order in which they
/// stand.
pub open spec fn unseen(nodes: Seq<int>, seen: Set<int>) -> Seq<int>
    decreases nodes.len(),
{
    if nodes.len() == 0 {
        Seq::empty()
    } else if seen.contains(nodes.last()) {
        unseen(nodes.drop_last(), seen)
    } else {
        unseen(nodes.drop_last(), seen).push(nodes.last())
    }
}

/// The edges of `node` in a graph with the edges `successors`; none where the
/// node is not in the graph.
pub open spec fn edges_of(successors: Map<int, Seq<int>>, node: int) -> Seq<int> {
    if successors.dom().contains(node) {
        successors[node]
    } else {
        Seq::empty()
    }
}

/// One step of the walk: the top of the stack is taken off until a node comes
/// that has not been seen. That node is the next of the walk; it counts as
/// seen from now on, and those of its successors that have not been seen go
/// onto the stack. The walk is over when the stack runs empty.
pub open spec fn walk_next(stack: Seq<int>, seen: Set<int>, successors: Map<int, Seq<int>>) -> (
    Option<int>,
    Seq<int>,
    Set<int>,
)
    decreases stack.len(),
{
    if stack.len() == 0 {
        (None, stack, seen)
    } else if seen.contains(stack.last()) {
        walk_next(stack.drop_last(), seen, successors)
    } else {
        (
            Some(stack.last()),
            stack.drop_last() + unseen(edges_of(successors, stack.last()), seen.insert(stack.last())),
            seen.insert(stack.last()),
        )
    }
}

/// `s` without an element that repeats the one in front of it.
pub open spec fn without_repeats(s: Seq<int>) -> Seq<int>
    decreases s.len(),
{
    if s.len() <= 1 {
        s
    } else if s.last() == s[s.len() - 2] {
        without_repeats(s.drop_last())
    } else {
        without_repeats(s.drop_last()).push(s.last())
    }
}

/// The nodes that `list` holds.
pub open spec fn node_set(list: Seq<usize>) -> Set<int> {
    Set::new(|n: int| exists|k: int| 0 <= k < list.len() && #[trigger] list[k] as int == n)
}

/// Whether `node` is among `list`.
pub fn list_contains(list: &Vec<usize>, node: usize) -> (b: bool)
    ensures
        b == node_set(list@).contains(node as int),
{
    let mut i: usize = 0;
    while i < list.len()
        invariant
            i <= list.len(),
            forall|k: int| 0 <= k < i ==> list@[k] != node,
        decreases list.len() - i,
    {
        if list[i] == node {
            assert(list@[i as int] as int == node as int);
            return true;
        }
        i = i + 1;
    }
    false
}

/// Where a walk stands: the nodes still to look at, the next one last, and the
/// nodes it has been at.
pub struct DfsCursor {
    pub stack: Vec<usize>,
    pub discovered: Vec<usize>,
}

impl DfsCursor {
    /// A walk that starts at `start` and has been nowhere.
    pub fn new(start: usize) -> (c: DfsCursor)
        ensures
            c.stack@ == seq![start],
            c.discovered@.len() == 0,
    {
        let mut stack: Vec<usize> = Vec::new();
        stack.push(start);
        DfsCursor { stack, discovered: Vec::new() }
    }

    /// The next node of the walk over the graph of `state`.
    pub fn next(&mut self, state: &SearchState) -> (r: Option<usize>)
        requires
            state.wf(),
        ensures
            ({
                let step = walk_next(
                    as_ints(old(self).stack@),
                    node_set(old(self).discovered@),
                    state.model().successors,
                );
                &&& match r {
                    Some(node) => step.0 == Some(node as int),
                    None => step.0 is None,
                }
                &&& as_ints(final(self).stack@) == step.1
                &&& node_set(final(self).discovered@) == step.2
            }),
    {
        let ghost edges = state.model().successors;
        while self.stack.len() > 0
            invariant
                state.wf(),
                edges == state.model().successors,
                self.discovered == old(self).discovered,
                walk_next(as_ints(self.stack@), node_set(self.discovered@), edges) == walk_next(
                    as_ints(old(self).stack@),
                    node_set(old(self).discovered@),
                    edges,
                ),
            decreases self.stack.len(),
        {
            let ghost stack_before = self.stack@;
            let ghost seen_before = node_set(self.discovered@);
            let node = match self.stack.pop() {
                Some(node) => node,
                None => 0,
            };
            proof {
                assert(as_ints(stack_before).last() == node as int);
                assert(as_ints(stack_before).drop_last() =~= as_ints(self.stack@));
            }
            if !list_contains(&self.discovered, node) {
                let ghost discovered_before = self.discovered@;
                self.discovered.push(node);
                let ghost seen = node_set(self.discovered@);
                proof {
                    assert(self.discovered@[discovered_before.len() as int] == node);
                    assert forall|n: int| seen.contains(n) <==> seen_before.insert(
                        node as int,
                    ).contains(n) by {
                        if seen_before.contains(n) {
                            let k = choose|k: int|
                                0 <= k < discovered_before.len() && #[trigger] discovered_before[k] as int
                                    == n;
                            assert(self.discovered@[k] as int == n);
                        }
                        if seen.contains(n) && n != node as int {
                            let k = choose|k: int|
                                0 <= k < self.discovered@.len() && #[trigger] self.discovered@[k] as int
                                    == n;
                            assert(discovered_before[k] as int == n);
                        }
                    }
                    assert(seen =~= seen_before.insert(node as int));
                }
                let successors = state.successors(node);
                let ghost rest = as_ints(self.stack@);
                let ghost targets = edges_of(edges, node as int);
                proof {
                    assert(targets =~= as_ints(successors@));
                    assert(targets.subrange(0, 0) =~= Seq::<int>::empty());
                    assert(rest + Seq::<int>::empty() =~= rest);
                }
                let mut j: usize = 0;
                while j < successors.len()
                    invariant
                        j <= successors.len(),
                        targets == as_ints(successors@),
                        seen == node_set(self.discovered@),
                        as_ints(self.stack@) == rest + unseen(targets.subrange(0, j as int), seen),
                    decreases successors.len() - j,
                {
                    let succ = successors[j];
                    let ghost stack_now = self.stack@;
                    proof {
                        let next = targets.subrange(0, j + 1);
                        assert(next.drop_last() =~= targets.subrange(0, j as int));
                        assert(next.last() == succ as int);
                    }
                    if !list_contains(&self.discovered, succ) {
                        self.stack.push(succ);
                        assert(as_ints(self.stack@) =~= as_ints(stack_now).push(succ as int));
                        assert(as_ints(self.stack@) =~= rest + unseen(
                            targets.subrange(0, j + 1),
                            seen,
                        ));
                    }
                    j = j + 1;
                }
                assert(targets.subrange(0, targets.len() as int) =~= targets);
                return Some(node);
            }
        }
        assert(as_ints(self.stack@) =~= Seq::<int>::empty());
        None
    }

    /// Starts the walk anew at `node`, with nothing seen: `node` goes to the
    /// bottom of the stack below what the stack holds, and a node that then
    /// repeats the one below it is taken out.
    pub fn restart_at(&mut self, node: usize)
        ensures
            as_ints(final(self).stack@) == without_repeats(
                seq![node as int] + as_ints(old(self).stack@),
            ),
            final(self).discovered@.len() == 0,
    {
        let ghost all = seq![node as int] + as_ints(self.stack@);
        let mut stack: Vec<usize> = Vec::new();
        stack.push(node);
        let mut last: usize = node;
        let mut i: usize = 0;
        assert(all.subrange(0, 1) =~= seq![node as int]);
        assert(as_ints(stack@) =~= seq![node as int]);
        while i < self.stack.len()
            invariant
                i <= self.stack.len(),
                self.stack == old(self).stack,
                all == seq![node as int] + as_ints(self.stack@),
                last as int == all[i as int],
                as_ints(stack@) == without_repeats(all.subrange(0, i + 1)),
            decreases self.stack.len() - i,
        {
            let item = self.stack[i];
            let ghost stack_now = stack@;
            proof {
                let next = all.subrange(0, i + 2);
                assert(next.drop_last() =~= all.subrange(0, i + 1));
                assert(next.last() == item as int);
                assert(next[next.len() - 2] == last as int);
            }
            if item != last {
                stack.push(item);
                assert(as_ints(stack@) =~= as_ints(stack_now).push(item as int));
            }
            last = item;
            i = i + 1;
        }
        assert(all.subrange(0, all.len() as int) =~= all);
        self.stack = stack;
        self.discovered = Vec::new();
    }
}

} // verus!
