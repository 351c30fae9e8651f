//! The exhaustive search: level by level, every child of every path found so
//! far is looked at, and those within the span are kept.

use crate::calendar::{CivilTime, TimePoint};
use crate::codec::pow256;
use crate::conversions::path_time;
use crate::entries::{Component, IndexConfiguration, IndexType, Order, Path, StringIndex,
    WrappedPath};
use crate::errors::{IndexError, IndexResult, MSG_NAME_TOO_LONG};
use crate::names::text_bytes;
use crate::paths::{clone_path, lemma_push_deep_view};
use crate::search::{get_naivedatetime, is_within, level_bound, within};
use crate::utils::{find_divergent_time, level_components, levels_after, shared_levels};
use vstd::prelude::*;
use vstd::utf8::encode_utf8;

verus! {

/// The paths of `children` whose time lies within the span, in the order in
/// which they stand. A child whose time cannot be read makes the whole an
/// error: the error of the first such child.
pub open spec fn kept_children(
    children: Seq<Seq<Seq<u8>>>,
    from: CivilTime,
    until: CivilTime,
    order: Order,
    config: IndexConfiguration,
) -> IndexResult<Seq<Seq<Seq<u8>>>>
    decreases children.len(),
{
    if children.len() == 0 {
        Ok(Seq::empty())
    } else {
        match kept_children(children.drop_last(), from, until, order, config) {
            Err(e) => Err(e),
            Ok(kept) => match path_time(children.last(), config) {
                Err(e) => Err(e),
                Ok(t) => if within(t, from, until, order) {
                    Ok(kept.push(children.last()))
                } else {
                    Ok(kept)
                },
            },
        }
    }
}

/// The kept children of each list of `lists`, one list after the other.
pub open spec fn kept_of_lists(
    lists: Seq<Seq<Seq<Seq<u8>>>>,
    from: CivilTime,
    until: CivilTime,
    order: Order,
    config: IndexConfiguration,
) -> IndexResult<Seq<Seq<Seq<u8>>>>
    decreases lists.len(),
{
    if lists.len() == 0 {
        Ok(Seq::empty())
    } else {
        match kept_of_lists(lists.drop_last(), from, until, order, config) {
            Err(e) => Err(e),
            Ok(kept) => match kept_children(lists.last(), from, until, order, config) {
                Err(e) => Err(e),
                Ok(more) => Ok(kept + more),
            },
        }
    }
}

/// Appends to `out` the paths of `children` that lie within the span.
pub fn keep_children(
    out: &mut Vec<Path>,
    children: &Vec<Path>,
    from: &CivilTime,
    until: &CivilTime,
    order: Order,
    config: &IndexConfiguration,
) -> (r: IndexResult<()>)
    ensures
        match r {
            Ok(_) => kept_children(children.deep_view(), *from, *until, order, *config) is Ok
                && final(out).deep_view() == old(out).deep_view() + kept_children(
                children.deep_view(),
                *from,
                *until,
                order,
                *config,
            ).unwrap(),
            Err(e) => kept_children(children.deep_view(), *from, *until, order, *config) == Err::<
                Seq<Seq<Seq<u8>>>,
                IndexError,
            >(e),
        },
{
    let ghost all = children.deep_view();
    let ghost start = out.deep_view();
    let mut i: usize = 0;
    assert(all.subrange(0, 0) =~= Seq::<Seq<Seq<u8>>>::empty());
    assert(start + Seq::<Seq<Seq<u8>>>::empty() =~= start);
    while i < children.len()
        invariant
            i <= children.len(),
            all == children.deep_view(),
            all.len() == children@.len(),
            start == old(out).deep_view(),
            kept_children(all.subrange(0, i as int), *from, *until, order, *config) is Ok,
            out.deep_view() == start + kept_children(
                all.subrange(0, i as int),
                *from,
                *until,
                order,
                *config,
            ).unwrap(),
        decreases children.len() - i,
    {
        let ghost seen = all.subrange(0, i as int);
        let ghost next = all.subrange(0, i + 1);
        proof {
            assert(next.drop_last() =~= seen);
            assert(next.last() == all[i as int]);
            assert(all[i as int] == children@[i as int].deep_view());
        }
        let time = match WrappedPath(clone_path(&children[i])).try_into_datetime(config) {
            Ok(time) => time,
            Err(e) => {
                proof {
                    lemma_kept_children_error(all, i as int, *from, *until, order, *config);
                }
                return Err(e);
            },
        };
        if is_within(&time, from, until, order) {
            let ghost before = *out;
            let child = clone_path(&children[i]);
            out.push(child);
            proof {
                lemma_push_deep_view(before, *out, child);
                let kept = kept_children(seen, *from, *until, order, *config).unwrap();
                assert((start + kept).push(all[i as int]) =~= start + kept.push(all[i as int]));
            }
        }
        i = i + 1;
    }
    assert(all.subrange(0, all.len() as int) =~= all);
    Ok(())
}

/// With an unreadable child at `bad` and readable ones in front of it, the
/// children as a whole have that child's error.
pub proof fn lemma_kept_children_error(
    children: Seq<Seq<Seq<u8>>>,
    bad: int,
    from: CivilTime,
    until: CivilTime,
    order: Order,
    config: IndexConfiguration,
)
    requires
        0 <= bad < children.len(),
        kept_children(children.subrange(0, bad), from, until, order, config) is Ok,
        path_time(children[bad], config) is Err,
    ensures
        kept_children(children, from, until, order, config) == Err::<
            Seq<Seq<Seq<u8>>>,
            IndexError,
        >(path_time(children[bad], config)->Err_0),
    decreases children.len() - bad,
{
    let upto = children.subrange(0, bad + 1);
    assert(upto.drop_last() =~= children.subrange(0, bad));
    assert(upto.last() == children[bad]);
    lemma_kept_children_error_spreads(children, bad + 1, from, until, order, config);
}

proof fn lemma_kept_children_error_spreads(
    children: Seq<Seq<Seq<u8>>>,
    count: int,
    from: CivilTime,
    until: CivilTime,
    order: Order,
    config: IndexConfiguration,
)
    requires
        0 <= count <= children.len(),
        kept_children(children.subrange(0, count), from, until, order, config) is Err,
    ensures
        kept_children(children, from, until, order, config) == kept_children(
            children.subrange(0, count),
            from,
            until,
            order,
            config,
        ),
    decreases children.len() - count,
{
    if count < children.len() {
        let next = children.subrange(0, count + 1);
        assert(next.drop_last() =~= children.subrange(0, count));
        lemma_kept_children_error_spreads(children, count + 1, from, until, order, config);
    } else {
        assert(children.subrange(0, count) =~= children);
    }
}

/// The paths one level below `paths` that lie within the span from `from` to
/// `until` as seen from the level `index_type`, where `children` holds, for
/// each path of `paths` in turn, the children that path has in the tree. Every
/// child is looked at. Where the tree does not have the level, the answer is
/// `paths` as they are.
pub fn get_next_level_path_bfs(
    paths: Vec<Path>,
    children: &Vec<Vec<Path>>,
    from: &TimePoint,
    until: &TimePoint,
    index_type: &IndexType,
    config: &IndexConfiguration,
) -> (r: IndexResult<Vec<Path>>)
    ensures
        !config.enabled(*index_type) ==> r is Ok && r.unwrap().deep_view() == paths.deep_view(),
        config.enabled(*index_type) ==> match r {
            Ok(found) => kept_of_lists(
                children.deep_view(),
                level_bound(from.civil, *index_type),
                level_bound(until.civil, *index_type),
                Order::Asc,
                *config,
            ) == Ok::<Seq<Seq<Seq<u8>>>, IndexError>(found.deep_view()),
            Err(e) => kept_of_lists(
                children.deep_view(),
                level_bound(from.civil, *index_type),
                level_bound(until.civil, *index_type),
                Order::Asc,
                *config,
            ) == Err::<Seq<Seq<Seq<u8>>>, IndexError>(e),
        },
{
    let (from_time, until_time) = match get_naivedatetime(from, until, index_type, config) {
        Some(tuple) => tuple,
        None => { return Ok(paths); },
    };
    let ghost lists = children.deep_view();
    let mut out: Vec<Path> = Vec::new();
    let mut i: usize = 0;
    assert(lists.subrange(0, 0) =~= Seq::<Seq<Seq<Seq<u8>>>>::empty());
    assert(out.deep_view() =~= Seq::<Seq<Seq<u8>>>::empty());
    while i < children.len()
        invariant
            i <= children.len(),
            lists == children.deep_view(),
            lists.len() == children@.len(),
            config.enabled(*index_type),
            from_time == level_bound(from.civil, *index_type),
            until_time == level_bound(until.civil, *index_type),
            kept_of_lists(
                lists.subrange(0, i as int),
                from_time,
                until_time,
                Order::Asc,
                *config,
            ) == Ok::<Seq<Seq<Seq<u8>>>, IndexError>(out.deep_view()),
        decreases children.len() - i,
    {
        proof {
            let next = lists.subrange(0, i + 1);
            assert(next.drop_last() =~= lists.subrange(0, i as int));
            assert(next.last() == lists[i as int]);
            assert(lists[i as int] == children@[i as int].deep_view());
        }
        match keep_children(&mut out, &children[i], &from_time, &until_time, Order::Asc, config) {
            Ok(_) => {},
            Err(e) => {
                proof {
                    assert(kept_of_lists(
                        lists.subrange(0, i + 1),
                        from_time,
                        until_time,
                        Order::Asc,
                        *config,
                    ) == Err::<Seq<Seq<Seq<u8>>>, IndexError>(e));
                    lemma_kept_of_lists_error_spreads(
                        lists,
                        i + 1,
                        from_time,
                        until_time,
                        Order::Asc,
                        *config,
                    );
                }
                return Err(e);
            },
        }
        i = i + 1;
    }
    assert(lists.subrange(0, lists.len() as int) =~= lists);
    Ok(out)
}

proof fn lemma_kept_of_lists_error_spreads(
    lists: Seq<Seq<Seq<Seq<u8>>>>,
    count: int,
    from: CivilTime,
    until: CivilTime,
    order: Order,
    config: IndexConfiguration,
)
    requires
        0 <= count <= lists.len(),
        kept_of_lists(lists.subrange(0, count), from, until, order, config) is Err,
    ensures
        kept_of_lists(lists, from, until, order, config) == kept_of_lists(
            lists.subrange(0, count),
            from,
            until,
            order,
            config,
        ),
    decreases lists.len() - count,
{
    if count < lists.len() {
        let next = lists.subrange(0, count + 1);
        assert(next.drop_last() =~= lists.subrange(0, count));
        lemma_kept_of_lists_error_spreads(lists, count + 1, from, until, order, config);
    } else {
        assert(lists.subrange(0, count) =~= lists);
    }
}

/// The path at which a search of the span from `from` to `until` starts: the
/// name and the levels that the two ends share.
pub open spec fn search_root(
    name: Seq<char>,
    from: CivilTime,
    until: CivilTime,
    config: IndexConfiguration,
) -> Seq<Seq<u8>> {
    seq![text_bytes(encode_utf8(name))] + level_components(
        from,
        shared_levels(from, until, config),
    )
}

/// Builds the path at which a search starts and the levels left below it.
pub fn start_search(
    index: String,
    from: &TimePoint,
    until: &TimePoint,
    config: &IndexConfiguration,
) -> (r: IndexResult<(Path, Vec<IndexType>)>)
    ensures
        match r {
            Ok((root, levels)) => root.deep_view() == search_root(
                index@,
                from.civil,
                until.civil,
                *config,
            ) && levels@ == levels_after(*config, shared_levels(from.civil, until.civil, *config)),
            Err(e) => e == IndexError::InternalError(MSG_NAME_TOO_LONG) && encode_utf8(index@).len()
                >= pow256(4),
        },
{
    let ghost name = index@;
    let head = match StringIndex(index).get_sb() {
        Ok(head) => head,
        Err(e) => { return Err(e); },
    };
    let (mut found_path, index_level) = find_divergent_time(from, until, config);
    let ghost levels = found_path.deep_view();
    let mut root: Vec<Component> = Vec::new();
    root.push(head);
    let ghost first = root;
    root.append(&mut found_path);
    proof {
        let want = search_root(name, from.civil, until.civil, *config);
        assert(root@.len() == want.len());
        assert forall|k: int| 0 <= k < want.len() implies root.deep_view()[k] == want[k] by {
            if k == 0 {
                assert(root@[0] == first@[0]);
            } else {
                assert(levels[k - 1] == root@[k]@);
            }
        }
        assert(root.deep_view() =~= want);
    }
    Ok((root, index_level))
}

/// The children that each path of `paths` has in the tree `tree`, which holds
/// for each node its children; a path that is no node has none.
pub open spec fn children_in(tree: Map<Seq<Seq<u8>>, Seq<Seq<Seq<u8>>>>, paths: Seq<Seq<Seq<u8>>>)
    -> Seq<Seq<Seq<Seq<u8>>>> {
    Seq::new(
        paths.len(),
        |k: int|
            if tree.dom().contains(paths[k]) {
                tree[paths[k]]
            } else {
                Seq::empty()
            },
    )
}

/// What an exhaustive search of the tree `tree` finds below `paths` when it
/// goes through the levels `levels`: at each level the tree has, the children
/// of all paths found so far that lie within the span.
pub open spec fn paths_below(
    tree: Map<Seq<Seq<u8>>, Seq<Seq<Seq<u8>>>>,
    paths: Seq<Seq<Seq<u8>>>,
    levels: Seq<IndexType>,
    from: CivilTime,
    until: CivilTime,
    config: IndexConfiguration,
) -> IndexResult<Seq<Seq<Seq<u8>>>>
    decreases levels.len(),
{
    if levels.len() == 0 {
        Ok(paths)
    } else if !config.enabled(levels[0]) {
        paths_below(tree, paths, levels.drop_first(), from, until, config)
    } else {
        match kept_of_lists(
            children_in(tree, paths),
            level_bound(from, levels[0]),
            level_bound(until, levels[0]),
            Order::Asc,
            config,
        ) {
            Err(e) => Err(e),
            Ok(next) => paths_below(tree, next, levels.drop_first(), from, until, config),
        }
    }
}

/// An exhaustive search on its way down the tree: the paths found so far and
/// the levels still to go through.
pub struct BfsSearch {
    /// The paths found at the levels gone through.
    pub paths: Vec<Path>,
    /// The levels below the start of the search.
    pub levels: Vec<IndexType>,
    /// How many of `levels` have been gone through.
    pub level: usize,
    /// The earlier end of the span.
    pub from: TimePoint,
    /// The later end of the span.
    pub until: TimePoint,
}

impl BfsSearch {
    pub open spec fn wf(self) -> bool {
        self.level <= self.levels@.len()
    }

    /// What this search finds in the end, in the tree `tree`.
    pub open spec fn outcome(
        self,
        tree: Map<Seq<Seq<u8>>, Seq<Seq<Seq<u8>>>>,
        config: IndexConfiguration,
    ) -> IndexResult<Seq<Seq<Seq<u8>>>> {
        paths_below(
            tree,
            self.paths.deep_view(),
            self.levels@.skip(self.level as int),
            self.from.civil,
            self.until.civil,
            config,
        )
    }

    /// Whether every level has been gone through, so that `paths` is the
    /// answer.
    pub fn is_done(&self) -> (b: bool)
        ensures
            b == (self.level >= self.levels@.len()),
            b && self.wf() ==> forall|
                tree: Map<Seq<Seq<u8>>, Seq<Seq<Seq<u8>>>>,
                config: IndexConfiguration,
            | #[trigger]
                self.outcome(tree, config) == Ok::<Seq<Seq<Seq<u8>>>, IndexError>(
                    self.paths.deep_view(),
                ),
    {
        proof {
            if self.wf() && self.level >= self.levels@.len() {
                assert(self.levels@.skip(self.level as int).len() == 0);
            }
        }
        self.level >= self.levels.len()
    }

    /// Goes through the next level, given for each path of `paths` in turn the
    /// children it has in the tree.
    pub fn expand(self, children: &Vec<Vec<Path>>, config: &IndexConfiguration) -> (r: IndexResult<
        BfsSearch,
    >)
        requires
            self.level < self.levels@.len(),
        ensures
            match r {
                Ok(next) => {
                    &&& next.levels == self.levels
                    &&& next.level == self.level + 1
                    &&& next.from == self.from
                    &&& next.until == self.until
                    &&& next.wf()
                    &&& config.enabled(self.levels@[self.level as int]) ==> kept_of_lists(
                        children.deep_view(),
                        level_bound(self.from.civil, self.levels@[self.level as int]),
                        level_bound(self.until.civil, self.levels@[self.level as int]),
                        Order::Asc,
                        *config,
                    ) == Ok::<Seq<Seq<Seq<u8>>>, IndexError>(next.paths.deep_view())
                    &&& !config.enabled(self.levels@[self.level as int]) ==> next.paths.deep_view()
                        == self.paths.deep_view()
                },
                Err(e) => config.enabled(self.levels@[self.level as int]) && kept_of_lists(
                    children.deep_view(),
                    level_bound(self.from.civil, self.levels@[self.level as int]),
                    level_bound(self.until.civil, self.levels@[self.level as int]),
                    Order::Asc,
                    *config,
                ) == Err::<Seq<Seq<Seq<u8>>>, IndexError>(e),
            },
            forall|tree: Map<Seq<Seq<u8>>, Seq<Seq<Seq<u8>>>>|
                children.deep_view() == #[trigger] children_in(tree, self.paths.deep_view())
                    ==> self.outcome(tree, *config) == match r {
                    Ok(next) => next.outcome(tree, *config),
                    Err(e) => Err::<Seq<Seq<Seq<u8>>>, IndexError>(e),
                },
    {
        proof {
            let rest = self.levels@.skip(self.level as int);
            assert(rest[0] == self.levels@[self.level as int]);
            assert(rest.drop_first() =~= self.levels@.skip(self.level + 1));
        }
        let BfsSearch { paths, levels, level, from, until } = self;
        let count = levels.len();
        assert(level < count);
        let index_type = levels[level];
        match get_next_level_path_bfs(paths, children, &from, &until, &index_type, config) {
            Ok(found) => Ok(BfsSearch { paths: found, levels, level: level + 1, from, until }),
            Err(e) => Err(e),
        }
    }
}

/// Find all paths which exist between `from` and `until` in the tree `index`:
/// the search starts at the path the two ends share and goes through the
/// levels below it one by one.
pub fn find_paths_for_time_span(
    from: TimePoint,
    until: TimePoint,
    index: String,
    config: &IndexConfiguration,
) -> (r: IndexResult<BfsSearch>)
    ensures
        match r {
            Ok(search) => {
                &&& search.wf()
                &&& search.level == 0
                &&& search.from == from
                &&& search.until == until
                &&& search.paths.deep_view() == seq![
                    search_root(index@, from.civil, until.civil, *config),
                ]
                &&& search.levels@ == levels_after(
                    *config,
                    shared_levels(from.civil, until.civil, *config),
                )
            },
            Err(e) => e == IndexError::InternalError(MSG_NAME_TOO_LONG) && encode_utf8(index@).len()
                >= pow256(4),
        },
{
    let (root, levels) = match start_search(index, &from, &until, config) {
        Ok(pair) => pair,
        Err(e) => { return Err(e); },
    };
    let mut paths: Vec<Path> = Vec::new();
    let ghost root_view = root.deep_view();
    paths.push(root);
    assert(paths.deep_view()[0] == paths@[0].deep_view());
    assert(paths.deep_view() =~= seq![root_view]);
    Ok(BfsSearch { paths, levels, level: 0, from, until })
}

} // verus!
