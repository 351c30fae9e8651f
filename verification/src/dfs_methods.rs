//! The steps of the depth-first search that need no store: which children of a
//! node are worth going to and in which order, which buckets come first, and
//! which entries belong to the answer.

use crate::bfs::{keep_children, kept_children};
use crate::calendar::{CivilTime, TimePoint};
use crate::conversions::{path_bucket, path_time};
use crate::entries::{Index, IndexConfiguration, IndexType, Order, Path, WrappedPath};
use crate::errors::{IndexError, IndexResult};
use crate::paths::clone_path;
use crate::search::{get_naivedatetime, level_bound, within};
use crate::sorting::{in_order, is_sorting_order, keys_of, rearranged, sort_keyed, Keyed};
use vstd::prelude::*;

verus! {

/// Every child that is kept has a time, and that time lies within the span.
pub proof fn lemma_kept_are_within(
    children: Seq<Seq<Seq<u8>>>,
    from: CivilTime,
    until: CivilTime,
    order: Order,
    config: IndexConfiguration,
)
    requires
        kept_children(children, from, until, order, config) is Ok,
    ensures
        forall|k: int|
            0 <= k < kept_children(children, from, until, order, config).unwrap().len() ==> {
                let path = #[trigger] kept_children(children, from, until, order, config).unwrap()[k];
                path_time(path, config) is Ok && within(
                    path_time(path, config).unwrap(),
                    from,
                    until,
                    order,
                )
            },
    decreases children.len(),
{
    if children.len() > 0 {
        lemma_kept_are_within(children.drop_last(), from, until, order, config);
    }
}

/// The paths of `paths` stand in the order of their times: earliest first, or
/// latest first where the order is descending.
pub open spec fn paths_in_order(paths: Seq<Seq<Seq<u8>>>, order: Order, config: IndexConfiguration)
    -> bool {
    forall|i: int, j: int|
        0 <= i < j < paths.len() ==> in_order(
            path_time(paths[i], config).unwrap(),
            path_time(paths[j], config).unwrap(),
            order is Desc,
        )
}

/// The times of `paths`, in their order.
pub open spec fn times_of(paths: Seq<Seq<Seq<u8>>>, config: IndexConfiguration) -> Seq<CivilTime> {
    Seq::new(paths.len(), |k: int| path_time(paths[k], config).unwrap())
}

/// `found` holds the paths of `kept` in the order of the search: by their
/// times, earliest first, or latest first where the order is descending, and
/// paths of one time in the order in which they stand in `kept`.
pub open spec fn is_search_order(
    found: Seq<Seq<Seq<u8>>>,
    kept: Seq<Seq<Seq<u8>>>,
    order: Order,
    config: IndexConfiguration,
) -> bool {
    exists|p: Seq<int>| #[trigger]
        is_sorting_order(p, times_of(kept, config), order is Desc) && found == rearranged(kept, p)
}

/// Paths in the order of the search are as many as before and stand in the
/// order of their times.
pub proof fn lemma_search_order(
    found: Seq<Seq<Seq<u8>>>,
    kept: Seq<Seq<Seq<u8>>>,
    order: Order,
    config: IndexConfiguration,
)
    requires
        is_search_order(found, kept, order, config),
    ensures
        found.len() == kept.len(),
        paths_in_order(found, order, config),
        forall|k: int| 0 <= k < found.len() ==> kept.contains(#[trigger] found[k]),
        forall|k: int| 0 <= k < kept.len() ==> found.contains(#[trigger] kept[k]),
{
    let p = choose|p: Seq<int>| #[trigger]
        is_sorting_order(p, times_of(kept, config), order is Desc) && found == rearranged(kept, p);
    assert forall|i: int, j: int| 0 <= i < j < found.len() implies in_order(
        path_time(found[i], config).unwrap(),
        path_time(found[j], config).unwrap(),
        order is Desc,
    ) by {
        assert(in_order(
            times_of(kept, config)[p[i]],
            times_of(kept, config)[p[j]],
            order is Desc,
        ));
    }
    assert forall|k: int| 0 <= k < found.len() implies kept.contains(#[trigger] found[k]) by {
        assert(kept[p[k]] == found[k]);
    }
    assert forall|k: int| 0 <= k < kept.len() implies found.contains(#[trigger] kept[k]) by {
        crate::sorting::lemma_rearrangement_covers(p, kept.len(), k);
        let at = choose|at: int| 0 <= at < p.len() && p[at] == k;
        assert(found[at] == kept[k]);
    }
}

/// The starts of the buckets of `paths`, in their order.
pub open spec fn starts_of(paths: Seq<Seq<Seq<u8>>>) -> Seq<crate::entries::Duration> {
    Seq::new(paths.len(), |k: int| path_bucket(paths[k]).unwrap().from)
}

/// `found` holds the bucket paths `children` in the order of the search: by
/// the start of their buckets, earliest first, or latest first where the
/// order is descending, and buckets of one start in the order in which they
/// stand in `children`.
pub open spec fn is_bucket_order(
    found: Seq<Seq<Seq<u8>>>,
    children: Seq<Seq<Seq<u8>>>,
    order: Order,
) -> bool {
    exists|p: Seq<int>| #[trigger]
        is_sorting_order(p, starts_of(children), order is Desc) && found == rearranged(children, p)
}

/// The paths of `keyed`, in their order.
fn keyed_paths<K>(keyed: &Vec<Keyed<K, Path>>) -> (r: Vec<Path>)
    ensures
        r@.len() == keyed@.len(),
        r.deep_view().len() == keyed@.len(),
        forall|k: int| 0 <= k < keyed@.len() ==> #[trigger] r.deep_view()[k] == keyed@[k].item.deep_view(),
{
    let mut r: Vec<Path> = Vec::new();
    let mut i: usize = 0;
    while i < keyed.len()
        invariant
            i <= keyed.len(),
            r@.len() == i,
            forall|k: int| 0 <= k < i ==> #[trigger] r@[k].deep_view() == keyed@[k].item.deep_view(),
        decreases keyed.len() - i,
    {
        let path = clone_path(&keyed[i].item);
        r.push(path);
        i = i + 1;
    }
    assert forall|k: int| 0 <= k < keyed@.len() implies #[trigger] r.deep_view()[k]
        == keyed@[k].item.deep_view() by {
        assert(r.deep_view()[k] == r@[k].deep_view());
    }
    r
}

/// The paths one level below the path chosen among `paths` that lie within the
/// span from `from` to `until` as seen from the level `index_type`, in the
/// order of the search: latest first where it is descending, earliest first
/// where it is ascending. `children` holds the children that the chosen path
/// has in the tree. Where the tree does not have the level, the answer is
/// `paths` as they are.
pub fn get_next_level_path_dfs(
    paths: Vec<Path>,
    children: &Vec<Path>,
    from: &TimePoint,
    until: &TimePoint,
    index_type: &IndexType,
    order: &Order,
    config: &IndexConfiguration,
) -> (r: IndexResult<Vec<Path>>)
    ensures
        !config.enabled(*index_type) ==> r is Ok && r.unwrap().deep_view() == paths.deep_view(),
        config.enabled(*index_type) ==> match kept_children(
            children.deep_view(),
            level_bound(from.civil, *index_type),
            level_bound(until.civil, *index_type),
            *order,
            *config,
        ) {
            Err(e) => r == Err::<Vec<Path>, IndexError>(e),
            Ok(kept) => r is Ok && is_search_order(r.unwrap().deep_view(), kept, *order, *config),
        },
{
    let (from_time, until_time) = match get_naivedatetime(from, until, index_type, config) {
        Some(tuple) => tuple,
        None => { return Ok(paths); },
    };
    let mut lower_paths: Vec<Path> = Vec::new();
    assert(lower_paths.deep_view() =~= Seq::<Seq<Seq<u8>>>::empty());
    match keep_children(&mut lower_paths, children, &from_time, &until_time, *order, config) {
        Ok(_) => {},
        Err(e) => { return Err(e); },
    }
    let ghost kept = kept_children(children.deep_view(), from_time, until_time, *order, *config).unwrap();
    assert(lower_paths.deep_view() =~= kept);
    proof {
        lemma_kept_are_within(children.deep_view(), from_time, until_time, *order, *config);
    }
    let mut keyed: Vec<Keyed<CivilTime, Path>> = Vec::new();
    let mut i: usize = 0;
    while i < lower_paths.len()
        invariant
            i <= lower_paths.len(),
            lower_paths.deep_view() == kept,
            kept.len() == lower_paths@.len(),
            keyed@.len() == i,
            forall|k: int|
                0 <= k < kept.len() ==> path_time(#[trigger] kept[k], *config) is Ok,
            forall|k: int|
                0 <= k < i ==> (#[trigger] keyed@[k]).item.deep_view() == kept[k] && path_time(
                    kept[k],
                    *config,
                ) == Ok::<CivilTime, IndexError>(keyed@[k].key),
        decreases lower_paths.len() - i,
    {
        assert(kept[i as int] == lower_paths@[i as int].deep_view());
        let path = clone_path(&lower_paths[i]);
        let key = match WrappedPath(clone_path(&lower_paths[i])).try_into_datetime(config) {
            Ok(time) => time,
            Err(_) => CivilTime { year: 0, month: 0, day: 0, hour: 0, minute: 0, second: 0 },
        };
        keyed.push(Keyed { key, item: path });
        i = i + 1;
    }
    let ghost unsorted = keyed@;
    assert(keys_of(unsorted) =~= times_of(kept, *config));
    let sorted = sort_keyed(keyed, matches!(order, Order::Desc));
    let found = keyed_paths(&sorted);
    proof {
        let p = choose|p: Seq<int>| #[trigger]
            is_sorting_order(p, keys_of(unsorted), *order is Desc) && sorted@ == rearranged(
                unsorted,
                p,
            );
        assert forall|k: int| 0 <= k < found.deep_view().len() implies found.deep_view()[k]
            == rearranged(kept, p)[k] by {
            assert(sorted@[k] == unsorted[p[k]]);
        }
        assert(found.deep_view() =~= rearranged(kept, p));
        assert(is_sorting_order(p, times_of(kept, *config), *order is Desc));
    }
    Ok(found)
}

/// The buckets that the last components of `children` hold, in their order;
/// the error of the first child that holds none.
pub open spec fn buckets_of(children: Seq<Seq<Seq<u8>>>) -> IndexResult<Seq<Index>>
    decreases children.len(),
{
    if children.len() == 0 {
        Ok(Seq::empty())
    } else {
        match buckets_of(children.drop_last()) {
            Err(e) => Err(e),
            Ok(buckets) => match path_bucket(children.last()) {
                Err(e) => Err(e),
                Ok(bucket) => Ok(buckets.push(bucket)),
            },
        }
    }
}

proof fn lemma_buckets_of_error_spreads(children: Seq<Seq<Seq<u8>>>, count: int)
    requires
        0 <= count <= children.len(),
        buckets_of(children.subrange(0, count)) is Err,
    ensures
        buckets_of(children) == buckets_of(children.subrange(0, count)),
    decreases children.len() - count,
{
    if count < children.len() {
        let next = children.subrange(0, count + 1);
        assert(next.drop_last() =~= children.subrange(0, count));
        lemma_buckets_of_error_spreads(children, count + 1);
    } else {
        assert(children.subrange(0, count) =~= children);
    }
}

pub proof fn lemma_buckets_of_len(children: Seq<Seq<Seq<u8>>>)
    requires
        buckets_of(children) is Ok,
    ensures
        buckets_of(children).unwrap().len() == children.len(),
        forall|k: int|
            0 <= k < children.len() ==> path_bucket(#[trigger] children[k]) == Ok::<
                Index,
                IndexError,
            >(buckets_of(children).unwrap()[k]),
    decreases children.len(),
{
    if children.len() > 0 {
        lemma_buckets_of_len(children.drop_last());
        assert forall|k: int| 0 <= k < children.len() implies path_bucket(
            #[trigger] children[k],
        ) == Ok::<Index, IndexError>(buckets_of(children).unwrap()[k]) by {
            if k < children.len() - 1 {
                assert(children.drop_last()[k] == children[k]);
            }
        }
    }
}

/// The bucket paths `children` in the order in which a search goes through
/// them: by the start of their buckets, latest first where the order is
/// descending and earliest first where it is ascending. A path whose last
/// component holds no bucket is an error: the error of the first such path.
pub fn order_buckets(children: &Vec<Path>, order: &Order) -> (r: IndexResult<Vec<Path>>)
    ensures
        match buckets_of(children.deep_view()) {
            Err(e) => r == Err::<Vec<Path>, IndexError>(e),
            Ok(_) => r is Ok && r.unwrap()@.len() == children@.len() && is_bucket_order(
                r.unwrap().deep_view(),
                children.deep_view(),
                *order,
            ),
        },
{
    let ghost all = children.deep_view();
    let mut keyed: Vec<Keyed<crate::entries::Duration, Path>> = Vec::new();
    let mut i: usize = 0;
    assert(all.subrange(0, 0) =~= Seq::<Seq<Seq<u8>>>::empty());
    while i < children.len()
        invariant
            i <= children.len(),
            all == children.deep_view(),
            all.len() == children@.len(),
            keyed@.len() == i,
            buckets_of(all.subrange(0, i as int)) is Ok,
            forall|k: int|
                0 <= k < i ==> (#[trigger] keyed@[k]).item.deep_view() == all[k] && path_bucket(
                    all[k],
                ) is Ok && path_bucket(all[k]).unwrap().from == keyed@[k].key,
        decreases children.len() - i,
    {
        proof {
            let next = all.subrange(0, i + 1);
            assert(next.drop_last() =~= all.subrange(0, i as int));
            assert(next.last() == all[i as int]);
            assert(all[i as int] == children@[i as int].deep_view());
        }
        let bucket = match Index::try_from_path(&children[i]) {
            Ok(bucket) => bucket,
            Err(e) => {
                proof {
                    lemma_buckets_of_error_spreads(all, i + 1);
                }
                return Err(e);
            },
        };
        let path = clone_path(&children[i]);
        keyed.push(Keyed { key: bucket.from, item: path });
        i = i + 1;
    }
    assert(all.subrange(0, all.len() as int) =~= all);
    let ghost unsorted = keyed@;
    assert(keys_of(unsorted) =~= starts_of(all));
    let sorted = sort_keyed(keyed, matches!(order, Order::Desc));
    let found = keyed_paths(&sorted);
    proof {
        let p = choose|p: Seq<int>| #[trigger]
            is_sorting_order(p, keys_of(unsorted), *order is Desc) && sorted@ == rearranged(
                unsorted,
                p,
            );
        assert forall|k: int| 0 <= k < found.deep_view().len() implies found.deep_view()[k]
            == rearranged(all, p)[k] by {
            assert(sorted@[k] == unsorted[p[k]]);
        }
        assert(found.deep_view() =~= rearranged(all, p));
        assert(is_sorting_order(p, starts_of(all), *order is Desc));
    }
    Ok(found)
}

/// The two searches keep the same children at every level. The exhaustive
/// search always runs from the earlier end of the span to the later; the
/// depth-first search runs in the direction of the query and, where that is
/// descending, holds the children against the ends the other way round.
pub proof fn lemma_both_searches_keep_the_same_children(
    children: Seq<Seq<Seq<u8>>>,
    from: CivilTime,
    until: CivilTime,
    config: IndexConfiguration,
)
    ensures
        kept_children(children, from, until, Order::Desc, config) == kept_children(
            children,
            until,
            from,
            Order::Asc,
            config,
        ),
    decreases children.len(),
{
    if children.len() > 0 {
        lemma_both_searches_keep_the_same_children(children.drop_last(), from, until, config);
    }
}

} // verus!
