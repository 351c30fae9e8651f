//! The operations of the index, as far as they need no store: what a query has
//! to fetch and what becomes of what it fetched.

use crate::bfs::{find_paths_for_time_span, search_root, BfsSearch};
use crate::calendar::TimePoint;
use crate::codec::pow256;
use crate::conversions::path_bucket;
use crate::dfs_methods::{buckets_of, lemma_buckets_of_len};
use crate::dfs_search::{keep_entries, kept_entries, make_dfs_search, DfsSearch};
use crate::entries::{Duration, EntryChunkIndex, Index, IndexConfiguration, IndexType, Link,
    LinkView, Order, Path, SearchStrategy, StringIndex};
use crate::errors::{IndexError, IndexResult, MSG_NAME_TOO_LONG, MSG_SMALL_FRAME};
use crate::paths::{clone_component, clone_path, component_eq};
use crate::permute::{pair_le, sorted_places, sorts};
use crate::search::{find_newest_time_path, is_newest};
use crate::sorting::{answer_of, in_order, is_answer, is_rearrangement, is_sorting_order, keys_of,
    rearranged, sort_with_keys, sorted_by_rank, Keyed};
use crate::traits::IndexableEntry;
use crate::utils::{bucket_of, get_index_for_timestamp, level_at, levels_after, shared_levels,
    time_path_for, time_path_of};
use vstd::prelude::*;
use vstd::utf8::encode_utf8;

verus! {

/// The direction of a query from `from` to `until`: descending where it starts
/// at the later end.
pub open spec fn order_of(from: TimePoint, until: TimePoint) -> Order {
    if until.spec_lt(from) {
        Order::Desc
    } else {
        Order::Asc
    }
}

pub fn search_order(from: &TimePoint, until: &TimePoint) -> (order: Order)
    ensures
        order == order_of(*from, *until),
{
    if until.lt(from) {
        Order::Desc
    } else {
        Order::Asc
    }
}

/// The distance between the two ends of a span, in milliseconds.
pub open spec fn span_millis(from: TimePoint, until: TimePoint) -> nat {
    if from.millis() <= until.millis() {
        (until.millis() - from.millis()) as nat
    } else {
        (from.millis() - until.millis()) as nat
    }
}

/// Checks that the span from `from` to `until` is at least one bucket wide,
/// whichever end comes first, and gives the direction of the query.
pub fn check_time_span(from: &TimePoint, until: &TimePoint, config: &IndexConfiguration) -> (r:
    IndexResult<Order>)
    ensures
        r == if span_millis(*from, *until) < config.max_chunk_interval {
            Err::<Order, IndexError>(IndexError::RequestError(MSG_SMALL_FRAME))
        } else {
            Ok::<Order, IndexError>(order_of(*from, *until))
        },
{
    let a = from.timestamp_millis();
    let b = until.timestamp_millis();
    let span = if a <= b { b - a } else { a - b };
    if span < config.max_chunk_interval as u128 {
        return Err(IndexError::RequestError(MSG_SMALL_FRAME));
    }
    Ok(search_order(from, until))
}

/// Takes a timestamp and creates the path of the bucket that holds it, after
/// checking the bucket against the rules at the time `now` after the epoch.
pub fn create_for_timestamp(
    index: String,
    time: &TimePoint,
    now: &Duration,
    config: &IndexConfiguration,
) -> (r: IndexResult<Path>)
    requires
        time.wf(),
        now.wf(),
        config.wf(),
    ensures
        ({
            let bucket = bucket_of(*time, *config);
            match r {
                Ok(path) => bucket.tree_path(index@, *now, *config) == Ok::<
                    Seq<Seq<u8>>,
                    IndexError,
                >(path.deep_view()),
                Err(e) => bucket.tree_path(index@, *now, *config) == Err::<
                    Seq<Seq<u8>>,
                    IndexError,
                >(e),
            }
        }),
{
    let time_index = get_index_for_timestamp(time, config);
    time_index.new(index, now, config)
}

/// The path of the tree node below which the bucket of the present time `now`
/// hangs in the tree `index`. The buckets below it are its children in the
/// store; `latest_bucket` picks among them.
pub fn get_current_index(index: String, now: &TimePoint, config: &IndexConfiguration) -> (r:
    IndexResult<Path>)
    ensures
        match r {
            Ok(path) => path.deep_view() == time_path_of(index@, now.civil, *config)
                && encode_utf8(index@).len() < pow256(4),
            Err(e) => e == IndexError::InternalError(MSG_NAME_TOO_LONG) && encode_utf8(index@).len()
                >= pow256(4),
        },
{
    time_path_for(index, now, config)
}

/// `best` is the place of the latest bucket: no bucket starts later, and every
/// bucket behind it starts at another time.
pub open spec fn is_latest(buckets: Seq<Index>, best: int) -> bool {
    &&& 0 <= best < buckets.len()
    &&& forall|k: int|
        0 <= k < buckets.len() ==> pair_le(
            (#[trigger] buckets[k].from.secs, buckets[k].from.nanos),
            (buckets[best].from.secs, buckets[best].from.nanos),
        )
    &&& forall|k: int| best < k < buckets.len() ==> #[trigger] buckets[k].from != buckets[best].from
}

/// Among the bucket paths `children` the one whose bucket starts latest; none
/// where there is no child. A path whose last component holds no bucket is an
/// error: the error of the first such path.
pub fn latest_bucket(children: &Vec<Path>) -> (r: IndexResult<Option<Path>>)
    ensures
        match buckets_of(children.deep_view()) {
            Err(e) => r == Err::<Option<Path>, IndexError>(e),
            Ok(buckets) => r is Ok && if children@.len() == 0 {
                r.unwrap() is None
            } else {
                r.unwrap() is Some && exists|best: int| #[trigger]
                    is_latest(buckets, best) && r.unwrap().unwrap().deep_view()
                        == children.deep_view()[best]
            },
        },
{
    let ghost all = children.deep_view();
    let mut keys: Vec<Duration> = Vec::new();
    let mut i: usize = 0;
    assert(all.subrange(0, 0) =~= Seq::<Seq<Seq<u8>>>::empty());
    while i < children.len()
        invariant
            i <= children.len(),
            all == children.deep_view(),
            all.len() == children@.len(),
            keys@.len() == i,
            buckets_of(all.subrange(0, i as int)) is Ok,
            forall|k: int|
                0 <= k < i ==> (#[trigger] path_bucket(all[k])) is Ok && path_bucket(
                    all[k],
                ).unwrap().from == keys@[k],
        decreases children.len() - i,
    {
        proof {
            let next = all.subrange(0, i + 1);
            assert(next.drop_last() =~= all.subrange(0, i as int));
            assert(next.last() == all[i as int]);
            assert(all[i as int] == children@[i as int].deep_view());
        }
        let bucket = match Index::try_from_path(&children[i]) {
            Ok(bucket) => bucket,
            Err(e) => {
                proof {
                    lemma_buckets_error(all, i as int);
                }
                return Err(e);
            },
        };
        keys.push(bucket.from);
        i = i + 1;
    }
    assert(all.subrange(0, all.len() as int) =~= all);
    if children.len() == 0 {
        return Ok(None);
    }
    let places = sorted_places(&keys);
    let best = places[places.len() - 1];
    proof {
        let buckets = buckets_of(all).unwrap();
        lemma_buckets_of_len(all);
        let p = Seq::new(places@.len(), |k: int| places@[k] as int);
        let pairs = Seq::new(keys@.len(), |k: int| (keys@[k].secs, keys@[k].nanos));
        let last = p.len() - 1;
        assert(p[last] == best as int);
        assert(0 <= p[last] < keys@.len());
        assert(buckets[best as int].from == keys@[best as int]) by {
            assert(path_bucket(all[best as int]) is Ok);
        }
        assert forall|k: int| 0 <= k < buckets.len() implies pair_le(
            (#[trigger] buckets[k].from.secs, buckets[k].from.nanos),
            (buckets[best as int].from.secs, buckets[best as int].from.nanos),
        ) by {
            crate::sorting::lemma_rearrangement_covers(p, keys@.len(), k);
            let at = choose|at: int| 0 <= at < p.len() && p[at] == k;
            assert(path_bucket(all[k]) is Ok);
            assert(buckets[k].from == keys@[k]);
            if at < last {
                assert(pair_le(pairs[p[at]], pairs[p[last]]));
            }
        }
        assert forall|k: int| best < k < buckets.len() implies #[trigger] buckets[k].from
            != buckets[best as int].from by {
            crate::sorting::lemma_rearrangement_covers(p, keys@.len(), k);
            let at = choose|at: int| 0 <= at < p.len() && p[at] == k;
            assert(path_bucket(all[k]) is Ok);
            assert(buckets[k].from == keys@[k]);
            if at < last {
                assert(pair_le(pairs[p[at]], pairs[p[last]]));
                if pairs[p[at]] == pairs[p[last]] {
                    assert(p[at] < p[last]);
                }
            }
        }
        assert(is_latest(buckets, best as int));
        assert(all[best as int] == children@[best as int].deep_view());
    }
    Ok(Some(clone_path(&children[best])))
}

proof fn lemma_buckets_error(children: Seq<Seq<Seq<u8>>>, bad: int)
    requires
        0 <= bad < children.len(),
        buckets_of(children.subrange(0, bad)) is Ok,
        path_bucket(children[bad]) is Err,
    ensures
        buckets_of(children) == Err::<Seq<Index>, IndexError>(path_bucket(children[bad])->Err_0),
    decreases children.len() - bad,
{
    let upto = children.subrange(0, bad + 1);
    assert(upto.drop_last() =~= children.subrange(0, bad));
    assert(upto.last() == children[bad]);
    lemma_buckets_error_spreads(children, bad + 1);
}

proof fn lemma_buckets_error_spreads(children: Seq<Seq<Seq<u8>>>, count: int)
    requires
        0 <= count <= children.len(),
        buckets_of(children.subrange(0, count)) is Err,
    ensures
        buckets_of(children) == buckets_of(children.subrange(0, count)),
    decreases children.len() - count,
{
    if count < children.len() {
        let next = children.subrange(0, count + 1);
        assert(next.drop_last() =~= children.subrange(0, count));
        lemma_buckets_error_spreads(children, count + 1);
    } else {
        assert(children.subrange(0, count) =~= children);
    }
}

/// What the search for the latest bucket needs next.
#[derive(Debug)]
pub enum LatestStep {
    /// The children that the node at this path has at this level of the tree.
    Children(Path, IndexType),
    /// The bucket paths below the node at this path.
    Buckets(Path),
    /// Nothing more: the tree holds no entry.
    Empty,
}

/// What follows on a node of the level `level` at `path`: the next finer level
/// where the tree has one, else the buckets.
fn step_below(path: Path, level: IndexType, config: &IndexConfiguration) -> (r: LatestStep)
    ensures
        match r {
            LatestStep::Children(p, t) => level.position() + 1 < config.max_depth_size_spec()
                && p.deep_view() == path.deep_view() && t == level_at(level.position() + 1),
            LatestStep::Buckets(p) => level.position() + 1 >= config.max_depth_size_spec()
                && p.deep_view() == path.deep_view(),
            LatestStep::Empty => false,
        },
{
    let below = level.depth() + 1;
    if below < config.max_depth_size() {
        match IndexType::from_depth(below) {
            Some(next) => LatestStep::Children(path, next),
            None => LatestStep::Buckets(path),
        }
    } else {
        LatestStep::Buckets(path)
    }
}

/// Starts the search for the latest bucket of the tree `index`: it asks for
/// the years below the name.
pub fn get_latest_index(index: String, config: &IndexConfiguration) -> (r: IndexResult<LatestStep>)
    ensures
        match r {
            Ok(step) => step matches LatestStep::Children(path, level) && level == IndexType::Year
                && path.deep_view() == seq![crate::names::text_bytes(encode_utf8(index@))],
            Err(e) => e == IndexError::InternalError(MSG_NAME_TOO_LONG) && encode_utf8(index@).len()
                >= pow256(4),
        },
{
    let head = match StringIndex(index).get_sb() {
        Ok(head) => head,
        Err(e) => { return Err(e); },
    };
    let mut path: Path = Vec::new();
    path.push(head);
    assert(path.deep_view()[0] == path@[0]@);
    assert(path.deep_view() =~= seq![head@]);
    Ok(LatestStep::Children(path, IndexType::Year))
}

/// Goes one level down in the search for the latest bucket: among the
/// `children` that the node at `path` has at the level `level`, the newest is
/// followed, to the next level the tree has or to its buckets. A tree without
/// any year holds no entry; a node further down without children is an error.
pub fn latest_index_step(
    path: Path,
    level: IndexType,
    children: &Vec<Path>,
    config: &IndexConfiguration,
) -> (r: IndexResult<LatestStep>)
    requires
        config.enabled(level),
    ensures
        level is Year && children@.len() == 0 ==> r is Ok && r.unwrap() is Empty,
        !(level is Year && children@.len() == 0) ==> match r {
            Ok(step) => exists|best: int| #[trigger]
                is_newest(children.deep_view(), level, best) && match step {
                    LatestStep::Children(p, t) => level.position() + 1
                        < config.max_depth_size_spec() && p.deep_view() == children.deep_view()[best]
                        && t == level_at(level.position() + 1),
                    LatestStep::Buckets(p) => level.position() + 1 >= config.max_depth_size_spec()
                        && p.deep_view() == children.deep_view()[best],
                    LatestStep::Empty => false,
                },
            Err(e) => if children@.len() == 0 {
                e == IndexError::Wasm(crate::errors::MSG_NO_CHILDREN)
            } else {
                exists|bad: int|
                    0 <= bad < children@.len() && #[trigger] crate::search::keys_ok(
                        children.deep_view(),
                        level,
                        bad,
                    ) && crate::search::child_key(children.deep_view()[bad], level) == Err::<
                        u32,
                        IndexError,
                    >(e)
            },
        },
{
    if matches!(level, IndexType::Year) && children.len() == 0 {
        return Ok(LatestStep::Empty);
    }
    let newest = match find_newest_time_path(path, level, children, config) {
        Ok(newest) => newest,
        Err(e) => { return Err(e); },
    };
    Ok(step_below(newest, level, config))
}

/// Whether a link leads to `entry`.
pub open spec fn leads_to(link: LinkView, entry: Seq<u8>) -> bool {
    link.target == entry
}

/// The links of `links` that lead to `entry`, in their order.
pub open spec fn links_leading_to(links: Seq<LinkView>, entry: Seq<u8>) -> Seq<LinkView>
    decreases links.len(),
{
    if links.len() == 0 {
        Seq::empty()
    } else if leads_to(links.last(), entry) {
        links_leading_to(links.drop_last(), entry).push(links.last())
    } else {
        links_leading_to(links.drop_last(), entry)
    }
}

pub fn clone_link(link: &Link) -> (r: Link)
    ensures
        r@ == link@,
{
    Link {
        target: clone_component(&link.target),
        timestamp: link.timestamp,
        tag: clone_component(&link.tag),
        create_link_hash: clone_component(&link.create_link_hash),
    }
}

/// Removes an indexed entry from the time tree, as far as the links of one
/// bucket go: of the links `path_links` that hang from the bucket, those that
/// lead to the entry at `indexed_entry` are the ones to delete, all of them.
pub fn remove_index(path_links: &Vec<Link>, indexed_entry: &Vec<u8>) -> (r: Vec<Link>)
    ensures
        crate::entries::links_view(r@) == links_leading_to(
            crate::entries::links_view(path_links@),
            indexed_entry@,
        ),
{
    let ghost all = crate::entries::links_view(path_links@);
    let mut out: Vec<Link> = Vec::new();
    let mut i: usize = 0;
    assert(all.subrange(0, 0) =~= Seq::<LinkView>::empty());
    assert(crate::entries::links_view(out@) =~= Seq::<LinkView>::empty());
    while i < path_links.len()
        invariant
            i <= path_links.len(),
            all == crate::entries::links_view(path_links@),
            crate::entries::links_view(out@) == links_leading_to(
                all.subrange(0, i as int),
                indexed_entry@,
            ),
        decreases path_links.len() - i,
    {
        proof {
            let next = all.subrange(0, i + 1);
            assert(next.drop_last() =~= all.subrange(0, i as int));
            assert(next.last() == path_links@[i as int]@);
        }
        if component_eq(&path_links[i].target, indexed_entry) {
            let ghost before = out@;
            let link = clone_link(&path_links[i]);
            out.push(link);
            assert(crate::entries::links_view(out@) =~= crate::entries::links_view(before).push(
                link@,
            ));
        }
        i = i + 1;
    }
    assert(all.subrange(0, all.len() as int) =~= all);
    out
}

/// The tag of the link that leads from an entry back to its bucket.
pub fn time_path_tag() -> (tag: Vec<u8>)
    ensures
        tag@ == seq![0x74u8, 0x69u8, 0x6du8, 0x65u8, 0x5fu8, 0x70u8, 0x61u8, 0x74u8, 0x68u8],
{
    let tag: Vec<u8> = vec![0x74u8, 0x69u8, 0x6du8, 0x65u8, 0x5fu8, 0x70u8, 0x61u8, 0x74u8, 0x68u8];
    assert(tag@ =~= seq![0x74u8, 0x69u8, 0x6du8, 0x65u8, 0x5fu8, 0x70u8, 0x61u8, 0x74u8, 0x68u8]);
    tag
}

/// Index an entry: the path of the bucket that holds the time of `data`, at
/// which the entry is to be linked, with the bucket checked against the rules
/// at the time `now` after the epoch. An entry whose time is not well formed
/// is refused.
pub fn index_entry<T: IndexableEntry>(
    index: String,
    data: &T,
    now: &Duration,
    config: &IndexConfiguration,
) -> (r: IndexResult<Path>)
    requires
        now.wf(),
        config.wf(),
    ensures
        ({
            let time = data.entry_time_spec();
            let bucket = bucket_of(time, *config);
            if !time.wf() {
                r == Err::<Path, IndexError>(
                    IndexError::RequestError(crate::errors::MSG_ENTRY_TIME),
                )
            } else {
                match r {
                    Ok(path) => bucket.tree_path(index@, *now, *config) == Ok::<
                        Seq<Seq<u8>>,
                        IndexError,
                    >(path.deep_view()),
                    Err(e) => bucket.tree_path(index@, *now, *config) == Err::<
                        Seq<Seq<u8>>,
                        IndexError,
                    >(e),
                }
            }
        }),
{
    let time = data.entry_time();
    if !time.is_wf() {
        return Err(IndexError::RequestError(crate::errors::MSG_ENTRY_TIME));
    }
    create_for_timestamp(index, &time, now, config)
}

/// Starts the query for all buckets between `from` and `until` in the tree
/// `index`. A span narrower than a bucket is refused, whichever end comes
/// first; else the exhaustive search starts, from the earlier end to the
/// later.
pub fn get_indexes_for_time_span(
    from: TimePoint,
    until: TimePoint,
    index: String,
    config: &IndexConfiguration,
) -> (r: IndexResult<BfsSearch>)
    ensures
        span_millis(from, until) < config.max_chunk_interval ==> r == Err::<BfsSearch, IndexError>(
            IndexError::RequestError(MSG_SMALL_FRAME),
        ),
        span_millis(from, until) >= config.max_chunk_interval ==> match r {
            Ok(search) => {
                let first = if order_of(from, until) is Desc { until } else { from };
                let last = if order_of(from, until) is Desc { from } else { until };
                &&& search.wf()
                &&& search.level == 0
                &&& search.from == first
                &&& search.until == last
                &&& search.paths.deep_view() == seq![
                    search_root(index@, first.civil, last.civil, *config),
                ]
                &&& search.levels@ == levels_after(
                    *config,
                    shared_levels(first.civil, last.civil, *config),
                )
            },
            Err(e) => e == IndexError::InternalError(MSG_NAME_TOO_LONG) && encode_utf8(index@).len()
                >= pow256(4),
        },
{
    let order = match check_time_span(&from, &until, config) {
        Ok(order) => order,
        Err(e) => { return Err(e); },
    };
    match order {
        Order::Desc => find_paths_for_time_span(until, from, index, config),
        Order::Asc => find_paths_for_time_span(from, until, index, config),
    }
}

/// What a bucket with its links holds.
pub open spec fn chunk_view(chunk: EntryChunkIndex) -> (Index, Seq<LinkView>) {
    (chunk.index, crate::entries::links_view(chunk.links@))
}

pub fn clone_chunk(chunk: &EntryChunkIndex) -> (r: EntryChunkIndex)
    ensures
        chunk_view(r) == chunk_view(*chunk),
{
    let mut links: Vec<Link> = Vec::new();
    let mut i: usize = 0;
    while i < chunk.links.len()
        invariant
            i <= chunk.links.len(),
            links@.len() == i,
            forall|k: int| 0 <= k < i ==> (#[trigger] links@[k])@ == chunk.links@[k]@,
        decreases chunk.links.len() - i,
    {
        let link = clone_link(&chunk.links[i]);
        links.push(link);
        i = i + 1;
    }
    assert(crate::entries::links_view(links@) =~= crate::entries::links_view(chunk.links@));
    EntryChunkIndex { index: chunk.index, links }
}

/// The buckets found by a query in the order in which the query gives them:
/// by their start, latest first.
pub fn order_indexes(out: &Vec<EntryChunkIndex>) -> (r: Vec<EntryChunkIndex>)
    ensures
        r@.len() == out@.len(),
        forall|i: int, j: int|
            0 <= i < j < r@.len() ==> pair_le(
                (#[trigger] r@[j].index.from.secs, r@[j].index.from.nanos),
                (#[trigger] r@[i].index.from.secs, r@[i].index.from.nanos),
            ),
        exists|p: Seq<int>| #[trigger]
            is_rearrangement(p, out@.len()) && forall|k: int|
                0 <= k < r@.len() ==> chunk_view(#[trigger] r@[k]) == chunk_view(out@[p[k]]),
{
    let mut timestamps: Vec<Duration> = Vec::new();
    let mut i: usize = 0;
    while i < out.len()
        invariant
            i <= out.len(),
            timestamps@.len() == i,
            forall|k: int| 0 <= k < i ==> #[trigger] timestamps@[k] == out@[k].index.from,
        decreases out.len() - i,
    {
        timestamps.push(out[i].index.from);
        i = i + 1;
    }
    let places = sorted_places(&timestamps);
    let ghost rising = Seq::new(places@.len(), |k: int| places@[k] as int);
    let ghost pairs = Seq::new(timestamps@.len(), |k: int| (timestamps@[k].secs, timestamps@[k].nanos));
    let n = places.len();
    let ghost falling = Seq::new(n as nat, |k: int| rising[n - 1 - k]);
    let mut ordered_indexes: Vec<EntryChunkIndex> = Vec::new();
    let mut taken: usize = 0;
    while taken < n
        invariant
            taken <= n,
            n == places@.len(),
            n == out@.len(),
            sorts(rising, pairs),
            rising == Seq::new(places@.len(), |k: int| places@[k] as int),
            falling == Seq::new(n as nat, |k: int| rising[n - 1 - k]),
            ordered_indexes@.len() == taken,
            forall|k: int|
                0 <= k < taken ==> chunk_view(#[trigger] ordered_indexes@[k]) == chunk_view(
                    out@[falling[k]],
                ),
        decreases n - taken,
    {
        let place = places[n - 1 - taken];
        assert(0 <= rising[n - 1 - taken] < n);
        let chunk = clone_chunk(&out[place]);
        ordered_indexes.push(chunk);
        taken = taken + 1;
    }
    proof {
        assert(is_rearrangement(falling, out@.len())) by {
            assert forall|i: int| 0 <= i < falling.len() implies 0 <= #[trigger] falling[i]
                < out@.len() by {
                assert(0 <= rising[n - 1 - i] < n);
            }
            assert forall|i: int, j: int| 0 <= i < j < falling.len() implies falling[i]
                != falling[j] by {
                assert(rising[n - 1 - j] != rising[n - 1 - i]);
            }
        }
        assert forall|i: int, j: int| 0 <= i < j < ordered_indexes@.len() implies pair_le(
            (#[trigger] ordered_indexes@[j].index.from.secs, ordered_indexes@[j].index.from.nanos),
            (#[trigger] ordered_indexes@[i].index.from.secs, ordered_indexes@[i].index.from.nanos),
        ) by {
            assert(chunk_view(ordered_indexes@[i]) == chunk_view(out@[falling[i]]));
            assert(chunk_view(ordered_indexes@[j]) == chunk_view(out@[falling[j]]));
            assert(pair_le(pairs[rising[n - 1 - j]], pairs[rising[n - 1 - i]]));
        }
    }
    ordered_indexes
}

/// Starts the query for all links between `from` and `until` in the tree
/// `index`: the direction of the query, and the exhaustive search from the
/// earlier end to the later. A span narrower than a bucket is refused.
pub fn get_links_for_time_span(
    index: String,
    from: TimePoint,
    until: TimePoint,
    config: &IndexConfiguration,
) -> (r: IndexResult<(Order, BfsSearch)>)
    ensures
        span_millis(from, until) < config.max_chunk_interval ==> r == Err::<
            (Order, BfsSearch),
            IndexError,
        >(IndexError::RequestError(MSG_SMALL_FRAME)),
        span_millis(from, until) >= config.max_chunk_interval ==> match r {
            Ok((order, search)) => {
                let first = if order_of(from, until) is Desc { until } else { from };
                let last = if order_of(from, until) is Desc { from } else { until };
                &&& order == order_of(from, until)
                &&& search.wf()
                &&& search.level == 0
                &&& search.from == first
                &&& search.until == last
                &&& search.paths.deep_view() == seq![
                    search_root(index@, first.civil, last.civil, *config),
                ]
                &&& search.levels@ == levels_after(
                    *config,
                    shared_levels(first.civil, last.civil, *config),
                )
            },
            Err(e) => e == IndexError::InternalError(MSG_NAME_TOO_LONG) && encode_utf8(index@).len()
                >= pow256(4),
        },
{
    let order = search_order(&from, &until);
    match get_indexes_for_time_span(from, until, index, config) {
        Ok(search) => Ok((order, search)),
        Err(e) => Err(e),
    }
}

/// The times at which the links of `links` were made, in their order.
pub open spec fn stamps_of(links: Seq<Link>) -> Seq<i64> {
    Seq::new(links.len(), |k: int| links[k].timestamp)
}

/// The links found by a query in the order in which the query gives them: by
/// the time at which they were made, earliest first, or latest first in a
/// descending query.
pub fn sort_links(out: Vec<Link>, order: Order) -> (r: Vec<Link>)
    ensures
        r@.len() == out@.len(),
        exists|p: Seq<int>| #[trigger]
            is_sorting_order(p, stamps_of(out@), order is Desc) && r@ == rearranged(out@, p),
        forall|i: int, j: int|
            0 <= i < j < r@.len() ==> if order is Desc {
                r@[i].timestamp >= r@[j].timestamp
            } else {
                r@[i].timestamp <= r@[j].timestamp
            },
{
    let mut keys: Vec<i64> = Vec::new();
    let mut i: usize = 0;
    while i < out.len()
        invariant
            i <= out.len(),
            keys@.len() == i,
            forall|k: int| 0 <= k < i ==> #[trigger] keys@[k] == out@[k].timestamp,
        decreases out.len() - i,
    {
        keys.push(out[i].timestamp);
        i = i + 1;
    }
    assert(keys@ =~= stamps_of(out@));
    let r = sort_with_keys(out, &keys, matches!(order, Order::Desc));
    proof {
        let p = choose|p: Seq<int>| #[trigger]
            is_sorting_order(p, keys@, order is Desc) && r@ == rearranged(out@, p);
        assert forall|i: int, j: int| 0 <= i < j < r@.len() implies if order is Desc {
            r@[i].timestamp >= r@[j].timestamp
        } else {
            r@[i].timestamp <= r@[j].timestamp
        } by {
            assert(in_order(keys@[p[i]], keys@[p[j]], order is Desc));
            assert(r@[i] == out@[p[i]] && r@[j] == out@[p[j]]);
        }
    }
    r
}

/// An exhaustive query for entries under way: the search for the paths, and
/// what the query asked for, by which its answer is made.
pub struct BfsLoad {
    /// The search for the paths, from the earlier end of the span to the later.
    pub search: BfsSearch,
    /// The end of the span at which the query starts.
    pub from: TimePoint,
    /// The end of the span at which the query stops.
    pub until: TimePoint,
    pub order: Order,
    /// How many entries are asked for at most.
    pub limit: Option<usize>,
}

/// A query for entries under way: an exhaustive search or a depth-first one.
pub enum LoadSearch<T> {
    Bfs(BfsLoad),
    Dfs(DfsSearch<T>),
}

/// Starts the query for all entries between `from` and `until` in the tree
/// `index`, with the strategy asked for. A span narrower than a bucket is
/// refused. The exhaustive search goes through the tree from the earlier end
/// to the later; the depth-first search goes in the direction of the query.
/// Either way the answer holds the entries whose own time lies within the
/// span, in the direction of the query, and at most `limit` of them:
/// `finish_bfs` makes it for the one, `DfsSearch::finish` for the other.
pub fn get_links_and_load_for_time_span<T: IndexableEntry>(
    from: TimePoint,
    until: TimePoint,
    index: String,
    strategy: SearchStrategy,
    limit: Option<usize>,
    config: &IndexConfiguration,
) -> (r: IndexResult<LoadSearch<T>>)
    ensures
        span_millis(from, until) < config.max_chunk_interval ==> r is Err && r->Err_0
            == IndexError::RequestError(MSG_SMALL_FRAME),
        span_millis(from, until) >= config.max_chunk_interval ==> match r {
            Ok(LoadSearch::Bfs(load)) => {
                let first = if order_of(from, until) is Desc { until } else { from };
                let last = if order_of(from, until) is Desc { from } else { until };
                &&& strategy is Bfs
                &&& load.from == from
                &&& load.until == until
                &&& load.order == order_of(from, until)
                &&& load.limit == limit
                &&& load.search.wf()
                &&& load.search.level == 0
                &&& load.search.from == first
                &&& load.search.until == last
                &&& load.search.paths.deep_view() == seq![
                    search_root(index@, first.civil, last.civil, *config),
                ]
                &&& load.search.levels@ == levels_after(
                    *config,
                    shared_levels(first.civil, last.civil, *config),
                )
            },
            Ok(LoadSearch::Dfs(search)) => strategy is Dfs && search.is_start_of(
                index@,
                from,
                until,
                order_of(from, until),
                limit,
                *config,
            ),
            Err(e) => e == IndexError::InternalError(MSG_NAME_TOO_LONG) && encode_utf8(index@).len()
                >= pow256(4),
        },
{
    let order = match check_time_span(&from, &until, config) {
        Ok(order) => order,
        Err(e) => { return Err(e); },
    };
    match strategy {
        SearchStrategy::Bfs => {
            let search = match order {
                Order::Desc => find_paths_for_time_span(until, from, index, config),
                Order::Asc => find_paths_for_time_span(from, until, index, config),
            };
            match search {
                Ok(search) => Ok(LoadSearch::Bfs(BfsLoad { search, from, until, order, limit })),
                Err(e) => Err(e),
            }
        },
        SearchStrategy::Dfs => {
            match make_dfs_search::<T>(index, &from, &until, &order, limit, config) {
                Ok(search) => Ok(LoadSearch::Dfs(search)),
                Err(e) => Err(e),
            }
        },
    }
}

/// The answer of an exhaustive query, made of the entries `results` that hang
/// from the buckets it found: those whose own time lies within the span from
/// `from` to `until`, by their own times in the direction of the query, cut off
/// after as many as were asked for.
pub fn finish_bfs<T: IndexableEntry>(
    results: Vec<T>,
    from: &TimePoint,
    until: &TimePoint,
    order: Order,
    limit: Option<usize>,
) -> (r: Vec<Keyed<TimePoint, T>>)
    ensures
        is_answer(r@, kept_entries(results@, *from, *until, order), order is Desc, limit),
        sorted_by_rank(r@, order is Desc),
        limit is Some ==> r@.len() <= limit.unwrap(),
        exists|p: Seq<int>| #[trigger]
            is_sorting_order(
                p,
                keys_of(kept_entries(results@, *from, *until, order)),
                order is Desc,
            ) && r@ == rearranged(kept_entries(results@, *from, *until, order), p).subrange(
                0,
                r@.len() as int,
            ),
        r@.len() == (if limit is Some && limit.unwrap() < kept_entries(
            results@,
            *from,
            *until,
            order,
        ).len() {
            limit.unwrap() as nat
        } else {
            kept_entries(results@, *from, *until, order).len()
        }),
{
    let mut found: Vec<Keyed<TimePoint, T>> = Vec::new();
    keep_entries(&mut found, results, from, until, order);
    assert(found@ =~= kept_entries(results@, *from, *until, order));
    answer_of(found, matches!(order, Order::Desc), limit)
}

impl BfsLoad {
    /// The answer of this query, made of the entries `results` that hang from
    /// the buckets its search found.
    pub fn finish<T: IndexableEntry>(&self, results: Vec<T>) -> (r: Vec<Keyed<TimePoint, T>>)
        ensures
            is_answer(
                r@,
                kept_entries(results@, self.from, self.until, self.order),
                self.order is Desc,
                self.limit,
            ),
            sorted_by_rank(r@, self.order is Desc),
            self.limit is Some ==> r@.len() <= self.limit.unwrap(),
    {
        finish_bfs(results, &self.from, &self.until, self.order, self.limit)
    }
}

/// Both strategies give one answer. Where a depth-first search has found, of
/// the entries `results`, those whose own time lies within the span, and the
/// exhaustive query was handed the same entries, the two answers are the same
/// sequence: sorted by the entries' own times in the direction of the query
/// and cut off after the same limit.
pub proof fn lemma_both_strategies_give_one_answer<T: IndexableEntry>(
    results: Seq<T>,
    search: DfsSearch<T>,
    exhaustive: Seq<Keyed<TimePoint, T>>,
    depth_first: Seq<Keyed<TimePoint, T>>,
)
    requires
        search.out@ == kept_entries(results, search.from, search.until, search.order),
        is_answer(
            exhaustive,
            kept_entries(results, search.from, search.until, search.order),
            search.order is Desc,
            search.limit,
        ),
        is_answer(depth_first, search.out@, search.order is Desc, search.limit),
    ensures
        exhaustive == depth_first,
        search.limit is Some ==> exhaustive.len() <= search.limit.unwrap(),
        sorted_by_rank(exhaustive, search.order is Desc),
{
    crate::sorting::lemma_answer_is_unique(
        exhaustive,
        depth_first,
        search.out@,
        search.order is Desc,
        search.limit,
    );
    let found = search.out@;
    let p = choose|p: Seq<int>| #[trigger]
        is_sorting_order(p, keys_of(found), search.order is Desc) && exhaustive == rearranged(
            found,
            p,
        ).subrange(0, exhaustive.len() as int);
    assert forall|i: int, j: int| 0 <= i < j < exhaustive.len() implies in_order(
        exhaustive[i].key,
        exhaustive[j].key,
        search.order is Desc,
    ) by {
        assert(in_order(keys_of(found)[p[i]], keys_of(found)[p[j]], search.order is Desc));
    }
}

} // verus!
