use time_index::bfs::{find_paths_for_time_span, get_next_level_path_bfs, keep_children};
use time_index::calendar::{CivilTime, TimePoint};
use time_index::codec::{encode_index, encode_u32};
use time_index::dfs_methods::{get_next_level_path_dfs, order_buckets};
use time_index::dfs_search::{make_dfs_search, DfsStep, Waiting};
use time_index::entries::IndexType::{Day, Hour, Minute, Month, Second, Year};
use time_index::entries::{
    Duration, Index, IndexConfiguration, IndexType, Order, Path, StringIndex,
};
use time_index::errors::{
    DecodeError, IndexError, IndexResult, MSG_EMPTY_PATH, MSG_NO_CHILDREN, MSG_NO_NODE,
    MSG_PATH_LENGTH, MSG_SHORT_CHILD,
};
use time_index::permute::sorted_places;
use time_index::search::{find_newest_time_path, get_naivedatetime, is_within};
use time_index::sorting::{insert_keyed, sort_keyed, sort_with_keys, take_limit, Keyed};
use time_index::traits::IndexableEntry;

fn config(interval_ms: usize) -> IndexConfiguration {
    IndexConfiguration { enforce_spam_limit: 20, max_chunk_interval: interval_ms }
}

fn path(levels: &[u32]) -> Path {
    let mut p = vec![StringIndex("feed".to_string()).get_sb().unwrap()];
    for v in levels {
        p.push(encode_u32(*v));
    }
    p
}

fn civil(year: u32, month: u32, day: u32, hour: u32, minute: u32, second: u32) -> CivilTime {
    CivilTime { year, month, day, hour, minute, second }
}

fn at(secs: u64) -> TimePoint {
    TimePoint::from_timestamp(secs, 0).unwrap()
}

fn bucket_path(levels: &[u32], from: u64) -> Path {
    let mut p = path(levels);
    p.push(encode_index(&Index {
        from: Duration { secs: from, nanos: 0 },
        until: Duration { secs: from + 10, nanos: 0 },
    }));
    p
}

#[derive(Debug, PartialEq)]
struct Note(u64);

impl IndexableEntry for Note {
    fn entry_time_spec(&self) -> TimePoint {
        at(self.0)
    }

    fn entry_time(&self) -> TimePoint {
        at(self.0)
    }

    fn hash(&self) -> IndexResult<Vec<u8>> {
        Ok(self.0.to_be_bytes().to_vec())
    }
}

// 2021-03-14T15:09:26Z
const PI_DAY: u64 = 1_615_734_566;

#[test]
fn the_ends_of_a_span_as_seen_from_each_level() {
    let c = config(500);
    let from = at(PI_DAY);
    let until = at(PI_DAY + 40 * 86_400 + 3_700);
    assert_eq!(
        get_naivedatetime(&from, &until, &Year, &c),
        Some((civil(2021, 1, 1, 1, 1, 1), civil(2021, 1, 1, 1, 1, 1)))
    );
    assert_eq!(
        get_naivedatetime(&from, &until, &Month, &c),
        Some((civil(2021, 3, 1, 1, 1, 1), civil(2021, 4, 1, 1, 1, 1)))
    );
    assert_eq!(
        get_naivedatetime(&from, &until, &Day, &c),
        Some((civil(2021, 3, 14, 1, 1, 1), civil(2021, 4, 23, 1, 1, 1)))
    );
    assert_eq!(
        get_naivedatetime(&from, &until, &Hour, &c),
        Some((civil(2021, 3, 14, 15, 1, 1), civil(2021, 4, 23, 16, 1, 1)))
    );
    assert_eq!(
        get_naivedatetime(&from, &until, &Minute, &c),
        Some((civil(2021, 3, 14, 15, 9, 1), civil(2021, 4, 23, 16, 11, 1)))
    );
    assert_eq!(
        get_naivedatetime(&from, &until, &Second, &c),
        Some((civil(2021, 3, 14, 15, 9, 26), civil(2021, 4, 23, 16, 11, 6)))
    );
    assert_eq!(get_naivedatetime(&from, &until, &Second, &config(10_000)), None);
    assert_eq!(get_naivedatetime(&from, &until, &Hour, &config(86_400_000)), None);
    assert!(get_naivedatetime(&from, &until, &Day, &config(86_400_000)).is_some());
}

#[test]
fn calendar_values_compare_field_by_field() {
    let a = civil(2021, 3, 14, 15, 9, 26);
    assert!(a.le(&a));
    assert!(a.le(&civil(2021, 3, 14, 15, 9, 27)));
    assert!(!civil(2021, 3, 14, 15, 9, 27).le(&a));
    assert!(civil(2020, 12, 31, 23, 59, 59).le(&a));
    assert!(!civil(2021, 4, 1, 0, 0, 0).le(&a));
    assert!(is_within(&a, &civil(2021, 1, 1, 1, 1, 1), &civil(2022, 1, 1, 1, 1, 1), Order::Asc));
    assert!(!is_within(&a, &civil(2021, 1, 1, 1, 1, 1), &civil(2022, 1, 1, 1, 1, 1), Order::Desc));
    assert!(is_within(&a, &civil(2022, 1, 1, 1, 1, 1), &civil(2021, 1, 1, 1, 1, 1), Order::Desc));
    assert!(is_within(&a, &a, &a, Order::Asc) && is_within(&a, &a, &a, Order::Desc));
}

#[test]
fn the_newest_child_has_the_largest_value_not_the_largest_bytes() {
    let c = config(10_000);
    // 200 encodes as two bytes, 100 as one, 300 as three
    let children = vec![path(&[2021, 200]), path(&[2021, 300]), path(&[2021, 100])];
    assert_eq!(
        find_newest_time_path(path(&[2021]), Month, &children, &c),
        Ok(path(&[2021, 300]))
    );
    let years = vec![path(&[127]), path(&[65_536]), path(&[128])];
    assert_eq!(find_newest_time_path(path(&[]), Year, &years, &c), Ok(path(&[65_536])));
    // among equals the last one
    let twins = vec![path(&[2021, 3, 1]), path(&[2021, 3, 5]), path(&[2021, 4, 5])];
    assert_eq!(
        find_newest_time_path(path(&[2021, 3]), Day, &twins, &c),
        Ok(path(&[2021, 4, 5]))
    );
}

#[test]
fn a_level_the_tree_lacks_is_passed_over() {
    let c = config(10_000);
    assert_eq!(
        find_newest_time_path(path(&[2021, 3, 14, 15, 9]), Second, &vec![], &c),
        Ok(path(&[2021, 3, 14, 15, 9]))
    );
}

#[test]
fn the_newest_child_cannot_be_found_among_none_or_unreadable_ones() {
    let c = config(10_000);
    assert_eq!(
        find_newest_time_path(path(&[2021]), Month, &vec![], &c),
        Err(IndexError::Wasm(MSG_NO_CHILDREN))
    );
    assert_eq!(
        find_newest_time_path(path(&[2021]), Month, &vec![path(&[2021, 3]), path(&[2021])], &c),
        Err(IndexError::InternalError(MSG_SHORT_CHILD))
    );
    let mut broken = path(&[2021]);
    broken.push(vec![0xc0]);
    assert_eq!(
        find_newest_time_path(path(&[2021]), Month, &vec![broken, path(&[2021])], &c),
        Err(IndexError::Serialization(DecodeError::Integer))
    );
}

#[test]
fn children_are_kept_by_their_time() {
    let c = config(10_000);
    let children = vec![path(&[2021, 2]), path(&[2021, 3]), path(&[2021, 4]), path(&[2021, 5])];
    let mut out = vec![path(&[1999])];
    keep_children(
        &mut out,
        &children,
        &civil(2021, 3, 1, 1, 1, 1),
        &civil(2021, 4, 1, 1, 1, 1),
        Order::Asc,
        &c,
    )
    .unwrap();
    assert_eq!(out, vec![path(&[1999]), path(&[2021, 3]), path(&[2021, 4])]);
    let mut out = vec![];
    keep_children(
        &mut out,
        &children,
        &civil(2021, 4, 1, 1, 1, 1),
        &civil(2021, 3, 1, 1, 1, 1),
        Order::Desc,
        &c,
    )
    .unwrap();
    assert_eq!(out, vec![path(&[2021, 3]), path(&[2021, 4])]);
}

#[test]
fn the_exhaustive_level_looks_at_every_child_of_every_path() {
    let c = config(10_000);
    let from = at(PI_DAY);
    let until = at(PI_DAY + 40 * 86_400);
    let paths = vec![path(&[2021, 3]), path(&[2021, 4])];
    let children = vec![
        vec![path(&[2021, 3, 13]), path(&[2021, 3, 14]), path(&[2021, 3, 31])],
        vec![path(&[2021, 4, 1]), path(&[2021, 4, 23]), path(&[2021, 4, 24])],
    ];
    assert_eq!(
        get_next_level_path_bfs(paths.clone(), &children, &from, &until, &Day, &c),
        Ok(vec![
            path(&[2021, 3, 14]),
            path(&[2021, 3, 31]),
            path(&[2021, 4, 1]),
            path(&[2021, 4, 23])
        ])
    );
    // a level the tree lacks: the paths as they are
    assert_eq!(
        get_next_level_path_bfs(paths.clone(), &children, &from, &until, &Second, &c),
        Ok(paths.clone())
    );
    // an unreadable child is an error, not a gap
    let mut broken = path(&[2021, 3]);
    broken.push(vec![0xc1]);
    let children = vec![vec![path(&[2021, 3, 14])], vec![broken, path(&[2021, 4, 1])]];
    assert_eq!(
        get_next_level_path_bfs(paths, &children, &from, &until, &Day, &c),
        Err(IndexError::Serialization(DecodeError::Integer))
    );
}

#[test]
fn the_exhaustive_search_goes_level_by_level() {
    let c = config(10_000);
    let search =
        find_paths_for_time_span(at(PI_DAY), at(PI_DAY + 86_400), "feed".to_string(), &c).unwrap();
    assert_eq!(search.paths, vec![path(&[2021, 3])]);
    assert_eq!(search.levels, vec![Day, Hour, Minute]);
    assert!(!search.is_done());
    let search = search
        .expand(&vec![vec![path(&[2021, 3, 14]), path(&[2021, 3, 16])]], &c)
        .unwrap();
    assert_eq!(search.paths, vec![path(&[2021, 3, 14])]);
    assert_eq!(search.level, 1);
    let search = search
        .expand(&vec![vec![path(&[2021, 3, 14, 14]), path(&[2021, 3, 14, 15])]], &c)
        .unwrap();
    assert_eq!(search.paths, vec![path(&[2021, 3, 14, 15])]);
    let search = search.expand(&vec![vec![]], &c).unwrap();
    assert!(search.is_done());
    assert!(search.paths.is_empty());
}

#[test]
fn the_deep_level_orders_what_it_keeps() {
    let c = config(10_000);
    let from = at(PI_DAY);
    let until = at(PI_DAY + 40 * 86_400);
    let children =
        vec![path(&[2021, 3, 31]), path(&[2021, 3, 13]), path(&[2021, 3, 14]), path(&[2021, 3, 20])];
    assert_eq!(
        get_next_level_path_dfs(vec![], &children, &from, &until, &Day, &Order::Asc, &c),
        Ok(vec![path(&[2021, 3, 14]), path(&[2021, 3, 20]), path(&[2021, 3, 31])])
    );
    assert_eq!(
        get_next_level_path_dfs(vec![], &children, &until, &from, &Day, &Order::Desc, &c),
        Ok(vec![path(&[2021, 3, 31]), path(&[2021, 3, 20]), path(&[2021, 3, 14])])
    );
    assert_eq!(
        get_next_level_path_dfs(
            vec![path(&[2021])],
            &children,
            &from,
            &until,
            &Second,
            &Order::Asc,
            &c
        ),
        Ok(vec![path(&[2021])])
    );
    assert_eq!(
        get_next_level_path_dfs(
            vec![],
            &vec![path(&[2021, 3, 14]), path(&[])],
            &from,
            &until,
            &Day,
            &Order::Asc,
            &c
        ),
        Err(IndexError::InternalError(time_index::errors::MSG_NO_YEAR))
    );
}

#[test]
fn buckets_are_gone_through_by_their_start() {
    let levels = [2021, 3, 14, 15, 9];
    let children = vec![
        bucket_path(&levels, PI_DAY - 6 + 10),
        bucket_path(&levels, PI_DAY - 6),
        bucket_path(&levels, PI_DAY - 6 + 20),
    ];
    assert_eq!(
        order_buckets(&children, &Order::Asc),
        Ok(vec![children[1].clone(), children[0].clone(), children[2].clone()])
    );
    assert_eq!(
        order_buckets(&children, &Order::Desc),
        Ok(vec![children[2].clone(), children[0].clone(), children[1].clone()])
    );
    assert_eq!(
        order_buckets(&vec![children[0].clone(), path(&levels)], &Order::Asc),
        Err(IndexError::Serialization(DecodeError::Bucket))
    );
    assert_eq!(
        order_buckets(&vec![vec![]], &Order::Asc),
        Err(IndexError::InternalError(MSG_EMPTY_PATH))
    );
    assert_eq!(order_buckets(&vec![], &Order::Desc), Ok(vec![]));
}

#[test]
fn sorting_keeps_equal_keys_in_their_order() {
    let keyed = |k: i64, item: &'static str| Keyed { key: k, item };
    let sorted = sort_keyed(vec![keyed(2, "a"), keyed(1, "b"), keyed(2, "c"), keyed(1, "d")], false);
    let items: Vec<&str> = sorted.iter().map(|k| k.item).collect();
    assert_eq!(items, vec!["b", "d", "a", "c"]);
    let sorted = sort_keyed(vec![keyed(2, "a"), keyed(1, "b"), keyed(2, "c"), keyed(1, "d")], true);
    let items: Vec<&str> = sorted.iter().map(|k| k.item).collect();
    assert_eq!(items, vec!["a", "c", "b", "d"]);
    let mut sorted = vec![keyed(1, "x"), keyed(3, "z")];
    assert_eq!(insert_keyed(&mut sorted, keyed(2, "y"), false), 1);
    assert_eq!(insert_keyed(&mut sorted, keyed(-7, "w"), false), 0);
    assert_eq!(sorted.iter().map(|k| k.item).collect::<Vec<_>>(), vec!["w", "x", "y", "z"]);
    assert_eq!(
        sort_with_keys(vec!['a', 'b', 'c'], &vec![i64::MAX, i64::MIN, 0], false),
        vec!['b', 'c', 'a']
    );
    assert_eq!(take_limit(vec![1, 2, 3], Some(2)), vec![1, 2]);
    assert_eq!(take_limit(vec![1, 2, 3], Some(3)), vec![1, 2, 3]);
    assert_eq!(take_limit(vec![1, 2, 3], Some(9)), vec![1, 2, 3]);
    assert_eq!(take_limit(vec![1, 2, 3], Some(0)), Vec::<i32>::new());
    assert_eq!(take_limit(vec![1, 2, 3], None), vec![1, 2, 3]);
}

#[test]
fn the_sorting_order_names_places() {
    let span = |secs: u64, nanos: u32| Duration { secs, nanos };
    assert_eq!(sorted_places(&vec![span(2, 0), span(1, 0)]), vec![1, 0]);
    assert_eq!(
        sorted_places(&vec![span(5, 1), span(5, 0), span(1, 9), span(5, 0)]),
        vec![2, 1, 3, 0]
    );
    assert_eq!(sorted_places(&vec![]), Vec::<usize>::new());
}

#[test]
fn the_deep_search_seeds_its_graph_with_the_shared_path() {
    let c = config(10_000);
    let search =
        make_dfs_search::<Note>("feed".to_string(), &at(PI_DAY), &at(PI_DAY + 86_400), &Order::Asc, None, &c)
            .unwrap();
    assert_eq!(search.paths, vec![path(&[2021, 3])]);
    assert_eq!(search.levels, vec![Day, Hour, Minute]);
    assert_eq!(search.root_nodes.len(), 3);
    assert_eq!(search.search_node, search.root_nodes[2]);
    assert_eq!(search.cursor.stack, vec![search.root_nodes[0]]);
    assert_eq!(search.state.node_weight(search.root_nodes[1]).unwrap().0, path(&[2021]));
    assert_eq!(search.state.successors(search.root_nodes[1]), vec![search.root_nodes[2]]);
    assert_eq!(search.waiting, Waiting::Nothing);
}

#[test]
fn the_deep_search_ends_where_no_child_is_within_the_span() {
    let c = config(10_000);
    let mut search =
        make_dfs_search::<Note>("feed".to_string(), &at(PI_DAY), &at(PI_DAY + 86_400), &Order::Asc, None, &c)
            .unwrap();
    match search.step(&c).unwrap() {
        DfsStep::Children(p) => assert_eq!(p, path(&[2021, 3])),
        other => panic!("expected a request for children, got {:?}", other),
    }
    assert_eq!(search.waiting, Waiting::Descent);
    assert_eq!(search.descend(&vec![path(&[2021, 3, 1])], &c), Ok(vec![]));
    assert!(search.finished);
    assert!(matches!(search.step(&c), Ok(DfsStep::Done)));
    assert!(search.finish().is_empty());
}

#[test]
fn the_deep_search_refuses_children_that_are_no_longer_than_their_parent() {
    let c = config(10_000);
    let mut search =
        make_dfs_search::<Note>("feed".to_string(), &at(PI_DAY), &at(PI_DAY + 86_400), &Order::Asc, None, &c)
            .unwrap();
    search.step(&c).unwrap();
    // a child of the month that has no day: its time counts as the first day
    let mut other = search;
    other.from = at(PI_DAY - 13 * 86_400);
    assert_eq!(
        other.descend(&vec![path(&[2021, 3])], &c),
        Err(IndexError::InternalError(MSG_PATH_LENGTH))
    );
}

#[test]
fn the_deep_search_reports_a_walk_that_left_the_graph() {
    let c = config(86_400_000);
    let mut search =
        make_dfs_search::<Note>("feed".to_string(), &at(PI_DAY), &at(PI_DAY), &Order::Asc, None, &c)
            .unwrap();
    assert!(search.levels.is_empty());
    search.cursor.stack = vec![4_000];
    assert_eq!(search.step(&c).map(|_| ()), Err(IndexError::InternalError(MSG_NO_NODE)));
}

#[test]
fn the_deep_search_keeps_entries_by_their_own_time() {
    let c = config(86_400_000);
    let mut search = make_dfs_search::<Note>(
        "feed".to_string(),
        &at(PI_DAY),
        &at(PI_DAY + 100),
        &Order::Asc,
        Some(2),
        &c,
    )
    .unwrap();
    // the name, the year and the month are walked over; the day is of full depth
    for _ in 0..3 {
        assert!(matches!(search.step(&c), Ok(DfsStep::Continue)));
    }
    match search.step(&c).unwrap() {
        DfsStep::Buckets(p) => assert_eq!(p, path(&[2021, 3, 14])),
        other => panic!("expected a request for buckets, got {:?}", other),
    }
    let buckets = vec![bucket_path(&[2021, 3, 14], PI_DAY + 50), bucket_path(&[2021, 3, 14], PI_DAY)];
    search.add_buckets(&buckets).unwrap();
    match search.step(&c).unwrap() {
        DfsStep::Links(p) => assert_eq!(p, buckets[1]),
        other => panic!("expected a request for links, got {:?}", other),
    }
    search.add_entries(vec![Note(PI_DAY + 7), Note(PI_DAY - 1), Note(PI_DAY), Note(PI_DAY + 101)]);
    assert_eq!(search.out.len(), 2);
    // the limit is reached: the second bucket is not asked for
    assert!(matches!(search.step(&c), Ok(DfsStep::Done)));
    let found: Vec<u64> = search.finish().into_iter().map(|k| k.item.0).collect();
    assert_eq!(found, vec![PI_DAY, PI_DAY + 7]);
}

#[test]
fn levels_have_their_places() {
    let all: [IndexType; 6] = [Year, Month, Day, Hour, Minute, Second];
    for (k, level) in all.iter().enumerate() {
        assert_eq!(level.depth(), k + 1);
        assert_eq!(IndexType::from_depth(k + 1), Some(*level));
    }
    assert_eq!(IndexType::from_depth(0), None);
    assert_eq!(IndexType::from_depth(7), None);
}

#[test]
fn errors_say_what_went_wrong() {
    assert_eq!(IndexError::RequestError("x").message(), "x");
    assert_eq!(IndexError::InternalError(MSG_PATH_LENGTH).message(), MSG_PATH_LENGTH);
    assert_eq!(IndexError::Wasm(MSG_NO_CHILDREN).message(), MSG_NO_CHILDREN);
    assert_eq!(
        IndexError::Serialization(DecodeError::Integer).message(),
        "Bytes do not hold a time index"
    );
    assert_eq!(
        IndexError::Serialization(DecodeError::Bucket).message(),
        "Bytes do not hold an index"
    );
    assert_eq!(
        IndexError::Serialization(DecodeError::Text).message(),
        "Bytes do not hold an index name"
    );
}
