use std::collections::HashMap;

use time_index::bfs::BfsSearch;
use time_index::calendar::TimePoint;
use time_index::dfs_search::{strip_keys, DfsSearch, DfsStep, Waiting};
use time_index::entries::{
    Duration, EntryChunkIndex, Index, IndexConfiguration, IndexType, Link, Order, Path,
    SearchStrategy,
};
use time_index::errors::{IndexError, IndexResult, MSG_SMALL_FRAME};
use time_index::methods::{
    get_current_index, get_indexes_for_time_span, get_latest_index, get_links_and_load_for_time_span,
    finish_bfs, get_links_for_time_span, index_entry, latest_bucket, latest_index_step,
    order_indexes, remove_index, sort_links, LatestStep, LoadSearch,
};
use time_index::traits::IndexableEntry;

#[derive(Clone, Debug, PartialEq)]
struct Post {
    id: u8,
    time: TimePoint,
}

impl IndexableEntry for Post {
    fn entry_time_spec(&self) -> TimePoint {
        self.time
    }

    fn entry_time(&self) -> TimePoint {
        self.time
    }

    fn hash(&self) -> IndexResult<Vec<u8>> {
        Ok(vec![self.id])
    }
}

/// A store in memory: the children of each path, and the links of each bucket.
struct Store {
    children: HashMap<Path, Vec<Path>>,
    links: HashMap<Path, Vec<(Link, Post)>>,
    fetches: usize,
}

impl Store {
    fn new() -> Store {
        Store { children: HashMap::new(), links: HashMap::new(), fetches: 0 }
    }

    fn ensure(&mut self, path: &Path) {
        for n in 1..path.len() {
            let parent = path[..n].to_vec();
            let child = path[..n + 1].to_vec();
            let list = self.children.entry(parent).or_default();
            if !list.contains(&child) {
                list.push(child);
            }
        }
    }

    fn children_of(&mut self, path: &Path) -> Vec<Path> {
        self.fetches += 1;
        self.children.get(path).cloned().unwrap_or_default()
    }

    fn add(&mut self, name: &str, post: Post, now: &Duration, config: &IndexConfiguration) {
        let path = index_entry(name.to_string(), &post, now, config).expect("a bucket path");
        self.ensure(&path);
        let link = Link {
            target: post.hash().unwrap(),
            timestamp: post.time.secs as i64 * 1_000_000,
            tag: vec![],
            create_link_hash: vec![0xee, post.id],
        };
        self.links.entry(path).or_default().push((link, post));
    }

    fn remove(&mut self, entry: &Vec<u8>) {
        for list in self.links.values_mut() {
            let held: Vec<Link> = list.iter().map(|(link, _)| link.clone()).collect();
            let doomed = remove_index(&held, entry);
            list.retain(|(link, _)| {
                !doomed.iter().any(|d| d.create_link_hash == link.create_link_hash)
            });
        }
    }
}

fn config(interval_ms: usize) -> IndexConfiguration {
    IndexConfiguration { enforce_spam_limit: 20, max_chunk_interval: interval_ms }
}

fn at(secs: u64) -> TimePoint {
    TimePoint::from_timestamp(secs, 0).expect("a representable time")
}

// 2021-01-01T00:00:00Z
const NEW_YEAR: u64 = 1_609_459_200;

fn now() -> Duration {
    Duration::from_secs(NEW_YEAR + 400 * 86_400)
}

fn feed_store(config: &IndexConfiguration) -> Store {
    let mut store = Store::new();
    store.add("feed", Post { id: 1, time: at(NEW_YEAR) }, &now(), config);
    store.add("feed", Post { id: 2, time: at(NEW_YEAR + 5) }, &now(), config);
    store.add("feed", Post { id: 3, time: at(NEW_YEAR + 15) }, &now(), config);
    store
}

fn run_bfs(store: &mut Store, search: BfsSearch, config: &IndexConfiguration) -> Vec<Path> {
    let mut search = search;
    while !search.is_done() {
        let paths = search.paths.clone();
        let children: Vec<Vec<Path>> = paths.iter().map(|p| store.children_of(p)).collect();
        search = search.expand(&children, config).expect("readable children");
    }
    search.paths
}

fn bfs_buckets(store: &mut Store, search: BfsSearch, config: &IndexConfiguration) -> Vec<Path> {
    let mut out = vec![];
    for path in run_bfs(store, search, config) {
        out.extend(store.children_of(&path));
    }
    out
}

fn run_dfs(
    store: &mut Store,
    search: DfsSearch<Post>,
    config: &IndexConfiguration,
) -> IndexResult<Vec<Post>> {
    let mut search = search;
    loop {
        match search.step(config)? {
            DfsStep::Continue => {}
            DfsStep::Done => break,
            DfsStep::Children(path) => {
                let children = store.children_of(&path);
                match search.waiting {
                    Waiting::Descent => {
                        search.descend(&children, config)?;
                    }
                    _ => {
                        search.expand(&children, config)?;
                    }
                }
            }
            DfsStep::Buckets(path) => {
                let buckets = store.children_of(&path);
                search.add_buckets(&buckets)?;
            }
            DfsStep::Links(path) => {
                let posts: Vec<Post> = store
                    .links
                    .get(&path)
                    .map(|list| list.iter().map(|(_, post)| post.clone()).collect())
                    .unwrap_or_default();
                search.add_entries(posts);
            }
        }
    }
    Ok(strip_keys(search.finish()))
}

fn load(
    store: &mut Store,
    from: u64,
    until: u64,
    strategy: SearchStrategy,
    limit: Option<usize>,
    config: &IndexConfiguration,
) -> IndexResult<Vec<Post>> {
    match get_links_and_load_for_time_span::<Post>(
        at(from),
        at(until),
        "feed".to_string(),
        strategy,
        limit,
        config,
    )? {
        LoadSearch::Bfs(load) => {
            let mut posts = vec![];
            let asked = (load.from, load.until, load.order, load.limit);
            for bucket in bfs_buckets(store, load.search, config) {
                if let Some(list) = store.links.get(&bucket) {
                    posts.extend(list.iter().map(|(_, post)| post.clone()));
                }
            }
            Ok(strip_keys(finish_bfs(posts, &asked.0, &asked.1, asked.2, asked.3)))
        }
        LoadSearch::Dfs(search) => run_dfs(store, search, config),
    }
}

#[test]
fn three_entries_give_three_links_in_two_buckets() {
    let config = config(10_000);
    let mut store = feed_store(&config);
    let (order, search) =
        get_links_for_time_span("feed".to_string(), at(NEW_YEAR), at(NEW_YEAR + 20), &config)
            .expect("a span of two buckets");
    assert_eq!(order, Order::Asc);
    let buckets = bfs_buckets(&mut store, search, &config);
    assert_eq!(buckets.len(), 2);
    let mut links = vec![];
    for bucket in &buckets {
        for (link, _) in store.links.get(bucket).unwrap() {
            links.push(link.clone());
        }
    }
    let links = sort_links(links, order);
    assert_eq!(links.len(), 3);
    let targets: Vec<Vec<u8>> = links.iter().map(|l| l.target.clone()).collect();
    assert_eq!(targets, vec![vec![1], vec![2], vec![3]]);

    let first = Index::try_from_path(&buckets[0]).unwrap();
    let second = Index::try_from_path(&buckets[1]).unwrap();
    assert_ne!(first, second);
    for bucket in [first, second] {
        assert_eq!(bucket.until.as_secs() - bucket.from.as_secs(), 10);
        assert_eq!(bucket.from.as_secs() % 10, 0);
        assert_eq!(bucket.from.subsec_nanos(), 0);
    }
    assert_eq!(first.from.as_secs(), NEW_YEAR);
    assert_eq!(second.from.as_secs(), NEW_YEAR + 10);
}

#[test]
fn latest_index_of_an_empty_tree_is_none() {
    let config = config(10_000);
    let mut store = Store::new();
    let step = get_latest_index("feed".to_string(), &config).unwrap();
    let (path, level) = match step {
        LatestStep::Children(path, level) => (path, level),
        other => panic!("expected a request for the years, got {:?}", other),
    };
    assert_eq!(level, IndexType::Year);
    let children = store.children_of(&path);
    let next = latest_index_step(path, level, &children, &config).unwrap();
    assert!(matches!(next, LatestStep::Empty));
}

#[test]
fn latest_index_follows_the_newest_child() {
    let config = config(10_000);
    let mut store = feed_store(&config);
    let mut step = get_latest_index("feed".to_string(), &config).unwrap();
    let mut asked = 0;
    let node = loop {
        match step {
            LatestStep::Children(path, level) => {
                asked += 1;
                let children = store.children_of(&path);
                step = latest_index_step(path, level, &children, &config).unwrap();
            }
            LatestStep::Buckets(path) => break path,
            LatestStep::Empty => panic!("the tree holds entries"),
        }
    };
    // year, month, day, hour, minute
    assert_eq!(asked, 5);
    assert_eq!(node.len(), 6);
    let buckets = store.children_of(&node);
    let latest = latest_bucket(&buckets).unwrap().expect("a bucket");
    assert_eq!(Index::try_from_path(&latest).unwrap().from.as_secs(), NEW_YEAR + 10);
}

#[test]
fn a_node_without_children_below_the_years_is_an_error() {
    let config = config(10_000);
    let path: Path = vec![vec![0xa1, b'f'], vec![0xcd, 0x07, 0xe5]];
    let r = latest_index_step(path, IndexType::Month, &vec![], &config);
    assert!(matches!(r, Err(IndexError::Wasm(_))));
}

#[test]
fn removed_entry_is_gone_and_its_sibling_stays() {
    let config = config(10_000);
    let mut store = feed_store(&config);
    store.remove(&vec![1]);
    let found = load(&mut store, NEW_YEAR, NEW_YEAR + 20, SearchStrategy::Bfs, None, &config)
        .unwrap();
    let ids: Vec<u8> = found.iter().map(|p| p.id).collect();
    assert_eq!(ids, vec![2, 3]);
    let found = load(&mut store, NEW_YEAR, NEW_YEAR + 20, SearchStrategy::Dfs, None, &config)
        .unwrap();
    let ids: Vec<u8> = found.iter().map(|p| p.id).collect();
    assert_eq!(ids, vec![2, 3]);
}

#[test]
fn remove_index_picks_every_link_to_the_entry() {
    let link = |target: u8, hash: u8| Link {
        target: vec![target],
        timestamp: 0,
        tag: vec![],
        create_link_hash: vec![hash],
    };
    let held = vec![link(1, 10), link(2, 11), link(1, 12)];
    let doomed = remove_index(&held, &vec![1]);
    let hashes: Vec<Vec<u8>> = doomed.iter().map(|l| l.create_link_hash.clone()).collect();
    assert_eq!(hashes, vec![vec![10], vec![12]]);
    assert!(remove_index(&held, &vec![3]).is_empty());
}

fn wide_store(config: &IndexConfiguration) -> Store {
    let mut store = Store::new();
    let mut id = 0;
    // entries over three days, several hours and minutes
    for day in 0..3u64 {
        for hour in [0u64, 7, 23] {
            for minute in [0u64, 30] {
                for second in [0u64, 5, 42] {
                    id += 1;
                    let secs = NEW_YEAR + day * 86_400 + hour * 3_600 + minute * 60 + second;
                    store.add("feed", Post { id, time: at(secs) }, &now(), config);
                }
            }
        }
    }
    store
}

#[test]
fn both_strategies_find_the_same_entries() {
    let config = config(10_000);
    let spans = [
        (NEW_YEAR, NEW_YEAR + 3 * 86_400),
        (NEW_YEAR + 7 * 3_600, NEW_YEAR + 86_400 + 7 * 3_600 + 31 * 60),
        (NEW_YEAR + 30 * 60, NEW_YEAR + 30 * 60 + 45),
        (NEW_YEAR + 2 * 86_400, NEW_YEAR),
        (NEW_YEAR + 86_400 + 23 * 3_600 + 30 * 60 + 42, NEW_YEAR + 86_400),
    ];
    for (from, until) in spans {
        let mut store = wide_store(&config);
        let bfs = load(&mut store, from, until, SearchStrategy::Bfs, None, &config).unwrap();
        let dfs = load(&mut store, from, until, SearchStrategy::Dfs, None, &config).unwrap();
        assert!(!bfs.is_empty());
        assert_eq!(bfs, dfs, "span {} to {}", from, until);
        let (lo, hi) = if from <= until { (from, until) } else { (until, from) };
        let expected = wide_store(&config)
            .links
            .values()
            .flatten()
            .filter(|(_, p)| lo <= p.time.secs && p.time.secs <= hi)
            .count();
        assert_eq!(bfs.len(), expected);
    }
}

#[test]
fn a_limit_gives_the_entries_nearest_the_start() {
    let config = config(10_000);
    let mut store = wide_store(&config);
    let all = load(&mut store, NEW_YEAR, NEW_YEAR + 3 * 86_400, SearchStrategy::Dfs, None, &config)
        .unwrap();
    for k in [0usize, 1, 4, 7] {
        let some = load(
            &mut store,
            NEW_YEAR,
            NEW_YEAR + 3 * 86_400,
            SearchStrategy::Dfs,
            Some(k),
            &config,
        )
        .unwrap();
        assert_eq!(some.len(), k);
        assert_eq!(some[..], all[..k]);
    }
    let many = load(
        &mut store,
        NEW_YEAR,
        NEW_YEAR + 3 * 86_400,
        SearchStrategy::Dfs,
        Some(1_000),
        &config,
    )
    .unwrap();
    assert_eq!(many, all);
}

#[test]
fn a_descending_limit_gives_the_latest_entries() {
    let config = config(10_000);
    let mut store = wide_store(&config);
    let all = load(&mut store, NEW_YEAR + 3 * 86_400, NEW_YEAR, SearchStrategy::Dfs, None, &config)
        .unwrap();
    assert!(all.windows(2).all(|w| w[0].time.secs >= w[1].time.secs));
    let some = load(
        &mut store,
        NEW_YEAR + 3 * 86_400,
        NEW_YEAR,
        SearchStrategy::Dfs,
        Some(5),
        &config,
    )
    .unwrap();
    assert_eq!(some[..], all[..5]);
}

#[test]
fn entries_outside_the_span_are_left_out_by_both_strategies() {
    let config = config(10_000);
    for (from, until) in [(NEW_YEAR + 5, NEW_YEAR + 25), (NEW_YEAR + 25, NEW_YEAR + 5)] {
        let mut store = Store::new();
        store.add("feed", Post { id: 1, time: at(NEW_YEAR + 2) }, &now(), &config);
        store.add("feed", Post { id: 2, time: at(NEW_YEAR + 42) }, &now(), &config);
        let bfs = load(&mut store, from, until, SearchStrategy::Bfs, None, &config).unwrap();
        let dfs = load(&mut store, from, until, SearchStrategy::Dfs, None, &config).unwrap();
        assert_eq!(bfs, vec![]);
        assert_eq!(dfs, vec![]);
        store.add("feed", Post { id: 3, time: at(NEW_YEAR + 9) }, &now(), &config);
        store.add("feed", Post { id: 4, time: at(NEW_YEAR + 25) }, &now(), &config);
        let bfs = load(&mut store, from, until, SearchStrategy::Bfs, None, &config).unwrap();
        let dfs = load(&mut store, from, until, SearchStrategy::Dfs, None, &config).unwrap();
        let mut ids: Vec<u8> = bfs.iter().map(|p| p.id).collect();
        ids.sort();
        assert_eq!(ids, vec![3, 4]);
        assert_eq!(bfs, dfs);
    }
}

#[test]
fn the_exhaustive_search_keeps_to_the_limit() {
    let config = config(10_000);
    for (from, until) in [(NEW_YEAR, NEW_YEAR + 3 * 86_400), (NEW_YEAR + 3 * 86_400, NEW_YEAR)] {
        let mut store = wide_store(&config);
        let all = load(&mut store, from, until, SearchStrategy::Bfs, None, &config).unwrap();
        for k in [0usize, 1, 5, 1_000] {
            let some = load(&mut store, from, until, SearchStrategy::Bfs, Some(k), &config).unwrap();
            let deep = load(&mut store, from, until, SearchStrategy::Dfs, Some(k), &config).unwrap();
            assert_eq!(some.len(), k.min(all.len()));
            assert_eq!(some[..], all[..some.len()]);
            assert_eq!(some, deep);
        }
    }
}

#[test]
fn the_answer_of_an_exhaustive_query_is_filtered_sorted_and_cut() {
    let posts = |secs: &[u64]| -> Vec<Post> {
        secs.iter().enumerate().map(|(k, s)| Post { id: k as u8, time: at(*s) }).collect()
    };
    let ids = |found: Vec<time_index::sorting::Keyed<TimePoint, Post>>| -> Vec<u8> {
        found.into_iter().map(|k| k.item.id).collect()
    };
    let all = [30u64, 10, 50, 20, 10, 60];
    let found = finish_bfs(posts(&all), &at(10), &at(50), Order::Asc, None);
    assert_eq!(ids(found), vec![1, 4, 3, 0, 2]);
    let found = finish_bfs(posts(&all), &at(50), &at(10), Order::Desc, None);
    assert_eq!(ids(found), vec![2, 0, 3, 1, 4]);
    let found = finish_bfs(posts(&all), &at(10), &at(50), Order::Asc, Some(2));
    assert_eq!(ids(found), vec![1, 4]);
    let found = finish_bfs(posts(&all), &at(50), &at(10), Order::Desc, Some(3));
    assert_eq!(ids(found), vec![2, 0, 3]);
    // the ends the wrong way round for the direction: nothing lies between
    let found = finish_bfs(posts(&all), &at(50), &at(10), Order::Asc, None);
    assert!(found.is_empty());
}

#[test]
fn a_limit_saves_fetches() {
    let config = config(10_000);
    let mut store = wide_store(&config);
    load(&mut store, NEW_YEAR, NEW_YEAR + 3 * 86_400, SearchStrategy::Dfs, None, &config).unwrap();
    let unlimited = store.fetches;
    let mut store = wide_store(&config);
    load(&mut store, NEW_YEAR, NEW_YEAR + 3 * 86_400, SearchStrategy::Dfs, Some(1), &config)
        .unwrap();
    assert!(store.fetches < unlimited);
}

#[test]
fn a_span_narrower_than_a_bucket_is_refused() {
    let config = config(10_000);
    for (from, until) in [(NEW_YEAR, NEW_YEAR + 9), (NEW_YEAR + 9, NEW_YEAR), (NEW_YEAR, NEW_YEAR)] {
        let r = get_indexes_for_time_span(at(from), at(until), "feed".to_string(), &config);
        assert!(matches!(r, Err(IndexError::RequestError(m)) if m == MSG_SMALL_FRAME));
        let r = get_links_for_time_span("feed".to_string(), at(from), at(until), &config);
        assert!(matches!(r, Err(IndexError::RequestError(m)) if m == MSG_SMALL_FRAME));
        for strategy in [SearchStrategy::Bfs, SearchStrategy::Dfs] {
            let r = get_links_and_load_for_time_span::<Post>(
                at(from),
                at(until),
                "feed".to_string(),
                strategy,
                None,
                &config,
            );
            assert!(matches!(r, Err(IndexError::RequestError(m)) if m == MSG_SMALL_FRAME));
        }
    }
    for (from, until) in [(NEW_YEAR, NEW_YEAR + 10), (NEW_YEAR + 10, NEW_YEAR)] {
        assert!(
            get_indexes_for_time_span(at(from), at(until), "feed".to_string(), &config).is_ok()
        );
    }
}

#[test]
fn buckets_of_a_span_come_latest_first() {
    let config = config(10_000);
    let mut store = feed_store(&config);
    let search =
        get_indexes_for_time_span(at(NEW_YEAR), at(NEW_YEAR + 20), "feed".to_string(), &config)
            .unwrap();
    let mut out = vec![];
    for bucket in bfs_buckets(&mut store, search, &config) {
        let links = store.links.get(&bucket).unwrap().iter().map(|(l, _)| l.clone()).collect();
        out.push(EntryChunkIndex { index: Index::try_from_path(&bucket).unwrap(), links });
    }
    let ordered = order_indexes(&out);
    let starts: Vec<u64> = ordered.iter().map(|c| c.index.from.as_secs()).collect();
    assert_eq!(starts, vec![NEW_YEAR + 10, NEW_YEAR]);
    assert_eq!(ordered[0].links.len(), 1);
    assert_eq!(ordered[1].links.len(), 2);
    assert_eq!(ordered[1].links[1].target, vec![2]);
}

#[test]
fn current_index_is_the_node_of_now() {
    let config = config(10_000);
    let mut store = feed_store(&config);
    let node = get_current_index("feed".to_string(), &at(NEW_YEAR + 7), &config).unwrap();
    assert_eq!(node.len(), 6);
    let buckets = store.children_of(&node);
    assert_eq!(buckets.len(), 2);
    let bucket = latest_bucket(&buckets).unwrap().expect("the later bucket of that minute");
    assert_eq!(Index::try_from_path(&bucket).unwrap().from.as_secs(), NEW_YEAR + 10);
    // a minute nobody wrote in
    let node = get_current_index("feed".to_string(), &at(NEW_YEAR + 120), &config).unwrap();
    let buckets = store.children_of(&node);
    assert_eq!(latest_bucket(&buckets).unwrap(), None);
}

#[test]
fn an_entry_without_a_proper_time_is_not_indexed() {
    let config = config(10_000);
    let mut broken = at(NEW_YEAR);
    broken.civil.month = 13;
    let r = index_entry("feed".to_string(), &Post { id: 1, time: broken }, &now(), &config);
    assert_eq!(r, Err(IndexError::RequestError(time_index::errors::MSG_ENTRY_TIME)));
    // an entry of the future has no bucket yet
    let late = Post { id: 2, time: at(NEW_YEAR + 500 * 86_400) };
    let r = index_entry("feed".to_string(), &late, &now(), &config);
    assert_eq!(r, Err(IndexError::RequestError(time_index::errors::MSG_FUTURE)));
}

#[test]
fn links_sort_by_their_time_in_both_directions() {
    let link = |t: i64| Link { target: vec![], timestamp: t, tag: vec![], create_link_hash: vec![] };
    let sorted = sort_links(vec![link(3), link(-1), link(2)], Order::Asc);
    assert_eq!(sorted.iter().map(|l| l.timestamp).collect::<Vec<_>>(), vec![-1, 2, 3]);
    let sorted = sort_links(vec![link(3), link(-1), link(2)], Order::Desc);
    assert_eq!(sorted.iter().map(|l| l.timestamp).collect::<Vec<_>>(), vec![3, 2, -1]);
}
