use time_index::calendar::TimePoint;
use time_index::entries::{Duration, Index, IndexConfiguration};
use time_index::utils::get_index_for_timestamp;

fn config(interval_ms: usize) -> IndexConfiguration {
    IndexConfiguration { enforce_spam_limit: 20, max_chunk_interval: interval_ms }
}

#[test]
fn test_get_chunk_time() {
    //Hard coded interval
    let interval = 10;
    let now = chrono::Utc::now();
    let time = TimePoint::from_timestamp(now.timestamp() as u64, now.timestamp_subsec_nanos())
        .expect("the present is a representable time");
    let chunk = get_index_for_timestamp(&time, &config(10_000));
    assert_eq!(chunk.from.as_secs() % interval, 0);
    assert_eq!(chunk.until.as_secs() % interval, 0);
}

#[test]
fn translate_sort() {
    let str_nums = vec!["2", "1"];
    let nums = str_nums
        .clone()
        .into_iter()
        .map(|val| val.parse::<i32>().unwrap())
        .collect::<Vec<i32>>();

    let permutation = permutation::sort(&nums[..]);
    let ordered_nums = permutation.apply_slice(&str_nums[..]);
    assert_eq!(ordered_nums, vec!["1", "2"]);
}

#[test]
fn bucket_of_a_known_instant() {
    // 2021-01-01T00:00:05Z with a ten second width
    let time = TimePoint::from_timestamp(1_609_459_205, 0).unwrap();
    let chunk = get_index_for_timestamp(&time, &config(10_000));
    assert_eq!(
        chunk,
        Index {
            from: Duration { secs: 1_609_459_200, nanos: 0 },
            until: Duration { secs: 1_609_459_210, nanos: 0 },
        }
    );
}

#[test]
fn buckets_are_ordered_by_their_start() {
    let span = |secs: u64, nanos: u32| Duration { secs, nanos };
    assert!(span(1, 999_999_999) < span(2, 0));
    assert!(span(2, 0) < span(2, 1));
    assert!(span(2, 1) <= span(2, 1));
    let early = Index { from: span(10, 0), until: span(20, 0) };
    let late = Index { from: span(20, 0), until: span(30, 0) };
    let wide = Index { from: span(10, 0), until: span(40, 0) };
    assert!(early < late);
    assert!(wide < late);
    assert!(early < wide);
    let mut buckets = vec![late, wide, early];
    buckets.sort();
    assert_eq!(buckets, vec![early, wide, late]);
    assert_eq!(buckets.iter().max(), Some(&late));
}
