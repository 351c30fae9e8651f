use hdk::prelude::holochain_serialized_bytes::{decode, encode};

use time_index::chunks::{latest_link, TimeChunk};
use time_index::codec::{decode_u32, encode_index, encode_u32};
use time_index::conversions::PathField;
use time_index::dfs::GraphTimeItem;
use time_index::entries::{Duration, Index, IndexConfiguration, Link, StringIndex, WrappedPath};
use time_index::errors::{
    DecodeError, IndexError, MSG_FUTURE, MSG_GENESIS_ORDERING, MSG_NO_GENESIS, MSG_PERIOD,
};

fn config(interval_ms: usize) -> IndexConfiguration {
    IndexConfiguration { enforce_spam_limit: 20, max_chunk_interval: interval_ms }
}

#[test]
fn level_values_are_what_the_host_serializes() {
    for v in [0u32, 1, 12, 127, 128, 255, 256, 2021, 65_535, 65_536, u32::MAX] {
        assert_eq!(encode_u32(v), encode(&v).unwrap());
        let back: u32 = decode(&encode_u32(v)).unwrap();
        assert_eq!(back, v);
        assert_eq!(decode_u32(&encode(&v).unwrap()), Some(v));
    }
}

#[test]
fn integers_take_the_form_the_format_library_writes() {
    for v in [0u64, 127, 128, 255, 256, 65_535, 65_536, u32::MAX as u64, 1 << 32, u64::MAX] {
        let mut theirs = vec![];
        rmp::encode::write_uint(&mut theirs, v).unwrap();
        let mut ours = vec![];
        time_index::codec::push_uint(&mut ours, v);
        assert_eq!(ours, theirs);
        assert_eq!(time_index::codec::read_uint(&theirs, 0), Some((v, theirs.len())));
    }
    // a longer spelling of a number is read by a lenient decoder and refused here
    let lenient: u32 = decode(&vec![0xcc, 0x05]).unwrap();
    assert_eq!(lenient, 5);
    assert_eq!(decode_u32(&vec![0xcc, 0x05]), None);
    assert_eq!(decode_u32(&vec![0xd0, 0x05]), None);
}

#[test]
fn names_are_what_the_host_serializes() {
    for name in ["", "feed", "a name of exactly 32 bytes, no more", "zeit-über"] {
        let ours = StringIndex(name.to_string()).get_sb().unwrap();
        assert_eq!(ours, encode(&name.to_string()).unwrap());
    }
    let long = "x".repeat(300);
    assert_eq!(StringIndex(long.clone()).get_sb().unwrap(), encode(&long).unwrap());
    let longer = "y".repeat(70_000);
    assert_eq!(StringIndex(longer.clone()).get_sb().unwrap(), encode(&longer).unwrap());
}

#[test]
fn buckets_are_made_of_what_the_host_serializes() {
    for (secs, nanos) in [(0u64, 0u32), (1_609_459_200, 0), (u64::MAX, 999_999_999), (200, 70_000)] {
        let bucket = Index {
            from: Duration { secs, nanos },
            until: Duration { secs: secs / 2, nanos: nanos / 3 },
        };
        let mut expected = vec![0x82, 0xa4, b'f', b'r', b'o', b'm'];
        expected.extend(encode(&std::time::Duration::new(secs, nanos)).unwrap());
        expected.extend([0xa5, b'u', b'n', b't', b'i', b'l']);
        expected.extend(encode(&std::time::Duration::new(secs / 2, nanos / 3)).unwrap());
        assert_eq!(encode_index(&bucket), expected);
    }
}

#[test]
fn a_path_reads_component_by_component() {
    let bucket = Index {
        from: Duration { secs: 1_609_459_200, nanos: 0 },
        until: Duration { secs: 1_609_459_210, nanos: 0 },
    };
    let path = vec![
        StringIndex("feed".to_string()).get_sb().unwrap(),
        encode_u32(2021),
        encode_u32(1),
        encode_index(&bucket),
    ];
    let expected = vec![
        PathField::Name("feed".to_string()),
        PathField::TimeIndex(2021),
        PathField::TimeIndex(1),
        PathField::Index(bucket),
    ];
    assert_eq!(WrappedPath(path.clone()).fields(), Ok(expected.clone()));
    assert_eq!(GraphTimeItem(path.clone()).fields(), Ok(expected));
    assert_eq!(WrappedPath(vec![]).fields(), Ok(vec![]));
    assert_eq!(
        WrappedPath(vec![encode_u32(2021)]).fields(),
        Err(IndexError::Serialization(DecodeError::Text))
    );
    assert_eq!(
        WrappedPath(vec![path[0].clone(), vec![0xc0]]).fields(),
        Err(IndexError::Serialization(DecodeError::Bucket))
    );
    // a bucket stands at the last place only
    let misplaced = vec![path[0].clone(), path[3].clone(), path[1].clone()];
    assert_eq!(
        WrappedPath(misplaced.clone()).fields(),
        Err(IndexError::Serialization(DecodeError::Integer))
    );
    assert_eq!(
        GraphTimeItem(misplaced).fields(),
        Err(IndexError::Serialization(DecodeError::Integer))
    );
}

fn chunk(from: u64, until: u64) -> TimeChunk {
    TimeChunk { from: Duration::from_secs(from), until: Duration::from_secs(until) }
}

#[test]
fn chunks_follow_the_genesis_chunk() {
    let c = config(300_000);
    let now = Duration::from_secs(10_000);
    let genesis = chunk(1_000, 1_300);
    assert_eq!(chunk(1_300, 1_600).validate_chunk(&now, Some(&genesis), &c), Ok(()));
    assert_eq!(chunk(1_000, 1_300).validate_chunk(&now, Some(&genesis), &c), Ok(()));
    assert_eq!(
        chunk(10_300, 10_600).validate_chunk(&now, Some(&genesis), &c),
        Err(IndexError::Wasm(MSG_FUTURE))
    );
    assert_eq!(
        chunk(1_300, 1_601).validate_chunk(&now, Some(&genesis), &c),
        Err(IndexError::Wasm(MSG_PERIOD))
    );
    assert_eq!(
        chunk(1_600, 1_300).validate_chunk(&now, Some(&genesis), &c),
        Err(IndexError::Wasm(MSG_PERIOD))
    );
    assert_eq!(
        chunk(1_300, 1_600).validate_chunk(&now, None, &c),
        Err(IndexError::Wasm(MSG_NO_GENESIS))
    );
    assert_eq!(
        chunk(1_301, 1_601).validate_chunk(&now, Some(&genesis), &c),
        Err(IndexError::Wasm(MSG_GENESIS_ORDERING))
    );
    assert_eq!(
        chunk(700, 1_000).validate_chunk(&now, Some(&genesis), &c),
        Err(IndexError::Wasm(MSG_GENESIS_ORDERING))
    );
}

#[test]
fn a_chunk_is_created_below_the_node_of_its_start() {
    let c = config(300_000);
    // 2021-03-14T15:05:00Z
    let start = 1_615_734_300;
    let now = Duration::from_secs(start + 1_000);
    let genesis = chunk(start - 600, start - 300);
    let path = chunk(start, start + 300).create_chunk(false, &now, Some(&genesis), &c).unwrap();
    assert_eq!(
        path,
        vec![
            encode(&"time".to_string()).unwrap(),
            encode_u32(2021),
            encode_u32(3),
            encode_u32(14),
            encode_u32(15)
        ]
    );
    // the genesis chunk itself needs no genesis
    assert!(chunk(start + 1, start + 301).create_chunk(true, &now, None, &c).is_ok());
    assert_eq!(
        chunk(start + 1, start + 301).create_chunk(false, &now, None, &c),
        Err(IndexError::Wasm(MSG_NO_GENESIS))
    );
}

#[test]
fn earlier_chunks_lie_whole_widths_back() {
    let c = config(300_000);
    let here = chunk(1_000, 1_300);
    assert_eq!(here.get_previous_chunk(0, &c), Some(here));
    assert_eq!(here.get_previous_chunk(1, &c), Some(chunk(700, 1_000)));
    assert_eq!(here.get_previous_chunk(3, &c), Some(chunk(100, 400)));
    assert_eq!(here.get_previous_chunk(4, &c), None);
    assert_eq!(here.get_previous_chunk(u32::MAX, &c), None);
    let now = Duration { secs: 5, nanos: 250 };
    let first = TimeChunk::genesis(&now, &c).unwrap();
    assert_eq!(first.from, now);
    assert_eq!(first.until, Duration { secs: 305, nanos: 250 });
    assert_eq!(TimeChunk::genesis(&Duration { secs: u64::MAX, nanos: 0 }, &c), None);
}

#[test]
fn the_current_chunk_hangs_from_the_latest_link() {
    let link = |t: i64| Link { target: vec![], timestamp: t, tag: vec![], create_link_hash: vec![] };
    assert_eq!(latest_link(&vec![]), None);
    assert_eq!(latest_link(&vec![link(5)]), Some(0));
    assert_eq!(latest_link(&vec![link(5), link(9), link(7)]), Some(1));
    assert_eq!(latest_link(&vec![link(9), link(5), link(9)]), Some(2));
    assert_eq!(latest_link(&vec![link(-3), link(-9)]), Some(0));
}
