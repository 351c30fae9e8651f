use time_index::codec::{decode_index, decode_u32, encode_index, encode_u32, push_uint, read_uint};
use time_index::entries::{Duration, Index, StringIndex, TimeIndex};
use time_index::errors::{DecodeError, IndexError, MSG_EMPTY_PATH};
use time_index::names::{decode_text, encode_text};

#[test]
fn level_values_take_their_shortest_form() {
    assert_eq!(encode_u32(0), vec![0x00]);
    assert_eq!(encode_u32(12), vec![0x0c]);
    assert_eq!(encode_u32(127), vec![0x7f]);
    assert_eq!(encode_u32(128), vec![0xcc, 0x80]);
    assert_eq!(encode_u32(255), vec![0xcc, 0xff]);
    assert_eq!(encode_u32(256), vec![0xcd, 0x01, 0x00]);
    assert_eq!(encode_u32(2021), vec![0xcd, 0x07, 0xe5]);
    assert_eq!(encode_u32(65_535), vec![0xcd, 0xff, 0xff]);
    assert_eq!(encode_u32(65_536), vec![0xce, 0x00, 0x01, 0x00, 0x00]);
    assert_eq!(encode_u32(u32::MAX), vec![0xce, 0xff, 0xff, 0xff, 0xff]);
}

#[test]
fn level_values_come_back() {
    for v in [0u32, 1, 59, 127, 128, 255, 256, 2021, 65_535, 65_536, 1 << 24, u32::MAX] {
        assert_eq!(decode_u32(&encode_u32(v)), Some(v));
        assert_eq!(TimeIndex::try_from(&TimeIndex(v).get_sb().unwrap()), Ok(TimeIndex(v)));
    }
}

#[test]
fn only_the_shortest_form_is_a_level_value() {
    assert_eq!(decode_u32(&vec![]), None);
    assert_eq!(decode_u32(&vec![0xcc, 0x05]), None);
    assert_eq!(decode_u32(&vec![0xcd, 0x00, 0xff]), None);
    assert_eq!(decode_u32(&vec![0xce, 0x00, 0x00, 0xff, 0xff]), None);
    assert_eq!(decode_u32(&vec![0xcd, 0x07]), None);
    assert_eq!(decode_u32(&vec![0x05, 0x00]), None);
    assert_eq!(decode_u32(&vec![0xc0]), None);
    assert_eq!(decode_u32(&vec![0xcf, 0, 0, 0, 1, 0, 0, 0, 0]), None);
    assert_eq!(
        TimeIndex::try_from(&vec![0xc0]),
        Err(IndexError::Serialization(DecodeError::Integer))
    );
}

#[test]
fn wide_integers_come_back() {
    for v in [0u64, 127, 128, u32::MAX as u64, u32::MAX as u64 + 1, u64::MAX] {
        let mut out = vec![0xaa];
        push_uint(&mut out, v);
        assert_eq!(out[0], 0xaa);
        assert_eq!(read_uint(&out, 1), Some((v, out.len())));
    }
    let mut out = vec![];
    push_uint(&mut out, u64::MAX);
    assert_eq!(out, vec![0xcf, 0xff, 0xff, 0xff, 0xff, 0xff, 0xff, 0xff, 0xff]);
    assert_eq!(read_uint(&out, 9), None);
}

#[test]
fn a_bucket_has_one_encoding() {
    let bucket = Index {
        from: Duration { secs: 1_609_459_200, nanos: 0 },
        until: Duration { secs: 1_609_459_210, nanos: 5 },
    };
    let bytes = encode_index(&bucket);
    let expected: Vec<u8> = vec![
        0x82, 0xa4, b'f', b'r', b'o', b'm', //
        0x82, 0xa4, b's', b'e', b'c', b's', 0xce, 0x5f, 0xee, 0x66, 0x00, //
        0xa5, b'n', b'a', b'n', b'o', b's', 0x00, //
        0xa5, b'u', b'n', b't', b'i', b'l', //
        0x82, 0xa4, b's', b'e', b'c', b's', 0xce, 0x5f, 0xee, 0x66, 0x0a, //
        0xa5, b'n', b'a', b'n', b'o', b's', 0x05,
    ];
    assert_eq!(bytes, expected);
    assert_eq!(decode_index(&bytes), Some(bucket));
    assert_eq!(Index::try_from(&bucket.get_sb().unwrap()), Ok(bucket));
}

#[test]
fn buckets_come_back() {
    for (a, b, c, d) in [
        (0u64, 0u32, 0u64, 1u32),
        (u64::MAX, 999_999_999, u64::MAX, 999_999_999),
        (200, 128, 70_000, 65_536),
    ] {
        let bucket =
            Index { from: Duration { secs: a, nanos: b }, until: Duration { secs: c, nanos: d } };
        assert_eq!(decode_index(&encode_index(&bucket)), Some(bucket));
    }
}

#[test]
fn what_is_no_bucket_does_not_decode() {
    let bucket = Index {
        from: Duration { secs: 10, nanos: 0 },
        until: Duration { secs: 20, nanos: 0 },
    };
    let good = encode_index(&bucket);
    assert_eq!(decode_index(&vec![]), None);
    assert_eq!(decode_index(&good[..good.len() - 1].to_vec()), None);
    let mut longer = good.clone();
    longer.push(0);
    assert_eq!(decode_index(&longer), None);
    let mut other_key = good.clone();
    other_key[2] = b'g';
    assert_eq!(decode_index(&other_key), None);
    // a sub-second part of a whole second
    let too_fine = Index {
        from: Duration { secs: 10, nanos: 1_000_000_000 },
        until: Duration { secs: 20, nanos: 0 },
    };
    assert_eq!(decode_index(&encode_index(&too_fine)), None);
    assert_eq!(decode_index(&encode_u32(2021)), None);
    assert_eq!(
        Index::try_from(&encode_u32(2021)),
        Err(IndexError::Serialization(DecodeError::Bucket))
    );
    assert_eq!(Index::try_from_path(&vec![]), Err(IndexError::InternalError(MSG_EMPTY_PATH)));
}

#[test]
fn names_are_framed_by_their_length() {
    assert_eq!(encode_text(&b"feed".to_vec()), Some(vec![0xa4, b'f', b'e', b'e', b'd']));
    assert_eq!(encode_text(&vec![]), Some(vec![0xa0]));
    let long = vec![b'x'; 32];
    let framed = encode_text(&long).unwrap();
    assert_eq!(framed[..2], [0xd9, 32]);
    assert_eq!(decode_text(&framed), Some(long));
    let longer = vec![b'y'; 300];
    let framed = encode_text(&longer).unwrap();
    assert_eq!(framed[..3], [0xda, 0x01, 0x2c]);
    assert_eq!(decode_text(&framed), Some(longer));
    let longest = vec![b'z'; 70_000];
    let framed = encode_text(&longest).unwrap();
    assert_eq!(framed[..5], [0xdb, 0x00, 0x01, 0x11, 0x70]);
    assert_eq!(decode_text(&framed), Some(longest));
}

#[test]
fn a_wrong_frame_is_no_name() {
    assert_eq!(decode_text(&vec![]), None);
    assert_eq!(decode_text(&vec![0xa4, b'f', b'e', b'e']), None);
    assert_eq!(decode_text(&vec![0xa2, b'f', b'e', b'e']), None);
    assert_eq!(decode_text(&vec![0xd9, 0x03, b'f', b'e', b'e']), None);
    assert_eq!(decode_text(&vec![0x04, b'f', b'e', b'e', b'd']), None);
}

#[test]
fn index_names_come_back() {
    for name in ["feed", "", "a longer name of an index, with more than thirty-two bytes", "zeit-über"]
    {
        let component = StringIndex(name.to_string()).get_sb().unwrap();
        let back = StringIndex::try_from(&component).unwrap();
        assert_eq!(back.0, name);
    }
    let not_utf8 = vec![0xa2, 0xff, 0xfe];
    assert!(matches!(
        StringIndex::try_from(&not_utf8),
        Err(IndexError::Serialization(DecodeError::Text))
    ));
}
