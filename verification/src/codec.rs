//! Byte encoding of path components.
//!
//! A component is either an unsigned integer in its shortest big-endian form
//! behind a one-byte marker, or a time bucket written as a small two-level
//! record of such integers. Every value has exactly one encoding, so decoding
//! is the inverse of encoding and nothing else: bytes that spell a number in a
//! longer or a signed form, a record with its fields in another order, or a
//! sub-second part of a second and more, are refused here, though a lenient
//! decoder of the same format reads them. A path is found in the tree by its
//! bytes, so only the one spelling ever names a node.

use crate::entries::{Duration, Index, NANOS_PER_SEC};
use vstd::prelude::*;

verus! {

/// 256 to the power `n`.
pub open spec fn pow256(n: nat) -> nat
    decreases n,
{
    if n == 0 {
        1
    } else {
        256 * pow256((n - 1) as nat)
    }
}

/// The `n` low bytes of `v`, most significant first.
pub open spec fn be_bytes(v: nat, n: nat) -> Seq<u8>
    decreases n,
{
    if n == 0 {
        Seq::empty()
    } else {
        be_bytes(v / 256, (n - 1) as nat).push((v % 256) as u8)
    }
}

/// The number that `s` spells, most significant byte first.
pub open spec fn be_value(s: Seq<u8>) -> nat
    decreases s.len(),
{
    if s.len() == 0 {
        0
    } else {
        be_value(s.drop_last()) * 256 + s.last() as nat
    }
}

pub proof fn lemma_pow256_values()
    ensures
        pow256(0) == 1,
        pow256(1) == 0x100,
        pow256(2) == 0x1_0000,
        pow256(3) == 0x100_0000,
        pow256(4) == 0x1_0000_0000,
        pow256(7) == 0x100_0000_0000_0000,
        pow256(8) == 0x1_0000_0000_0000_0000,
{
    reveal_with_fuel(pow256, 10);
}

pub proof fn lemma_be_bytes_len(v: nat, n: nat)
    ensures
        be_bytes(v, n).len() == n,
    decreases n,
{
    if n > 0 {
        lemma_be_bytes_len(v / 256, (n - 1) as nat);
    }
}

pub proof fn lemma_be_value_bound(s: Seq<u8>)
    ensures
        be_value(s) < pow256(s.len()),
    decreases s.len(),
{
    if s.len() > 0 {
        lemma_be_value_bound(s.drop_last());
    }
}

pub proof fn lemma_be_value_of_bytes(v: nat, n: nat)
    requires
        v < pow256(n),
    ensures
        be_value(be_bytes(v, n)) == v,
    decreases n,
{
    if n > 0 {
        let rest = be_bytes(v / 256, (n - 1) as nat);
        lemma_be_value_of_bytes(v / 256, (n - 1) as nat);
        assert(be_bytes(v, n).drop_last() =~= rest);
    }
}

pub proof fn lemma_be_bytes_of_value(s: Seq<u8>)
    ensures
        be_bytes(be_value(s), s.len()) == s,
    decreases s.len(),
{
    if s.len() > 0 {
        lemma_be_bytes_of_value(s.drop_last());
        let v = be_value(s);
        assert(v / 256 == be_value(s.drop_last()));
        assert(v % 256 == s.last() as nat);
        assert(be_bytes(v, s.len()) =~= s);
    } else {
        assert(be_bytes(be_value(s), s.len()) =~= s);
    }
}

/// Marker bytes in front of an unsigned integer that does not fit the marker itself.
pub const MARK_U8: u8 = 0xcc;

pub const MARK_U16: u8 = 0xcd;

pub const MARK_U32: u8 = 0xce;

pub const MARK_U64: u8 = 0xcf;

/// How many payload bytes the shortest form of `v` carries behind its marker
/// (0 where the marker byte is the value).
pub open spec fn uint_width(v: nat) -> nat {
    if v < 0x80 {
        0
    } else if v < 0x100 {
        1
    } else if v < 0x1_0000 {
        2
    } else if v < 0x1_0000_0000 {
        4
    } else {
        8
    }
}

/// The marker byte for a payload of `w` bytes.
pub open spec fn width_marker(w: nat) -> u8 {
    if w == 1 {
        MARK_U8
    } else if w == 2 {
        MARK_U16
    } else if w == 4 {
        MARK_U32
    } else {
        MARK_U64
    }
}

/// The one encoding of the unsigned integer `v`.
pub open spec fn uint_bytes(v: nat) -> Seq<u8> {
    if v < 0x80 {
        seq![v as u8]
    } else {
        seq![width_marker(uint_width(v))] + be_bytes(v, uint_width(v))
    }
}

/// Reads one encoded unsigned integer that starts at `pos`: the value and the
/// position behind it, or `None` where no shortest-form integer starts there.
pub open spec fn parse_uint(s: Seq<u8>, pos: int) -> Option<(nat, int)> {
    if pos < 0 || pos >= s.len() {
        None
    } else if s[pos] < 0x80 {
        Some((s[pos] as nat, pos + 1))
    } else {
        let w: nat = if s[pos] == MARK_U8 {
            1
        } else if s[pos] == MARK_U16 {
            2
        } else if s[pos] == MARK_U32 {
            4
        } else if s[pos] == MARK_U64 {
            8
        } else {
            0
        };
        if w == 0 || pos + 1 + w > s.len() {
            None
        } else {
            let v = be_value(s.subrange(pos + 1, pos + 1 + w));
            if uint_width(v) == w {
                Some((v, pos + 1 + w))
            } else {
                None
            }
        }
    }
}

pub proof fn lemma_uint_bytes_len(v: nat)
    requires
        v < pow256(8),
    ensures
        uint_bytes(v).len() == 1 + uint_width(v),
        1 <= uint_bytes(v).len() <= 9,
{
    lemma_be_bytes_len(v, uint_width(v));
}

/// Reading where an encoded integer stands gives that integer back, whatever
/// stands before and behind it.
pub proof fn lemma_parse_of_uint_bytes(s: Seq<u8>, pos: int, v: nat)
    requires
        v < pow256(8),
        0 <= pos,
        pos + uint_bytes(v).len() <= s.len(),
        s.subrange(pos, pos + uint_bytes(v).len()) == uint_bytes(v),
    ensures
        parse_uint(s, pos) == Some((v, pos + uint_bytes(v).len())),
{
    let w = uint_width(v);
    let piece = s.subrange(pos, pos + uint_bytes(v).len());
    lemma_pow256_values();
    lemma_be_bytes_len(v, w);
    assert(s[pos] == piece[0]);
    if v >= 0x80 {
        assert(s.subrange(pos + 1, pos + 1 + w) =~= piece.subrange(1, 1 + w as int));
        assert(piece.subrange(1, 1 + w as int) =~= be_bytes(v, w));
        lemma_be_value_of_bytes(v, w);
    }
}

/// What was read is the encoding of the value that came out.
pub proof fn lemma_uint_bytes_of_parse(s: Seq<u8>, pos: int)
    requires
        parse_uint(s, pos) is Some,
    ensures
        ({
            let (v, end) = parse_uint(s, pos).unwrap();
            &&& v < pow256(8)
            &&& pos < end <= s.len()
            &&& s.subrange(pos, end) == uint_bytes(v)
        }),
{
    let (v, end) = parse_uint(s, pos).unwrap();
    lemma_pow256_values();
    if s[pos] < 0x80 {
        assert(s.subrange(pos, end) =~= uint_bytes(v));
    } else {
        let w = uint_width(v);
        let payload = s.subrange(pos + 1, pos + 1 + w);
        lemma_be_bytes_of_value(payload);
        lemma_be_value_bound(payload);
        assert(s.subrange(pos, end) =~= uint_bytes(v));
    }
}

/// Appends the `n` low bytes of `v`, most significant first.
pub(crate) fn push_be(out: &mut Vec<u8>, v: u64, n: u8)
    requires
        n <= 8,
    ensures
        final(out)@ == old(out)@ + be_bytes(v as nat, n as nat),
    decreases n,
{
    if n == 0 {
        assert(old(out)@ + be_bytes(v as nat, 0) =~= old(out)@);
    } else {
        push_be(out, v / 256, n - 1);
        out.push((v % 256) as u8);
        assert(out@ =~= old(out)@ + be_bytes(v as nat, n as nat));
    }
}

/// Appends the encoding of `v` to `out`.
pub fn push_uint(out: &mut Vec<u8>, v: u64)
    ensures
        final(out)@ == old(out)@ + uint_bytes(v as nat),
{
    if v < 0x80 {
        out.push(v as u8);
        assert(out@ =~= old(out)@ + uint_bytes(v as nat));
    } else {
        let w: u8 = if v < 0x100 {
            1
        } else if v < 0x1_0000 {
            2
        } else if v < 0x1_0000_0000 {
            4
        } else {
            8
        };
        let mark: u8 = if w == 1 {
            MARK_U8
        } else if w == 2 {
            MARK_U16
        } else if w == 4 {
            MARK_U32
        } else {
            MARK_U64
        };
        out.push(mark);
        push_be(out, v, w);
        assert(out@ =~= old(out)@ + uint_bytes(v as nat));
    }
}

/// The number spelled by the `n` bytes of `bytes` from `pos` on.
pub(crate) fn read_be(bytes: &Vec<u8>, pos: usize, n: usize) -> (v: u64)
    requires
        n <= 8,
        pos + n <= bytes.len(),
    ensures
        v as nat == be_value(bytes@.subrange(pos as int, pos + n)),
{
    let mut acc: u64 = 0;
    let mut i: usize = 0;
    while i < n
        invariant
            i <= n <= 8,
            pos + n <= bytes.len(),
            acc as nat == be_value(bytes@.subrange(pos as int, pos + i)),
        decreases n - i,
    {
        proof {
            let done = bytes@.subrange(pos as int, pos + i);
            let next = bytes@.subrange(pos as int, pos + i + 1);
            lemma_be_value_bound(done);
            lemma_pow256_values();
            reveal_with_fuel(pow256, 10);
            assert(pow256(i as nat) <= pow256(7));
            assert(next.drop_last() =~= done);
            assert(next.last() == bytes@[pos + i]);
        }
        acc = acc * 256 + bytes[pos + i] as u64;
        i = i + 1;
    }
    acc
}

/// Reads the encoded unsigned integer that starts at `pos`.
pub fn read_uint(bytes: &Vec<u8>, pos: usize) -> (r: Option<(u64, usize)>)
    ensures
        match r {
            Some((v, end)) => parse_uint(bytes@, pos as int) == Some((v as nat, end as int)),
            None => parse_uint(bytes@, pos as int) is None,
        },
{
    if pos >= bytes.len() {
        return None;
    }
    let m = bytes[pos];
    if m < 0x80 {
        return Some((m as u64, pos + 1));
    }
    let w: usize = if m == MARK_U8 {
        1
    } else if m == MARK_U16 {
        2
    } else if m == MARK_U32 {
        4
    } else if m == MARK_U64 {
        8
    } else {
        0
    };
    if w == 0 || bytes.len() - pos - 1 < w {
        return None;
    }
    let v = read_be(bytes, pos + 1, w);
    let shortest: usize = if v < 0x80 {
        0
    } else if v < 0x100 {
        1
    } else if v < 0x1_0000 {
        2
    } else if v < 0x1_0000_0000 {
        4
    } else {
        8
    };
    if shortest == w {
        Some((v, pos + 1 + w))
    } else {
        None
    }
}

/// The head of a bucket record and the name of its first field, `from`.
pub open spec fn key_from() -> Seq<u8> {
    seq![0x82u8, 0xa4u8, 0x66u8, 0x72u8, 0x6fu8, 0x6du8]
}

/// The name of a bucket record's second field, `until`.
pub open spec fn key_until() -> Seq<u8> {
    seq![0xa5u8, 0x75u8, 0x6eu8, 0x74u8, 0x69u8, 0x6cu8]
}

/// The head of a span record and the name of its first field, `secs`.
pub open spec fn key_secs() -> Seq<u8> {
    seq![0x82u8, 0xa4u8, 0x73u8, 0x65u8, 0x63u8, 0x73u8]
}

/// The name of a span record's second field, `nanos`.
pub open spec fn key_nanos() -> Seq<u8> {
    seq![0xa5u8, 0x6eu8, 0x61u8, 0x6eu8, 0x6fu8, 0x73u8]
}

/// The one encoding of a span of time.
pub open spec fn duration_bytes(d: Duration) -> Seq<u8> {
    key_secs() + uint_bytes(d.secs as nat) + key_nanos() + uint_bytes(d.nanos as nat)
}

/// The one encoding of a bucket.
pub open spec fn index_bytes(i: Index) -> Seq<u8> {
    key_from() + duration_bytes(i.from) + key_until() + duration_bytes(i.until)
}

/// The position behind `lit` where `lit` stands at `pos`.
pub open spec fn parse_lit(s: Seq<u8>, pos: int, lit: Seq<u8>) -> Option<int> {
    if 0 <= pos && pos + lit.len() <= s.len() && s.subrange(pos, pos + lit.len()) == lit {
        Some(pos + lit.len())
    } else {
        None
    }
}

/// Reads one encoded span that starts at `pos`.
pub open spec fn parse_duration(s: Seq<u8>, pos: int) -> Option<(Duration, int)> {
    match parse_lit(s, pos, key_secs()) {
        None => None,
        Some(p1) => match parse_uint(s, p1) {
            None => None,
            Some((secs, p2)) => match parse_lit(s, p2, key_nanos()) {
                None => None,
                Some(p3) => match parse_uint(s, p3) {
                    None => None,
                    Some((nanos, p4)) => if secs <= u64::MAX && nanos < NANOS_PER_SEC {
                        Some((Duration { secs: secs as u64, nanos: nanos as u32 }, p4))
                    } else {
                        None
                    },
                },
            },
        },
    }
}

/// Reads `s` as one encoded bucket and nothing else.
pub open spec fn parse_index(s: Seq<u8>) -> Option<Index> {
    match parse_lit(s, 0, key_from()) {
        None => None,
        Some(p1) => match parse_duration(s, p1) {
            None => None,
            Some((from, p2)) => match parse_lit(s, p2, key_until()) {
                None => None,
                Some(p3) => match parse_duration(s, p3) {
                    None => None,
                    Some((until, p4)) => if p4 == s.len() {
                        Some(Index { from, until })
                    } else {
                        None
                    },
                },
            },
        },
    }
}

pub proof fn lemma_duration_bytes_len(d: Duration)
    ensures
        duration_bytes(d).len() == 12 + uint_bytes(d.secs as nat).len() + uint_bytes(
            d.nanos as nat,
        ).len(),
        14 <= duration_bytes(d).len() <= 30,
{
    lemma_pow256_values();
    lemma_uint_bytes_len(d.secs as nat);
    lemma_uint_bytes_len(d.nanos as nat);
}

pub proof fn lemma_parse_of_duration_bytes(s: Seq<u8>, pos: int, d: Duration)
    requires
        d.wf(),
        0 <= pos,
        pos + duration_bytes(d).len() <= s.len(),
        s.subrange(pos, pos + duration_bytes(d).len()) == duration_bytes(d),
    ensures
        parse_duration(s, pos) == Some((d, pos + duration_bytes(d).len())),
{
    let piece = duration_bytes(d);
    let a = uint_bytes(d.secs as nat);
    let b = uint_bytes(d.nanos as nat);
    lemma_pow256_values();
    lemma_duration_bytes_len(d);
    let al = a.len() as int;
    let bl = b.len() as int;
    let p1 = pos + 6;
    let p2 = p1 + al;
    let p3 = p2 + 6;
    assert(s.subrange(pos, pos + 6) =~= piece.subrange(0, 6));
    assert(piece.subrange(0, 6) =~= key_secs());
    assert(s.subrange(p1, p2) =~= piece.subrange(6, 6 + al));
    assert(piece.subrange(6, 6 + al) =~= a);
    lemma_parse_of_uint_bytes(s, p1, d.secs as nat);
    assert(s.subrange(p2, p3) =~= piece.subrange(6 + al, 12 + al));
    assert(piece.subrange(6 + al, 12 + al) =~= key_nanos());
    assert(s.subrange(p3, p3 + bl) =~= piece.subrange(12 + al, 12 + al + bl));
    assert(piece.subrange(12 + al, 12 + al + bl) =~= b);
    lemma_parse_of_uint_bytes(s, p3, d.nanos as nat);
}

pub proof fn lemma_duration_bytes_of_parse(s: Seq<u8>, pos: int)
    requires
        parse_duration(s, pos) is Some,
    ensures
        ({
            let (d, end) = parse_duration(s, pos).unwrap();
            &&& d.wf()
            &&& 0 <= pos < end <= s.len()
            &&& s.subrange(pos, end) == duration_bytes(d)
        }),
{
    let (d, end) = parse_duration(s, pos).unwrap();
    let p1 = parse_lit(s, pos, key_secs()).unwrap();
    let (secs, p2) = parse_uint(s, p1).unwrap();
    let p3 = parse_lit(s, p2, key_nanos()).unwrap();
    lemma_uint_bytes_of_parse(s, p1);
    lemma_uint_bytes_of_parse(s, p3);
    assert(s.subrange(pos, end) =~= s.subrange(pos, p1) + s.subrange(p1, p2) + s.subrange(p2, p3)
        + s.subrange(p3, end));
}

pub proof fn lemma_index_bytes_len(i: Index)
    ensures
        index_bytes(i).len() == 12 + duration_bytes(i.from).len() + duration_bytes(i.until).len(),
        40 <= index_bytes(i).len() <= 72,
{
    lemma_duration_bytes_len(i.from);
    lemma_duration_bytes_len(i.until);
}

/// Decoding the encoding of a bucket gives the bucket back.
pub proof fn lemma_parse_of_index_bytes(i: Index)
    requires
        i.wf(),
    ensures
        parse_index(index_bytes(i)) == Some(i),
{
    let s = index_bytes(i);
    let a = duration_bytes(i.from);
    let b = duration_bytes(i.until);
    let al = a.len() as int;
    let bl = b.len() as int;
    lemma_index_bytes_len(i);
    assert(s.subrange(0, 6) =~= key_from());
    assert(s.subrange(6, 6 + al) =~= a);
    lemma_parse_of_duration_bytes(s, 6, i.from);
    assert(s.subrange(6 + al, 12 + al) =~= key_until());
    assert(s.subrange(12 + al, 12 + al + bl) =~= b);
    lemma_parse_of_duration_bytes(s, 12 + al, i.until);
}

/// Only the encoding of a bucket decodes to it.
pub proof fn lemma_index_bytes_of_parse(s: Seq<u8>)
    requires
        parse_index(s) is Some,
    ensures
        parse_index(s).unwrap().wf(),
        s == index_bytes(parse_index(s).unwrap()),
{
    let p1 = parse_lit(s, 0, key_from()).unwrap();
    let (from, p2) = parse_duration(s, p1).unwrap();
    let p3 = parse_lit(s, p2, key_until()).unwrap();
    let (until, p4) = parse_duration(s, p3).unwrap();
    lemma_duration_bytes_of_parse(s, p1);
    lemma_duration_bytes_of_parse(s, p3);
    assert(s =~= s.subrange(0, p1) + s.subrange(p1, p2) + s.subrange(p2, p3) + s.subrange(
        p3,
        p4,
    ));
}

/// Appends the six bytes `key` to `out`.
fn push_key(out: &mut Vec<u8>, key: [u8; 6])
    ensures
        final(out)@ == old(out)@ + key@,
{
    let mut i: usize = 0;
    while i < 6
        invariant
            i <= 6,
            out@ == old(out)@ + key@.subrange(0, i as int),
        decreases 6 - i,
    {
        out.push(key[i]);
        i = i + 1;
        assert(out@ =~= old(out)@ + key@.subrange(0, i as int));
    }
    assert(key@.subrange(0, 6) =~= key@);
}

/// The position behind `key` where `key` stands at `pos`.
fn read_key(bytes: &Vec<u8>, pos: usize, key: [u8; 6]) -> (r: Option<usize>)
    ensures
        r is Some <==> parse_lit(bytes@, pos as int, key@) is Some,
        r is Some ==> r.unwrap() == parse_lit(bytes@, pos as int, key@).unwrap(),
{
    if bytes.len() < 6 || pos > bytes.len() - 6 {
        return None;
    }
    let mut i: usize = 0;
    while i < 6
        invariant
            i <= 6,
            pos + 6 <= bytes.len(),
            key@.len() == 6,
            forall|k: int| 0 <= k < i ==> bytes@[pos + k] == key@[k],
        decreases 6 - i,
    {
        if bytes[pos + i] != key[i] {
            assert(bytes@.subrange(pos as int, pos + 6)[i as int] != key@[i as int]);
            return None;
        }
        i = i + 1;
    }
    assert(bytes@.subrange(pos as int, pos + 6) =~= key@);
    Some(pos + 6)
}

fn push_duration(out: &mut Vec<u8>, d: &Duration)
    ensures
        final(out)@ == old(out)@ + duration_bytes(*d),
{
    let secs_key: [u8; 6] = [0x82, 0xa4, 0x73, 0x65, 0x63, 0x73];
    let nanos_key: [u8; 6] = [0xa5, 0x6e, 0x61, 0x6e, 0x6f, 0x73];
    assert(secs_key@ =~= key_secs());
    assert(nanos_key@ =~= key_nanos());
    push_key(out, secs_key);
    push_uint(out, d.secs);
    push_key(out, nanos_key);
    push_uint(out, d.nanos as u64);
    assert(out@ =~= old(out)@ + duration_bytes(*d));
}

fn read_duration(bytes: &Vec<u8>, pos: usize) -> (r: Option<(Duration, usize)>)
    ensures
        match r {
            Some((d, end)) => parse_duration(bytes@, pos as int) == Some((d, end as int)),
            None => parse_duration(bytes@, pos as int) is None,
        },
{
    let secs_key: [u8; 6] = [0x82, 0xa4, 0x73, 0x65, 0x63, 0x73];
    let nanos_key: [u8; 6] = [0xa5, 0x6e, 0x61, 0x6e, 0x6f, 0x73];
    assert(secs_key@ =~= key_secs());
    assert(nanos_key@ =~= key_nanos());
    let p1 = match read_key(bytes, pos, secs_key) {
        Some(p) => p,
        None => { return None; },
    };
    let (secs, p2) = match read_uint(bytes, p1) {
        Some(x) => x,
        None => { return None; },
    };
    let p3 = match read_key(bytes, p2, nanos_key) {
        Some(p) => p,
        None => { return None; },
    };
    let (nanos, p4) = match read_uint(bytes, p3) {
        Some(x) => x,
        None => { return None; },
    };
    if nanos < NANOS_PER_SEC as u64 {
        Some((Duration { secs, nanos: nanos as u32 }, p4))
    } else {
        None
    }
}

/// The encoding of the bucket `i`.
pub fn encode_index(i: &Index) -> (out: Vec<u8>)
    ensures
        out@ == index_bytes(*i),
{
    let from_key: [u8; 6] = [0x82, 0xa4, 0x66, 0x72, 0x6f, 0x6d];
    let until_key: [u8; 6] = [0xa5, 0x75, 0x6e, 0x74, 0x69, 0x6c];
    assert(from_key@ =~= key_from());
    assert(until_key@ =~= key_until());
    let mut out: Vec<u8> = Vec::new();
    push_key(&mut out, from_key);
    push_duration(&mut out, &i.from);
    push_key(&mut out, until_key);
    push_duration(&mut out, &i.until);
    assert(out@ =~= index_bytes(*i));
    out
}

/// The bucket that `bytes` encodes, if they encode one. Only the one encoding
/// that `encode_index` writes is read.
pub fn decode_index(bytes: &Vec<u8>) -> (r: Option<Index>)
    ensures
        r == parse_index(bytes@),
        r is Some ==> r.unwrap().wf() && bytes@ == index_bytes(r.unwrap()),
        r is None ==> forall|i: Index| i.wf() ==> bytes@ != #[trigger] index_bytes(i),
{
    let from_key: [u8; 6] = [0x82, 0xa4, 0x66, 0x72, 0x6f, 0x6d];
    let until_key: [u8; 6] = [0xa5, 0x75, 0x6e, 0x74, 0x69, 0x6c];
    assert(from_key@ =~= key_from());
    assert(until_key@ =~= key_until());
    proof {
        if parse_index(bytes@) is Some {
            lemma_index_bytes_of_parse(bytes@);
        } else {
            assert forall|i: Index| i.wf() implies bytes@ != #[trigger] index_bytes(i) by {
                lemma_parse_of_index_bytes(i);
            }
        }
    }
    let p1 = match read_key(bytes, 0, from_key) {
        Some(p) => p,
        None => { return None; },
    };
    let (from, p2) = match read_duration(bytes, p1) {
        Some(x) => x,
        None => { return None; },
    };
    let p3 = match read_key(bytes, p2, until_key) {
        Some(p) => p,
        None => { return None; },
    };
    let (until, p4) = match read_duration(bytes, p3) {
        Some(x) => x,
        None => { return None; },
    };
    if p4 == bytes.len() {
        Some(Index { from, until })
    } else {
        None
    }
}

/// The encoding of the level value `v`.
pub fn encode_u32(v: u32) -> (out: Vec<u8>)
    ensures
        out@ == uint_bytes(v as nat),
{
    let mut out: Vec<u8> = Vec::new();
    push_uint(&mut out, v as u64);
    assert(out@ =~= uint_bytes(v as nat));
    out
}

/// Reads `s` as one encoded 32-bit unsigned integer and nothing else.
pub open spec fn parse_u32(s: Seq<u8>) -> Option<u32> {
    match parse_uint(s, 0) {
        Some((v, end)) => if end == s.len() && v <= u32::MAX {
            Some(v as u32)
        } else {
            None
        },
        None => None,
    }
}

/// Decoding the encoding of a level value gives the value back.
pub proof fn lemma_parse_of_u32_bytes(v: u32)
    ensures
        parse_u32(uint_bytes(v as nat)) == Some(v),
{
    let s = uint_bytes(v as nat);
    lemma_pow256_values();
    lemma_uint_bytes_len(v as nat);
    assert(s.subrange(0, s.len() as int) =~= s);
    lemma_parse_of_uint_bytes(s, 0, v as nat);
}

/// Decoding is strict: bytes are a level value exactly when they are the one
/// encoding of that value, and a bucket exactly when they are the one encoding
/// of that bucket. No other spelling is read.
pub proof fn lemma_decoding_is_strict(s: Seq<u8>, v: u32, i: Index)
    ensures
        parse_u32(s) == Some(v) <==> s == uint_bytes(v as nat),
        parse_index(s) == Some(i) <==> i.wf() && s == index_bytes(i),
{
    lemma_parse_of_u32_bytes(v);
    if parse_u32(s) is Some {
        lemma_u32_bytes_of_parse(s);
    }
    if i.wf() {
        lemma_parse_of_index_bytes(i);
    }
    if parse_index(s) is Some {
        lemma_index_bytes_of_parse(s);
    }
}

/// Only the encoding of a level value decodes to it.
pub proof fn lemma_u32_bytes_of_parse(s: Seq<u8>)
    requires
        parse_u32(s) is Some,
    ensures
        s == uint_bytes(parse_u32(s).unwrap() as nat),
{
    lemma_uint_bytes_of_parse(s, 0);
    assert(s.subrange(0, s.len() as int) =~= s);
}

/// The level value that `bytes` encode, if they encode one. Only the shortest
/// form is read: a longer spelling of a number is no level value.
pub fn decode_u32(bytes: &Vec<u8>) -> (r: Option<u32>)
    ensures
        r == parse_u32(bytes@),
        r is Some ==> bytes@ == uint_bytes(r.unwrap() as nat),
        r is None ==> forall|v: u32| bytes@ != #[trigger] uint_bytes(v as nat),
{
    proof {
        if parse_u32(bytes@) is Some {
            lemma_u32_bytes_of_parse(bytes@);
        } else {
            assert forall|v: u32| bytes@ != #[trigger] uint_bytes(v as nat) by {
                lemma_parse_of_u32_bytes(v);
            }
        }
    }
    match read_uint(bytes, 0) {
        Some((v, end)) => {
            if end == bytes.len() && v <= u32::MAX as u64 {
                Some(v as u32)
            } else {
                None
            }
        },
        None => None,
    }
}

} // verus!
