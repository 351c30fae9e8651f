//! Byte encoding of the index name, the first component of every path: the
//! length of the name's UTF-8 bytes in its shortest form, then the bytes.

use crate::codec::{be_bytes, be_value, lemma_be_bytes_len, lemma_be_value_of_bytes,
    lemma_pow256_values, pow256, push_be, read_be};
use vstd::prelude::*;
use vstd::utf8::{decode_utf8, valid_utf8};

verus! {

pub const MARK_TEXT_SHORT: u8 = 0xa0;

pub const MARK_TEXT_8: u8 = 0xd9;

pub const MARK_TEXT_16: u8 = 0xda;

pub const MARK_TEXT_32: u8 = 0xdb;

/// How many bytes the shortest form of the length `len` takes behind its marker.
pub open spec fn text_width(len: nat) -> nat {
    if len < 32 {
        0
    } else if len < 0x100 {
        1
    } else if len < 0x1_0000 {
        2
    } else {
        4
    }
}

/// What stands in front of `len` bytes of text.
pub open spec fn text_header(len: nat) -> Seq<u8> {
    if len < 32 {
        seq![(MARK_TEXT_SHORT + len) as u8]
    } else if len < 0x100 {
        seq![MARK_TEXT_8] + be_bytes(len, 1)
    } else if len < 0x1_0000 {
        seq![MARK_TEXT_16] + be_bytes(len, 2)
    } else {
        seq![MARK_TEXT_32] + be_bytes(len, 4)
    }
}

/// The one encoding of the text whose UTF-8 bytes are `text`.
pub open spec fn text_bytes(text: Seq<u8>) -> Seq<u8> {
    text_header(text.len()) + text
}

/// The text bytes that `s` frames, if `s` is a header in shortest form followed
/// by exactly as many bytes as it announces.
pub open spec fn parse_text(s: Seq<u8>) -> Option<Seq<u8>> {
    if s.len() == 0 {
        None
    } else if MARK_TEXT_SHORT <= s[0] < MARK_TEXT_SHORT + 32 {
        if s.len() == 1 + (s[0] - MARK_TEXT_SHORT) {
            Some(s.subrange(1, s.len() as int))
        } else {
            None
        }
    } else {
        let w: nat = if s[0] == MARK_TEXT_8 {
            1
        } else if s[0] == MARK_TEXT_16 {
            2
        } else if s[0] == MARK_TEXT_32 {
            4
        } else {
            0
        };
        if w == 0 || s.len() < 1 + w {
            None
        } else {
            let len = be_value(s.subrange(1, 1 + w as int));
            if len >= 32 && text_width(len) == w && s.len() == 1 + w + len {
                Some(s.subrange(1 + w as int, s.len() as int))
            } else {
                None
            }
        }
    }
}

pub proof fn lemma_text_header_len(len: nat)
    ensures
        text_header(len).len() == 1 + text_width(len),
{
    lemma_be_bytes_len(len, text_width(len));
}

/// Unframing a framed text gives the text back.
pub proof fn lemma_parse_of_text_bytes(text: Seq<u8>)
    requires
        text.len() < pow256(4),
    ensures
        parse_text(text_bytes(text)) == Some(text),
{
    let s = text_bytes(text);
    let len = text.len();
    let w = text_width(len);
    lemma_pow256_values();
    lemma_text_header_len(len);
    assert(s[0] == text_header(len)[0]);
    if len < 32 {
        assert(s.subrange(1, s.len() as int) =~= text);
    } else {
        assert(s.subrange(1, 1 + w as int) =~= be_bytes(len, w));
        lemma_be_value_of_bytes(len, w);
        assert(s.subrange(1 + w as int, s.len() as int) =~= text);
    }
}

/// Calls `String::from_utf8`.
///
/// Believed of it, as std documents: it succeeds exactly on well-formed UTF-8,
/// and the string it gives holds the characters those bytes spell.
#[verifier::external_body]
pub(crate) fn string_from_utf8(bytes: Vec<u8>) -> (r: Option<String>)
    ensures
        r is Some <==> valid_utf8(bytes@),
        r is Some ==> r.unwrap()@ == decode_utf8(bytes@),
{
    String::from_utf8(bytes).ok()
}

/// The framing of the text `text`; `None` where its length does not fit the
/// widest header.
pub fn encode_text(text: &Vec<u8>) -> (r: Option<Vec<u8>>)
    ensures
        r is Some <==> text@.len() < pow256(4),
        r is Some ==> r.unwrap()@ == text_bytes(text@),
{
    proof {
        lemma_pow256_values();
    }
    let len = text.len();
    if len > 0xffff_ffff {
        return None;
    }
    let mut out: Vec<u8> = Vec::new();
    if len < 32 {
        out.push(MARK_TEXT_SHORT + len as u8);
    } else if len < 0x100 {
        out.push(MARK_TEXT_8);
        push_be(&mut out, len as u64, 1);
    } else if len < 0x1_0000 {
        out.push(MARK_TEXT_16);
        push_be(&mut out, len as u64, 2);
    } else {
        out.push(MARK_TEXT_32);
        push_be(&mut out, len as u64, 4);
    }
    assert(out@ =~= text_header(len as nat));
    let mut i: usize = 0;
    while i < len
        invariant
            i <= len == text.len(),
            out@ == text_header(len as nat) + text@.subrange(0, i as int),
        decreases len - i,
    {
        out.push(text[i]);
        i = i + 1;
        assert(out@ =~= text_header(len as nat) + text@.subrange(0, i as int));
    }
    assert(text@.subrange(0, len as int) =~= text@);
    Some(out)
}

/// The text that `bytes` frame, if they frame one.
pub fn decode_text(bytes: &Vec<u8>) -> (r: Option<Vec<u8>>)
    ensures
        match r {
            Some(text) => parse_text(bytes@) == Some(text@),
            None => parse_text(bytes@) is None,
        },
{
    if bytes.len() == 0 {
        return None;
    }
    let m = bytes[0];
    let start: usize;
    if m >= MARK_TEXT_SHORT && m < MARK_TEXT_SHORT + 32 {
        if bytes.len() - 1 != (m - MARK_TEXT_SHORT) as usize {
            return None;
        }
        start = 1;
    } else {
        let w: usize = if m == MARK_TEXT_8 {
            1
        } else if m == MARK_TEXT_16 {
            2
        } else if m == MARK_TEXT_32 {
            4
        } else {
            0
        };
        if w == 0 || bytes.len() - 1 < w {
            return None;
        }
        let len = read_be(bytes, 1, w);
        let shortest: usize = if len < 0x100 {
            1
        } else if len < 0x1_0000 {
            2
        } else {
            4
        };
        if len < 32 || shortest != w || (bytes.len() - 1 - w) as u64 != len {
            return None;
        }
        start = 1 + w;
    }
    let mut out: Vec<u8> = Vec::new();
    let mut i: usize = start;
    while i < bytes.len()
        invariant
            start <= i <= bytes.len(),
            out@ == bytes@.subrange(start as int, i as int),
        decreases bytes.len() - i,
    {
        out.push(bytes[i]);
        i = i + 1;
        assert(out@ =~= bytes@.subrange(start as int, i as int));
    }
    Some(out)
}

} // verus!
