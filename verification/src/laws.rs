//! Laws relating the two directions of the codec.

use vstd::prelude::*;

use crate::decode::multi_byte_len;
use crate::decode::spec_decode;
use crate::decode::spec_decode_char_at;
use crate::decode::spec_decode_from;
use crate::decode::DecodeUtf8ErrorKind;
use crate::encode::continuation_byte;
use crate::encode::spec_encode;
use crate::encode::spec_encode_scalar;
use crate::encode::SCALAR_LIMIT;

verus! {

/// The serialization of one in-range scalar, placed at the head of any byte
/// sequence, decodes back to that scalar and consumes exactly its own bytes.
proof fn lemma_scalar_round_trip(v: u32, rest: Seq<u8>)
    requires
        v < SCALAR_LIMIT,
    ensures
        spec_decode_char_at(spec_encode_scalar(v) + rest, 0) == Ok::<
            (u32, int),
            (int, DecodeUtf8ErrorKind),
        >((v, spec_encode_scalar(v).len() as int)),
{
    let s = spec_encode_scalar(v) + rest;
    if v < 0x80 {
        assert(s[0] == v as u8);
        assert((v as u8) < 0x80 && (v as u8) as u32 == v) by (bit_vector)
            requires
                v < 0x80,
        ;
    } else if v < 0x800 {
        let b0 = ((v >> 6) as u8) | 0xC0;
        let b1 = continuation_byte(v);
        assert(s[0] == b0 && s[1] == b1);
        assert(0xC0 <= b0 < 0xE0 && 0x80 <= b1 < 0xC0 && ((((b0 & 0x1F) as u32) << 6) | (((
        b1 & 0x3F) as u8) as u32)) == v) by (bit_vector)
            requires
                b0 == ((v >> 6) as u8) | 0xC0 && b1 == ((v & 0x3F) as u8) | 0x80 && 0x80 <= v
                    < 0x800,
        ;
    } else if v < 0x10000 {
        let b0 = ((v >> 12) as u8) | 0xE0;
        let b1 = continuation_byte(v >> 6);
        let b2 = continuation_byte(v);
        assert(s[0] == b0 && s[1] == b1 && s[2] == b2);
        assert(0xE0 <= b0 < 0xF0 && 0x80 <= b1 < 0xC0 && 0x80 <= b2 < 0xC0 && ((((b0
            & 0x0F) as u32) << 12) | ((((b1 & 0x3F) as u8) as u32) << 6) | (((b2
            & 0x3F) as u8) as u32)) == v) by (bit_vector)
            requires
                b0 == ((v >> 12) as u8) | 0xE0 && b1 == (((v >> 6) & 0x3F) as u8) | 0x80 && b2 == ((
                v & 0x3F) as u8) | 0x80 && 0x800 <= v < 0x10000,
        ;
    } else {
        let b0 = ((v >> 18) as u8) | 0xF0;
        let b1 = continuation_byte(v >> 12);
        let b2 = continuation_byte(v >> 6);
        let b3 = continuation_byte(v);
        assert(s[0] == b0 && s[1] == b1 && s[2] == b2 && s[3] == b3);
        assert(0xF0 <= b0 < 0xF8 && 0x80 <= b1 < 0xC0 && 0x80 <= b2 < 0xC0 && 0x80 <= b3 < 0xC0 && (
        (((b0 & 0x07) as u32) << 18) | ((((b1 & 0x3F) as u8) as u32) << 12) | ((((b2
            & 0x3F) as u8) as u32) << 6) | (((b3 & 0x3F) as u8) as u32)) == v) by (bit_vector)
            requires
                b0 == ((v >> 18) as u8) | 0xF0 && b1 == (((v >> 12) & 0x3F) as u8) | 0x80 && b2 == ((
                (v >> 6) & 0x3F) as u8) | 0x80 && b3 == ((v & 0x3F) as u8) | 0x80 && 0x10000 <= v
                    < 0x200000,
        ;
    }
}

/// Decoding within a concatenation, from a position past the first part, reads
/// only the second part; fault indices shift by the first part's length.
proof fn lemma_decode_from_shift(a: Seq<u8>, t: Seq<u8>, j: int)
    requires
        0 <= j <= t.len(),
    ensures
        spec_decode_from(a + t, a.len() + j) == (match spec_decode_from(t, j) {
            Ok(scalars) => Ok::<Seq<u32>, (int, DecodeUtf8ErrorKind)>(scalars),
            Err((idx, kind)) => Err::<Seq<u32>, (int, DecodeUtf8ErrorKind)>(
                (a.len() + idx, kind),
            ),
        }),
    decreases t.len() - j,
{
    if j < t.len() {
        match spec_decode_char_at(t, j) {
            Ok((v, len)) => {
                lemma_decode_from_shift(a, t, j + len);
            },
            Err(_) => {},
        }
    }
}

/// Round trip: decoding the serialization of any sequence of in-range scalar
/// values yields that sequence back, with no fault.
pub proof fn lemma_round_trip(s: Seq<u32>)
    requires
        forall|j: int| 0 <= j < s.len() ==> s[j] < SCALAR_LIMIT,
    ensures
        spec_decode(spec_encode(s)) == Ok::<Seq<u32>, (int, DecodeUtf8ErrorKind)>(s),
    decreases s.len(),
{
    if s.len() == 0 {
        assert(s =~= Seq::<u32>::empty());
    } else {
        let head = spec_encode_scalar(s[0]);
        let tail_bytes = spec_encode(s.skip(1));
        lemma_scalar_round_trip(s[0], tail_bytes);
        lemma_round_trip(s.skip(1));
        lemma_decode_from_shift(head, tail_bytes, 0);
        assert(seq![s[0]] + s.skip(1) =~= s);
    }
}

/// Decoding from any position yields in-range scalars, no more of them than
/// there are bytes left.
proof fn lemma_decode_from_in_range(s: Seq<u8>, i: int)
    requires
        0 <= i <= s.len(),
    ensures
        (match spec_decode_from(s, i) {
            Ok(scalars) => scalars.len() <= s.len() - i && forall|j: int|
                0 <= j < scalars.len() ==> #[trigger] scalars[j] < SCALAR_LIMIT,
            Err(_) => true,
        }),
    decreases s.len() - i,
{
    if i < s.len() {
        match spec_decode_char_at(s, i) {
            Ok((v, len)) => {
                let b0 = s[i];
                if b0 >= 0x80 {
                    let b1 = s[i + 1];
                    if len == 2 {
                        assert(((((b0 & 0x1F) as u32) << 6) | ((b1 & 0x3F) as u32))
                            < 0x200000) by (bit_vector);
                    } else if len == 3 {
                        let b2 = s[i + 2];
                        assert(((((b0 & 0x0F) as u32) << 12) | (((b1 & 0x3F) as u32) << 6) | ((b2
                            & 0x3F) as u32)) < 0x200000) by (bit_vector);
                    } else {
                        let b2 = s[i + 2];
                        let b3 = s[i + 3];
                        assert(((((b0 & 0x07) as u32) << 18) | (((b1 & 0x3F) as u32) << 12) | (((b2
                            & 0x3F) as u32) << 6) | ((b3 & 0x3F) as u32)) < 0x200000) by (bit_vector);
                    }
                }
                lemma_decode_from_in_range(s, i + len);
            },
            Err(_) => {},
        }
    }
}

/// A successful decode yields only scalars below [`SCALAR_LIMIT`], and no more
/// of them than there were input bytes.
pub proof fn lemma_decode_in_range(s: Seq<u8>)
    ensures
        (match spec_decode(s) {
            Ok(scalars) => scalars.len() <= s.len() && forall|j: int|
                0 <= j < scalars.len() ==> #[trigger] scalars[j] < SCALAR_LIMIT,
            Err(_) => true,
        }),
{
    lemma_decode_from_in_range(s, 0);
}

/// Truncation: a three-byte lead byte with zero or one trailing bytes
/// available decodes to `NotEnoughBytes` at the lead byte's own index.
pub proof fn lemma_three_byte_lead_truncated(s: Seq<u8>)
    requires
        1 <= s.len() <= 2,
        0xE0 <= s[0] < 0xF0,
    ensures
        spec_decode(s) == Err::<Seq<u32>, (int, DecodeUtf8ErrorKind)>(
            (0, DecodeUtf8ErrorKind::NotEnoughBytes),
        ),
{
    assert(multi_byte_len(s[0]) == 3);
}

} // verus!
