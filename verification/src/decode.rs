//! The decoder: UTF-8 bytes to Unicode scalar values.

use vstd::prelude::*;

verus! {

/// How a decode attempt went wrong, at the byte where it did.
#[derive(Debug, Clone, PartialEq, Eq, Structural)]
pub enum DecodeUtf8ErrorKind {
    /// A continuation byte (`10xxxxxx`) stood where a lead byte was expected.
    MissingStartByte,
    /// A byte of the form `11111xxx`, which no UTF-8 lead byte has.
    InvalidStartByte,
    /// Fewer bytes remained than the lead byte announced.
    NotEnoughBytes,
    /// A byte inside a multi-byte sequence was not of the form `10xxxxxx`.
    InvalidTrailingByte,
}

/// A decode failure: the input it points into, the zero-based index of the
/// byte that triggered it, and its classification.
#[derive(Debug, Clone)]
pub struct DecodeUtf8Error<'a> {
    pub src: &'a [u8],
    pub index: usize,
    pub kind: DecodeUtf8ErrorKind,
}

/// A byte of the form `10xxxxxx`.
pub open spec fn is_continuation(b: u8) -> bool {
    0x80 <= b < 0xC0
}

/// The payload bits of a continuation byte.
pub open spec fn continuation_payload(b: u8) -> u32 {
    (b & 0x3F) as u32
}

/// The length a multi-byte lead byte announces (defined for `0xC0..0xF8`).
pub open spec fn multi_byte_len(b: u8) -> int
    recommends
        0xC0 <= b < 0xF8,
{
    if b < 0xE0 {
        2
    } else if b < 0xF0 {
        3
    } else {
        4
    }
}

/// The scalar carried by a well-formed multi-byte sequence of `len` bytes
/// starting at `i`: the lead byte's payload bits, then six payload bits from
/// each continuation byte, most significant first.
pub open spec fn spec_multi_byte_value(s: Seq<u8>, i: int, len: int) -> u32
    recommends
        0 <= i,
        2 <= len <= 4,
        i + len <= s.len(),
{
    if len == 2 {
        (((s[i] & 0x1F) as u32) << 6) | continuation_payload(s[i + 1])
    } else if len == 3 {
        (((s[i] & 0x0F) as u32) << 12) | (continuation_payload(s[i + 1]) << 6)
            | continuation_payload(s[i + 2])
    } else {
        (((s[i] & 0x07) as u32) << 18) | (continuation_payload(s[i + 1]) << 12)
            | (continuation_payload(s[i + 2]) << 6) | continuation_payload(s[i + 3])
    }
}

/// One step of decoding at position `i`: the scalar and the number of bytes it
/// took, or the absolute index of the offending byte and the fault kind.
pub open spec fn spec_decode_char_at(s: Seq<u8>, i: int) -> Result<
    (u32, int),
    (int, DecodeUtf8ErrorKind),
>
    recommends
        0 <= i < s.len(),
{
    let b0 = s[i];
    if b0 < 0x80 {
        Ok((b0 as u32, 1))
    } else if b0 < 0xC0 {
        Err((i, DecodeUtf8ErrorKind::MissingStartByte))
    } else if b0 >= 0xF8 {
        Err((i, DecodeUtf8ErrorKind::InvalidStartByte))
    } else {
        let len = multi_byte_len(b0);
        if s.len() - i < len {
            Err((i, DecodeUtf8ErrorKind::NotEnoughBytes))
        } else if !is_continuation(s[i + 1]) {
            Err((i + 1, DecodeUtf8ErrorKind::InvalidTrailingByte))
        } else if len >= 3 && !is_continuation(s[i + 2]) {
            Err((i + 2, DecodeUtf8ErrorKind::InvalidTrailingByte))
        } else if len >= 4 && !is_continuation(s[i + 3]) {
            Err((i + 3, DecodeUtf8ErrorKind::InvalidTrailingByte))
        } else {
            Ok((spec_multi_byte_value(s, i, len), len))
        }
    }
}

/// Decoding from position `i` to the end of `s`: the scalars in order, or the
/// first fault with its absolute index.
pub open spec fn spec_decode_from(s: Seq<u8>, i: int) -> Result<
    Seq<u32>,
    (int, DecodeUtf8ErrorKind),
>
    recommends
        0 <= i <= s.len(),
    decreases s.len() - i,
{
    if i >= s.len() {
        Ok(Seq::empty())
    } else {
        match spec_decode_char_at(s, i) {
            Ok((v, len)) => match spec_decode_from(s, i + len) {
                Ok(rest) => Ok(seq![v] + rest),
                Err(e) => Err(e),
            },
            Err(e) => Err(e),
        }
    }
}

/// Decoding a whole byte sequence.
pub open spec fn spec_decode(s: Seq<u8>) -> Result<Seq<u32>, (int, DecodeUtf8ErrorKind)> {
    spec_decode_from(s, 0)
}

/// Reads the multi-byte sequence of `len` bytes whose lead byte stands at
/// `start`, checking each continuation byte and reassembling the payload bits.
/// Faults carry the absolute index of the offending byte.
fn decode_multi_bytes(src: &[u8], start: usize, len: usize) -> (r: Result<
    u32,
    (usize, DecodeUtf8ErrorKind),
>)
    requires
        start < src@.len(),
        0xC0 <= src@[start as int] < 0xF8,
        len as int == multi_byte_len(src@[start as int]),
    ensures
        (match r {
            Ok(v) => start + len <= src@.len() && spec_decode_char_at(src@, start as int)
                == Ok::<(u32, int), (int, DecodeUtf8ErrorKind)>((v, len as int)),
            Err((idx, kind)) => start <= idx < src@.len() && spec_decode_char_at(
                src@,
                start as int,
            ) == Err::<(u32, int), (int, DecodeUtf8ErrorKind)>((idx as int, kind)),
        }),
{
    if src.len() - start < len {
        return Err((start, DecodeUtf8ErrorKind::NotEnoughBytes));
    }
    let mask: u8 = if len == 2 {
        0x1F
    } else if len == 3 {
        0x0F
    } else {
        0x07
    };
    let mut k: usize = 1;
    while k < len
        invariant
            1 <= k <= len,
            2 <= len <= 4,
            start + len <= src@.len(),
            src@.len() <= usize::MAX,
            0xC0 <= src@[start as int] < 0xF8,
            len as int == multi_byte_len(src@[start as int]),
            forall|j: int| 1 <= j < k ==> is_continuation(#[trigger] src@[start + j]),
        decreases len - k,
    {
        let byte = src[start + k];
        if byte < 0x80 || byte >= 0xC0 {
            return Err((start + k, DecodeUtf8ErrorKind::InvalidTrailingByte));
        }
        k = k + 1;
    }
    let lead_payload: u32 = (src[start] & mask) as u32;
    let second: u32 = (src[start + 1] & 0x3F) as u32;
    if len == 2 {
        Ok((lead_payload << 6) | second)
    } else if len == 3 {
        let third: u32 = (src[start + 2] & 0x3F) as u32;
        Ok((lead_payload << 12) | (second << 6) | third)
    } else {
        let third: u32 = (src[start + 2] & 0x3F) as u32;
        let fourth: u32 = (src[start + 3] & 0x3F) as u32;
        Ok((lead_payload << 18) | (second << 12) | (third << 6) | fourth)
    }
}

/// Decodes the one scalar whose first byte stands at `start`, returning it
/// with the number of bytes it took, or the fault at its absolute index.
fn decode_char(src: &[u8], start: usize) -> (r: Result<
    (u32, usize),
    (usize, DecodeUtf8ErrorKind),
>)
    requires
        start < src@.len(),
    ensures
        (match r {
            Ok((v, len)) => 1 <= len && start + len <= src@.len() && spec_decode_char_at(
                src@,
                start as int,
            ) == Ok::<(u32, int), (int, DecodeUtf8ErrorKind)>((v, len as int)),
            Err((idx, kind)) => start <= idx < src@.len() && spec_decode_char_at(
                src@,
                start as int,
            ) == Err::<(u32, int), (int, DecodeUtf8ErrorKind)>((idx as int, kind)),
        }),
{
    let start_byte = src[start];
    if start_byte < 0x80 {
        Ok((start_byte as u32, 1))
    } else if start_byte < 0xC0 {
        Err((start, DecodeUtf8ErrorKind::MissingStartByte))
    } else if start_byte < 0xE0 {
        match decode_multi_bytes(src, start, 2) {
            Ok(v) => Ok((v, 2)),
            Err(e) => Err(e),
        }
    } else if start_byte < 0xF0 {
        match decode_multi_bytes(src, start, 3) {
            Ok(v) => Ok((v, 3)),
            Err(e) => Err(e),
        }
    } else if start_byte < 0xF8 {
        match decode_multi_bytes(src, start, 4) {
            Ok(v) => Ok((v, 4)),
            Err(e) => Err(e),
        }
    } else {
        Err((start, DecodeUtf8ErrorKind::InvalidStartByte))
    }
}

/// Decodes a UTF-8 byte sequence into its scalar values.
///
/// Succeeds exactly when the whole input is structurally well-formed UTF-8,
/// with the scalars in order; otherwise fails at the first offending byte,
/// classified as [`spec_decode`] says.
pub fn decode_utf8<'a>(src: &'a [u8]) -> (r: Result<Vec<u32>, DecodeUtf8Error<'a>>)
    ensures
        (match r {
            Ok(scalars) => spec_decode(src@) == Ok::<Seq<u32>, (int, DecodeUtf8ErrorKind)>(
                scalars@,
            ),
            Err(e) => {
                &&& e.src@ == src@
                &&& e.index < src@.len()
                &&& spec_decode(src@) == Err::<Seq<u32>, (int, DecodeUtf8ErrorKind)>(
                    (e.index as int, e.kind),
                )
            },
        }),
{
    let mut result: Vec<u32> = Vec::new();
    let mut index: usize = 0;
    proof {
        let d = spec_decode_from(src@, 0);
        if d is Ok {
            assert(Seq::<u32>::empty() + d->Ok_0 =~= d->Ok_0);
        }
    }
    while index < src.len()
        invariant
            index <= src@.len(),
            spec_decode(src@) == (match spec_decode_from(src@, index as int) {
                Ok(rest) => Ok::<Seq<u32>, (int, DecodeUtf8ErrorKind)>(result@ + rest),
                Err(e) => Err::<Seq<u32>, (int, DecodeUtf8ErrorKind)>(e),
            }),
        decreases src@.len() - index,
    {
        let ghost prev = result@;
        let ghost i0 = index as int;
        match decode_char(src, index) {
            Ok((v, len)) => {
                result.push(v);
                index = index + len;
                proof {
                    let d = spec_decode_from(src@, i0 + len as int);
                    if d is Ok {
                        assert(prev + (seq![v] + d->Ok_0) =~= prev.push(v) + d->Ok_0);
                    }
                }
            },
            Err((idx, kind)) => {
                return Err(DecodeUtf8Error { src, index: idx, kind });
            },
        }
    }
    proof {
        assert(result@ + Seq::<u32>::empty() =~= result@);
    }
    Ok(result)
}

} // verus!
