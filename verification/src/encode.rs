//! The encoder: Unicode scalar values to UTF-8 bytes.

use vstd::prelude::*;

verus! {

/// Lowest scalar value the four-byte form cannot carry: `2^21`. Every value
/// below it encodes; every value at or above it is rejected.
pub const SCALAR_LIMIT: u32 = 0x20_0000;

/// A continuation byte: the low six bits of `v` behind the `10xxxxxx` marker.
pub open spec fn continuation_byte(v: u32) -> u8 {
    ((v & 0x3F) as u8) | 0x80
}

/// The UTF-8 serialization of one scalar value below [`SCALAR_LIMIT`]: one to
/// four bytes selected by range, most significant payload bits first.
pub open spec fn spec_encode_scalar(v: u32) -> Seq<u8>
    recommends
        v < SCALAR_LIMIT,
{
    if v < 0x80 {
        seq![v as u8]
    } else if v < 0x800 {
        seq![((v >> 6) as u8) | 0xC0, continuation_byte(v)]
    } else if v < 0x10000 {
        seq![((v >> 12) as u8) | 0xE0, continuation_byte(v >> 6), continuation_byte(v)]
    } else {
        seq![
            ((v >> 18) as u8) | 0xF0,
            continuation_byte(v >> 12),
            continuation_byte(v >> 6),
            continuation_byte(v),
        ]
    }
}

/// The concatenated UTF-8 serialization of a whole scalar sequence.
pub open spec fn spec_encode(s: Seq<u32>) -> Seq<u8>
    decreases s.len(),
{
    if s.len() == 0 {
        Seq::empty()
    } else {
        spec_encode_scalar(s[0]) + spec_encode(s.skip(1))
    }
}

/// Splits the low six bits off a scalar: returns the remaining high bits and
/// the continuation byte made from the bits split off.
fn encode_low_6_bits(raw_char: u32) -> (r: (u32, u8))
    ensures
        r.0 == raw_char >> 6,
        r.1 == continuation_byte(raw_char),
{
    assert(raw_char & 0x3F < 0x100) by (bit_vector);
    let low_6_bits: u8 = (raw_char & 0x3F) as u8;
    (raw_char >> 6, low_6_bits | 0x80)
}

/// Appends the one-byte form of `raw_char`.
fn encode_one(raw_char: u32, result: &mut Vec<u8>)
    requires
        raw_char < 0x80,
    ensures
        final(result)@ == old(result)@ + spec_encode_scalar(raw_char),
{
    result.push(raw_char as u8);
    assert(result@ =~= old(result)@ + spec_encode_scalar(raw_char));
}

/// Appends the two-byte form of `raw_char`.
fn encode_two(raw_char: u32, result: &mut Vec<u8>)
    requires
        0x80 <= raw_char < 0x800,
    ensures
        final(result)@ == old(result)@ + spec_encode_scalar(raw_char),
{
    let (raw_char_rest, second) = encode_low_6_bits(raw_char);
    assert(raw_char_rest < 0x100) by (bit_vector)
        requires
            raw_char_rest == raw_char >> 6 && raw_char < 0x800,
    ;
    let first: u8 = (raw_char_rest as u8) | 0xC0;
    result.push(first);
    result.push(second);
    assert(result@ =~= old(result)@ + spec_encode_scalar(raw_char));
}

/// Appends the three-byte form of `raw_char`.
fn encode_three(raw_char: u32, result: &mut Vec<u8>)
    requires
        0x800 <= raw_char < 0x10000,
    ensures
        final(result)@ == old(result)@ + spec_encode_scalar(raw_char),
{
    let (rest_one, third) = encode_low_6_bits(raw_char);
    let (rest_two, second) = encode_low_6_bits(rest_one);
    assert((raw_char >> 6) >> 6 == raw_char >> 12 && raw_char >> 12 < 0x100) by (bit_vector)
        requires
            raw_char < 0x10000,
    ;
    let first: u8 = (rest_two as u8) | 0xE0;
    result.push(first);
    result.push(second);
    result.push(third);
    assert(result@ =~= old(result)@ + spec_encode_scalar(raw_char));
}

/// Appends the four-byte form of `raw_char`.
fn encode_four(raw_char: u32, result: &mut Vec<u8>)
    requires
        0x10000 <= raw_char < SCALAR_LIMIT,
    ensures
        final(result)@ == old(result)@ + spec_encode_scalar(raw_char),
{
    let (rest_one, fourth) = encode_low_6_bits(raw_char);
    let (rest_two, third) = encode_low_6_bits(rest_one);
    let (rest_three, second) = encode_low_6_bits(rest_two);
    assert((raw_char >> 6) >> 6 == raw_char >> 12 && ((raw_char >> 6) >> 6) >> 6 == raw_char
        >> 18 && raw_char >> 18 < 0x100) by (bit_vector)
        requires
            raw_char < 0x200000,
    ;
    let first: u8 = (rest_three as u8) | 0xF0;
    result.push(first);
    result.push(second);
    result.push(third);
    result.push(fourth);
    assert(result@ =~= old(result)@ + spec_encode_scalar(raw_char));
}

/// Appends the UTF-8 form of `ch` if it is in range; otherwise reports the
/// fault kind and leaves the output untouched.
fn encode_char(ch: u32, result: &mut Vec<u8>) -> (r: Option<EncodeUtf8ErrorKind>)
    ensures
        ch < SCALAR_LIMIT ==> r is None && final(result)@ == old(result)@
            + spec_encode_scalar(ch),
        ch >= SCALAR_LIMIT ==> r == Some(EncodeUtf8ErrorKind::InvalidCodePoint)
            && final(result)@ == old(result)@,
{
    if ch >= SCALAR_LIMIT {
        Some(EncodeUtf8ErrorKind::InvalidCodePoint)
    } else {
        if ch < 0x80 {
            encode_one(ch, result);
        } else if ch < 0x800 {
            encode_two(ch, result);
        } else if ch < 0x10000 {
            encode_three(ch, result);
        } else {
            encode_four(ch, result);
        }
        None
    }
}

/// An encode failure: the input it points into, the zero-based index of the
/// scalar that triggered it, and its classification.
#[derive(Debug, Clone)]
pub struct EncodeUtf8Error<'a> {
    pub src: &'a [u32],
    pub index: usize,
    pub kind: EncodeUtf8ErrorKind,
}

/// How an encode attempt went wrong.
#[derive(Debug, Clone, PartialEq, Eq, Structural)]
pub enum EncodeUtf8ErrorKind {
    /// A scalar value at or above [`SCALAR_LIMIT`], which no UTF-8 form carries.
    InvalidCodePoint,
}

/// Encoding a concatenation encodes the parts one after the other.
proof fn lemma_spec_encode_append(a: Seq<u32>, b: Seq<u32>)
    ensures
        spec_encode(a + b) == spec_encode(a) + spec_encode(b),
    decreases a.len(),
{
    if a.len() == 0 {
        assert(a + b =~= b);
        assert(Seq::<u8>::empty() + spec_encode(b) =~= spec_encode(b));
    } else {
        assert((a + b).skip(1) =~= a.skip(1) + b);
        lemma_spec_encode_append(a.skip(1), b);
        assert(spec_encode_scalar(a[0]) + (spec_encode(a.skip(1)) + spec_encode(b)) =~= (
        spec_encode_scalar(a[0]) + spec_encode(a.skip(1))) + spec_encode(b));
    }
}

/// Extending an encoded prefix by one scalar appends that scalar's bytes.
proof fn lemma_spec_encode_take_step(s: Seq<u32>, i: int)
    requires
        0 <= i < s.len(),
    ensures
        spec_encode(s.take(i + 1)) == spec_encode(s.take(i)) + spec_encode_scalar(s[i]),
{
    let single = seq![s[i]];
    assert(s.take(i + 1) =~= s.take(i) + single);
    lemma_spec_encode_append(s.take(i), single);
    assert(single.skip(1) =~= Seq::<u32>::empty());
    assert(spec_encode(Seq::<u32>::empty()) == Seq::<u8>::empty());
    assert(spec_encode(single) == spec_encode_scalar(s[i]) + Seq::<u8>::empty());
    assert(spec_encode_scalar(s[i]) + Seq::<u8>::empty() =~= spec_encode_scalar(s[i]));
}

/// Encodes a scalar sequence as UTF-8 bytes.
///
/// Succeeds, with the serialization of every scalar concatenated in order,
/// exactly when every scalar is below [`SCALAR_LIMIT`]; otherwise fails at the
/// first scalar at or above it, with kind `InvalidCodePoint`.
pub fn encode_utf8<'a>(src: &'a [u32]) -> (r: Result<Vec<u8>, EncodeUtf8Error<'a>>)
    ensures
        (r is Ok) <==> (forall|j: int| 0 <= j < src@.len() ==> src@[j] < SCALAR_LIMIT),
        (match r {
            Ok(bytes) => bytes@ == spec_encode(src@),
            Err(e) => {
                &&& e.src@ == src@
                &&& e.kind == EncodeUtf8ErrorKind::InvalidCodePoint
                &&& e.index < src@.len()
                &&& src@[e.index as int] >= SCALAR_LIMIT
                &&& forall|j: int| 0 <= j < e.index ==> src@[j] < SCALAR_LIMIT
            },
        }),
{
    let mut result: Vec<u8> = Vec::new();
    let mut index: usize = 0;
    while index < src.len()
        invariant
            index <= src@.len(),
            result@ == spec_encode(src@.take(index as int)),
            forall|j: int| 0 <= j < index ==> src@[j] < SCALAR_LIMIT,
        decreases src@.len() - index,
    {
        let ghost prev = result@;
        let ch = src[index];
        if let Some(error_kind) = encode_char(ch, &mut result) {
            return Err(EncodeUtf8Error { src, index, kind: error_kind });
        }
        proof {
            lemma_spec_encode_take_step(src@, index as int);
        }
        index = index + 1;
    }
    proof {
        assert(src@.take(src@.len() as int) =~= src@);
    }
    Ok(result)
}

} // verus!
