//! The header of a payload: the tokens in rank order, from which a decoder
//! rebuilds the rank table without any counts.
//!
//! Layout, little-endian: a `u32` token count `N`, then `N` tokens of four
//! bytes each, rank 0 first.

use crate::errors::{CodecError, Malformed};
use crate::freq_map::{is_rank_table, FreqMap};
use vstd::prelude::*;
use vstd::slice::slice_to_vec;

verus! {

/// The four bytes of `x`, least significant first.
pub open spec fn le_bytes(x: u32) -> Seq<u8> {
    seq![
        (x % 256) as u8,
        (x / 256 % 256) as u8,
        (x / 65536 % 256) as u8,
        (x / 16777216) as u8,
    ]
}

/// The number that the four bytes of `bytes` from index `at` on spell,
/// least significant first.
pub open spec fn le_value(bytes: Seq<u8>, at: int) -> int {
    bytes[at] + 256 * bytes[at + 1] + 65536 * bytes[at + 2] + 16777216 * bytes[at + 3]
}

/// The two's complement bit pattern of a token, as an unsigned number.
pub open spec fn token_bits(token: i32) -> u32 {
    if token >= 0 {
        token as u32
    } else {
        (token + 0x1_0000_0000) as u32
    }
}

/// The token that a 32-bit pattern stands for.
pub open spec fn bits_token(bits: u32) -> i32 {
    if bits < 0x8000_0000 {
        bits as i32
    } else {
        (bits - 0x1_0000_0000) as i32
    }
}

/// The bytes of a token list: four per token, in order.
pub open spec fn token_bytes(tokens: Seq<i32>) -> Seq<u8> {
    Seq::new(4 * tokens.len(), |i: int| le_bytes(token_bits(tokens[i / 4]))[i % 4])
}

/// The serialized header of a token list.
pub open spec fn header_bytes(tokens: Seq<i32>) -> Seq<u8> {
    le_bytes(tokens.len() as u32) + token_bytes(tokens)
}

/// The token that `bytes` holds at position `i` behind the count.
pub open spec fn token_at(bytes: Seq<u8>, i: int) -> i32 {
    bits_token(le_value(bytes, 4 + 4 * i) as u32)
}

/// The tokens that `bytes` holds behind the count, `count` of them.
pub open spec fn tokens_at(bytes: Seq<u8>, count: nat) -> Seq<i32> {
    Seq::new(count, |i: int| token_at(bytes, i))
}

/// The token count that a buffer declares, if the buffer holds at least
/// that many tokens behind it; else the fault.
pub open spec fn count_spec(bytes: Seq<u8>) -> Result<nat, CodecError> {
    if bytes.len() < 4 {
        Err(CodecError::Malformed(Malformed::MissingLength))
    } else if 4 * le_value(bytes, 0) > usize::MAX {
        Err(CodecError::Malformed(Malformed::LengthOverflow))
    } else if bytes.len() - 4 < 4 * le_value(bytes, 0) {
        Err(
            CodecError::Malformed(
                Malformed::SizeMismatch {
                    expected: (4 * le_value(bytes, 0)) as usize,
                    actual: (bytes.len() - 4) as usize,
                },
            ),
        )
    } else {
        Ok(le_value(bytes, 0) as nat)
    }
}

/// What a buffer decodes to as a header on its own: its tokens, if it has a
/// count and exactly that many tokens behind it; else the fault.
pub open spec fn decode_spec(bytes: Seq<u8>) -> Result<Seq<i32>, CodecError> {
    match count_spec(bytes) {
        Err(e) => Err(e),
        Ok(count) => if bytes.len() - 4 != 4 * count {
            Err(
                CodecError::Malformed(
                    Malformed::SizeMismatch {
                        expected: (4 * count) as usize,
                        actual: (bytes.len() - 4) as usize,
                    },
                ),
            )
        } else {
            Ok(tokens_at(bytes, count))
        },
    }
}

/// The four bytes of a number spell that number.
proof fn lemma_le_value_bytes(x: u32, bytes: Seq<u8>, at: int)
    requires
        0 <= at,
        at + 4 <= bytes.len(),
        forall|k: int| 0 <= k < 4 ==> bytes[at + k] == le_bytes(x)[k],
    ensures
        le_value(bytes, at) == x,
{
    assert(bytes[at] == le_bytes(x)[0]);
    assert(bytes[at + 1] == le_bytes(x)[1]);
    assert(bytes[at + 2] == le_bytes(x)[2]);
    assert(bytes[at + 3] == le_bytes(x)[3]);
}

/// A serialized header in front of any bytes is read back as it was
/// written, and the bytes behind it are left over.
pub proof fn lemma_read_header(tokens: Seq<i32>, rest: Seq<u8>)
    requires
        tokens.len() <= u32::MAX,
        4 * tokens.len() <= usize::MAX,
    ensures
        header_bytes(tokens).len() == 4 + 4 * tokens.len(),
        count_spec(header_bytes(tokens) + rest) == Ok::<nat, CodecError>(tokens.len()),
        tokens_at(header_bytes(tokens) + rest, tokens.len()) == tokens,
        (header_bytes(tokens) + rest).skip(4 + 4 * (tokens.len() as int)) == rest,
{
    let bytes = header_bytes(tokens) + rest;
    lemma_le_value_bytes(tokens.len() as u32, bytes, 0);
    assert forall|i: int| 0 <= i < tokens.len() implies token_at(bytes, i) == tokens[i] by {
        assert forall|k: int| 0 <= k < 4 implies bytes[4 + 4 * i + k] == le_bytes(
            token_bits(tokens[i]),
        )[k] by {
            assert(bytes[4 + 4 * i + k] == token_bytes(tokens)[4 * i + k]);
            assert((4 * i + k) / 4 == i && (4 * i + k) % 4 == k);
        }
        lemma_le_value_bytes(token_bits(tokens[i]), bytes, 4 + 4 * i);
    }
    assert(tokens_at(bytes, tokens.len()) =~= tokens);
    assert(bytes.skip(4 + 4 * (tokens.len() as int)) =~= rest);
}

/// Decoding undoes encoding, for every token list that a header can hold
/// and whose bytes fit in memory.
pub proof fn lemma_decode_encode(tokens: Seq<i32>)
    requires
        tokens.len() <= u32::MAX,
        4 + 4 * tokens.len() <= usize::MAX,
    ensures
        decode_spec(header_bytes(tokens)) == Ok::<Seq<i32>, CodecError>(tokens),
{
    lemma_read_header(tokens, Seq::empty());
    assert(header_bytes(tokens) + Seq::<u8>::empty() =~= header_bytes(tokens));
}

/// A serialized header without its last byte is rejected: for want of a
/// count if it held no token, else for want of one token byte.
pub proof fn lemma_decode_truncated(tokens: Seq<i32>)
    requires
        tokens.len() <= u32::MAX,
        4 + 4 * tokens.len() <= usize::MAX,
    ensures
        decode_spec(header_bytes(tokens).drop_last()) == Err::<Seq<i32>, CodecError>(
            CodecError::Malformed(
                if tokens.len() == 0 {
                    Malformed::MissingLength
                } else {
                    Malformed::SizeMismatch {
                        expected: (4 * tokens.len()) as usize,
                        actual: (4 * tokens.len() - 1) as usize,
                    }
                },
            ),
        ),
{
    let bytes = header_bytes(tokens);
    let cut = bytes.drop_last();
    lemma_read_header(tokens, Seq::empty());
    assert(bytes + Seq::<u8>::empty() =~= bytes);
    if tokens.len() > 0 {
        lemma_le_value_bytes(tokens.len() as u32, bytes, 0);
        assert(le_value(cut, 0) == le_value(bytes, 0));
    }
}

/// How tokens were remapped for one payload: `tokens[r]` is the token of
/// rank `r`.
#[derive(Debug, PartialEq, Eq)]
pub struct Header {
    /// The tokens in rank order, the most frequent first.
    pub tokens: Vec<i32>,
    /// The number of tokens.
    pub len: usize,
}

impl View for Header {
    type V = Seq<i32>;

    open spec fn view(&self) -> Seq<i32> {
        self.tokens@
    }
}

impl Clone for Header {
    fn clone(&self) -> (copy: Self)
        ensures
            copy@ == self@,
            copy.len == self.len,
    {
        let tokens = self.tokens.clone();
        assert(tokens@ =~= self.tokens@);
        Header { tokens, len: self.len }
    }
}

/// Appends the four bytes of `x`, least significant first.
fn push_u32_le(out: &mut Vec<u8>, x: u32)
    ensures
        final(out)@ == old(out)@ + le_bytes(x),
{
    let b0 = (x & 0xff) as u8;
    let b1 = ((x >> 8) & 0xff) as u8;
    let b2 = ((x >> 16) & 0xff) as u8;
    let b3 = ((x >> 24) & 0xff) as u8;
    assert(b0 == x % 256 && b1 == x / 256 % 256 && b2 == x / 65536 % 256 && b3 == x / 16777216)
        by (bit_vector)
        requires
            b0 == (x & 0xff) as u8,
            b1 == ((x >> 8) & 0xff) as u8,
            b2 == ((x >> 16) & 0xff) as u8,
            b3 == ((x >> 24) & 0xff) as u8,
    ;
    out.push(b0);
    out.push(b1);
    out.push(b2);
    out.push(b3);
    assert(out@ =~= old(out)@ + le_bytes(x));
}

/// Reads four bytes from index `at` on as a number, least significant first.
fn read_u32_le(bytes: &[u8], at: usize) -> (x: u32)
    requires
        at + 4 <= bytes@.len(),
    ensures
        x == le_value(bytes@, at as int),
{
    let b0 = bytes[at] as u32;
    let b1 = bytes[at + 1] as u32;
    let b2 = bytes[at + 2] as u32;
    let b3 = bytes[at + 3] as u32;
    let x = b0 | (b1 << 8) | (b2 << 16) | (b3 << 24);
    assert(x == b0 + 256 * b1 + 65536 * b2 + 16777216 * b3) by (bit_vector)
        requires
            b0 < 256,
            b1 < 256,
            b2 < 256,
            b3 < 256,
            x == b0 | (b1 << 8) | (b2 << 16) | (b3 << 24),
    ;
    x
}

/// Reads the token count and checks that the buffer is long enough for it.
fn read_count(bytes: &[u8]) -> (res: Result<usize, CodecError>)
    ensures
        match res {
            Ok(count) => count_spec(bytes@) == Ok::<nat, CodecError>(count as nat),
            Err(e) => count_spec(bytes@) == Err::<nat, CodecError>(e),
        },
{
    if bytes.len() < 4 {
        return Err(CodecError::Malformed(Malformed::MissingLength));
    }
    let len = read_u32_le(bytes, 0) as usize;
    let expected = match len.checked_mul(4) {
        Some(expected) => expected,
        None => {
            return Err(CodecError::Malformed(Malformed::LengthOverflow));
        },
    };
    let actual = bytes.len() - 4;
    if actual < expected {
        return Err(CodecError::Malformed(Malformed::SizeMismatch { expected, actual }));
    }
    Ok(len)
}

/// Reads `count` tokens from behind the count field.
fn read_tokens(bytes: &[u8], count: usize) -> (tokens: Vec<i32>)
    requires
        4 + 4 * count <= bytes@.len(),
    ensures
        tokens@ == tokens_at(bytes@, count as nat),
{
    let total = bytes.len();
    let mut tokens: Vec<i32> = Vec::with_capacity(count);
    let mut offset: usize = 4;
    for k in 0..count
        invariant
            offset == 4 + 4 * k,
            total == bytes@.len(),
            4 + 4 * count <= bytes@.len(),
            tokens@ == tokens_at(bytes@, k as nat),
    {
        let bits = read_u32_le(bytes, offset);
        let token = #[verifier::truncate] (bits as i32);
        assert(token == bits_token(bits)) by (bit_vector)
            requires
                token == bits as i32,
        ;
        tokens.push(token);
        offset = offset + 4;
        assert(tokens@ =~= tokens_at(bytes@, (k + 1) as nat));
    }
    tokens
}

impl Header {
    /// Whether the cached length is the number of tokens.
    pub open spec fn wf(&self) -> bool {
        self.len == self.tokens@.len()
    }

    /// Captures the rank order of a frequency map.
    pub fn from_freq_map(freq: &FreqMap) -> (header: Header)
        ensures
            header@ == freq@,
            header.wf(),
            is_rank_table(header@),
    {
        let tokens = slice_to_vec(freq.ordered_tokens());
        let len = tokens.len();
        Header { tokens, len }
    }

    /// Serializes the header: the token count, then the tokens in rank
    /// order. The count field has 32 bits, so the header may hold no more
    /// tokens than fit in it.
    pub fn encode(&self) -> (out: Vec<u8>)
        requires
            self.tokens@.len() <= u32::MAX,
        ensures
            out@ == header_bytes(self@),
    {
        let count = self.tokens.len();
        let mut out: Vec<u8> = Vec::new();
        push_u32_le(&mut out, count as u32);
        for k in 0..count
            invariant
                count == self.tokens@.len(),
                out@ == le_bytes(count as u32) + token_bytes(self.tokens@.take(k as int)),
        {
            let token = self.tokens[k];
            let bits = #[verifier::truncate] (token as u32);
            assert(bits == token_bits(token)) by (bit_vector)
                requires
                    bits == token as u32,
            ;
            push_u32_le(&mut out, bits);
            assert(out@ =~= le_bytes(count as u32) + token_bytes(self.tokens@.take(k + 1)));
        }
        assert(self.tokens@.take(count as int) =~= self.tokens@);
        out
    }

    /// Parses a buffer that holds a header and nothing else.
    pub fn decode(bytes: &[u8]) -> (res: Result<Header, CodecError>)
        ensures
            match res {
                Ok(header) => header.wf() && decode_spec(bytes@) == Ok::<Seq<i32>, CodecError>(
                    header@,
                ),
                Err(e) => decode_spec(bytes@) == Err::<Seq<i32>, CodecError>(e),
            },
    {
        let len = match read_count(bytes) {
            Ok(len) => len,
            Err(e) => {
                return Err(e);
            },
        };
        let expected = 4 * len;
        let actual = bytes.len() - 4;
        if actual != expected {
            return Err(CodecError::Malformed(Malformed::SizeMismatch { expected, actual }));
        }
        let tokens = read_tokens(bytes, len);
        Ok(Header { tokens, len })
    }

    /// Parses a header from the front of a buffer and reports how many
    /// bytes it took; what follows them is left alone.
    pub fn decode_prefix(bytes: &[u8]) -> (res: Result<(Header, usize), CodecError>)
        ensures
            match res {
                Ok((header, used)) => {
                    &&& header.wf()
                    &&& count_spec(bytes@) == Ok::<nat, CodecError>(header@.len())
                    &&& header@ == tokens_at(bytes@, header@.len())
                    &&& used == 4 + 4 * header@.len()
                },
                Err(e) => count_spec(bytes@) == Err::<nat, CodecError>(e),
            },
    {
        let len = match read_count(bytes) {
            Ok(len) => len,
            Err(e) => {
                return Err(e);
            },
        };
        let total = bytes.len();
        let tokens = read_tokens(bytes, len);
        Ok((Header { tokens, len }, 4 + 4 * len))
    }
}

} // verus!
