//! The payload of a token sequence and its inverse.
//!
//! A payload is the header of the sequence's ranking, followed by the body:
//! the rank of each token as the difference to the rank before it (the
//! first to 0), zigzag-encoded and written as LEB128.

use crate::errors::{CodecError, Malformed};
use crate::freq_map::{
    is_rank_table, is_ranking, lemma_ranking_exists, lemma_ranking_is_rank_table, ranking,
    FreqMap,
};
use crate::header::{count_spec, header_bytes, tokens_at, Header};
use crate::zigzag::{unzigzag, zigzag};
use vstd::prelude::*;
use vstd::slice::slice_subrange;

verus! {

/// The rank of each token of `ids` in the rank table `order`.
pub open spec fn ranks_of(order: Seq<i32>, ids: Seq<i32>) -> Seq<int> {
    Seq::new(ids.len(), |i: int| order.index_of(ids[i]))
}

/// The difference of each rank to the one before it, the first to 0.
pub open spec fn deltas(ranks: Seq<int>) -> Seq<int> {
    Seq::new(
        ranks.len(),
        |i: int|
            if i == 0 {
                ranks[0]
            } else {
                ranks[i] - ranks[i - 1]
            },
    )
}

/// The unsigned values of the body: the zigzag images of the deltas.
pub open spec fn body_values(ranks: Seq<int>) -> Seq<u32> {
    Seq::new(ranks.len(), |i: int| zigzag(deltas(ranks)[i]) as u32)
}

/// The payload of `ids` under the rank table `order`.
pub open spec fn payload_of(order: Seq<i32>, ids: Seq<i32>) -> Seq<u8> {
    header_bytes(order) + crate::varint::encode_spec(body_values(ranks_of(order, ids)))
}

/// The payload of `ids`.
pub open spec fn payload_spec(ids: Seq<i32>) -> Seq<u8> {
    payload_of(ranking(ids), ids)
}

/// The sum of the deltas that the first `n` body values stand for.
pub open spec fn rank_sum(values: Seq<u32>, n: int) -> int
    decreases n,
{
    if n <= 0 {
        0
    } else {
        rank_sum(values, n - 1) + unzigzag(values[n - 1] as int)
    }
}

/// The ranks that body values stand for: the running sums of their deltas.
pub open spec fn ranks_from(values: Seq<u32>) -> Seq<int> {
    Seq::new(values.len(), |i: int| rank_sum(values, i + 1))
}

/// The number of ranks at the front of `ranks` that a table of `count`
/// tokens has a token for.
pub open spec fn valid_ranks(ranks: Seq<int>, count: nat) -> nat
    decreases ranks.len(),
{
    if ranks.len() == 0 || !(0 <= ranks[0] < count) {
        0
    } else {
        1 + valid_ranks(ranks.skip(1), count)
    }
}

/// A fault of the body's byte stream, as a fault of the payload. A byte
/// stream has two faults only: overflow and truncation.
pub open spec fn body_fault(e: CodecError) -> CodecError {
    CodecError::Malformed(
        if e == CodecError::Overflow {
            Malformed::BodyOverflow
        } else {
            Malformed::BodyTruncated
        },
    )
}

/// What body values decode to under the rank table `order`: the token of
/// each rank, or the fault at the first rank that has none.
pub open spec fn tokens_of(order: Seq<i32>, values: Seq<u32>) -> Result<Seq<i32>, CodecError> {
    let ranks = ranks_from(values);
    let valid = valid_ranks(ranks, order.len());
    if valid < ranks.len() {
        Err(CodecError::Malformed(Malformed::RankOutOfRange { position: valid as usize }))
    } else {
        Ok(Seq::new(ranks.len(), |i: int| order[ranks[i]]))
    }
}

/// What a payload decodes to: the header from its front, the body from the
/// rest, and the tokens of the body's ranks; or the first fault on the way.
pub open spec fn decode_payload_spec(payload: Seq<u8>) -> Result<Seq<i32>, CodecError> {
    match count_spec(payload) {
        Err(e) => Err(e),
        Ok(count) => match crate::varint::decode_spec(payload.skip(4 + 4 * (count as int))) {
            Err(e) => Err(body_fault(e)),
            Ok(values) => tokens_of(tokens_at(payload, count), values),
        },
    }
}

/// The view of what the secondary stage gave back.
pub open spec fn unpacked_view(unpacked: Option<Vec<u8>>) -> Option<Seq<u8>> {
    match unpacked {
        Some(payload) => Some(payload@),
        None => None,
    }
}

/// What decoding gives once the secondary stage has answered: a fault if
/// the stage rejected its input, else what the unpacked payload decodes to.
pub open spec fn decode_unpacked_spec(unpacked: Option<Seq<u8>>) -> Result<
    Seq<i32>,
    CodecError,
> {
    match unpacked {
        None => Err(CodecError::Malformed(Malformed::Compression)),
        Some(payload) => decode_payload_spec(payload),
    }
}

/// Whether an executable result is the given abstract result: the same
/// tokens, or the same error.
pub open spec fn matches_spec(
    res: Result<Vec<i32>, CodecError>,
    model: Result<Seq<i32>, CodecError>,
) -> bool {
    match res {
        Ok(tokens) => model == Ok::<Seq<i32>, CodecError>(tokens@),
        Err(e) => model == Err::<Seq<i32>, CodecError>(e),
    }
}

/// Where `k` valid ranks stand at the front, and then the sequence ends
/// or goes on with a rank that is not valid, `k` ranks are valid.
proof fn lemma_valid_ranks(ranks: Seq<int>, count: nat, k: nat)
    requires
        k <= ranks.len(),
        forall|j: int| 0 <= j < k ==> 0 <= #[trigger] ranks[j] < count,
        k < ranks.len() ==> !(0 <= ranks[k as int] < count),
    ensures
        valid_ranks(ranks, count) == k,
    decreases k,
{
    if k > 0 {
        lemma_valid_ranks(ranks.skip(1), count, (k - 1) as nat);
    }
}

/// The running sums of the body values of a rank sequence are its ranks.
proof fn lemma_rank_sum(ranks: Seq<int>, i: int)
    requires
        0 <= i < ranks.len(),
        forall|j: int| 0 <= j < ranks.len() ==> 0 <= #[trigger] ranks[j] < 0x8000_0000,
    ensures
        rank_sum(body_values(ranks), i + 1) == ranks[i],
    decreases i,
{
    let d = deltas(ranks)[i];
    assert(0 <= ranks[i] < 0x8000_0000);
    if i > 0 {
        lemma_rank_sum(ranks, i - 1);
        assert(0 <= ranks[i - 1] < 0x8000_0000);
    } else {
        assert(rank_sum(body_values(ranks), 0) == 0);
    }
    assert(0 <= zigzag(d) <= u32::MAX);
    assert(unzigzag(zigzag(d)) == d);
}

/// Under a rank table that holds every token of `ids`, the body values of
/// `ids` stand for `ids`.
pub proof fn lemma_tokens_of_body(order: Seq<i32>, ids: Seq<i32>)
    requires
        is_rank_table(order),
        forall|t: i32| ids.contains(t) ==> order.contains(t),
    ensures
        tokens_of(order, body_values(ranks_of(order, ids))) == Ok::<Seq<i32>, CodecError>(ids),
{
    let ranks = ranks_of(order, ids);
    let values = body_values(ranks);
    assert forall|j: int| 0 <= j < ranks.len() implies 0 <= #[trigger] ranks[j] < order.len()
        && order[ranks[j]] == ids[j] by {
        assert(ids.contains(ids[j]));
        assert(order.contains(ids[j]));
    }
    assert forall|j: int| 0 <= j < ranks.len() implies #[trigger] ranks_from(values)[j]
        == ranks[j] by {
        lemma_rank_sum(ranks, j);
    }
    assert(ranks_from(values) =~= ranks);
    lemma_valid_ranks(ranks, order.len(), ranks.len());
    assert(Seq::new(ranks.len(), |i: int| order[ranks[i]]) =~= ids);
}

/// Decoding undoes encoding: every token sequence that can be encoded, and
/// whose payload fits in memory, comes back from its payload as it was.
pub proof fn lemma_decode_encode(ids: Seq<i32>)
    requires
        ids.to_set().len() <= 0x8000_0000,
        payload_spec(ids).len() <= usize::MAX,
    ensures
        decode_payload_spec(payload_spec(ids)) == Ok::<Seq<i32>, CodecError>(ids),
{
    let order = ranking(ids);
    let values = body_values(ranks_of(order, ids));
    lemma_ranking_exists(ids);
    lemma_ranking_is_rank_table(ids, order);
    assert(header_bytes(order).len() == 4 + 4 * order.len());
    crate::header::lemma_read_header(order, crate::varint::encode_spec(values));
    crate::varint::lemma_decode_encode(values);
    lemma_tokens_of_body(order, ids);
}

/// With the secondary stage in between: if the stage's inverse gives back
/// the payload that the stage was given, decoding gives back the tokens.
pub proof fn lemma_decode_encode_unpacked(ids: Seq<i32>, unpacked: Option<Seq<u8>>)
    requires
        ids.to_set().len() <= 0x8000_0000,
        payload_spec(ids).len() <= usize::MAX,
        unpacked == Some(payload_spec(ids)),
    ensures
        decode_unpacked_spec(unpacked) == Ok::<Seq<i32>, CodecError>(ids),
{
    lemma_decode_encode(ids);
}

/// The payload of the empty sequence is an empty header and no body: four
/// zero bytes.
pub proof fn lemma_empty_payload()
    ensures
        payload_spec(Seq::empty()) == seq![0u8, 0u8, 0u8, 0u8],
{
    let ids = Seq::<i32>::empty();
    let order = ranking(ids);
    lemma_ranking_exists(ids);
    assert(order.len() == 0) by {
        if order.len() > 0 {
            assert(order.contains(order[0]));
        }
    }
    assert(crate::varint::encode_spec(body_values(ranks_of(order, ids))) =~= Seq::<u8>::empty());
    assert(payload_spec(ids) =~= seq![0u8, 0u8, 0u8, 0u8]);
}

/// The last unsigned value of the body of `ids`.
pub open spec fn last_value(ids: Seq<i32>) -> u32 {
    body_values(ranks_of(ranking(ids), ids)).last()
}

/// A payload without its last byte is rejected, unless its last value
/// took a single byte: an empty sequence's payload for want of a count,
/// any other for a body that ends within a value.
pub proof fn lemma_decode_truncated(ids: Seq<i32>)
    requires
        ids.to_set().len() <= 0x8000_0000,
        payload_spec(ids).len() <= usize::MAX,
        ids.len() > 0 ==> last_value(ids) >= 128,
    ensures
        payload_spec(ids).len() > 0,
        decode_payload_spec(payload_spec(ids).drop_last()) == Err::<Seq<i32>, CodecError>(
            CodecError::Malformed(
                if ids.len() == 0 {
                    Malformed::MissingLength
                } else {
                    Malformed::BodyTruncated
                },
            ),
        ),
{
    let order = ranking(ids);
    let values = body_values(ranks_of(order, ids));
    let body = crate::varint::encode_spec(values);
    lemma_ranking_exists(ids);
    lemma_ranking_is_rank_table(ids, order);
    assert(header_bytes(order).len() == 4 + 4 * order.len());
    if ids.len() == 0 {
        assert(order.len() == 0) by {
            if order.len() > 0 {
                assert(order.contains(order[0]));
            }
        }
        assert(body =~= Seq::<u8>::empty());
    } else {
        crate::varint::lemma_decode_truncated(values);
        crate::header::lemma_read_header(order, body.drop_last());
        assert(payload_spec(ids).drop_last() =~= header_bytes(order) + body.drop_last());
    }
}

/// A payload whose last value took a single byte, without that byte, is
/// the payload's sequence without its last token under the same header.
pub proof fn lemma_decode_shortened(ids: Seq<i32>)
    requires
        ids.to_set().len() <= 0x8000_0000,
        payload_spec(ids).len() <= usize::MAX,
        ids.len() > 0,
        last_value(ids) < 128,
    ensures
        payload_spec(ids).len() > 0,
        decode_payload_spec(payload_spec(ids).drop_last()) == Ok::<Seq<i32>, CodecError>(
            ids.drop_last(),
        ),
{
    let order = ranking(ids);
    let ranks = ranks_of(order, ids);
    let values = body_values(ranks);
    let body = crate::varint::encode_spec(values);
    let front = ids.drop_last();
    lemma_ranking_exists(ids);
    lemma_ranking_is_rank_table(ids, order);
    assert(header_bytes(order).len() == 4 + 4 * order.len());
    crate::varint::lemma_decode_truncated(values);
    crate::header::lemma_read_header(order, body.drop_last());
    assert(payload_spec(ids).drop_last() =~= header_bytes(order) + body.drop_last());
    assert(values.drop_last() =~= body_values(ranks_of(order, front)));
    assert forall|t: i32| front.contains(t) implies order.contains(t) by {
        let k = choose|k: int| 0 <= k < front.len() && front[k] == t;
        assert(ids[k] == t);
    }
    lemma_tokens_of_body(order, front);
}

/// Encodes a token sequence as a payload: header, then body.
///
/// Ranks are signed 32-bit integers, so the sequence may hold no more
/// distinct tokens than there are such ranks.
pub fn encode_payload(token_ids: &[i32]) -> (payload: Vec<u8>)
    requires
        token_ids@.to_set().len() <= 0x8000_0000,
    ensures
        payload@ == payload_spec(token_ids@),
        token_ids@.len() == 0 ==> payload@ == seq![0u8, 0u8, 0u8, 0u8],
{
    proof {
        if token_ids@.len() == 0 {
            assert(token_ids@ =~= Seq::<i32>::empty());
            lemma_empty_payload();
        }
    }
    let freq = FreqMap::from_token_ids(token_ids);
    let header = Header::from_freq_map(&freq);
    let mut payload = header.encode();
    let n = token_ids.len();
    let ghost order = freq@;
    let ghost ranks = ranks_of(order, token_ids@);
    let mut values: Vec<u32> = Vec::with_capacity(n);
    let mut prev: i32 = 0;
    for i in 0..n
        invariant
            n == token_ids@.len(),
            order == freq@,
            is_ranking(token_ids@, order),
            is_rank_table(order),
            ranks == ranks_of(order, token_ids@),
            0 <= prev < 0x8000_0000,
            prev == if i == 0 {
                0
            } else {
                ranks[i - 1]
            },
            values@ == body_values(ranks).take(i as int),
    {
        let token = token_ids[i];
        assert(token_ids@.contains(token));
        let rank = match freq.map_token(token) {
            Some(rank) => rank,
            None => unreached(),
        };
        let delta = rank - prev;
        let value = crate::zigzag::encode(delta);
        values.push(value);
        prev = rank;
        assert(values@ =~= body_values(ranks).take(i + 1));
    }
    assert(body_values(ranks).take(n as int) =~= body_values(ranks));
    let mut body = crate::varint::encode(values.as_slice());
    payload.append(&mut body);
    payload
}

/// Decodes a payload into its token sequence, or names the first fault:
/// that of the header, that of the body's byte stream, or the first rank
/// that the header has no token for.
pub fn decode_payload(payload: &[u8]) -> (res: Result<Vec<i32>, CodecError>)
    ensures
        matches_spec(res, decode_payload_spec(payload@)),
{
    let (header, used) = match Header::decode_prefix(payload) {
        Ok(parsed) => parsed,
        Err(e) => {
            return Err(e);
        },
    };
    let body = slice_subrange(payload, used, payload.len());
    assert(body@ =~= payload@.skip(used as int));
    let values = match crate::varint::decode(body) {
        Ok(values) => values,
        Err(CodecError::Overflow) => {
            return Err(CodecError::Malformed(Malformed::BodyOverflow));
        },
        Err(_) => {
            return Err(CodecError::Malformed(Malformed::BodyTruncated));
        },
    };
    let count = header.tokens.len();
    let n = values.len();
    let ghost ranks = ranks_from(values@);
    let mut tokens: Vec<i32> = Vec::with_capacity(n);
    let mut prev: i64 = 0;
    for i in 0..n
        invariant
            n == values@.len(),
            count == header@.len(),
            count <= u32::MAX,
            ranks == ranks_from(values@),
            prev == rank_sum(values@, i as int),
            0 <= prev <= u32::MAX,
            forall|j: int| 0 <= j < i ==> 0 <= #[trigger] ranks[j] < count,
            tokens@ == Seq::new(i as nat, |j: int| header@[ranks[j]]),
            tokens_of(header@, values@) == decode_payload_spec(payload@),
    {
        let delta = crate::zigzag::decode(values[i]);
        proof {
            crate::zigzag::lemma_encode_decode(values@[i as int]);
        }
        let rank = prev + delta as i64;
        assert(rank == ranks[i as int]);
        if rank < 0 || rank >= count as i64 {
            proof {
                lemma_valid_ranks(ranks, count as nat, i as nat);
            }
            return Err(CodecError::Malformed(Malformed::RankOutOfRange { position: i }));
        }
        tokens.push(header.tokens[rank as usize]);
        prev = rank;
        assert(tokens@ =~= Seq::new((i + 1) as nat, |j: int| header@[ranks[j]]));
    }
    proof {
        lemma_valid_ranks(ranks, count as nat, n as nat);
    }
    Ok(tokens)
}

/// Finishes decoding once the secondary stage has answered: with `None`
/// the stage rejected its input; with `Some` it gave the payload.
pub fn decode_unpacked(unpacked: Option<Vec<u8>>) -> (res: Result<Vec<i32>, CodecError>)
    ensures
        matches_spec(res, decode_unpacked_spec(unpacked_view(unpacked))),
{
    match unpacked {
        None => Err(CodecError::Malformed(Malformed::Compression)),
        Some(payload) => decode_payload(payload.as_slice()),
    }
}

} // verus!
