//! Unsigned LEB128 over streams of `u32`: seven bits per byte, least
//! significant group first, the top bit of a byte set while more bytes of
//! the same value follow.

use crate::errors::CodecError;
use vstd::prelude::*;

verus! {

/// The bytes of one value: one to five for a `u32`.
pub open spec fn encode_value(v: nat) -> Seq<u8>
    decreases v,
{
    if v < 128 {
        seq![v as u8]
    } else {
        seq![(v % 128 + 128) as u8] + encode_value(v / 128)
    }
}

/// The bytes of a sequence of values: those of each value, in order.
pub open spec fn encode_spec(values: Seq<u32>) -> Seq<u8>
    decreases values.len(),
{
    if values.len() == 0 {
        Seq::empty()
    } else {
        encode_value(values[0] as nat) + encode_spec(values.skip(1))
    }
}

/// The number of bytes at the front of `bytes` that announce a further byte.
pub open spec fn run_len(bytes: Seq<u8>) -> nat
    decreases bytes.len(),
{
    if bytes.len() == 0 || bytes[0] < 128 {
        0
    } else {
        1 + run_len(bytes.skip(1))
    }
}

/// The number that the low seven bits of each byte spell, least significant
/// group first.
pub open spec fn group_value(bytes: Seq<u8>) -> nat
    decreases bytes.len(),
{
    if bytes.len() == 0 {
        0
    } else {
        (bytes[0] % 128) as nat + 128 * group_value(bytes.skip(1))
    }
}

/// `values` in front of what `rest` holds, or the fault that `rest` is.
pub open spec fn prepend(values: Seq<u32>, rest: Result<Seq<u32>, CodecError>) -> Result<
    Seq<u32>,
    CodecError,
> {
    match rest {
        Ok(more) => Ok(values + more),
        Err(e) => Err(e),
    }
}

/// What a byte stream decodes to. A value ends with its first byte below
/// 128. A sixth byte within one value is an overflow; bits of the fifth byte
/// beyond the 32nd are dropped. A stream that ends within a value is
/// truncated.
pub open spec fn decode_spec(bytes: Seq<u8>) -> Result<Seq<u32>, CodecError>
    decreases bytes.len(),
{
    let k = run_len(bytes) as int;
    if bytes.len() == 0 {
        Ok(Seq::empty())
    } else if k >= 5 && bytes.len() > 5 {
        Err(CodecError::Overflow)
    } else if k >= bytes.len() {
        Err(CodecError::Truncated)
    } else {
        prepend(
            seq![(group_value(bytes.take(k + 1)) % 0x1_0000_0000) as u32],
            decode_spec(bytes.skip(k + 1)),
        )
    }
}

/// The weight of the group at position `j` of a value: 128 to the `j`.
pub open spec fn radix_weight(j: nat) -> nat
    decreases j,
{
    if j == 0 {
        1
    } else {
        128 * radix_weight((j - 1) as nat)
    }
}

/// A further byte adds its low seven bits at the next weight.
proof fn lemma_group_push(s: Seq<u8>, b: u8)
    ensures
        group_value(s.push(b)) == group_value(s) + (b % 128) * radix_weight(s.len()),
    decreases s.len(),
{
    let d = (b % 128) as nat;
    if s.len() == 0 {
        assert(s.push(b).skip(1) =~= Seq::<u8>::empty());
        assert(group_value(s.push(b).skip(1)) == 0);
        assert(radix_weight(0) == 1);
        assert(d * 1 == d) by (nonlinear_arith);
    } else {
        assert(s.push(b).skip(1) =~= s.skip(1).push(b));
        assert(s.push(b)[0] == s[0]);
        lemma_group_push(s.skip(1), b);
        let w = radix_weight((s.len() - 1) as nat);
        assert(radix_weight(s.len()) == 128 * w);
        assert(128 * (d * w) == d * (128 * w)) by (nonlinear_arith);
    }
}

/// A stream that starts with `k` bytes of 128 or more has a run of at
/// least `k`.
proof fn lemma_run_at_least(bytes: Seq<u8>, k: nat)
    requires
        k <= bytes.len(),
        forall|j: int| 0 <= j < k ==> bytes[j] >= 128,
    ensures
        run_len(bytes) >= k,
    decreases k,
{
    if k > 0 {
        lemma_run_at_least(bytes.skip(1), (k - 1) as nat);
    }
}

/// A stream that starts with `k` bytes of 128 or more and then ends, or
/// goes on with a byte below 128, has a run of exactly `k`.
proof fn lemma_run_exact(bytes: Seq<u8>, k: nat)
    requires
        k <= bytes.len(),
        forall|j: int| 0 <= j < k ==> bytes[j] >= 128,
        k < bytes.len() ==> bytes[k as int] < 128,
    ensures
        run_len(bytes) == k,
    decreases k,
{
    if k > 0 {
        lemma_run_exact(bytes.skip(1), (k - 1) as nat);
    }
}

/// Encoding distributes over appending one value.
proof fn lemma_encode_push(values: Seq<u32>, v: u32)
    ensures
        encode_spec(values.push(v)) == encode_spec(values) + encode_value(v as nat),
    decreases values.len(),
{
    if values.len() == 0 {
        assert(values.push(v).skip(1) =~= Seq::<u32>::empty());
        assert(encode_spec(values.push(v).skip(1)) =~= Seq::<u8>::empty());
        assert(encode_spec(values.push(v)) =~= encode_value(v as nat));
    } else {
        assert(values.push(v).skip(1) =~= values.skip(1).push(v));
        lemma_encode_push(values.skip(1), v);
        assert(encode_spec(values.push(v)) =~= encode_spec(values) + encode_value(v as nat));
    }
}

/// The shape of one value's bytes: at most `n` of them for a value below
/// 128 to the `n`, all but the last 128 or more, the last below 128, and
/// together they spell the value.
proof fn lemma_encode_value_shape(v: nat, n: nat)
    requires
        n >= 1,
        v < radix_weight(n),
    ensures
        1 <= encode_value(v).len() <= n,
        forall|j: int| 0 <= j < encode_value(v).len() - 1 ==> encode_value(v)[j] >= 128,
        encode_value(v).last() < 128,
        group_value(encode_value(v)) == v,
        v < 128 <==> encode_value(v).len() == 1,
    decreases n,
{
    reveal_with_fuel(radix_weight, 2);
    if v < 128 {
        assert(encode_value(v).skip(1) =~= Seq::<u8>::empty());
        assert(group_value(encode_value(v).skip(1)) == 0);
    } else {
        let rest = encode_value(v / 128);
        lemma_encode_value_shape(v / 128, (n - 1) as nat);
        assert(encode_value(v).skip(1) =~= rest);
    }
}

/// The only faults of a byte stream are truncation and overflow.
pub proof fn lemma_stream_faults(bytes: Seq<u8>)
    ensures
        match decode_spec(bytes) {
            Ok(_) => true,
            Err(e) => e == CodecError::Truncated || e == CodecError::Overflow,
        },
    decreases bytes.len(),
{
    let k = run_len(bytes) as int;
    if bytes.len() > 0 && !(k >= 5 && bytes.len() > 5) && k < bytes.len() {
        lemma_stream_faults(bytes.skip(k + 1));
    }
}

/// A 32-bit value takes one to five bytes: all but the last are 128 or
/// more, the last is below 128, and their low seven bits spell the value.
pub proof fn lemma_value_bytes(v: u32)
    ensures
        1 <= encode_value(v as nat).len() <= 5,
        forall|j: int|
            0 <= j < encode_value(v as nat).len() - 1 ==> encode_value(v as nat)[j] >= 128,
        encode_value(v as nat).last() < 128,
        group_value(encode_value(v as nat)) == v,
{
    reveal_with_fuel(radix_weight, 6);
    lemma_encode_value_shape(v as nat, 5);
}

/// The bytes of one value, in front of any stream, decode to that value in
/// front of what the stream decodes to.
proof fn lemma_decode_one(v: u32, rest: Seq<u8>)
    ensures
        decode_spec(encode_value(v as nat) + rest) == prepend(seq![v], decode_spec(rest)),
{
    lemma_value_bytes(v);
    let e = encode_value(v as nat);
    let bytes = e + rest;
    let k = e.len() - 1;
    lemma_run_exact(bytes, k as nat);
    assert(bytes.take(k + 1) =~= e);
    assert(bytes.skip(k + 1) =~= rest);
}

/// The bytes of a sequence of values, in front of any stream, decode to
/// those values in front of what the stream decodes to.
pub proof fn lemma_decode_append(values: Seq<u32>, rest: Seq<u8>)
    ensures
        decode_spec(encode_spec(values) + rest) == prepend(values, decode_spec(rest)),
    decreases values.len(),
{
    if values.len() == 0 {
        assert(encode_spec(values) + rest =~= rest);
        lemma_prepend_nothing(decode_spec(rest));
    } else {
        let first = encode_value(values[0] as nat);
        let others = encode_spec(values.skip(1));
        lemma_decode_append(values.skip(1), rest);
        lemma_decode_one(values[0], others + rest);
        assert(encode_spec(values) + rest =~= first + (others + rest));
        match decode_spec(rest) {
            Ok(more) => {
                assert(seq![values[0]] + (values.skip(1) + more) =~= values + more);
            },
            Err(_) => {},
        }
    }
}

/// Decoding undoes encoding, for every sequence of values.
pub proof fn lemma_decode_encode(values: Seq<u32>)
    ensures
        decode_spec(encode_spec(values)) == Ok::<Seq<u32>, CodecError>(values),
{
    lemma_decode_append(values, Seq::empty());
    assert(encode_spec(values) + Seq::<u8>::empty() =~= encode_spec(values));
    assert(values + Seq::<u32>::empty() =~= values);
}

/// What is left of an encoding without its last byte: all values but the
/// last if the last value took one byte, and a truncated stream otherwise.
pub proof fn lemma_decode_truncated(values: Seq<u32>)
    requires
        values.len() > 0,
    ensures
        encode_spec(values).len() > 0,
        decode_spec(encode_spec(values).drop_last()) == if values.last() < 128 {
            Ok::<Seq<u32>, CodecError>(values.drop_last())
        } else {
            Err::<Seq<u32>, CodecError>(CodecError::Truncated)
        },
{
    reveal_with_fuel(radix_weight, 6);
    let front = values.drop_last();
    let e = encode_value(values.last() as nat);
    let cut = e.drop_last();
    assert(front.push(values.last()) =~= values);
    lemma_encode_push(front, values.last());
    lemma_encode_value_shape(values.last() as nat, 5);
    assert(encode_spec(values).drop_last() =~= encode_spec(front) + cut);
    lemma_decode_append(front, cut);
    if values.last() < 128 {
        assert(front + Seq::<u32>::empty() =~= front);
    } else {
        lemma_run_exact(cut, cut.len());
    }
}

/// Encodes a slice of values as LEB128 bytes, one to five per value.
pub fn encode(values: &[u32]) -> (out: Vec<u8>)
    ensures
        out@ == encode_spec(values@),
{
    let mut out: Vec<u8> = Vec::new();
    let n = values.len();
    for i in 0..n
        invariant
            n == values@.len(),
            out@ == encode_spec(values@.take(i as int)),
    {
        let mut v: u32 = values[i];
        let ghost before = out@;
        while v >= 0x80
            invariant
                out@ + encode_value(v as nat) == before + encode_value(values@[i as int] as nat),
            decreases v,
        {
            let low = (v & 0x7F) as u8;
            let byte = low | 0x80;
            let next = v >> 7;
            assert(byte == v % 128 + 128 && next == v / 128) by (bit_vector)
                requires
                    low == (v & 0x7F) as u8,
                    byte == low | 0x80,
                    next == v >> 7,
            ;
            assert(out@.push(byte) + encode_value(next as nat) =~= out@ + encode_value(v as nat));
            out.push(byte);
            v = next;
        }
        let last = (v & 0x7F) as u8;
        assert(last == v) by (bit_vector)
            requires
                v < 0x80,
                last == (v & 0x7F) as u8,
        ;
        assert(out@.push(last) =~= out@ + encode_value(v as nat));
        out.push(last);
        proof {
            lemma_encode_push(values@.take(i as int), values@[i as int]);
            assert(values@.take(i + 1) =~= values@.take(i as int).push(values@[i as int]));
        }
    }
    assert(values@.take(n as int) =~= values@);
    out
}

/// One more group of seven bits, or-ed into the accumulator at its place,
/// keeps the accumulator at the value of the groups so far, cut to 32 bits.
proof fn lemma_accumulate(group: Seq<u8>, b: u8, before: u32, data: u32, shift: u32, acc: u32)
    requires
        group.len() <= 4,
        shift == 7 * group.len(),
        before == group_value(group),
        group_value(group) < radix_weight(group.len()),
        data == (b & 0x7F) as u32,
        acc == before | (data << shift),
    ensures
        acc == group_value(group.push(b)) % 0x1_0000_0000,
        group.len() <= 3 ==> group_value(group.push(b)) < radix_weight(group.len() + 1),
{
    reveal_with_fuel(radix_weight, 6);
    lemma_group_push(group, b);
    assert(data == b % 128) by (bit_vector)
        requires
            data == (b & 0x7F) as u32,
    ;
    let w = radix_weight(group.len());
    assert(w == 1 || w == 128 || w == 16384 || w == 2097152 || w == 268435456);
    assert(group_value(group.push(b)) == before + data * w);
    assert(data * w == if shift == 0 {
        data as int
    } else if shift == 7 {
        data * 128
    } else if shift == 14 {
        data * 16384
    } else if shift == 21 {
        data * 2097152
    } else {
        data * 268435456
    }) by (nonlinear_arith)
        requires
            shift == 0 ==> w == 1,
            shift == 7 ==> w == 128,
            shift == 14 ==> w == 16384,
            shift == 21 ==> w == 2097152,
            shift != 0 && shift != 7 && shift != 14 && shift != 21 ==> w == 268435456,
    ;
    assert(shift == 0 ==> acc == before + data) by (bit_vector)
        requires
            shift == 0 ==> before == 0 && acc == before | (data << shift),
    ;
    assert(shift == 7 ==> acc == before + data * 128) by (bit_vector)
        requires
            data < 128,
            shift == 7 ==> before < 128 && acc == before | (data << shift),
    ;
    assert(shift == 14 ==> acc == before + data * 16384) by (bit_vector)
        requires
            data < 128,
            shift == 14 ==> before < 16384 && acc == before | (data << shift),
    ;
    assert(shift == 21 ==> acc == before + data * 2097152) by (bit_vector)
        requires
            data < 128,
            shift == 21 ==> before < 2097152 && acc == before | (data << shift),
    ;
    assert(shift == 28 ==> acc == (before + data * 268435456) % 0x1_0000_0000) by (bit_vector)
        requires
            data < 128,
            shift == 28 ==> before < 268435456 && acc == before | (data << shift),
    ;
}

/// A value that ends at index `i`: the stream from `start` on decodes to
/// that value in front of what the stream behind `i` decodes to.
proof fn lemma_value_ends(bytes: Seq<u8>, start: int, i: int)
    requires
        0 <= start <= i < bytes.len(),
        i - start <= 4,
        forall|j: int| start <= j < i ==> bytes[j] >= 128,
        bytes[i] < 128,
    ensures
        decode_spec(bytes.skip(start)) == prepend(
            seq![(group_value(bytes.subrange(start, i + 1)) % 0x1_0000_0000) as u32],
            decode_spec(bytes.skip(i + 1)),
        ),
{
    let tail = bytes.skip(start);
    let k = i - start;
    assert(forall|j: int| 0 <= j <= k ==> tail[j] == bytes[start + j]);
    lemma_run_exact(tail, k as nat);
    assert(tail.take(k + 1) =~= bytes.subrange(start, i + 1));
    assert(tail.skip(k + 1) =~= bytes.skip(i + 1));
}

/// A sixth byte within one value: the stream from `start` on overflows.
proof fn lemma_value_overflows(bytes: Seq<u8>, start: int, i: int)
    requires
        0 <= start <= i < bytes.len(),
        i - start >= 5,
        forall|j: int| start <= j < i ==> bytes[j] >= 128,
    ensures
        decode_spec(bytes.skip(start)) == Err::<Seq<u32>, CodecError>(CodecError::Overflow),
{
    let tail = bytes.skip(start);
    assert(forall|j: int| 0 <= j < i - start ==> tail[j] == bytes[start + j]);
    lemma_run_at_least(tail, (i - start) as nat);
}

/// A stream that ends within a value of at most five bytes is truncated.
proof fn lemma_value_cut(bytes: Seq<u8>, start: int)
    requires
        0 <= start < bytes.len(),
        bytes.len() - start <= 5,
        forall|j: int| start <= j < bytes.len() ==> bytes[j] >= 128,
    ensures
        decode_spec(bytes.skip(start)) == Err::<Seq<u32>, CodecError>(CodecError::Truncated),
{
    let tail = bytes.skip(start);
    assert(forall|j: int| 0 <= j < tail.len() ==> tail[j] == bytes[start + j]);
    lemma_run_exact(tail, tail.len());
}

/// Decodes a LEB128 byte stream into its values. Fails with `Overflow` at a
/// sixth byte within one value, and with `Truncated` when the stream ends
/// within a value.
pub fn decode(bytes: &[u8]) -> (res: Result<Vec<u32>, CodecError>)
    ensures
        match res {
            Ok(values) => decode_spec(bytes@) == Ok::<Seq<u32>, CodecError>(values@),
            Err(e) => decode_spec(bytes@) == Err::<Seq<u32>, CodecError>(e),
        },
{
    let mut out: Vec<u32> = Vec::new();
    let mut acc: u32 = 0;
    let mut shift: u32 = 0;
    let ghost mut start: int = 0;
    let n = bytes.len();
    proof {
        assert(bytes@.skip(0) =~= bytes@);
        assert(bytes@.subrange(0, 0) =~= Seq::<u8>::empty());
        lemma_prepend_nothing(decode_spec(bytes@));
    }
    for i in 0..n
        invariant
            n == bytes@.len(),
            0 <= start <= i,
            i - start <= 5,
            shift == 7 * (i - start),
            forall|j: int| start <= j < i ==> bytes@[j] >= 128,
            acc == group_value(bytes@.subrange(start, i as int)) % 0x1_0000_0000,
            i - start <= 4 ==> group_value(bytes@.subrange(start, i as int)) < radix_weight(
                (i - start) as nat,
            ),
            decode_spec(bytes@) == prepend(out@, decode_spec(bytes@.skip(start))),
    {
        let b = bytes[i];
        let data = (b & 0x7F) as u32;
        if shift >= 32 {
            proof {
                lemma_value_overflows(bytes@, start, i as int);
            }
            return Err(CodecError::Overflow);
        }
        let ghost before = acc;
        let ghost group = bytes@.subrange(start, i as int);
        acc |= data << shift;
        proof {
            reveal_with_fuel(radix_weight, 6);
            lemma_accumulate(group, b, before, data, shift, acc);
            assert(group.push(b) =~= bytes@.subrange(start, i + 1));
        }
        if (b & 0x80) == 0 {
            proof {
                assert(b < 128) by (bit_vector)
                    requires
                        (b & 0x80) == 0,
                ;
                lemma_value_ends(bytes@, start, i as int);
                lemma_prepend_push(out@, acc, decode_spec(bytes@.skip(i + 1)));
                assert(bytes@.subrange(i + 1, i + 1) =~= Seq::<u8>::empty());
                start = i + 1;
            }
            out.push(acc);
            acc = 0;
            shift = 0;
        } else {
            proof {
                assert(b >= 128) by (bit_vector)
                    requires
                        (b & 0x80) != 0,
                ;
            }
            shift += 7;
        }
    }
    if shift != 0 {
        proof {
            lemma_value_cut(bytes@, start);
        }
        return Err(CodecError::Truncated);
    }
    proof {
        assert(bytes@.skip(start) =~= Seq::<u8>::empty());
        assert(out@ + Seq::<u32>::empty() =~= out@);
    }
    Ok(out)
}

/// Nothing in front of a result leaves it as it is.
proof fn lemma_prepend_nothing(rest: Result<Seq<u32>, CodecError>)
    ensures
        prepend(Seq::empty(), rest) == rest,
{
    match rest {
        Ok(more) => {
            assert(Seq::<u32>::empty() + more =~= more);
        },
        Err(_) => {},
    }
}

/// Putting `values` and then `v` in front is putting `values` with `v`
/// appended in front.
proof fn lemma_prepend_push(values: Seq<u32>, v: u32, rest: Result<Seq<u32>, CodecError>)
    ensures
        prepend(values, prepend(seq![v], rest)) == prepend(values.push(v), rest),
{
    match rest {
        Ok(more) => {
            assert(values + (seq![v] + more) =~= values.push(v) + more);
        },
        Err(_) => {},
    }
}

} // verus!
