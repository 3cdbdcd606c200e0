//! A compact, exactly reversible byte encoding for sequences of token
//! identifiers: frequency ranking, a rank table header, and a
//! delta + zigzag + LEB128 body.

pub mod codec_core;
pub mod errors;
pub mod freq_map;
pub mod header;
mod sort;
pub mod varint;
pub mod zigzag;

use crate::codec_core::{
    decode_payload, decode_payload_spec, decode_unpacked, decode_unpacked_spec, encode_payload,
    matches_spec, payload_spec, unpacked_view,
};
use crate::errors::CodecError;
use vstd::prelude::*;

verus! {

/// The codec. It holds no state: every call stands for itself.
///
/// The secondary compression stage is not part of the codec. A caller that
/// sets the flag hands the stage in as a function, and the same flag with
/// the inverse function to the paired call.
#[derive(Debug, Clone, Copy)]
pub struct Codec;

impl Codec {
    /// A codec.
    pub fn new() -> (codec: Self)
        ensures
            codec == Codec,
    {
        Codec
    }

    /// Answers "pong".
    pub fn ping(&self) -> (answer: String)
        ensures
            answer@ == "pong"@,
    {
        "pong".to_owned()
    }

    /// Encodes token identifiers as a payload and, if `gzip` is set, hands
    /// the payload through `compress`.
    ///
    /// Ranks are signed 32-bit integers, so `token_ids` may hold no more
    /// distinct tokens than there are such ranks.
    pub fn encode_token_ids<C>(&self, token_ids: Vec<i32>, gzip: bool, compress: C) -> (out: Vec<
        u8,
    >) where C: FnOnce(Vec<u8>) -> Vec<u8>
        requires
            token_ids@.to_set().len() <= 0x8000_0000,
            gzip ==> forall|payload: Vec<u8>|
                payload@ == payload_spec(token_ids@) ==> compress.requires((payload,)),
        ensures
            !gzip ==> out@ == payload_spec(token_ids@),
            gzip ==> exists|payload: Vec<u8>|
                payload@ == payload_spec(token_ids@) && compress.ensures((payload,), out),
    {
        let payload = encode_payload(token_ids.as_slice());
        if gzip {
            compress(payload)
        } else {
            payload
        }
    }

    /// Decodes a payload into its token identifiers; if `gzip` is set, what
    /// `decompress` makes of the payload is decoded, and `None` from it is
    /// a malformed payload.
    pub fn decode_token_ids<D>(&self, payload: Vec<u8>, gzip: bool, decompress: D) -> (res: Result<
        Vec<i32>,
        CodecError,
    >) where D: FnOnce(Vec<u8>) -> Option<Vec<u8>>
        requires
            gzip ==> decompress.requires((payload,)),
        ensures
            !gzip ==> matches_spec(res, decode_payload_spec(payload@)),
            gzip ==> exists|unpacked: Option<Vec<u8>>|
                decompress.ensures((payload,), unpacked) && matches_spec(
                    res,
                    decode_unpacked_spec(unpacked_view(unpacked)),
                ),
    {
        if gzip {
            let unpacked = decompress(payload);
            let ghost answer = unpacked;
            let res = decode_unpacked(unpacked);
            assert(decompress.ensures((payload,), answer) && matches_spec(
                res,
                decode_unpacked_spec(unpacked_view(answer)),
            ));
            res
        } else {
            decode_payload(payload.as_slice())
        }
    }
}

} // verus!
