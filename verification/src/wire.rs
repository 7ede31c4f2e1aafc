//! The canonical byte strings of the three messages, as `stdcode` writes them.
//!
//! A message is written as the tuple of its fields in declaration order. The
//! hash that identifies a message is taken over this writing with an empty
//! signature.

use vstd::prelude::*;

verus! {

/// The `stdcode` writing of a proposal's fields.
pub uninterp spec fn proposal_wire(
    nonce: u128,
    tick: u64,
    body: Seq<u8>,
    source: Seq<u8>,
    signature: Seq<u8>,
) -> Seq<u8>;

/// The `stdcode` writing of a solicit's fields.
pub uninterp spec fn solicit_wire(
    nonce: u128,
    tick: u64,
    previous: Seq<u8>,
    source: Seq<u8>,
    signature: Seq<u8>,
) -> Seq<u8>;

/// The `stdcode` writing of a vote's fields.
pub uninterp spec fn vote_wire(
    nonce: u128,
    voting_for: Seq<u8>,
    source: Seq<u8>,
    signature: Seq<u8>,
) -> Seq<u8>;

/// `stdcode::StdcodeSerializeExt::stdcode` on the five fields of a proposal,
/// the byte strings as `bytes::Bytes` and the key as `tmelcrypt::Ed25519PK`:
/// the bytes that come out are a function of the fields alone.
#[verifier::external_body]
pub(crate) fn encode_proposal(
    nonce: u128,
    tick: u64,
    body: &Vec<u8>,
    source: &[u8; 32],
    signature: &Vec<u8>,
) -> (out: Vec<u8>)
    ensures
        out@ == proposal_wire(nonce, tick, body@, source@, signature@),
{
    let body = bytes::Bytes::copy_from_slice(body);
    let signature = bytes::Bytes::copy_from_slice(signature);
    let fields = (nonce, tick, body, tmelcrypt::Ed25519PK(*source), signature);
    stdcode::StdcodeSerializeExt::stdcode(&fields)
}

/// `stdcode::StdcodeSerializeExt::stdcode` on the five fields of a solicit,
/// the hash as `tmelcrypt::HashVal`, the key as `tmelcrypt::Ed25519PK` and the
/// signature as `bytes::Bytes`: the bytes that come out are a function of the
/// fields alone.
#[verifier::external_body]
pub(crate) fn encode_solicit(
    nonce: u128,
    tick: u64,
    previous: &[u8; 32],
    source: &[u8; 32],
    signature: &Vec<u8>,
) -> (out: Vec<u8>)
    ensures
        out@ == solicit_wire(nonce, tick, previous@, source@, signature@),
{
    let signature = bytes::Bytes::copy_from_slice(signature);
    let previous = tmelcrypt::HashVal(*previous);
    let fields = (nonce, tick, previous, tmelcrypt::Ed25519PK(*source), signature);
    stdcode::StdcodeSerializeExt::stdcode(&fields)
}

/// `stdcode::StdcodeSerializeExt::stdcode` on the four fields of a vote, the
/// hash as `tmelcrypt::HashVal`, the key as `tmelcrypt::Ed25519PK` and the
/// signature as `bytes::Bytes`: the bytes that come out are a function of the
/// fields alone.
#[verifier::external_body]
pub(crate) fn encode_vote(
    nonce: u128,
    voting_for: &[u8; 32],
    source: &[u8; 32],
    signature: &Vec<u8>,
) -> (out: Vec<u8>)
    ensures
        out@ == vote_wire(nonce, voting_for@, source@, signature@),
{
    let signature = bytes::Bytes::copy_from_slice(signature);
    let voting_for = tmelcrypt::HashVal(*voting_for);
    let fields = (nonce, voting_for, tmelcrypt::Ed25519PK(*source), signature);
    stdcode::StdcodeSerializeExt::stdcode(&fields)
}

} // verus!
