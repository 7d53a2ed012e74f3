//! Trusted decoders for the domain records stored in the authoritative
//! columns, and the cryptographic hash used by the legacy shard assignment.
//!
//! The binary serialization of blocks, chunks and receipts and the hash
//! function are external collaborators: this module declares what each call
//! returns, over plain byte values, and the verified code builds on those
//! contracts alone. Decoding is deterministic in the input bytes, so each
//! decoder's result is given a name by an uninterpreted spec function.

use borsh::BorshDeserialize;
use vstd::prelude::*;

use crate::store::entries_view;

verus! {

/// What the chunk stored as `bytes` holds: `None` when the bytes do not
/// decode as a chunk, else one `(transaction hash, serialized transaction)`
/// pair per transaction, in chunk order.
pub uninterp spec fn chunk_transactions_of(bytes: Seq<u8>) -> Option<Seq<(Seq<u8>, Seq<u8>)>>;

/// What the outgoing-receipt list stored as `bytes` holds: `None` when the
/// bytes do not decode as a receipt list, else one `(receipt id, receiver
/// account bytes)` pair per receipt, in list order.
pub uninterp spec fn receipt_entries_of(bytes: Seq<u8>) -> Option<Seq<(Seq<u8>, Seq<u8>)>>;

/// How many chunks the block stored as `bytes` references: `None` when the
/// bytes do not decode as a block.
pub uninterp spec fn block_chunk_count_of(bytes: Seq<u8>) -> Option<u64>;

/// The 32-byte cryptographic digest of `bytes`.
pub uninterp spec fn sha256_of(bytes: Seq<u8>) -> Seq<u8>;

/// Relies on borsh deserialization of `near_primitives::sharding::ShardChunk`
/// (deterministic in the bytes alone), on `ShardChunk::to_transactions`, on
/// `SignedTransaction::get_hash` and on borsh serialization of each
/// transaction: returns the chunk's transactions as
/// `(content-hash bytes, serialized bytes)` pairs, `None` on decode failure.
#[verifier::external_body]
pub fn decode_chunk_transactions(bytes: &Vec<u8>) -> (r: Option<Vec<(Vec<u8>, Vec<u8>)>>)
    ensures
        match r {
            Some(v) => chunk_transactions_of(bytes@) == Some(entries_view(v@)),
            None => chunk_transactions_of(bytes@) is None,
        },
{
    let chunk = near_primitives::sharding::ShardChunk::try_from_slice(bytes.as_slice()).ok()?;
    let mut out: Vec<(Vec<u8>, Vec<u8>)> = Vec::new();
    for tx in chunk.to_transactions() {
        let hash = tx.get_hash().0.to_vec();
        let payload = borsh::to_vec(tx).ok()?;
        out.push((hash, payload));
    }
    Some(out)
}

/// Relies on borsh deserialization of `Vec<near_primitives::receipt::Receipt>`
/// (deterministic in the bytes alone), on `Receipt::receipt_id` and on
/// `Receipt::receiver_id`: returns one `(receipt id, receiver account bytes)`
/// pair per receipt, `None` on decode failure.
#[verifier::external_body]
pub fn decode_receipt_entries(bytes: &Vec<u8>) -> (r: Option<Vec<(Vec<u8>, Vec<u8>)>>)
    ensures
        match r {
            Some(v) => receipt_entries_of(bytes@) == Some(entries_view(v@)),
            None => receipt_entries_of(bytes@) is None,
        },
{
    let receipts =
        <Vec<near_primitives::receipt::Receipt>>::try_from_slice(bytes.as_slice()).ok()?;
    let mut out: Vec<(Vec<u8>, Vec<u8>)> = Vec::new();
    for receipt in &receipts {
        out.push((receipt.receipt_id().0.to_vec(), receipt.receiver_id().as_bytes().to_vec()));
    }
    Some(out)
}

/// Relies on borsh deserialization of `near_primitives::block::Block`
/// (deterministic in the bytes alone) and on `Block::chunks`: returns how
/// many chunk headers the block references, `None` on decode failure.
#[verifier::external_body]
pub fn decode_block_chunk_count(bytes: &Vec<u8>) -> (r: Option<u64>)
    ensures
        r == block_chunk_count_of(bytes@),
{
    match near_primitives::block::Block::try_from_slice(bytes.as_slice()) {
        Ok(block) => Some(block.chunks().len() as u64),
        Err(_) => None,
    }
}

/// Relies on `near_primitives::hash::hash` (sha-256): a 32-byte digest,
/// a function of the input bytes alone.
#[verifier::external_body]
pub fn sha256(bytes: &Vec<u8>) -> (r: Vec<u8>)
    ensures
        r@ == sha256_of(bytes@),
        r@.len() == 32,
{
    near_primitives::hash::hash(bytes.as_slice()).0.to_vec()
}

} // verus!
