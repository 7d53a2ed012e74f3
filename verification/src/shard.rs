//! Legacy shard assignment: the deterministic shard index of an account
//! identifier, used only while rebuilding derived data that predates stored
//! shard assignments, and the discovery of the chain's shard count.

use crate::MigrationError;
use crate::domain::{block_chunk_count_of, decode_block_chunk_count, sha256, sha256_of};
use crate::store::{DBCol, Store};
use vstd::prelude::*;

verus! {

/// The 64-bit word read little-endian from the first eight bytes of `s`.
pub open spec fn u64_from_le8(s: Seq<u8>) -> u64
    recommends
        s.len() >= 8,
{
    (s[0] as u64) | ((s[1] as u64) << 8) | ((s[2] as u64) << 16) | ((s[3] as u64) << 24) | ((
    s[4] as u64) << 32) | ((s[5] as u64) << 40) | ((s[6] as u64) << 48) | ((s[7] as u64) << 56)
}

/// The legacy shard index of an account: the first eight bytes of the
/// account's digest, read little-endian, reduced modulo the shard count.
pub open spec fn spec_shard_id(account: Seq<u8>, num_shards: u64) -> u64
    recommends
        num_shards > 0,
{
    (u64_from_le8(sha256_of(account)) as int % num_shards as int) as u64
}

/// The shard index a digest maps to: its first eight bytes, read
/// little-endian, reduced modulo the shard count.
pub fn shard_index_from_digest(digest: &Vec<u8>, num_shards: u64) -> (r: u64)
    requires
        digest@.len() >= 8,
        num_shards > 0,
    ensures
        r == (u64_from_le8(digest@) as int % num_shards as int) as u64,
{
    let b0 = digest[0];
    let b1 = digest[1];
    let b2 = digest[2];
    let b3 = digest[3];
    let b4 = digest[4];
    let b5 = digest[5];
    let b6 = digest[6];
    let b7 = digest[7];
    let x: u64 = (b0 as u64) | ((b1 as u64) << 8) | ((b2 as u64) << 16) | ((b3 as u64) << 24) | ((
    b4 as u64) << 32) | ((b5 as u64) << 40) | ((b6 as u64) << 48) | ((b7 as u64) << 56);
    x % num_shards
}

/// The legacy shard index of an account identifier, bit-exact with the
/// scheme it reproduces: hash the account's raw bytes, read the first eight
/// digest bytes as an unsigned little-endian integer, reduce modulo
/// `num_shards`.
pub fn account_id_to_shard_id_v6(account_id: &Vec<u8>, num_shards: u64) -> (r: u64)
    requires
        num_shards > 0,
    ensures
        r == spec_shard_id(account_id@, num_shards),
{
    let digest = sha256(account_id);
    shard_index_from_digest(&digest, num_shards)
}

/// The shard count the block column implies: `Some(1)` when no block exists
/// (the chain has not started sharding), else the first block's chunk count,
/// `None` when that block does not decode.
pub open spec fn num_shards_spec(blocks: Seq<(Seq<u8>, Seq<u8>)>) -> Option<u64> {
    if blocks.len() == 0 {
        Some(1u64)
    } else {
        block_chunk_count_of(blocks[0].1)
    }
}

/// Discovers the chain's shard count: decodes the first block found in the
/// block column and returns the number of chunks it references; returns 1
/// when no block exists. A block that does not decode is fatal
/// (`DomainDecodeFailure`).
pub fn get_num_shards(store: &Store) -> (r: Result<u64, MigrationError>)
    ensures
        r matches Ok(n) ==> num_shards_spec(store.col_view(DBCol::ColBlock)) == Some(n),
        r is Ok <==> num_shards_spec(store.col_view(DBCol::ColBlock)) is Some,
        r matches Err(e) ==> e == MigrationError::DomainDecodeFailure,
{
    let blocks = store.iter(DBCol::ColBlock);
    if blocks.len() == 0 {
        return Ok(1);
    }
    proof {
        assert(store.col_view(DBCol::ColBlock)[0] == (blocks@[0].0@, blocks@[0].1@));
    }
    match decode_block_chunk_count(&blocks[0].1) {
        Some(n) => Ok(n),
        None => Err(MigrationError::DomainDecodeFailure),
    }
}

} // verus!
