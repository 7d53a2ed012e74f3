#![allow(deprecated)]

use near_crypto::{KeyType, PublicKey, Signature};
use near_primitives::block::{Block, BlockV1};
use near_primitives::block_header::{
    BlockHeader, BlockHeaderInnerLite, BlockHeaderInnerRest, BlockHeaderV1,
};
use near_primitives::hash::CryptoHash;
use near_primitives::receipt::{DataReceipt, Receipt, ReceiptEnum, ReceiptV0};
use near_primitives::sharding::{ShardChunk, ShardChunkHeader, ShardChunkHeaderV1};
use near_primitives::transaction::{SignedTransaction, Transaction, TransactionV0};
use near_primitives::types::{AccountId, ShardId};

use refcount_migrations::MigrationError;
use refcount_migrations::codec::encode_value_with_rc;
use refcount_migrations::migrate::{
    col_state_refcount_8byte, migrate_col_transaction_refcount, migrate_receipts_refcount,
    repair_col_transactions,
};
use refcount_migrations::shard::{account_id_to_shard_id_v6, get_num_shards, shard_index_from_digest};
use refcount_migrations::store::{DBCol, Store, StoreUpdate, commit};

fn account(name: &str) -> AccountId {
    name.parse().unwrap()
}

fn make_tx(nonce: u64) -> SignedTransaction {
    SignedTransaction::new(
        Signature::default(),
        Transaction::V0(TransactionV0 {
            signer_id: account("alice.near"),
            public_key: PublicKey::empty(KeyType::ED25519),
            nonce,
            receiver_id: account("bob.near"),
            block_hash: CryptoHash::default(),
            actions: vec![],
        }),
    )
}

fn chunk_bytes(height: u64, txs: Vec<SignedTransaction>) -> Vec<u8> {
    let header = ShardChunkHeader::V1(ShardChunkHeaderV1::new_dummy(
        height,
        ShardId::new(0),
        CryptoHash::default(),
    ));
    borsh::to_vec(&ShardChunk::new(header, txs, vec![])).unwrap()
}

fn tx_key(tx: &SignedTransaction) -> Vec<u8> {
    tx.get_hash().0.to_vec()
}

fn tx_entry(tx: &SignedTransaction, rc: i64) -> Vec<u8> {
    encode_value_with_rc(&borsh::to_vec(tx).unwrap(), rc)
}

fn make_receipt(id: u8, receiver: &str) -> Receipt {
    Receipt::V0(ReceiptV0 {
        predecessor_id: account("alice.near"),
        receiver_id: account(receiver),
        receipt_id: CryptoHash([id; 32]),
        receipt: ReceiptEnum::Data(DataReceipt { data_id: CryptoHash::default(), data: None }),
    })
}

fn lookup(store: &Store, col: DBCol, key: &[u8]) -> Option<Vec<u8>> {
    for (k, v) in store.iter(col).iter() {
        if k.as_slice() == key {
            return Some(v.clone());
        }
    }
    None
}

fn block_with_chunks(count: usize) -> Vec<u8> {
    let mut chunks: Vec<ShardChunkHeaderV1> = Vec::new();
    let mut i: usize = 0;
    while i < count {
        chunks.push(ShardChunkHeaderV1::new_dummy(1, ShardId::new(i as u64), CryptoHash::default()));
        i += 1;
    }
    let header = BlockHeader::BlockHeaderV1(BlockHeaderV1 {
        prev_hash: CryptoHash::default(),
        inner_lite: BlockHeaderInnerLite {
            height: 1,
            epoch_id: Default::default(),
            next_epoch_id: Default::default(),
            prev_state_root: CryptoHash::default(),
            prev_outcome_root: CryptoHash::default(),
            timestamp: 0,
            next_bp_hash: CryptoHash::default(),
            block_merkle_root: CryptoHash::default(),
        },
        inner_rest: BlockHeaderInnerRest {
            prev_chunk_outgoing_receipts_root: CryptoHash::default(),
            chunk_headers_root: CryptoHash::default(),
            chunk_tx_root: CryptoHash::default(),
            chunks_included: count as u64,
            challenges_root: CryptoHash::default(),
            random_value: CryptoHash::default(),
            prev_validator_proposals: vec![],
            chunk_mask: vec![],
            next_gas_price: near_primitives::types::Balance::from_yoctonear(0),
            total_supply: near_primitives::types::Balance::from_yoctonear(0),
            challenges_result: vec![],
            last_final_block: CryptoHash::default(),
            last_ds_final_block: CryptoHash::default(),
            approvals: vec![],
            latest_protocol_version: 1,
        },
        signature: Signature::default(),
        hash: CryptoHash::default(),
    });
    let block = Block::BlockV1(BlockV1 {
        header,
        chunks,
        challenges: vec![],
        vrf_value: near_crypto::vrf::Value([0; 32]),
        vrf_proof: near_crypto::vrf::Proof([0; 64]),
    });
    borsh::to_vec(&block).unwrap()
}

#[test]
fn rebuild_transactions_counts_occurrences_and_drops_stale() {
    let t1 = make_tx(1);
    let t2 = make_tx(2);
    let t3 = make_tx(3);
    let mut store = Store::new();
    store.col_chunks.push((vec![1], chunk_bytes(1, vec![t1.clone(), t2.clone()])));
    store.col_chunks.push((vec![2], chunk_bytes(2, vec![t1.clone()])));
    store.col_transactions.push((tx_key(&t3), tx_entry(&t3, 1)));
    store.col_transaction_refcount.push((tx_key(&t1), vec![2, 0, 0, 0, 0, 0, 0, 0]));

    let mut update = StoreUpdate::new();
    migrate_col_transaction_refcount(&store, &mut update).unwrap();
    commit(&mut store, &update);

    assert_eq!(store.iter(DBCol::ColTransactions).len(), 2);
    assert_eq!(lookup(&store, DBCol::ColTransactions, &tx_key(&t1)), Some(tx_entry(&t1, 2)));
    assert_eq!(lookup(&store, DBCol::ColTransactions, &tx_key(&t2)), Some(tx_entry(&t2, 1)));
    assert_eq!(lookup(&store, DBCol::ColTransactions, &tx_key(&t3)), None);
    assert_eq!(store.iter(DBCol::ColTransactionRefCount).len(), 0);
}

#[test]
fn rebuild_transactions_is_idempotent() {
    let t1 = make_tx(1);
    let mut store = Store::new();
    store.col_chunks.push((vec![1], chunk_bytes(1, vec![t1.clone(), t1.clone()])));
    store.col_transaction_refcount.push((vec![7], vec![1, 0, 0, 0]));

    let mut update = StoreUpdate::new();
    migrate_col_transaction_refcount(&store, &mut update).unwrap();
    assert!(update.ops.len() > 0);
    commit(&mut store, &update);

    let mut second = StoreUpdate::new();
    migrate_col_transaction_refcount(&store, &mut second).unwrap();
    assert_eq!(second.ops.len(), 0);
}

#[test]
fn rebuild_transactions_order_independent() {
    let t1 = make_tx(1);
    let t2 = make_tx(2);
    let c1 = chunk_bytes(1, vec![t1.clone(), t2.clone()]);
    let c2 = chunk_bytes(2, vec![t1.clone()]);

    let mut store_a = Store::new();
    store_a.col_chunks.push((vec![1], c1.clone()));
    store_a.col_chunks.push((vec![2], c2.clone()));
    let mut store_b = Store::new();
    store_b.col_chunks.push((vec![2], c2));
    store_b.col_chunks.push((vec![1], c1));

    let mut ua = StoreUpdate::new();
    repair_col_transactions(&store_a, &mut ua).unwrap();
    commit(&mut store_a, &ua);
    let mut ub = StoreUpdate::new();
    repair_col_transactions(&store_b, &mut ub).unwrap();
    commit(&mut store_b, &ub);

    let mut entries_a: Vec<(Vec<u8>, Vec<u8>)> = store_a.iter(DBCol::ColTransactions).clone();
    let mut entries_b: Vec<(Vec<u8>, Vec<u8>)> = store_b.iter(DBCol::ColTransactions).clone();
    entries_a.sort();
    entries_b.sort();
    assert_eq!(entries_a, entries_b);
}

#[test]
fn rebuild_transactions_fails_on_undecodable_chunk() {
    let mut store = Store::new();
    store.col_chunks.push((vec![1], vec![0xFF, 0xFF, 0xFF]));
    let mut update = StoreUpdate::new();
    assert_eq!(
        repair_col_transactions(&store, &mut update),
        Err(MigrationError::DomainDecodeFailure)
    );
    assert_eq!(update.ops.len(), 0);
}

#[test]
fn rebuild_receipts_wipes_column_when_source_empty() {
    let mut store = Store::new();
    for i in 0..5u8 {
        store.col_receipt_id_to_shard_id.push((vec![i], vec![i, 1, 2, 3]));
    }
    let mut update = StoreUpdate::new();
    migrate_receipts_refcount(&store, &mut update).unwrap();
    commit(&mut store, &update);
    assert_eq!(store.iter(DBCol::ColReceiptIdToShardId).len(), 0);

    let mut second = StoreUpdate::new();
    migrate_receipts_refcount(&store, &mut second).unwrap();
    assert_eq!(second.ops.len(), 0);
}

#[test]
fn rebuild_receipts_counts_occurrences_with_single_shard() {
    let r1 = make_receipt(1, "carol.near");
    let r2 = make_receipt(2, "dave.near");
    let mut store = Store::new();
    store
        .col_outgoing_receipts
        .push((vec![1], borsh::to_vec(&vec![r1.clone(), r2.clone()]).unwrap()));
    store.col_outgoing_receipts.push((vec![2], borsh::to_vec(&vec![r1.clone()]).unwrap()));

    let mut update = StoreUpdate::new();
    migrate_receipts_refcount(&store, &mut update).unwrap();
    commit(&mut store, &update);

    // No block exists, so the chain is single-shard: every receiver maps to
    // shard 0, stored as its 8 little-endian bytes under the wide refcount.
    let shard0: Vec<u8> = vec![0; 8];
    assert_eq!(
        lookup(&store, DBCol::ColReceiptIdToShardId, &[1u8; 32]),
        Some(encode_value_with_rc(&shard0, 2))
    );
    assert_eq!(
        lookup(&store, DBCol::ColReceiptIdToShardId, &[2u8; 32]),
        Some(encode_value_with_rc(&shard0, 1))
    );
    assert_eq!(store.iter(DBCol::ColReceiptIdToShardId).len(), 2);
}

#[test]
fn rebuild_receipts_fails_on_undecodable_entry() {
    let mut store = Store::new();
    store.col_outgoing_receipts.push((vec![1], vec![0xFF]));
    let mut update = StoreUpdate::new();
    assert_eq!(
        migrate_receipts_refcount(&store, &mut update),
        Err(MigrationError::DomainDecodeFailure)
    );
    assert_eq!(update.ops.len(), 0);
}

#[test]
fn num_shards_comes_from_first_block_chunk_count() {
    let mut store = Store::new();
    store.col_block.push((vec![1], block_with_chunks(4)));
    assert_eq!(get_num_shards(&store), Ok(4));
}

#[test]
fn num_shards_defaults_to_one_without_blocks() {
    let store = Store::new();
    assert_eq!(get_num_shards(&store), Ok(1));
}

#[test]
fn num_shards_fails_on_undecodable_block() {
    let mut store = Store::new();
    store.col_block.push((vec![1], vec![0xEE, 0xEE]));
    assert_eq!(get_num_shards(&store), Err(MigrationError::DomainDecodeFailure));
}

#[test]
fn shard_index_reads_digest_little_endian_and_reduces() {
    let mut digest = vec![0u8; 32];
    digest[0] = 0x03;
    digest[1] = 0x10;
    assert_eq!(shard_index_from_digest(&digest, 4), 0x1003 % 4);
    assert_eq!(shard_index_from_digest(&digest, 4), 3);
}

#[test]
fn account_shard_matches_hash_of_account_bytes() {
    let bytes: Vec<u8> = b"test.near".to_vec();
    let digest = near_primitives::hash::hash(&bytes).0;
    let mut expected: u64 = 0;
    for i in (0..8).rev() {
        expected = (expected << 8) | digest[i] as u64;
    }
    assert_eq!(account_id_to_shard_id_v6(&bytes, 5), expected % 5);
}

#[test]
fn widen_step_extends_counters_and_deletes_short_records() {
    let mut store = Store::new();
    store.col_state.push((vec![1], vec![1, 2]));
    store.col_state.push((vec![2], vec![9, 9, 9, 9, 5]));
    let mut update = StoreUpdate::new();
    col_state_refcount_8byte(&store, &mut update);
    commit(&mut store, &update);
    assert_eq!(lookup(&store, DBCol::ColState, &[1]), None);
    assert_eq!(lookup(&store, DBCol::ColState, &[2]), Some(vec![9, 9, 9, 9, 5, 0, 0, 0, 0]));
}

#[test]
fn rebuild_receipts_fails_on_zero_shard_count() {
    let mut store = Store::new();
    store.col_block.push((vec![1], block_with_chunks(0)));
    let mut update = StoreUpdate::new();
    assert_eq!(
        migrate_receipts_refcount(&store, &mut update),
        Err(MigrationError::ArithmeticFailure)
    );
    assert_eq!(update.ops.len(), 0);
}
