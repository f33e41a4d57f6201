//! Tests of the block-commit protocol: the verification gate, height
//! validation, and the all-or-nothing visibility of the consensus seal,
//! header root, and latest-height marker.

use txpool_core::block::{Block, Consensus, ImportResult, SealedBlock};
use txpool_core::importer::{
    BlockImporterAdapter, Database, Error, StorageTransaction, UncommittedResult, VerifierAdapter,
};
use txpool_core::tx::Transaction;

fn block(id: u64, height: u64, header_root: u64) -> Block {
    Block { id, height, header_root, transactions: Vec::<Transaction>::new() }
}

fn uncommitted(database: &Database, sealed_block: SealedBlock) -> UncommittedResult {
    UncommittedResult {
        result: ImportResult { sealed_block },
        transaction: StorageTransaction::new(database),
    }
}

#[test]
fn successful_commit_is_visible_at_once() {
    let verifier = VerifierAdapter::new();
    let mut importer = BlockImporterAdapter::new(Database::new());
    assert_eq!(importer.latest_block_height(), Err(Error::NoCommittedHeight));

    let consensus = Consensus::PoA { signature: 3 };
    let b = block(42, 0, 77);
    verifier.verify_block_fields(&consensus, &b).unwrap();
    let up = uncommitted(&importer.database, SealedBlock { entity: b, consensus });
    assert_eq!(importer.commit_result(up), Ok(()));

    assert_eq!(importer.latest_block_height(), Ok(0));
    assert_eq!(importer.database.get_seal(42), Some(Consensus::PoA { signature: 3 }));
    assert_eq!(importer.database.get_root(0), Some(77));

    // The next block must carry the successor height.
    let consensus = Consensus::PoA { signature: 4 };
    let b = block(43, 1, 78);
    verifier.verify_block_fields(&consensus, &b).unwrap();
    let up = uncommitted(&importer.database, SealedBlock { entity: b, consensus });
    assert_eq!(importer.commit_result(up), Ok(()));
    assert_eq!(importer.latest_block_height(), Ok(1));
}

#[test]
fn failed_commit_leaves_no_partial_write() {
    let verifier = VerifierAdapter::new();
    let mut database = Database::new();
    // A header root for height 0 is already stored, so the root insert
    // inside the transaction fails after the seal insert succeeded.
    assert_eq!(database.insert_block_header_merkle_root(0, 99), None);
    let mut importer = BlockImporterAdapter::new(database);

    let consensus = Consensus::PoA { signature: 3 };
    let b = block(42, 0, 77);
    verifier.verify_block_fields(&consensus, &b).unwrap();
    let up = uncommitted(&importer.database, SealedBlock { entity: b, consensus });
    assert_eq!(importer.commit_result(up), Err(Error::RootOverwrite));

    // Nothing of the attempt is visible: no seal, no new root, no height.
    assert_eq!(importer.database.get_seal(42), None);
    assert_eq!(importer.database.get_root(0), Some(99));
    assert_eq!(importer.latest_block_height(), Err(Error::NoCommittedHeight));
}

#[test]
fn seal_overwrite_discards_the_transaction() {
    let verifier = VerifierAdapter::new();
    let mut database = Database::new();
    assert_eq!(database.seal_block(42, Consensus::Genesis), None);
    let mut importer = BlockImporterAdapter::new(database);

    let consensus = Consensus::PoA { signature: 3 };
    let b = block(42, 0, 77);
    verifier.verify_block_fields(&consensus, &b).unwrap();
    let up = uncommitted(&importer.database, SealedBlock { entity: b, consensus });
    assert_eq!(importer.commit_result(up), Err(Error::SealOverwrite));
    assert_eq!(importer.database.get_seal(42), Some(Consensus::Genesis));
    assert_eq!(importer.database.get_root(0), None);
}

#[test]
fn wrong_height_is_rejected_before_any_staging() {
    let verifier = VerifierAdapter::new();
    let mut importer = BlockImporterAdapter::new(Database::new());
    let consensus = Consensus::PoA { signature: 3 };
    let b = block(42, 5, 77);
    verifier.verify_block_fields(&consensus, &b).unwrap();
    let up = uncommitted(&importer.database, SealedBlock { entity: b, consensus });
    assert_eq!(importer.commit_result(up), Err(Error::InvalidBlockHeight));
    assert_eq!(importer.database.get_seal(42), None);
    assert_eq!(importer.latest_block_height(), Err(Error::NoCommittedHeight));
}

#[test]
fn verification_gates_commit() {
    let verifier = VerifierAdapter::new();
    // A proof-of-authority seal without a signature is rejected by the
    // verifier, so no commit may be attempted for this block at all.
    let consensus = Consensus::PoA { signature: 0 };
    let b = block(42, 0, 77);
    assert_eq!(verifier.verify_block_fields(&consensus, &b), Err(Error::InvalidBlockFields));

    // A genesis seal is valid only at height zero.
    let b = block(42, 3, 77);
    assert_eq!(
        verifier.verify_block_fields(&Consensus::Genesis, &b),
        Err(Error::InvalidBlockFields)
    );
    let b = block(42, 0, 77);
    assert_eq!(verifier.verify_block_fields(&Consensus::Genesis, &b), Ok(()));
}
