//! Block-side data: the header fields the core reads (id, height, header
//! root), the consensus seal, and the committed-block notification the
//! import pipeline hands to the pool service.

use vstd::prelude::*;

use crate::tx::Transaction;

verus! {

/// The consensus seal attached to a block at commit time.
#[derive(Clone, Copy, Debug, PartialEq, Eq)]
pub enum Consensus {
    Genesis,
    PoA { signature: u64 },
}

/// The part of a block this core reads: its id, height, header merkle
/// root, and the transactions it finalized.
#[derive(Debug)]
pub struct Block {
    pub id: u64,
    pub height: u64,
    pub header_root: u64,
    pub transactions: Vec<Transaction>,
}

/// A block together with its consensus seal.
#[derive(Debug)]
pub struct SealedBlock {
    pub entity: Block,
    pub consensus: Consensus,
}

/// A committed-block notification: produced by the import pipeline,
/// consumed by the pool service to trigger reconciliation.
#[derive(Debug)]
pub struct ImportResult {
    pub sealed_block: SealedBlock,
}

} // verus!
