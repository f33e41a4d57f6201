//! Plain data carried through the pool: transactions, pool entries,
//! admission results, rejection reasons, and the two notification records
//! (`TxStatus`, `TxUpdate`) published on the fan-out topics.

use vstd::prelude::*;

verus! {

/// An immutable transaction value. A transaction is identified by `id`,
/// consumes `gas` when executed, pays `tip` per unit of gas (its effective
/// gas price, used to rank candidates for block production), spends the
/// single coin `coin` (two live transactions may never spend the same
/// coin), and may depend on one earlier transaction.
#[derive(Clone, Copy, Debug, PartialEq, Eq)]
pub struct Transaction {
    pub id: u64,
    pub gas: u64,
    pub tip: u64,
    pub coin: u64,
    pub dependency: Option<u64>,
}

/// A pool entry: a transaction together with its submission sequence
/// number. The sequence number is unique over the life of a pool and
/// serves as the stable secondary key of the selection order.
#[derive(Clone, Copy, Debug, PartialEq, Eq)]
pub struct TxInfo {
    pub tx: Transaction,
    pub submitted: u64,
}

/// Pool configuration: the gas a single transaction may consume, and the
/// total gas the pool is willing to hold across all live entries.
#[derive(Clone, Copy, Debug, PartialEq, Eq)]
pub struct Config {
    pub max_gas_per_tx: u64,
    pub max_pool_gas: u64,
}

/// Why a submission was rejected, or why a live transaction was evicted.
#[derive(Clone, Copy, Debug, PartialEq, Eq)]
pub enum Error {
    /// The transaction's gas is zero or exceeds the per-transaction limit.
    GasLimitExceeded,
    /// Admitting the transaction would push the pool past its total gas bound.
    PoolGasLimit,
    /// The pool's submission sequence space is exhausted.
    PoolFull,
    /// The id is already live in the pool or already committed.
    DuplicateTxId,
    /// The declared dependency is neither live nor committed.
    UnknownDependency,
    /// Another transaction spends the same coin; as a rejection reason the
    /// incumbent paid at least as much, as an eviction reason a newcomer
    /// paid more.
    ConflictingSpend,
    /// The transaction was removed by an explicit administrative request.
    Removed,
}

/// Outcome of one accepted admission: the transaction that entered and the
/// conflicting incumbent it displaced, if any.
#[derive(Clone, Copy, Debug, PartialEq, Eq)]
pub struct InsertionResult {
    pub inserted: Transaction,
    pub removed: Option<Transaction>,
}

/// Coarse activity signal published on the status topic. It carries no
/// transaction id: it is a cheap wake-up for subscribers that re-query.
#[derive(Clone, Copy, Debug, PartialEq, Eq)]
pub enum TxStatus {
    Submitted,
    Completed,
    SqueezedOut { reason: Error },
}

/// Keyed activity record published on the update topic. `squeezed_out`
/// is `None` for a submission or completion and `Some(reason)` for an
/// involuntary eviction.
#[derive(Clone, Copy, Debug, PartialEq, Eq)]
pub struct TxUpdate {
    pub tx_id: u64,
    pub squeezed_out: Option<Error>,
}

impl TxUpdate {
    /// The record for a transaction that was submitted or completed.
    pub fn updated(tx_id: u64) -> (r: Self)
        ensures
            r == (TxUpdate { tx_id, squeezed_out: None }),
    {
        Self { tx_id, squeezed_out: None }
    }

    /// The record for a transaction evicted involuntarily for `reason`.
    pub fn squeezed_out(tx_id: u64, reason: Error) -> (r: Self)
        ensures
            r == (TxUpdate { tx_id, squeezed_out: Some(reason) }),
    {
        Self { tx_id, squeezed_out: Some(reason) }
    }

    pub fn tx_id(&self) -> (r: u64)
        ensures
            r == self.tx_id,
    {
        self.tx_id
    }

    pub fn was_squeezed_out(&self) -> (r: bool)
        ensures
            r == self.squeezed_out.is_some(),
    {
        self.squeezed_out.is_some()
    }

    pub fn into_squeezed_out_reason(self) -> (r: Option<Error>)
        ensures
            r == self.squeezed_out,
    {
        self.squeezed_out
    }
}

} // verus!
