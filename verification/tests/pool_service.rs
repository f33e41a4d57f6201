//! Behavioural tests of the pool surface: admission, the status/update
//! fan-out, conflict displacement, gas-bounded selection, dependency
//! handling, administrative removal, and reconciliation against committed
//! blocks.

use txpool_core::block::{Block, Consensus, ImportResult, SealedBlock};
use txpool_core::service::{GossipData, PoolEvent, SharedState, Task};
use txpool_core::tx::{Config, Error, Transaction, TxStatus, TxUpdate};

fn cfg() -> Config {
    Config { max_gas_per_tx: 1_000, max_pool_gas: 10_000 }
}

fn tx(id: u64, gas: u64, tip: u64, coin: u64, dependency: Option<u64>) -> Transaction {
    Transaction { id, gas, tip, coin, dependency }
}

fn sealed_block(id: u64, height: u64, transactions: Vec<Transaction>) -> SealedBlock {
    SealedBlock {
        entity: Block { id, height, header_root: 7, transactions },
        consensus: Consensus::PoA { signature: 1 },
    }
}

#[test]
fn submit_one_transaction_emits_submitted_and_one_broadcast() {
    let mut shared = SharedState::new(cfg(), 100);
    let mut status_rx = shared.tx_status_subscribe();
    let mut update_rx = shared.tx_update_subscribe();

    let a = tx(1, 100, 5, 10, None);
    let (results, to_broadcast) = shared.insert(vec![a]);

    assert_eq!(results.len(), 1);
    let ok = results[0].as_ref().unwrap();
    assert_eq!(ok.inserted, a);
    assert_eq!(ok.removed, None);
    assert_eq!(to_broadcast, vec![a]);
    assert_eq!(shared.pending_number(), 1);
    assert_eq!(shared.total_consumable_gas(), 100);

    assert_eq!(status_rx.try_recv().unwrap(), TxStatus::Submitted);
    assert!(status_rx.try_recv().is_err());
    let update = update_rx.try_recv().unwrap();
    assert_eq!(update.tx_id(), 1);
    assert!(!update.was_squeezed_out());
    assert!(update_rx.try_recv().is_err());
}

#[test]
fn rejected_transaction_is_never_broadcast() {
    let mut shared = SharedState::new(cfg(), 100);
    let a = tx(1, 100, 5, 10, None);
    let (_, first) = shared.insert(vec![a]);
    assert_eq!(first.len(), 1);

    // Same id again: rejected, and the broadcast list stays empty.
    let (results, to_broadcast) = shared.insert(vec![a]);
    assert_eq!(results[0], Err(Error::DuplicateTxId));
    assert!(to_broadcast.is_empty());
}

#[test]
fn gossiped_transaction_is_pooled_without_broadcast() {
    let shared = SharedState::new(cfg(), 100);
    let mut task = Task { shared };
    let a = tx(9, 50, 2, 3, None);

    // The gossip path inserts and reports nothing to re-broadcast: the
    // event processor only answers whether the loop should continue.
    let carry_on = task.run(PoolEvent::GossipedTx(Some(GossipData { data: Some(a) })));
    assert!(carry_on);
    assert_eq!(task.shared.pending_number(), 1);
    assert!(task.shared.find_one(9).is_some());

    // An empty gossip payload or an ended stream stops the loop.
    assert!(!task.run(PoolEvent::GossipedTx(Some(GossipData { data: None }))));
    assert!(!task.run(PoolEvent::GossipedTx(None)));
    assert!(!task.run(PoolEvent::Stopped));
    assert!(!task.run(PoolEvent::BlockImported(None)));
    assert_eq!(task.shared.pending_number(), 1);
}

#[test]
fn conflicting_spend_with_higher_tip_supersedes() {
    let mut shared = SharedState::new(cfg(), 100);
    let mut status_rx = shared.tx_status_subscribe();
    let mut update_rx = shared.tx_update_subscribe();

    let a = tx(1, 100, 1, 10, None);
    let b = tx(2, 100, 2, 10, None);

    let (results, _) = shared.insert(vec![a]);
    assert!(results[0].is_ok());

    let (results, to_broadcast) = shared.insert(vec![b]);
    let ok = results[0].as_ref().unwrap();
    assert_eq!(ok.inserted, b);
    assert_eq!(ok.removed, Some(a));
    assert_eq!(to_broadcast, vec![b]);
    assert_eq!(shared.pending_number(), 1);

    assert_eq!(status_rx.try_recv().unwrap(), TxStatus::Submitted);
    assert_eq!(
        status_rx.try_recv().unwrap(),
        TxStatus::SqueezedOut { reason: Error::ConflictingSpend }
    );
    assert_eq!(status_rx.try_recv().unwrap(), TxStatus::Submitted);

    assert_eq!(update_rx.try_recv().unwrap(), TxUpdate::updated(1));
    assert_eq!(
        update_rx.try_recv().unwrap(),
        TxUpdate::squeezed_out(1, Error::ConflictingSpend)
    );
    assert_eq!(update_rx.try_recv().unwrap(), TxUpdate::updated(2));

    // The concrete selection scenario: the survivor is selected and the
    // pool is left empty.
    let selected = shared.select_transactions(100);
    assert_eq!(selected, vec![b]);
    assert_eq!(shared.pending_number(), 0);
    assert!(shared.find_one(2).is_none());
}

#[test]
fn conflicting_spend_with_lower_tip_is_rejected() {
    let mut shared = SharedState::new(cfg(), 100);
    let a = tx(1, 100, 5, 10, None);
    let b = tx(2, 100, 5, 10, None);
    shared.insert(vec![a]);
    let (results, to_broadcast) = shared.insert(vec![b]);
    assert_eq!(results[0], Err(Error::ConflictingSpend));
    assert!(to_broadcast.is_empty());
    assert_eq!(shared.pending_number(), 1);
}

#[test]
fn selection_respects_budget_and_priority() {
    let mut shared = SharedState::new(cfg(), 100);
    let t1 = tx(1, 50, 5, 11, None);
    let t2 = tx(2, 60, 3, 12, None);
    let t3 = tx(3, 40, 3, 13, None);
    let (results, _) = shared.insert(vec![t1, t2, t3]);
    assert!(results.iter().all(|r| r.is_ok()));
    assert_eq!(shared.total_consumable_gas(), 150);

    // Priority order is t1 (highest tip), then t2 (earlier submission
    // wins the tie), then t3. With a budget of 100, t2 no longer fits
    // after t1, but t3 does.
    let selected = shared.select_transactions(100);
    assert_eq!(selected, vec![t1, t3]);
    assert!(selected.iter().map(|t| t.gas).sum::<u64>() <= 100);

    assert_eq!(shared.pending_number(), 1);
    assert!(shared.find_one(1).is_none());
    assert!(shared.find_one(3).is_none());
    assert!(shared.find_one(2).is_some());
    assert_eq!(shared.total_consumable_gas(), 60);

    let found = shared.find(vec![1, 2, 3]);
    assert!(found[0].is_none());
    assert!(found[1].is_some());
    assert!(found[2].is_none());
}

#[test]
fn dependent_transaction_waits_for_its_parent() {
    let mut shared = SharedState::new(cfg(), 100);
    let parent = tx(1, 50, 9, 11, None);
    let child = tx(2, 50, 9, 12, Some(1));
    let (results, _) = shared.insert(vec![parent, child]);
    assert!(results[0].is_ok());
    assert!(results[1].is_ok());

    assert_eq!(shared.find_dependent(vec![1]), vec![child]);

    // The child is not includable while its parent is pending.
    let first = shared.select_transactions(1_000);
    assert_eq!(first, vec![parent]);
    // Once the parent is committed the child becomes selectable.
    let second = shared.select_transactions(1_000);
    assert_eq!(second, vec![child]);
    assert_eq!(shared.pending_number(), 0);
}

#[test]
fn admission_rejections_name_their_reason() {
    let mut shared = SharedState::new(Config { max_gas_per_tx: 100, max_pool_gas: 150 }, 100);

    let (r, _) = shared.insert(vec![tx(1, 0, 1, 10, None)]);
    assert_eq!(r[0], Err(Error::GasLimitExceeded));

    let (r, _) = shared.insert(vec![tx(1, 101, 1, 10, None)]);
    assert_eq!(r[0], Err(Error::GasLimitExceeded));

    let (r, _) = shared.insert(vec![tx(1, 100, 1, 10, None)]);
    assert!(r[0].is_ok());

    let (r, _) = shared.insert(vec![tx(2, 50, 1, 11, Some(42))]);
    assert_eq!(r[0], Err(Error::UnknownDependency));

    // The pool holds 100 gas of 150; another 100 would overflow the
    // pool-wide bound.
    let (r, _) = shared.insert(vec![tx(3, 100, 1, 12, None)]);
    assert_eq!(r[0], Err(Error::PoolGasLimit));

    let (r, _) = shared.insert(vec![tx(4, 50, 1, 13, None)]);
    assert!(r[0].is_ok());
}

#[test]
fn administrative_removal_squeezes_out() {
    let mut shared = SharedState::new(cfg(), 100);
    let mut status_rx = shared.tx_status_subscribe();
    let mut update_rx = shared.tx_update_subscribe();

    let a = tx(1, 100, 5, 10, None);
    shared.insert(vec![a]);
    let removed = shared.remove_txs(vec![1, 77]);
    assert_eq!(removed, vec![a]);
    assert_eq!(shared.pending_number(), 0);

    assert_eq!(status_rx.try_recv().unwrap(), TxStatus::Submitted);
    assert_eq!(status_rx.try_recv().unwrap(), TxStatus::SqueezedOut { reason: Error::Removed });
    assert_eq!(update_rx.try_recv().unwrap(), TxUpdate::updated(1));
    let evicted = update_rx.try_recv().unwrap();
    assert!(evicted.was_squeezed_out());
    assert_eq!(evicted.into_squeezed_out_reason(), Some(Error::Removed));
}

#[test]
fn block_update_completes_included_and_evicts_conflicts() {
    let shared = SharedState::new(cfg(), 100);
    let mut task = Task { shared };
    let a = tx(1, 100, 5, 10, None);
    let b = tx(2, 100, 5, 11, None);
    task.shared.insert(vec![a, b]);
    let mut status_rx = task.shared.tx_status_subscribe();

    // The block includes `a` and a foreign transaction spending `b`'s coin.
    let foreign = tx(3, 80, 9, 11, None);
    let block = sealed_block(5, 0, vec![a, foreign]);
    let carry_on = task.run(PoolEvent::BlockImported(Some(ImportResult { sealed_block: block })));
    assert!(carry_on);

    assert_eq!(task.shared.pending_number(), 0);
    assert!(task.shared.find_one(1).is_none());
    assert!(task.shared.find_one(2).is_none());
    assert_eq!(status_rx.try_recv().unwrap(), TxStatus::Completed);
    assert_eq!(
        status_rx.try_recv().unwrap(),
        TxStatus::SqueezedOut { reason: Error::ConflictingSpend }
    );
    assert!(status_rx.try_recv().is_err());

    // Applying the same notification again evicts nothing further and
    // never double-counts the pending number.
    let block_again = sealed_block(5, 0, vec![a, foreign]);
    let carry_on = task.run(
        PoolEvent::BlockImported(Some(ImportResult { sealed_block: block_again })),
    );
    assert!(carry_on);
    assert_eq!(task.shared.pending_number(), 0);
    assert!(status_rx.try_recv().is_err());
}

#[test]
fn committed_id_cannot_be_resubmitted() {
    let shared = SharedState::new(cfg(), 100);
    let mut task = Task { shared };
    let a = tx(1, 100, 5, 10, None);
    task.shared.insert(vec![a]);
    let block = sealed_block(5, 0, vec![a]);
    task.run(PoolEvent::BlockImported(Some(ImportResult { sealed_block: block })));

    let (r, _) = task.shared.insert(vec![a]);
    assert_eq!(r[0], Err(Error::DuplicateTxId));
}

#[test]
fn selection_edge_cases() {
    let mut shared = SharedState::new(cfg(), 100);
    assert_eq!(shared.select_transactions(1_000), Vec::<Transaction>::new());

    shared.insert(vec![tx(1, 100, 5, 10, None)]);
    // Nothing fits a zero budget; the pool is left untouched.
    assert_eq!(shared.select_transactions(0), Vec::<Transaction>::new());
    assert_eq!(shared.pending_number(), 1);
}

#[test]
fn slow_subscriber_misses_oldest_but_never_blocks_the_pool() {
    // A capacity of one: the second publication pushes the first out of
    // the subscriber's window, and publishing never fails the producer.
    let mut shared = SharedState::new(cfg(), 1);
    let mut status_rx = shared.tx_status_subscribe();

    let (r1, _) = shared.insert(vec![tx(1, 100, 5, 10, None)]);
    let (r2, _) = shared.insert(vec![tx(2, 100, 5, 11, None)]);
    assert!(r1[0].is_ok());
    assert!(r2[0].is_ok());
    assert_eq!(shared.pending_number(), 2);

    assert!(matches!(
        status_rx.try_recv(),
        Err(tokio::sync::broadcast::error::TryRecvError::Lagged(_))
    ));
    assert_eq!(status_rx.try_recv().unwrap(), TxStatus::Submitted);
}

#[test]
fn tx_update_accessors() {
    let updated = TxUpdate::updated(7);
    assert_eq!(updated.tx_id(), 7);
    assert!(!updated.was_squeezed_out());
    assert_eq!(updated.into_squeezed_out_reason(), None);

    let squeezed = TxUpdate::squeezed_out(8, Error::ConflictingSpend);
    assert_eq!(squeezed.tx_id(), 8);
    assert!(squeezed.was_squeezed_out());
    assert_eq!(squeezed.into_squeezed_out_reason(), Some(Error::ConflictingSpend));
}
