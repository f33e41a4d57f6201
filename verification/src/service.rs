//! The pool service surface: the shared handle over the pool and the
//! fan-out topics, and the single-step event processor of the service
//! task. A caller (normally an event loop holding one exclusive lock)
//! drives `Task::run` with whichever event source fired; external
//! submissions go through `SharedState::insert`, which also names the
//! accepted transactions owed a peer broadcast.

use vstd::prelude::*;

use crate::block::ImportResult;
use crate::pool::{
    accepted_txs, batch_model, batch_results, batch_statuses, batch_updates, block_update_model,
    block_update_statuses, block_update_updates, dependents_of, found_entry, has_id,
    includable_of, insert_model, insert_statuses, insert_updates, lemma_batch_results_index,
    lemma_commit_id_props, lemma_includable_props, lemma_live_remove_props, lemma_wf_model,
    remove_batch_model, remove_batch_removed, remove_batch_statuses, remove_batch_updates,
    sum_gas, TxPool,
};
use crate::selector::{
    greedy, same_entries, sorted_by_priority, sum_tx_gas, txs_of, lemma_sum_txs_of,
};
use crate::status::TxStatusChange;
use crate::tx::{Config, Error, InsertionResult, Transaction, TxInfo, TxStatus, TxUpdate};

verus! {

/// The shared handle over the guarded pool state and the two fan-out
/// topics. Its operations are the pool's synchronized surface: the caller
/// holds them under one exclusive lock, so each runs as one atomic unit.
pub struct SharedState {
    pub tx_status_sender: TxStatusChange,
    pub txpool: TxPool,
}

impl SharedState {
    pub open spec fn wf(self) -> bool {
        self.txpool.wf()
    }

    /// A fresh handle: an empty pool and two fresh fan-out topics of the
    /// given capacity.
    pub fn new(config: Config, status_capacity: usize) -> (r: Self)
        requires
            0 < status_capacity <= usize::MAX / 2,
        ensures
            r.wf(),
            r.txpool.model().live == Seq::<TxInfo>::empty(),
            r.txpool.model().committed == Seq::<u64>::empty(),
            r.txpool.model().next == 0u64,
            r.txpool.model().cfg == config,
            r.tx_status_sender.statuses@ == Seq::<TxStatus>::empty(),
            r.tx_status_sender.updates@ == Seq::<TxUpdate>::empty(),
    {
        Self { tx_status_sender: TxStatusChange::new(status_capacity), txpool: TxPool::new(config) }
    }

    /// How many transactions are pending in the pool.
    pub fn pending_number(&self) -> (r: usize)
        ensures
            r == self.txpool.model().live.len(),
    {
        self.txpool.pending_number()
    }

    /// Total gas of all pending transactions.
    pub fn total_consumable_gas(&self) -> (r: u64)
        requires
            self.wf(),
        ensures
            r == sum_gas(self.txpool.model().live),
    {
        self.txpool.consumable_gas()
    }

    /// Administrative eviction by ids; each removed transaction is
    /// squeezed out and returned.
    pub fn remove_txs(&mut self, ids: Vec<u64>) -> (r: Vec<Transaction>)
        requires
            old(self).wf(),
        ensures
            final(self).wf(),
            final(self).txpool.model() == remove_batch_model(old(self).txpool.model(), ids@),
            r@ == remove_batch_removed(old(self).txpool.model(), ids@),
            final(self).tx_status_sender.statuses@ == old(self).tx_status_sender.statuses@
                + remove_batch_statuses(old(self).txpool.model(), ids@),
            final(self).tx_status_sender.updates@ == old(self).tx_status_sender.updates@
                + remove_batch_updates(old(self).txpool.model(), ids@),
    {
        self.txpool.remove(&mut self.tx_status_sender, &ids)
    }

    /// Same operation as `remove_txs`: the eviction entry point the
    /// service's own callers use.
    pub fn remove(&mut self, ids: Vec<u64>) -> (r: Vec<Transaction>)
        requires
            old(self).wf(),
        ensures
            final(self).wf(),
            final(self).txpool.model() == remove_batch_model(old(self).txpool.model(), ids@),
            r@ == remove_batch_removed(old(self).txpool.model(), ids@),
            final(self).tx_status_sender.statuses@ == old(self).tx_status_sender.statuses@
                + remove_batch_statuses(old(self).txpool.model(), ids@),
            final(self).tx_status_sender.updates@ == old(self).tx_status_sender.updates@
                + remove_batch_updates(old(self).txpool.model(), ids@),
    {
        self.txpool.remove(&mut self.tx_status_sender, &ids)
    }

    /// Read-only lookup of many ids.
    pub fn find(&self, ids: Vec<u64>) -> (r: Vec<Option<TxInfo>>)
        requires
            self.wf(),
        ensures
            r@.len() == ids@.len(),
            forall|k: int|
                0 <= k < ids@.len() ==> r@[k] == found_entry(self.txpool.model(), ids@[k]),
    {
        self.txpool.find(&ids)
    }

    /// Read-only lookup of one id.
    pub fn find_one(&self, id: u64) -> (r: Option<TxInfo>)
        requires
            self.wf(),
        ensures
            r == found_entry(self.txpool.model(), id),
    {
        self.txpool.find_one(id)
    }

    /// The live transactions that directly depend on one of `ids`.
    pub fn find_dependent(&self, ids: Vec<u64>) -> (r: Vec<Transaction>)
        requires
            self.wf(),
        ensures
            r@ == dependents_of(self.txpool.model().live, ids@),
    {
        self.txpool.find_dependent(&ids)
    }

    /// A fresh subscriber to the coarse status topic.
    pub fn tx_status_subscribe(&self) -> tokio::sync::broadcast::Receiver<TxStatus> {
        self.tx_status_sender.status_subscribe()
    }

    /// A fresh subscriber to the keyed update topic.
    pub fn tx_update_subscribe(&self) -> tokio::sync::broadcast::Receiver<TxUpdate> {
        self.tx_status_sender.update_subscribe()
    }

    /// Selects a gas-bounded, priority-ordered set from the includable
    /// view and removes every selected transaction from the pool as
    /// committed, all as one atomic unit: the sum of selected gas stays
    /// within `max_gas`, the pending count drops by exactly the number
    /// selected, and a lookup of a selected id afterwards finds nothing.
    pub fn select_transactions(&mut self, max_gas: u64) -> (r: Vec<Transaction>)
        requires
            old(self).wf(),
        ensures
            final(self).wf(),
            0 <= sum_tx_gas(r@) <= max_gas,
            final(self).txpool.model().live.len() + r@.len() == old(
                self,
            ).txpool.model().live.len(),
            forall|k: int|
                0 <= k < r@.len() ==> !has_id(
                    final(self).txpool.model().live,
                    (#[trigger] r@[k]).id,
                ),
            forall|k: int|
                0 <= k < r@.len() ==> has_id(old(self).txpool.model().live, (#[trigger] r@[k]).id),
            forall|k: int|
                0 <= k < r@.len() ==> final(self).txpool.model().committed.contains(
                    (#[trigger] r@[k]).id,
                ),
            final(self).txpool.model().next == old(self).txpool.model().next,
            final(self).txpool.model().cfg == old(self).txpool.model().cfg,
            final(self).tx_status_sender == old(self).tx_status_sender,
            exists|s: Seq<TxInfo>|
                sorted_by_priority(s) && same_entries(
                    includable_of(
                        old(self).txpool.model().live,
                        old(self).txpool.model().committed,
                    ),
                    s,
                ) && r@ == txs_of(greedy(s, max_gas as int)),
    {
        let ghost m0 = self.txpool.model();
        let ghost sender0 = self.tx_status_sender;
        proof {
            lemma_wf_model(self.txpool);
            lemma_includable_props(m0.live, m0.committed);
        }
        let cands = self.txpool.includable();
        let sel = crate::selector::select_transactions(cands, max_gas);
        proof {
            assert forall|k: int| 0 <= k < sel@.len() implies m0.live.contains(
                #[trigger] sel@[k],
            ) by {
                assert(includable_of(m0.live, m0.committed).contains(sel@[k]));
            }
            assert forall|k: int| 0 <= k < sel@.len() implies has_id(
                m0.live,
                (#[trigger] sel@[k]).tx.id,
            ) by {
                let w = choose|w: int| 0 <= w < m0.live.len() && m0.live[w] == sel@[k];
                assert(m0.live[w].tx.id == sel@[k].tx.id);
            }
            assert forall|a: int, b: int|
                0 <= a < b < sel@.len() implies (#[trigger] sel@[a]).tx.id != (
            #[trigger] sel@[b]).tx.id by {
                assert(sel@[a].submitted != sel@[b].submitted);
                assert(m0.live.contains(sel@[a]));
                assert(m0.live.contains(sel@[b]));
                let wa = choose|w: int| 0 <= w < m0.live.len() && m0.live[w] == sel@[a];
                let wb = choose|w: int| 0 <= w < m0.live.len() && m0.live[w] == sel@[b];
                assert(wa != wb);
                if wa < wb {
                    assert(m0.live[wa].tx.id != m0.live[wb].tx.id);
                } else {
                    assert(m0.live[wb].tx.id != m0.live[wa].tx.id);
                }
            }
        }
        let n = sel.len();
        let mut out: Vec<Transaction> = Vec::new();
        let mut k: usize = 0;
        proof {
            assert(out@ =~= txs_of(sel@.take(0int)));
        }
        while k < n
            invariant
                n == sel@.len(),
                k <= n,
                self.txpool.wf(),
                self.tx_status_sender == sender0,
                self.txpool.model().live.len() + k == m0.live.len(),
                self.txpool.model().next == m0.next,
                self.txpool.model().cfg == m0.cfg,
                forall|a: int, b: int|
                    0 <= a < b < sel@.len() ==> (#[trigger] sel@[a]).tx.id != (
                #[trigger] sel@[b]).tx.id,
                forall|j: int|
                    k <= j < n ==> has_id(self.txpool.model().live, (#[trigger] sel@[j]).tx.id),
                forall|j: int|
                    0 <= j < k ==> !has_id(self.txpool.model().live, (#[trigger] sel@[j]).tx.id),
                forall|j: int|
                    0 <= j < k ==> self.txpool.model().committed.contains(
                        (#[trigger] sel@[j]).tx.id,
                    ),
                out@ == txs_of(sel@.take(k as int)),
            decreases n - k,
        {
            let t = sel[k];
            let ghost mi = self.txpool.model();
            proof {
                lemma_wf_model(self.txpool);
                lemma_commit_id_props(mi, t.tx.id);
                let idx = crate::pool::id_index(mi.live, t.tx.id);
                assert(0 <= idx < mi.live.len() && mi.live[idx].tx.id == t.tx.id);
                lemma_live_remove_props(mi, idx);
                mi.live.remove_ensures(idx);
            }
            self.txpool.remove_committed_tx(t.tx.id);
            out.push(t.tx);
            proof {
                assert(sel@.take(k + 1).drop_last() =~= sel@.take(k as int));
                assert(sel@.take(k + 1).last() == sel@[k as int]);
                assert(out@ =~= txs_of(sel@.take(k + 1)));
            }
            k += 1;
        }
        proof {
            assert(sel@.take(n as int) =~= sel@);
            lemma_sum_txs_of(sel@);
            let s_w = choose|s: Seq<TxInfo>|
                sorted_by_priority(s) && same_entries(includable_of(m0.live, m0.committed), s)
                    && sel@ == greedy(s, max_gas as int);
            assert(out@ == txs_of(greedy(s_w, max_gas as int)));
        }
        out
    }

    /// The externally callable submission path: admits the batch and
    /// names, in order, exactly the accepted transactions — those owed one
    /// peer broadcast each. Rejected transactions are never named for
    /// broadcast, and a failed broadcast is the caller's affair: it never
    /// rolls back an acceptance recorded here.
    pub fn insert(&mut self, txs: Vec<Transaction>) -> (r: (
        Vec<Result<InsertionResult, Error>>,
        Vec<Transaction>,
    ))
        requires
            old(self).wf(),
        ensures
            final(self).wf(),
            final(self).txpool.model() == batch_model(old(self).txpool.model(), txs@),
            r.0@ == batch_results(old(self).txpool.model(), txs@),
            r.1@ == accepted_txs(old(self).txpool.model(), txs@),
            final(self).tx_status_sender.statuses@ == old(self).tx_status_sender.statuses@
                + batch_statuses(old(self).txpool.model(), txs@),
            final(self).tx_status_sender.updates@ == old(self).tx_status_sender.updates@
                + batch_updates(old(self).txpool.model(), txs@),
    {
        let ghost m0 = self.txpool.model();
        let results = self.txpool.insert(&mut self.tx_status_sender, &txs);
        let n = txs.len();
        let mut to_broadcast: Vec<Transaction> = Vec::new();
        let mut i: usize = 0;
        proof {
            assert(to_broadcast@ =~= accepted_txs(m0, txs@.take(0int)));
        }
        while i < n
            invariant
                n == txs.len(),
                results@ == batch_results(m0, txs@),
                i <= n,
                to_broadcast@ == accepted_txs(m0, txs@.take(i as int)),
            decreases n - i,
        {
            proof {
                assert(txs@.take(i + 1).drop_last() =~= txs@.take(i as int));
                assert(txs@.take(i + 1).last() == txs@[i as int]);
                lemma_batch_results_index(m0, txs@, i as int);
                assert(txs@.take(i as int).len() == i);
            }
            if results[i].is_ok() {
                to_broadcast.push(txs[i]);
            }
            i += 1;
            proof {
                assert(to_broadcast@ =~= accepted_txs(m0, txs@.take(i as int)));
            }
        }
        proof {
            assert(txs@.take(n as int) =~= txs@);
        }
        (results, to_broadcast)
    }
}

/// A gossiped-transaction message from a peer; the payload may already
/// have been consumed elsewhere.
#[derive(Clone, Copy, Debug, PartialEq, Eq)]
pub struct GossipData {
    pub data: Option<Transaction>,
}

/// One event the service task can wake on: the lifecycle watcher reports
/// the service stopped, a gossiped transaction arrives (or that stream
/// ends), or a committed-block notification arrives (or that stream
/// ends). There is no priority among simultaneously ready sources; the
/// loop services exactly one event per iteration.
pub enum PoolEvent {
    Stopped,
    GossipedTx(Option<GossipData>),
    BlockImported(Option<ImportResult>),
}

/// The service task: the single cooperative owner of the shared handle.
pub struct Task {
    pub shared: SharedState,
}

impl Task {
    /// Processes exactly one ready event and says whether the loop should
    /// continue. A transaction arriving on the gossip path is inserted
    /// into the pool and is never named for re-broadcast — that path
    /// exists to prevent re-gossip amplification. A committed block
    /// triggers the pool's reconciliation. A shutdown report, an ended
    /// stream, or an empty gossip payload stops the loop without touching
    /// the pool.
    pub fn run(&mut self, event: PoolEvent) -> (should_continue: bool)
        requires
            old(self).shared.wf(),
        ensures
            final(self).shared.wf(),
            ({
                let m0 = old(self).shared.txpool.model();
                let st0 = old(self).shared.tx_status_sender.statuses@;
                let up0 = old(self).shared.tx_status_sender.updates@;
                let m1 = final(self).shared.txpool.model();
                let st1 = final(self).shared.tx_status_sender.statuses@;
                let up1 = final(self).shared.tx_status_sender.updates@;
                match event {
                    PoolEvent::Stopped => !should_continue && *final(self) == *old(self),
                    PoolEvent::GossipedTx(g) => match g {
                        Some(gd) => match gd.data {
                            Some(t) => {
                                &&& should_continue
                                &&& m1 == insert_model(m0, t)
                                &&& st1 == st0 + insert_statuses(m0, t)
                                &&& up1 == up0 + insert_updates(m0, t)
                            },
                            None => !should_continue && *final(self) == *old(self),
                        },
                        None => !should_continue && *final(self) == *old(self),
                    },
                    PoolEvent::BlockImported(res) => match res {
                        Some(ir) => {
                            let btxs = ir.sealed_block.entity.transactions@;
                            &&& should_continue
                            &&& m1 == block_update_model(m0, btxs)
                            &&& st1 == st0 + block_update_statuses(m0, btxs)
                            &&& up1 == up0 + block_update_updates(m0, btxs)
                        },
                        None => !should_continue && *final(self) == *old(self),
                    },
                }
            }),
    {
        match event {
            PoolEvent::Stopped => false,
            PoolEvent::GossipedTx(g) => match g {
                Some(gd) => match gd.data {
                    Some(t) => {
                        let _unused = self.shared.txpool.insert_single(
                            &mut self.shared.tx_status_sender,
                            t,
                        );
                        true
                    }
                    None => false,
                },
                None => false,
            },
            PoolEvent::BlockImported(res) => match res {
                Some(ir) => {
                    self.shared.txpool.block_update(
                        &mut self.shared.tx_status_sender,
                        &ir.sealed_block,
                    );
                    true
                }
                None => false,
            },
        }
    }
}

} // verus!
