//! The transaction pool: the guarded set of admitted-but-uncommitted
//! transactions. Every mutating operation is specified against a
//! mathematical model (`PoolModel`) of the pool: the sequence of live
//! entries in submission order, the ids already committed by blocks, the
//! next submission sequence number, and the configuration.
//!
//! The callers of these operations are expected to hold them under one
//! exclusive lock; the operations themselves are sequential and total
//! over a well-formed pool.

use vstd::prelude::*;

use crate::block::SealedBlock;
use crate::status::TxStatusChange;
use crate::tx::{Config, Error, InsertionResult, Transaction, TxInfo, TxStatus, TxUpdate};

verus! {

/// Mathematical model of a pool state.
#[verifier::ext_equal]
pub ghost struct PoolModel {
    /// Live entries, in submission order.
    pub live: Seq<TxInfo>,
    /// Ids of transactions that have left the pool through block inclusion
    /// (or were observed committed in a block without ever being pooled).
    pub committed: Seq<u64>,
    /// Submission sequence number the next accepted transaction gets.
    pub next: u64,
    pub cfg: Config,
}

/// No two live entries share a transaction id.
pub open spec fn ids_distinct(s: Seq<TxInfo>) -> bool {
    forall|i: int, j: int|
        0 <= i < j < s.len() ==> (#[trigger] s[i]).tx.id != (#[trigger] s[j]).tx.id
}

/// No two live entries spend the same coin.
pub open spec fn coins_distinct(s: Seq<TxInfo>) -> bool {
    forall|i: int, j: int|
        0 <= i < j < s.len() ==> (#[trigger] s[i]).tx.coin != (#[trigger] s[j]).tx.coin
}

/// No two live entries share a submission sequence number.
pub open spec fn submitted_distinct(s: Seq<TxInfo>) -> bool {
    forall|i: int, j: int|
        0 <= i < j < s.len() ==> (#[trigger] s[i]).submitted != (#[trigger] s[j]).submitted
}

/// No id is recorded as committed twice.
pub open spec fn marks_distinct(s: Seq<u64>) -> bool {
    forall|i: int, j: int| 0 <= i < j < s.len() ==> s[i] != s[j]
}

/// Some live entry carries the id.
pub open spec fn has_id(s: Seq<TxInfo>, id: u64) -> bool {
    exists|i: int| 0 <= i < s.len() && (#[trigger] s[i]).tx.id == id
}

/// The index of the live entry carrying the id (unique when `ids_distinct`).
pub open spec fn id_index(s: Seq<TxInfo>, id: u64) -> int {
    choose|i: int| 0 <= i < s.len() && (#[trigger] s[i]).tx.id == id
}

/// Some live entry spends the coin.
pub open spec fn has_coin(s: Seq<TxInfo>, coin: u64) -> bool {
    exists|i: int| 0 <= i < s.len() && (#[trigger] s[i]).tx.coin == coin
}

/// The index of the live entry spending the coin (unique when `coins_distinct`).
pub open spec fn coin_index(s: Seq<TxInfo>, coin: u64) -> int {
    choose|i: int| 0 <= i < s.len() && (#[trigger] s[i]).tx.coin == coin
}

/// Total gas of a sequence of entries.
pub open spec fn sum_gas(s: Seq<TxInfo>) -> int
    decreases s.len(),
{
    if s.len() == 0 {
        0
    } else {
        sum_gas(s.drop_last()) + s.last().tx.gas
    }
}

/// Well-formedness of a pool model: distinct ids, coins and sequence
/// numbers among live entries, distinct committed marks, no id both live
/// and committed, sequence numbers below the next one, and the total live
/// gas within the configured bound.
pub open spec fn wf_model(m: PoolModel) -> bool {
    &&& ids_distinct(m.live)
    &&& coins_distinct(m.live)
    &&& submitted_distinct(m.live)
    &&& marks_distinct(m.committed)
    &&& forall|i: int|
        0 <= i < m.live.len() ==> !m.committed.contains((#[trigger] m.live[i]).tx.id)
    &&& forall|i: int| 0 <= i < m.live.len() ==> (#[trigger] m.live[i]).submitted < m.next
    &&& sum_gas(m.live) <= m.cfg.max_pool_gas
}

/// The dependency of `e`, if any, is already committed.
pub open spec fn dep_satisfied(e: TxInfo, committed: Seq<u64>) -> bool {
    match e.tx.dependency {
        None => true,
        Some(d) => committed.contains(d),
    }
}

/// The live entries whose dependencies are satisfied, in submission order:
/// the admissible-for-selection subset.
pub open spec fn includable_of(live: Seq<TxInfo>, committed: Seq<u64>) -> Seq<TxInfo>
    decreases live.len(),
{
    if live.len() == 0 {
        Seq::empty()
    } else {
        let rest = includable_of(live.drop_last(), committed);
        if dep_satisfied(live.last(), committed) {
            rest.push(live.last())
        } else {
            rest
        }
    }
}

/// `e` declares a dependency on one of `ids`.
pub open spec fn depends_on(e: TxInfo, ids: Seq<u64>) -> bool {
    match e.tx.dependency {
        None => false,
        Some(d) => ids.contains(d),
    }
}

/// The live transactions that directly depend on one of `ids`, in
/// submission order.
pub open spec fn dependents_of(live: Seq<TxInfo>, ids: Seq<u64>) -> Seq<Transaction>
    decreases live.len(),
{
    if live.len() == 0 {
        Seq::empty()
    } else {
        let rest = dependents_of(live.drop_last(), ids);
        if depends_on(live.last(), ids) {
            rest.push(live.last().tx)
        } else {
            rest
        }
    }
}

/// The live entry found for an id, if any.
pub open spec fn found_entry(m: PoolModel, id: u64) -> Option<TxInfo> {
    if has_id(m.live, id) {
        Some(m.live[id_index(m.live, id)])
    } else {
        None
    }
}

/// The transaction's gas passes validation: positive and within the
/// per-transaction limit.
pub open spec fn gas_ok(cfg: Config, t: Transaction) -> bool {
    0 < t.gas <= cfg.max_gas_per_tx
}

/// The id is already known to the pool: live or committed.
pub open spec fn known_id(m: PoolModel, id: u64) -> bool {
    has_id(m.live, id) || m.committed.contains(id)
}

/// The transaction's dependency, if any, is a known id.
pub open spec fn dep_ok(m: PoolModel, t: Transaction) -> bool {
    match t.dependency {
        None => true,
        Some(d) => known_id(m, d),
    }
}

/// The live entry that `t` displaces by paying a strictly higher tip for
/// the same coin, if any.
pub open spec fn displaced(m: PoolModel, t: Transaction) -> Option<TxInfo> {
    if has_coin(m.live, t.coin) {
        let e = m.live[coin_index(m.live, t.coin)];
        if t.tip > e.tx.tip {
            Some(e)
        } else {
            None
        }
    } else {
        None
    }
}

/// The live entries once the displaced incumbent, if any, has left.
pub open spec fn live_after_conflict(m: PoolModel, t: Transaction) -> Seq<TxInfo> {
    if displaced(m, t).is_some() {
        m.live.remove(coin_index(m.live, t.coin))
    } else {
        m.live
    }
}

/// Why the admission of `t` into `m` is rejected, or `None` when it is
/// accepted. The checks are ordered; the first failing one names the
/// rejection.
pub open spec fn insert_error(m: PoolModel, t: Transaction) -> Option<Error> {
    if m.next == u64::MAX {
        Some(Error::PoolFull)
    } else if !gas_ok(m.cfg, t) {
        Some(Error::GasLimitExceeded)
    } else if known_id(m, t.id) {
        Some(Error::DuplicateTxId)
    } else if !dep_ok(m, t) {
        Some(Error::UnknownDependency)
    } else if has_coin(m.live, t.coin) && displaced(m, t).is_none() {
        Some(Error::ConflictingSpend)
    } else if sum_gas(live_after_conflict(m, t)) + t.gas > m.cfg.max_pool_gas {
        Some(Error::PoolGasLimit)
    } else {
        None
    }
}

/// The pool state after attempting to admit `t`: unchanged on rejection;
/// on acceptance the incumbent, if displaced, leaves and `t` enters with
/// the next submission number.
pub open spec fn insert_model(m: PoolModel, t: Transaction) -> PoolModel {
    if insert_error(m, t).is_some() {
        m
    } else {
        PoolModel {
            live: live_after_conflict(m, t).push(TxInfo { tx: t, submitted: m.next }),
            committed: m.committed,
            next: (m.next + 1) as u64,
            cfg: m.cfg,
        }
    }
}

/// The per-transaction result the submitter sees.
pub open spec fn insert_result(m: PoolModel, t: Transaction) -> Result<InsertionResult, Error> {
    match insert_error(m, t) {
        Some(e) => Err(e),
        None => Ok(
            InsertionResult {
                inserted: t,
                removed: match displaced(m, t) {
                    Some(e) => Some(e.tx),
                    None => None,
                },
            },
        ),
    }
}

/// The statuses one admission attempt publishes: nothing on rejection;
/// on acceptance a `SqueezedOut` for the displaced incumbent, if any,
/// followed by exactly one `Submitted`.
pub open spec fn insert_statuses(m: PoolModel, t: Transaction) -> Seq<TxStatus> {
    if insert_error(m, t).is_some() {
        Seq::empty()
    } else {
        match displaced(m, t) {
            Some(_) => seq![
                TxStatus::SqueezedOut { reason: Error::ConflictingSpend },
                TxStatus::Submitted,
            ],
            None => seq![TxStatus::Submitted],
        }
    }
}

/// The keyed updates one admission attempt publishes, matching
/// `insert_statuses` one for one.
pub open spec fn insert_updates(m: PoolModel, t: Transaction) -> Seq<TxUpdate> {
    if insert_error(m, t).is_some() {
        Seq::empty()
    } else {
        match displaced(m, t) {
            Some(e) => seq![
                TxUpdate { tx_id: e.tx.id, squeezed_out: Some(Error::ConflictingSpend) },
                TxUpdate { tx_id: t.id, squeezed_out: None },
            ],
            None => seq![TxUpdate { tx_id: t.id, squeezed_out: None }],
        }
    }
}

/// The pool state after admitting a whole batch, first transaction first.
pub open spec fn batch_model(m: PoolModel, txs: Seq<Transaction>) -> PoolModel
    decreases txs.len(),
{
    if txs.len() == 0 {
        m
    } else {
        insert_model(batch_model(m, txs.drop_last()), txs.last())
    }
}

/// The per-transaction results of a whole batch, in submission order.
pub open spec fn batch_results(m: PoolModel, txs: Seq<Transaction>) -> Seq<
    Result<InsertionResult, Error>,
>
    decreases txs.len(),
{
    if txs.len() == 0 {
        Seq::empty()
    } else {
        batch_results(m, txs.drop_last()).push(
            insert_result(batch_model(m, txs.drop_last()), txs.last()),
        )
    }
}

/// The statuses a whole batch publishes, in order.
pub open spec fn batch_statuses(m: PoolModel, txs: Seq<Transaction>) -> Seq<TxStatus>
    decreases txs.len(),
{
    if txs.len() == 0 {
        Seq::empty()
    } else {
        batch_statuses(m, txs.drop_last()) + insert_statuses(
            batch_model(m, txs.drop_last()),
            txs.last(),
        )
    }
}

/// The keyed updates a whole batch publishes, in order.
pub open spec fn batch_updates(m: PoolModel, txs: Seq<Transaction>) -> Seq<TxUpdate>
    decreases txs.len(),
{
    if txs.len() == 0 {
        Seq::empty()
    } else {
        batch_updates(m, txs.drop_last()) + insert_updates(
            batch_model(m, txs.drop_last()),
            txs.last(),
        )
    }
}

/// The pool state after evicting the entry carrying `id`, if it is live.
pub open spec fn evict_id_model(m: PoolModel, id: u64) -> PoolModel {
    if has_id(m.live, id) {
        PoolModel {
            live: m.live.remove(id_index(m.live, id)),
            committed: m.committed,
            next: m.next,
            cfg: m.cfg,
        }
    } else {
        m
    }
}

/// The transactions one administrative eviction returns.
pub open spec fn evict_id_removed(m: PoolModel, id: u64) -> Seq<Transaction> {
    if has_id(m.live, id) {
        seq![m.live[id_index(m.live, id)].tx]
    } else {
        Seq::empty()
    }
}

/// The statuses one administrative eviction publishes.
pub open spec fn evict_id_statuses(m: PoolModel, id: u64) -> Seq<TxStatus> {
    if has_id(m.live, id) {
        seq![TxStatus::SqueezedOut { reason: Error::Removed }]
    } else {
        Seq::empty()
    }
}

/// The keyed updates one administrative eviction publishes.
pub open spec fn evict_id_updates(m: PoolModel, id: u64) -> Seq<TxUpdate> {
    if has_id(m.live, id) {
        seq![TxUpdate { tx_id: id, squeezed_out: Some(Error::Removed) }]
    } else {
        Seq::empty()
    }
}

/// The pool state after an administrative removal of a batch of ids.
pub open spec fn remove_batch_model(m: PoolModel, ids: Seq<u64>) -> PoolModel
    decreases ids.len(),
{
    if ids.len() == 0 {
        m
    } else {
        evict_id_model(remove_batch_model(m, ids.drop_last()), ids.last())
    }
}

/// The transactions an administrative batch removal returns, in order.
pub open spec fn remove_batch_removed(m: PoolModel, ids: Seq<u64>) -> Seq<Transaction>
    decreases ids.len(),
{
    if ids.len() == 0 {
        Seq::empty()
    } else {
        remove_batch_removed(m, ids.drop_last()) + evict_id_removed(
            remove_batch_model(m, ids.drop_last()),
            ids.last(),
        )
    }
}

/// The statuses an administrative batch removal publishes, in order.
pub open spec fn remove_batch_statuses(m: PoolModel, ids: Seq<u64>) -> Seq<TxStatus>
    decreases ids.len(),
{
    if ids.len() == 0 {
        Seq::empty()
    } else {
        remove_batch_statuses(m, ids.drop_last()) + evict_id_statuses(
            remove_batch_model(m, ids.drop_last()),
            ids.last(),
        )
    }
}

/// The keyed updates an administrative batch removal publishes, in order.
pub open spec fn remove_batch_updates(m: PoolModel, ids: Seq<u64>) -> Seq<TxUpdate>
    decreases ids.len(),
{
    if ids.len() == 0 {
        Seq::empty()
    } else {
        remove_batch_updates(m, ids.drop_last()) + evict_id_updates(
            remove_batch_model(m, ids.drop_last()),
            ids.last(),
        )
    }
}

/// The pool state after marking `id` as committed: it leaves the live set
/// if present, and joins the committed marks if not already there.
pub open spec fn commit_id_model(m: PoolModel, id: u64) -> PoolModel {
    let live1 = if has_id(m.live, id) {
        m.live.remove(id_index(m.live, id))
    } else {
        m.live
    };
    let committed1 = if m.committed.contains(id) {
        m.committed
    } else {
        m.committed.push(id)
    };
    PoolModel { live: live1, committed: committed1, next: m.next, cfg: m.cfg }
}

/// The pool state after marking every transaction of a committed block.
pub open spec fn commit_phase_model(m: PoolModel, txs: Seq<Transaction>) -> PoolModel
    decreases txs.len(),
{
    if txs.len() == 0 {
        m
    } else {
        commit_id_model(commit_phase_model(m, txs.drop_last()), txs.last().id)
    }
}

/// The statuses the commit phase publishes: one `Completed` for every
/// block transaction that was live.
pub open spec fn commit_phase_statuses(m: PoolModel, txs: Seq<Transaction>) -> Seq<TxStatus>
    decreases txs.len(),
{
    if txs.len() == 0 {
        Seq::empty()
    } else {
        let prev = commit_phase_model(m, txs.drop_last());
        commit_phase_statuses(m, txs.drop_last()) + (if has_id(prev.live, txs.last().id) {
            seq![TxStatus::Completed]
        } else {
            Seq::empty()
        })
    }
}

/// The keyed updates the commit phase publishes.
pub open spec fn commit_phase_updates(m: PoolModel, txs: Seq<Transaction>) -> Seq<TxUpdate>
    decreases txs.len(),
{
    if txs.len() == 0 {
        Seq::empty()
    } else {
        let prev = commit_phase_model(m, txs.drop_last());
        commit_phase_updates(m, txs.drop_last()) + (if has_id(prev.live, txs.last().id) {
            seq![TxUpdate { tx_id: txs.last().id, squeezed_out: None }]
        } else {
            Seq::empty()
        })
    }
}

/// The pool state after evicting the live entry spending `coin`, if any.
pub open spec fn evict_coin_model(m: PoolModel, coin: u64) -> PoolModel {
    if has_coin(m.live, coin) {
        PoolModel {
            live: m.live.remove(coin_index(m.live, coin)),
            committed: m.committed,
            next: m.next,
            cfg: m.cfg,
        }
    } else {
        m
    }
}

/// The pool state after evicting every live entry whose coin a block
/// transaction also spends.
pub open spec fn evict_phase_model(m: PoolModel, txs: Seq<Transaction>) -> PoolModel
    decreases txs.len(),
{
    if txs.len() == 0 {
        m
    } else {
        evict_coin_model(evict_phase_model(m, txs.drop_last()), txs.last().coin)
    }
}

/// The statuses the conflict-eviction phase publishes.
pub open spec fn evict_phase_statuses(m: PoolModel, txs: Seq<Transaction>) -> Seq<TxStatus>
    decreases txs.len(),
{
    if txs.len() == 0 {
        Seq::empty()
    } else {
        let prev = evict_phase_model(m, txs.drop_last());
        evict_phase_statuses(m, txs.drop_last()) + (if has_coin(prev.live, txs.last().coin) {
            seq![TxStatus::SqueezedOut { reason: Error::ConflictingSpend }]
        } else {
            Seq::empty()
        })
    }
}

/// The keyed updates the conflict-eviction phase publishes.
pub open spec fn evict_phase_updates(m: PoolModel, txs: Seq<Transaction>) -> Seq<TxUpdate>
    decreases txs.len(),
{
    if txs.len() == 0 {
        Seq::empty()
    } else {
        let prev = evict_phase_model(m, txs.drop_last());
        evict_phase_updates(m, txs.drop_last()) + (if has_coin(prev.live, txs.last().coin) {
            seq![TxUpdate {
                tx_id: prev.live[coin_index(prev.live, txs.last().coin)].tx.id,
                squeezed_out: Some(Error::ConflictingSpend),
            }]
        } else {
            Seq::empty()
        })
    }
}

/// The pool's reconciliation against a committed block: every block
/// transaction leaves as completed, then any remaining live entry whose
/// coin the block also spent is squeezed out.
pub open spec fn block_update_model(m: PoolModel, txs: Seq<Transaction>) -> PoolModel {
    evict_phase_model(commit_phase_model(m, txs), txs)
}

/// The statuses one reconciliation publishes, in order.
pub open spec fn block_update_statuses(m: PoolModel, txs: Seq<Transaction>) -> Seq<TxStatus> {
    commit_phase_statuses(m, txs) + evict_phase_statuses(commit_phase_model(m, txs), txs)
}

/// The keyed updates one reconciliation publishes, in order.
pub open spec fn block_update_updates(m: PoolModel, txs: Seq<Transaction>) -> Seq<TxUpdate> {
    commit_phase_updates(m, txs) + evict_phase_updates(commit_phase_model(m, txs), txs)
}

/// What removing one live entry does to the model: well-formedness is
/// kept, membership only shrinks, and exactly the removed entry's id and
/// coin disappear.
pub proof fn lemma_live_remove_props(m: PoolModel, j: int)
    requires
        wf_model(m),
        0 <= j < m.live.len(),
    ensures
        wf_model(
            PoolModel { live: m.live.remove(j), committed: m.committed, next: m.next, cfg: m.cfg },
        ),
        forall|x: u64| has_id(m.live.remove(j), x) ==> has_id(m.live, x),
        forall|x: u64| has_coin(m.live.remove(j), x) ==> has_coin(m.live, x),
        !has_id(m.live.remove(j), m.live[j].tx.id),
        !has_coin(m.live.remove(j), m.live[j].tx.coin),
        forall|x: u64| x != m.live[j].tx.id && has_id(m.live, x) ==> has_id(m.live.remove(j), x),
        forall|x: u64|
            x != m.live[j].tx.coin && has_coin(m.live, x) ==> has_coin(m.live.remove(j), x),
        sum_gas(m.live.remove(j)) == sum_gas(m.live) - m.live[j].tx.gas,
        0 <= sum_gas(m.live.remove(j)),
        m.live[j].tx.gas <= sum_gas(m.live),
{
    m.live.remove_ensures(j);
    lemma_sum_gas_remove(m.live, j);
    let s1 = m.live.remove(j);
    assert forall|x: u64| has_id(s1, x) implies has_id(m.live, x) by {
        let w = choose|w: int| 0 <= w < s1.len() && (#[trigger] s1[w]).tx.id == x;
        if w < j {
            assert(m.live[w].tx.id == x);
        } else {
            assert(m.live[w + 1].tx.id == x);
        }
    }
    assert forall|x: u64| has_coin(s1, x) implies has_coin(m.live, x) by {
        let w = choose|w: int| 0 <= w < s1.len() && (#[trigger] s1[w]).tx.coin == x;
        if w < j {
            assert(m.live[w].tx.coin == x);
        } else {
            assert(m.live[w + 1].tx.coin == x);
        }
    }
    assert(!has_id(s1, m.live[j].tx.id)) by {
        if has_id(s1, m.live[j].tx.id) {
            let w = choose|w: int| 0 <= w < s1.len() && (#[trigger] s1[w]).tx.id
                == m.live[j].tx.id;
            if w < j {
                assert(m.live[w].tx.id != m.live[j].tx.id);
            } else {
                assert(m.live[w + 1].tx.id != m.live[j].tx.id);
            }
        }
    }
    assert(!has_coin(s1, m.live[j].tx.coin)) by {
        if has_coin(s1, m.live[j].tx.coin) {
            let w = choose|w: int| 0 <= w < s1.len() && (#[trigger] s1[w]).tx.coin
                == m.live[j].tx.coin;
            if w < j {
                assert(m.live[w].tx.coin != m.live[j].tx.coin);
            } else {
                assert(m.live[w + 1].tx.coin != m.live[j].tx.coin);
            }
        }
    }
    assert forall|x: u64| x != m.live[j].tx.id && has_id(m.live, x) implies has_id(s1, x) by {
        let w = choose|w: int| 0 <= w < m.live.len() && (#[trigger] m.live[w]).tx.id == x;
        if w < j {
            assert(s1[w].tx.id == x);
        } else {
            assert(w != j);
            assert(s1[w - 1].tx.id == x);
        }
    }
    assert forall|x: u64| x != m.live[j].tx.coin && has_coin(m.live, x) implies has_coin(
        s1,
        x,
    ) by {
        let w = choose|w: int| 0 <= w < m.live.len() && (#[trigger] m.live[w]).tx.coin == x;
        if w < j {
            assert(s1[w].tx.coin == x);
        } else {
            assert(w != j);
            assert(s1[w - 1].tx.coin == x);
        }
    }
    lemma_sum_gas_bounds(m.live, j);
    lemma_sum_gas_nonneg(s1);
}

/// Pushing a mark extends membership by exactly that mark.
pub proof fn lemma_push_contains(s: Seq<u64>, x: u64)
    ensures
        forall|y: u64| s.push(x).contains(y) <==> (s.contains(y) || y == x),
{
    assert forall|y: u64| s.push(x).contains(y) <==> (s.contains(y) || y == x) by {
        if s.push(x).contains(y) {
            let w = choose|w: int| 0 <= w < s.push(x).len() && s.push(x)[w] == y;
            if w < s.len() {
                assert(s[w] == y);
            }
        }
        if s.contains(y) {
            let w = choose|w: int| 0 <= w < s.len() && s[w] == y;
            assert(s.push(x)[w] == y);
        }
        if y == x {
            assert(s.push(x)[s.len() as int] == y);
        }
    }
}

/// Removing an entry lowers the total gas by exactly that entry's gas.
pub proof fn lemma_sum_gas_remove(s: Seq<TxInfo>, i: int)
    requires
        0 <= i < s.len(),
    ensures
        sum_gas(s.remove(i)) == sum_gas(s) - s[i].tx.gas,
    decreases s.len(),
{
    s.remove_ensures(i);
    if i == s.len() - 1 {
        assert(s.remove(i) =~= s.drop_last());
    } else {
        assert(s.remove(i).drop_last() =~= s.drop_last().remove(i)) by {
            s.drop_last().remove_ensures(i);
        }
        assert(s.remove(i).last() == s.last());
        lemma_sum_gas_remove(s.drop_last(), i);
    }
}

/// Total gas is nonnegative and bounds each entry's own gas.
pub proof fn lemma_sum_gas_nonneg(s: Seq<TxInfo>)
    ensures
        sum_gas(s) >= 0,
    decreases s.len(),
{
    if s.len() > 0 {
        lemma_sum_gas_nonneg(s.drop_last());
    }
}

/// Each entry's gas is at most the total gas of the sequence.
pub proof fn lemma_sum_gas_bounds(s: Seq<TxInfo>, i: int)
    requires
        0 <= i < s.len(),
    ensures
        s[i].tx.gas <= sum_gas(s),
    decreases s.len(),
{
    if i == s.len() - 1 {
        lemma_sum_gas_nonneg(s.drop_last());
    } else {
        lemma_sum_gas_bounds(s.drop_last(), i);
        assert(s.drop_last()[i] == s[i]);
    }
}

/// The transaction pool. All reads and writes go through the operations
/// below; each is specified against `self.model()`.
pub struct TxPool {
    entries: Vec<TxInfo>,
    committed: Vec<u64>,
    next_submitted: u64,
    total_gas: u64,
    config: Config,
}

impl TxPool {
    /// The model of the current pool state.
    pub closed spec fn model(self) -> PoolModel {
        PoolModel {
            live: self.entries@,
            committed: self.committed@,
            next: self.next_submitted,
            cfg: self.config,
        }
    }

    /// The pool's invariant: a well-formed model, with the cached total
    /// gas equal to the model's.
    pub closed spec fn wf(self) -> bool {
        &&& wf_model(self.model())
        &&& self.total_gas == sum_gas(self.entries@)
    }

    /// An empty pool under the given configuration.
    pub fn new(config: Config) -> (r: Self)
        ensures
            r.wf(),
            r.model() == (PoolModel {
                live: Seq::<TxInfo>::empty(),
                committed: Seq::<u64>::empty(),
                next: 0u64,
                cfg: config,
            }),
    {
        Self {
            entries: Vec::new(),
            committed: Vec::new(),
            next_submitted: 0,
            total_gas: 0,
            config,
        }
    }

    /// How many transactions are pending (live) in the pool.
    pub fn pending_number(&self) -> (r: usize)
        ensures
            r == self.model().live.len(),
    {
        self.entries.len()
    }

    /// Total gas of all live transactions.
    pub fn consumable_gas(&self) -> (r: u64)
        requires
            self.wf(),
        ensures
            r == sum_gas(self.model().live),
    {
        self.total_gas
    }

    /// Read-only lookup of one id; absent ids yield `None`.
    pub fn find_one(&self, id: u64) -> (r: Option<TxInfo>)
        requires
            self.wf(),
        ensures
            r == found_entry(self.model(), id),
    {
        let n = self.entries.len();
        let mut i: usize = 0;
        while i < n
            invariant
                n == self.entries.len(),
                i <= n,
                self.wf(),
                forall|k: int| 0 <= k < i ==> (#[trigger] self.entries@[k]).tx.id != id,
            decreases n - i,
        {
            if self.entries[i].tx.id == id {
                proof {
                    assert(has_id(self.entries@, id));
                    lemma_id_index_agrees(self.entries@, id, i as int);
                }
                return Some(self.entries[i]);
            }
            i += 1;
        }
        proof {
            assert(!has_id(self.entries@, id)) by {
                if has_id(self.entries@, id) {
                    let w = choose|w: int|
                        0 <= w < self.entries@.len() && (#[trigger] self.entries@[w]).tx.id == id;
                    assert(self.entries@[w].tx.id != id);
                }
            }
        }
        None
    }

    /// Read-only lookup of many ids, in order.
    pub fn find(&self, ids: &Vec<u64>) -> (r: Vec<Option<TxInfo>>)
        requires
            self.wf(),
        ensures
            r@.len() == ids@.len(),
            forall|k: int| 0 <= k < ids@.len() ==> r@[k] == found_entry(self.model(), ids@[k]),
    {
        let n = ids.len();
        let mut r: Vec<Option<TxInfo>> = Vec::new();
        let mut i: usize = 0;
        while i < n
            invariant
                n == ids.len(),
                i <= n,
                self.wf(),
                r@.len() == i,
                forall|k: int| 0 <= k < i ==> r@[k] == found_entry(self.model(), ids@[k]),
            decreases n - i,
        {
            r.push(self.find_one(ids[i]));
            i += 1;
        }
        r
    }

    /// The live transactions that directly depend on one of `ids`.
    pub fn find_dependent(&self, ids: &Vec<u64>) -> (r: Vec<Transaction>)
        requires
            self.wf(),
        ensures
            r@ == dependents_of(self.model().live, ids@),
    {
        let n = self.entries.len();
        let mut r: Vec<Transaction> = Vec::new();
        let mut i: usize = 0;
        while i < n
            invariant
                n == self.entries.len(),
                i <= n,
                self.wf(),
                r@ == dependents_of(self.entries@.take(i as int), ids@),
            decreases n - i,
        {
            proof {
                assert(self.entries@.take(i + 1).drop_last() =~= self.entries@.take(i as int));
                assert(self.entries@.take(i + 1).last() == self.entries@[i as int]);
            }
            let e = self.entries[i];
            match e.tx.dependency {
                Some(d) => {
                    if contains_u64(ids, d) {
                        r.push(e.tx);
                    }
                }
                None => {}
            }
            i += 1;
        }
        proof {
            assert(self.entries@.take(n as int) =~= self.entries@);
        }
        r
    }

    /// The current admissible-for-selection subset: live entries whose
    /// dependencies are satisfied.
    pub fn includable(&self) -> (r: Vec<TxInfo>)
        requires
            self.wf(),
        ensures
            r@ == includable_of(self.model().live, self.model().committed),
    {
        let n = self.entries.len();
        let mut r: Vec<TxInfo> = Vec::new();
        let mut i: usize = 0;
        while i < n
            invariant
                n == self.entries.len(),
                i <= n,
                self.wf(),
                r@ == includable_of(self.entries@.take(i as int), self.committed@),
            decreases n - i,
        {
            proof {
                assert(self.entries@.take(i + 1).drop_last() =~= self.entries@.take(i as int));
                assert(self.entries@.take(i + 1).last() == self.entries@[i as int]);
            }
            let e = self.entries[i];
            match e.tx.dependency {
                Some(d) => {
                    if contains_u64(&self.committed, d) {
                        r.push(e);
                    }
                }
                None => {
                    r.push(e);
                }
            }
            i += 1;
        }
        proof {
            assert(self.entries@.take(n as int) =~= self.entries@);
        }
        r
    }

    /// Attempts to admit one transaction: validates it, displaces a
    /// lower-tipped conflicting incumbent if there is one, and publishes the
    /// matching status/update events. On rejection the pool and the event
    /// logs are untouched.
    pub fn insert_single(&mut self, sink: &mut TxStatusChange, tx: Transaction) -> (r: Result<
        InsertionResult,
        Error,
    >)
        requires
            old(self).wf(),
        ensures
            final(self).wf(),
            final(self).model() == insert_model(old(self).model(), tx),
            r == insert_result(old(self).model(), tx),
            final(sink).statuses@ == old(sink).statuses@ + insert_statuses(old(self).model(), tx),
            final(sink).updates@ == old(sink).updates@ + insert_updates(old(self).model(), tx),
    {
        let ghost m0 = self.model();
        proof {
            assert(sink.statuses@ + Seq::<TxStatus>::empty() =~= sink.statuses@);
            assert(sink.updates@ + Seq::<TxUpdate>::empty() =~= sink.updates@);
        }
        if self.next_submitted == u64::MAX {
            return Err(Error::PoolFull);
        }
        if tx.gas == 0 || tx.gas > self.config.max_gas_per_tx {
            return Err(Error::GasLimitExceeded);
        }
        if vec_contains_id(&self.entries, tx.id) || contains_u64(&self.committed, tx.id) {
            return Err(Error::DuplicateTxId);
        }
        match tx.dependency {
            Some(d) => {
                if !vec_contains_id(&self.entries, d) && !contains_u64(&self.committed, d) {
                    return Err(Error::UnknownDependency);
                }
            }
            None => {}
        }
        let mut evict_at: Option<usize> = None;
        match find_coin_index(&self.entries, tx.coin) {
            Some(j) => {
                let inc = self.entries[j];
                proof {
                    lemma_coin_index_agrees(self.entries@, tx.coin, j as int);
                }
                if tx.tip <= inc.tx.tip {
                    return Err(Error::ConflictingSpend);
                }
                evict_at = Some(j);
            }
            None => {}
        }
        let rest_total: u64 = match evict_at {
            Some(j) => {
                proof {
                    lemma_sum_gas_remove(self.entries@, j as int);
                    lemma_sum_gas_bounds(self.entries@, j as int);
                }
                self.total_gas - self.entries[j].tx.gas
            }
            None => self.total_gas,
        };
        proof {
            lemma_sum_gas_nonneg(live_after_conflict(m0, tx));
        }
        if tx.gas > self.config.max_pool_gas - rest_total {
            return Err(Error::PoolGasLimit);
        }
        let ghost statuses0 = sink.statuses@;
        let ghost updates0 = sink.updates@;
        let mut removed_tx: Option<Transaction> = None;
        match evict_at {
            Some(j) => {
                let e = self.entries.remove(j);
                sink.send_squeezed_out(e.tx.id, Error::ConflictingSpend);
                removed_tx = Some(e.tx);
                proof {
                    m0.live.remove_ensures(j as int);
                }
            }
            None => {}
        }
        let info = TxInfo { tx, submitted: self.next_submitted };
        self.entries.push(info);
        self.next_submitted = self.next_submitted + 1;
        self.total_gas = rest_total + tx.gas;
        sink.send_submitted(tx.id);
        proof {
            let l1 = live_after_conflict(m0, tx);
            let l2 = self.entries@;
            assert(l2 == l1.push(info));
            assert(l2.drop_last() =~= l1);
            assert(insert_error(m0, tx) is None);
            // Distinctness of the new live set: entries kept from the old
            // set stay pairwise distinct under the removal's index
            // mapping, and the newcomer brings a fresh id, a coin no
            // survivor spends, and the next submission number.
            assert forall|a: int, b: int| 0 <= a < b < l2.len() implies (#[trigger] l2[a]).tx.id
                != (#[trigger] l2[b]).tx.id && l2[a].tx.coin != l2[b].tx.coin && l2[a].submitted
                != l2[b].submitted by {
                if displaced(m0, tx).is_some() {
                    m0.live.remove_ensures(coin_index(m0.live, tx.coin));
                }
                assert(!has_id(m0.live, tx.id));
            }
            assert(self.model() =~= insert_model(m0, tx));
            assert(sink.statuses@ =~= statuses0 + insert_statuses(m0, tx));
            assert(sink.updates@ =~= updates0 + insert_updates(m0, tx));
        }
        Ok(InsertionResult { inserted: tx, removed: removed_tx })
    }

    /// Admits a batch in order; each transaction's outcome is independent
    /// and one rejection does not abort the rest of the batch.
    pub fn insert(&mut self, sink: &mut TxStatusChange, txs: &Vec<Transaction>) -> (r: Vec<
        Result<InsertionResult, Error>,
    >)
        requires
            old(self).wf(),
        ensures
            final(self).wf(),
            final(self).model() == batch_model(old(self).model(), txs@),
            r@ == batch_results(old(self).model(), txs@),
            final(sink).statuses@ == old(sink).statuses@ + batch_statuses(
                old(self).model(),
                txs@,
            ),
            final(sink).updates@ == old(sink).updates@ + batch_updates(old(self).model(), txs@),
    {
        let ghost m0 = self.model();
        let ghost statuses0 = sink.statuses@;
        let ghost updates0 = sink.updates@;
        let n = txs.len();
        let mut r: Vec<Result<InsertionResult, Error>> = Vec::new();
        let mut i: usize = 0;
        proof {
            assert(statuses0 + Seq::<TxStatus>::empty() =~= statuses0);
            assert(updates0 + Seq::<TxUpdate>::empty() =~= updates0);
        }
        while i < n
            invariant
                n == txs.len(),
                i <= n,
                self.wf(),
                self.model() == batch_model(m0, txs@.take(i as int)),
                r@ == batch_results(m0, txs@.take(i as int)),
                sink.statuses@ == statuses0 + batch_statuses(m0, txs@.take(i as int)),
                sink.updates@ == updates0 + batch_updates(m0, txs@.take(i as int)),
            decreases n - i,
        {
            proof {
                assert(txs@.take(i + 1).drop_last() =~= txs@.take(i as int));
                assert(txs@.take(i + 1).last() == txs@[i as int]);
            }
            let res = self.insert_single(sink, txs[i]);
            r.push(res);
            i += 1;
            proof {
                assert(sink.statuses@ =~= statuses0 + batch_statuses(m0, txs@.take(i as int)));
                assert(sink.updates@ =~= updates0 + batch_updates(m0, txs@.take(i as int)));
            }
        }
        proof {
            assert(txs@.take(n as int) =~= txs@);
        }
        r
    }

    /// Administrative eviction of the given ids; every transaction that
    /// was live leaves with a `SqueezedOut` status carrying the `Removed`
    /// reason, and is returned. Absent ids are skipped.
    pub fn remove(&mut self, sink: &mut TxStatusChange, ids: &Vec<u64>) -> (r: Vec<Transaction>)
        requires
            old(self).wf(),
        ensures
            final(self).wf(),
            final(self).model() == remove_batch_model(old(self).model(), ids@),
            r@ == remove_batch_removed(old(self).model(), ids@),
            final(sink).statuses@ == old(sink).statuses@ + remove_batch_statuses(
                old(self).model(),
                ids@,
            ),
            final(sink).updates@ == old(sink).updates@ + remove_batch_updates(
                old(self).model(),
                ids@,
            ),
    {
        let ghost m0 = self.model();
        let ghost statuses0 = sink.statuses@;
        let ghost updates0 = sink.updates@;
        let n = ids.len();
        let mut r: Vec<Transaction> = Vec::new();
        let mut i: usize = 0;
        proof {
            assert(statuses0 + Seq::<TxStatus>::empty() =~= statuses0);
            assert(updates0 + Seq::<TxUpdate>::empty() =~= updates0);
            assert(r@ =~= Seq::<Transaction>::empty());
        }
        while i < n
            invariant
                n == ids.len(),
                i <= n,
                self.wf(),
                self.model() == remove_batch_model(m0, ids@.take(i as int)),
                r@ == remove_batch_removed(m0, ids@.take(i as int)),
                sink.statuses@ == statuses0 + remove_batch_statuses(m0, ids@.take(i as int)),
                sink.updates@ == updates0 + remove_batch_updates(m0, ids@.take(i as int)),
            decreases n - i,
        {
            proof {
                assert(ids@.take(i + 1).drop_last() =~= ids@.take(i as int));
                assert(ids@.take(i + 1).last() == ids@[i as int]);
            }
            let ghost mi = self.model();
            let id = ids[i];
            match find_id_index(&self.entries, id) {
                Some(j) => {
                    proof {
                        lemma_id_index_agrees(self.entries@, id, j as int);
                        lemma_live_remove_props(mi, j as int);
                    }
                    let e = self.entries.remove(j);
                    self.total_gas = self.total_gas - e.tx.gas;
                    sink.send_squeezed_out(id, Error::Removed);
                    r.push(e.tx);
                }
                None => {}
            }
            i += 1;
            proof {
                assert(self.model() =~= remove_batch_model(m0, ids@.take(i as int)));
                assert(r@ =~= remove_batch_removed(m0, ids@.take(i as int)));
                assert(sink.statuses@ =~= statuses0 + remove_batch_statuses(
                    m0,
                    ids@.take(i as int),
                ));
                assert(sink.updates@ =~= updates0 + remove_batch_updates(
                    m0,
                    ids@.take(i as int),
                ));
            }
        }
        proof {
            assert(ids@.take(n as int) =~= ids@);
        }
        r
    }

    /// Eviction caused by block inclusion: the id leaves the live set if
    /// present and is recorded as committed. No squeeze-out is published;
    /// the caller owns the corresponding `Completed` status.
    pub fn remove_committed_tx(&mut self, id: u64)
        requires
            old(self).wf(),
        ensures
            final(self).wf(),
            final(self).model() == commit_id_model(old(self).model(), id),
    {
        let ghost m0 = self.model();
        match find_id_index(&self.entries, id) {
            Some(j) => {
                proof {
                    lemma_id_index_agrees(self.entries@, id, j as int);
                    lemma_live_remove_props(m0, j as int);
                }
                let e = self.entries.remove(j);
                self.total_gas = self.total_gas - e.tx.gas;
            }
            None => {}
        }
        if !contains_u64(&self.committed, id) {
            self.committed.push(id);
            proof {
                lemma_push_contains(m0.committed, id);
            }
        }
        proof {
            assert(self.model() =~= commit_id_model(m0, id));
        }
    }

    /// Reconciliation against a committed block's transactions: every
    /// block transaction present in the pool leaves as `Completed` and is
    /// marked committed; afterwards any remaining live entry spending a
    /// coin the block also spent is squeezed out as a conflicting spend.
    pub fn block_update(&mut self, sink: &mut TxStatusChange, sealed_block: &SealedBlock)
        requires
            old(self).wf(),
        ensures
            final(self).wf(),
            final(self).model() == block_update_model(
                old(self).model(),
                sealed_block.entity.transactions@,
            ),
            final(sink).statuses@ == old(sink).statuses@ + block_update_statuses(
                old(self).model(),
                sealed_block.entity.transactions@,
            ),
            final(sink).updates@ == old(sink).updates@ + block_update_updates(
                old(self).model(),
                sealed_block.entity.transactions@,
            ),
    {
        let txs = &sealed_block.entity.transactions;
        let ghost m0 = self.model();
        let ghost statuses0 = sink.statuses@;
        let ghost updates0 = sink.updates@;
        let n = txs.len();
        let mut i: usize = 0;
        proof {
            assert(statuses0 + Seq::<TxStatus>::empty() =~= statuses0);
            assert(updates0 + Seq::<TxUpdate>::empty() =~= updates0);
        }
        while i < n
            invariant
                n == txs.len(),
                i <= n,
                self.wf(),
                self.model() == commit_phase_model(m0, txs@.take(i as int)),
                sink.statuses@ == statuses0 + commit_phase_statuses(m0, txs@.take(i as int)),
                sink.updates@ == updates0 + commit_phase_updates(m0, txs@.take(i as int)),
            decreases n - i,
        {
            proof {
                assert(txs@.take(i + 1).drop_last() =~= txs@.take(i as int));
                assert(txs@.take(i + 1).last() == txs@[i as int]);
            }
            let ghost mi = self.model();
            let id = txs[i].id;
            match find_id_index(&self.entries, id) {
                Some(j) => {
                    proof {
                        lemma_id_index_agrees(self.entries@, id, j as int);
                        lemma_live_remove_props(mi, j as int);
                    }
                    let e = self.entries.remove(j);
                    self.total_gas = self.total_gas - e.tx.gas;
                    sink.send_complete(id);
                }
                None => {}
            }
            if !contains_u64(&self.committed, id) {
                self.committed.push(id);
                proof {
                    lemma_push_contains(mi.committed, id);
                }
            }
            i += 1;
            proof {
                assert(self.model() =~= commit_phase_model(m0, txs@.take(i as int)));
                assert(sink.statuses@ =~= statuses0 + commit_phase_statuses(
                    m0,
                    txs@.take(i as int),
                ));
                assert(sink.updates@ =~= updates0 + commit_phase_updates(
                    m0,
                    txs@.take(i as int),
                ));
            }
        }
        proof {
            assert(txs@.take(n as int) =~= txs@);
        }
        let ghost m1 = self.model();
        let ghost statuses1 = sink.statuses@;
        let ghost updates1 = sink.updates@;
        let mut i: usize = 0;
        proof {
            assert(statuses1 + Seq::<TxStatus>::empty() =~= statuses1);
            assert(updates1 + Seq::<TxUpdate>::empty() =~= updates1);
        }
        while i < n
            invariant
                n == txs.len(),
                i <= n,
                self.wf(),
                self.model() == evict_phase_model(m1, txs@.take(i as int)),
                sink.statuses@ == statuses1 + evict_phase_statuses(m1, txs@.take(i as int)),
                sink.updates@ == updates1 + evict_phase_updates(m1, txs@.take(i as int)),
            decreases n - i,
        {
            proof {
                assert(txs@.take(i + 1).drop_last() =~= txs@.take(i as int));
                assert(txs@.take(i + 1).last() == txs@[i as int]);
            }
            let ghost mi = self.model();
            let coin = txs[i].coin;
            match find_coin_index(&self.entries, coin) {
                Some(j) => {
                    proof {
                        lemma_coin_index_agrees(self.entries@, coin, j as int);
                        lemma_live_remove_props(mi, j as int);
                    }
                    let e = self.entries.remove(j);
                    self.total_gas = self.total_gas - e.tx.gas;
                    sink.send_squeezed_out(e.tx.id, Error::ConflictingSpend);
                }
                None => {}
            }
            i += 1;
            proof {
                assert(self.model() =~= evict_phase_model(m1, txs@.take(i as int)));
                assert(sink.statuses@ =~= statuses1 + evict_phase_statuses(
                    m1,
                    txs@.take(i as int),
                ));
                assert(sink.updates@ =~= updates1 + evict_phase_updates(
                    m1,
                    txs@.take(i as int),
                ));
            }
        }
        proof {
            assert(txs@.take(n as int) =~= txs@);
            assert(sink.statuses@ =~= statuses0 + block_update_statuses(m0, txs@));
            assert(sink.updates@ =~= updates0 + block_update_updates(m0, txs@));
        }
    }
}

/// The transactions of a batch that are accepted, in order: exactly those
/// whose per-transaction result is a success.
pub open spec fn accepted_txs(m: PoolModel, txs: Seq<Transaction>) -> Seq<Transaction>
    decreases txs.len(),
{
    if txs.len() == 0 {
        Seq::empty()
    } else {
        accepted_txs(m, txs.drop_last()) + (if insert_error(
            batch_model(m, txs.drop_last()),
            txs.last(),
        ) is None {
            seq![txs.last()]
        } else {
            Seq::empty()
        })
    }
}

/// A well-formed pool has a well-formed model.
pub proof fn lemma_wf_model(p: TxPool)
    requires
        p.wf(),
    ensures
        wf_model(p.model()),
{
}

/// Each batch result is the single-step result against the pool state the
/// earlier transactions of the batch produced.
pub proof fn lemma_batch_results_index(m: PoolModel, txs: Seq<Transaction>, i: int)
    requires
        0 <= i < txs.len(),
    ensures
        batch_results(m, txs).len() == txs.len(),
        batch_results(m, txs)[i] == insert_result(batch_model(m, txs.take(i)), txs[i]),
    decreases txs.len(),
{
    lemma_batch_results_len(m, txs);
    if i == txs.len() - 1 {
        assert(txs.take(i) =~= txs.drop_last());
    } else {
        lemma_batch_results_index(m, txs.drop_last(), i);
        assert(txs.drop_last().take(i) =~= txs.take(i));
        assert(txs.drop_last()[i] == txs[i]);
    }
}

/// A batch produces exactly one result per transaction.
pub proof fn lemma_batch_results_len(m: PoolModel, txs: Seq<Transaction>)
    ensures
        batch_results(m, txs).len() == txs.len(),
    decreases txs.len(),
{
    if txs.len() > 0 {
        lemma_batch_results_len(m, txs.drop_last());
    }
}

/// The includable view draws its entries from the live set and keeps
/// their submission numbers distinct.
pub proof fn lemma_includable_props(live: Seq<TxInfo>, committed: Seq<u64>)
    requires
        submitted_distinct(live),
    ensures
        forall|x: TxInfo| includable_of(live, committed).contains(x) ==> live.contains(x),
        submitted_distinct(includable_of(live, committed)),
    decreases live.len(),
{
    if live.len() > 0 {
        assert(submitted_distinct(live.drop_last())) by {
            assert forall|i: int, j: int|
                0 <= i < j < live.drop_last().len() implies (#[trigger] live.drop_last()[i]).submitted
                != (#[trigger] live.drop_last()[j]).submitted by {
                assert(live.drop_last()[i] == live[i]);
                assert(live.drop_last()[j] == live[j]);
            }
        }
        lemma_includable_props(live.drop_last(), committed);
        let rest = includable_of(live.drop_last(), committed);
        assert forall|x: TxInfo| rest.contains(x) implies live.contains(x) by {
            assert(live.drop_last().contains(x));
            let w = choose|w: int|
                0 <= w < live.drop_last().len() && live.drop_last()[w] == x;
            assert(live[w] == x);
        }
        if dep_satisfied(live.last(), committed) {
            let inc = rest.push(live.last());
            assert forall|x: TxInfo| inc.contains(x) implies live.contains(x) by {
                let w = choose|w: int| 0 <= w < inc.len() && inc[w] == x;
                if w < rest.len() {
                    assert(rest[w] == x);
                    assert(rest.contains(x));
                } else {
                    assert(live[live.len() - 1] == x);
                }
            }
            assert forall|a: int, b: int|
                0 <= a < b < inc.len() implies (#[trigger] inc[a]).submitted != (
            #[trigger] inc[b]).submitted by {
                if b == inc.len() - 1 {
                    assert(rest[a] == inc[a]);
                    assert(rest.contains(inc[a]));
                    assert(live.drop_last().contains(inc[a]));
                    let w = choose|w: int|
                        0 <= w < live.drop_last().len() && live.drop_last()[w] == inc[a];
                    assert(live[w] == inc[a]);
                    assert(live[w].submitted != live[live.len() - 1].submitted);
                }
            }
        }
    }
}

/// Law: one admission attempt pairs statuses and updates exactly. An
/// accepted transaction produces exactly one `Submitted` status and one
/// update keyed with its id and no squeeze-out reason; a displaced
/// incumbent produces exactly one `SqueezedOut` status and one update
/// keyed with its id and the conflict reason, ahead of the pair of the
/// newcomer; a rejected transaction produces no event at all.
pub proof fn lemma_admission_eviction_pairing(m: PoolModel, t: Transaction)
    ensures
        insert_statuses(m, t).len() == insert_updates(m, t).len(),
        insert_error(m, t).is_some() ==> insert_statuses(m, t) == Seq::<TxStatus>::empty()
            && insert_updates(m, t) == Seq::<TxUpdate>::empty(),
        insert_error(m, t).is_none() && displaced(m, t).is_none() ==> insert_statuses(m, t)
            == seq![TxStatus::Submitted] && insert_updates(m, t) == seq![TxUpdate {
            tx_id: t.id,
            squeezed_out: None,
        }],
        insert_error(m, t).is_none() && displaced(m, t).is_some() ==> insert_statuses(m, t)
            == seq![
            TxStatus::SqueezedOut { reason: Error::ConflictingSpend },
            TxStatus::Submitted,
        ] && insert_updates(m, t) == seq![
            TxUpdate {
                tx_id: displaced(m, t).unwrap().tx.id,
                squeezed_out: Some(Error::ConflictingSpend),
            },
            TxUpdate { tx_id: t.id, squeezed_out: None },
        ],
{
}

/// Law: one administrative eviction pairs its events exactly. A live
/// transaction leaves with exactly one `SqueezedOut` status and one
/// update keyed with its id and the `Removed` reason; an absent id
/// produces no event.
pub proof fn lemma_removal_event_pairing(m: PoolModel, id: u64)
    ensures
        evict_id_statuses(m, id).len() == evict_id_updates(m, id).len(),
        has_id(m.live, id) ==> evict_id_statuses(m, id) == seq![TxStatus::SqueezedOut {
            reason: Error::Removed,
        }] && evict_id_updates(m, id) == seq![TxUpdate {
            tx_id: id,
            squeezed_out: Some(Error::Removed),
        }],
        !has_id(m.live, id) ==> evict_id_statuses(m, id) == Seq::<TxStatus>::empty()
            && evict_id_updates(m, id) == Seq::<TxUpdate>::empty(),
{
}

/// Law: block inclusion pairs its events exactly. Each block transaction
/// still live when the reconciliation reaches it produces exactly one
/// `Completed` status and one update keyed with its id and no squeeze-out
/// reason; one already gone produces no event.
pub proof fn lemma_completion_event_pairing(m: PoolModel, txs: Seq<Transaction>)
    requires
        txs.len() > 0,
    ensures
        ({
            let prev = commit_phase_model(m, txs.drop_last());
            let st = commit_phase_statuses(m, txs);
            let up = commit_phase_updates(m, txs);
            &&& (has_id(prev.live, txs.last().id) ==> st == commit_phase_statuses(
                m,
                txs.drop_last(),
            ) + seq![TxStatus::Completed] && up == commit_phase_updates(m, txs.drop_last())
                + seq![TxUpdate { tx_id: txs.last().id, squeezed_out: None }])
            &&& (!has_id(prev.live, txs.last().id) ==> st == commit_phase_statuses(
                m,
                txs.drop_last(),
            ) && up == commit_phase_updates(m, txs.drop_last()))
        }),
{
    let prev = commit_phase_model(m, txs.drop_last());
    if !has_id(prev.live, txs.last().id) {
        assert(commit_phase_statuses(m, txs.drop_last()) + Seq::<TxStatus>::empty()
            =~= commit_phase_statuses(m, txs.drop_last()));
        assert(commit_phase_updates(m, txs.drop_last()) + Seq::<TxUpdate>::empty()
            =~= commit_phase_updates(m, txs.drop_last()));
    }
}

/// Marking one id as committed keeps the model well formed, removes the
/// id from the live set, records it committed, and only ever shrinks the
/// live set and grows the committed marks.
pub proof fn lemma_commit_id_props(m: PoolModel, id: u64)
    requires
        wf_model(m),
    ensures
        wf_model(commit_id_model(m, id)),
        !has_id(commit_id_model(m, id).live, id),
        commit_id_model(m, id).committed.contains(id),
        forall|x: u64| has_id(commit_id_model(m, id).live, x) ==> has_id(m.live, x),
        forall|x: u64| has_coin(commit_id_model(m, id).live, x) ==> has_coin(m.live, x),
        forall|x: u64| m.committed.contains(x) ==> commit_id_model(m, id).committed.contains(x),
        commit_id_model(m, id).next == m.next,
        commit_id_model(m, id).cfg == m.cfg,
{
    let r = commit_id_model(m, id);
    if has_id(m.live, id) {
        let j = id_index(m.live, id);
        assert(0 <= j < m.live.len() && m.live[j].tx.id == id);
        lemma_live_remove_props(m, j);
    }
    if !m.committed.contains(id) {
        lemma_push_contains(m.committed, id);
        assert(marks_distinct(r.committed)) by {
            assert forall|a: int, b: int| 0 <= a < b < r.committed.len() implies r.committed[a]
                != r.committed[b] by {
                if b == r.committed.len() - 1 {
                    assert(m.committed[a] == r.committed[a]);
                    if m.committed[a] == id {
                        assert(m.committed.contains(id));
                    }
                }
            }
        }
    }
    assert forall|i: int| 0 <= i < r.live.len() implies !r.committed.contains(
        (#[trigger] r.live[i]).tx.id,
    ) by {
        assert(has_id(r.live, r.live[i].tx.id));
        let x = r.live[i].tx.id;
        assert(has_id(m.live, x));
        let w = choose|w: int| 0 <= w < m.live.len() && (#[trigger] m.live[w]).tx.id == x;
        assert(!m.committed.contains(x));
        assert(!has_id(r.live, id));
        assert(x != id);
    }
}

/// Marking a whole block's transactions keeps the model well formed; all
/// their ids end committed and none stays live; live membership only
/// shrinks and committed membership only grows.
pub proof fn lemma_commit_phase_props(m: PoolModel, txs: Seq<Transaction>)
    requires
        wf_model(m),
    ensures
        wf_model(commit_phase_model(m, txs)),
        forall|k: int|
            0 <= k < txs.len() ==> commit_phase_model(m, txs).committed.contains(
                (#[trigger] txs[k]).id,
            ),
        forall|k: int|
            0 <= k < txs.len() ==> !has_id(commit_phase_model(m, txs).live, (#[trigger] txs[k]).id),
        forall|x: u64| has_id(commit_phase_model(m, txs).live, x) ==> has_id(m.live, x),
        forall|x: u64| has_coin(commit_phase_model(m, txs).live, x) ==> has_coin(m.live, x),
        forall|x: u64| m.committed.contains(x) ==> commit_phase_model(m, txs).committed.contains(x),
        commit_phase_model(m, txs).next == m.next,
        commit_phase_model(m, txs).cfg == m.cfg,
    decreases txs.len(),
{
    if txs.len() > 0 {
        lemma_commit_phase_props(m, txs.drop_last());
        let prev = commit_phase_model(m, txs.drop_last());
        lemma_commit_id_props(prev, txs.last().id);
        assert forall|k: int| 0 <= k < txs.len() implies commit_phase_model(
            m,
            txs,
        ).committed.contains((#[trigger] txs[k]).id) && !has_id(
            commit_phase_model(m, txs).live,
            txs[k].id,
        ) by {
            if k < txs.len() - 1 {
                assert(txs.drop_last()[k] == txs[k]);
                assert(prev.committed.contains(txs[k].id));
                assert(!has_id(prev.live, txs[k].id));
            } else {
                assert(txs[k] == txs.last());
            }
        }
    }
}

/// Evicting the spender of one coin keeps the model well formed, leaves
/// the committed marks alone, and clears that coin from the live set.
pub proof fn lemma_evict_coin_props(m: PoolModel, coin: u64)
    requires
        wf_model(m),
    ensures
        wf_model(evict_coin_model(m, coin)),
        !has_coin(evict_coin_model(m, coin).live, coin),
        forall|x: u64| has_id(evict_coin_model(m, coin).live, x) ==> has_id(m.live, x),
        forall|x: u64| has_coin(evict_coin_model(m, coin).live, x) ==> has_coin(m.live, x),
        evict_coin_model(m, coin).committed == m.committed,
        evict_coin_model(m, coin).next == m.next,
        evict_coin_model(m, coin).cfg == m.cfg,
{
    if has_coin(m.live, coin) {
        let j = coin_index(m.live, coin);
        assert(0 <= j < m.live.len() && m.live[j].tx.coin == coin);
        lemma_live_remove_props(m, j);
    }
}

/// Clearing a whole block's coins keeps the model well formed; none of
/// those coins stays live, membership only shrinks, and the committed
/// marks are untouched.
pub proof fn lemma_evict_phase_props(m: PoolModel, txs: Seq<Transaction>)
    requires
        wf_model(m),
    ensures
        wf_model(evict_phase_model(m, txs)),
        forall|k: int|
            0 <= k < txs.len() ==> !has_coin(
                evict_phase_model(m, txs).live,
                (#[trigger] txs[k]).coin,
            ),
        forall|x: u64| has_id(evict_phase_model(m, txs).live, x) ==> has_id(m.live, x),
        forall|x: u64| has_coin(evict_phase_model(m, txs).live, x) ==> has_coin(m.live, x),
        evict_phase_model(m, txs).committed == m.committed,
        evict_phase_model(m, txs).next == m.next,
        evict_phase_model(m, txs).cfg == m.cfg,
    decreases txs.len(),
{
    if txs.len() > 0 {
        lemma_evict_phase_props(m, txs.drop_last());
        let prev = evict_phase_model(m, txs.drop_last());
        lemma_evict_coin_props(prev, txs.last().coin);
        assert forall|k: int| 0 <= k < txs.len() implies !has_coin(
            evict_phase_model(m, txs).live,
            (#[trigger] txs[k]).coin,
        ) by {
            if k < txs.len() - 1 {
                assert(txs.drop_last()[k] == txs[k]);
                assert(!has_coin(prev.live, txs[k].coin));
            } else {
                assert(txs[k] == txs.last());
            }
        }
    }
}

/// Marking an id that is already committed and no longer live changes
/// nothing.
pub proof fn lemma_commit_id_noop(m: PoolModel, id: u64)
    requires
        m.committed.contains(id),
        !has_id(m.live, id),
    ensures
        commit_id_model(m, id) == m,
{
    assert(commit_id_model(m, id) =~= m);
}

/// The commit phase is a no-op when every block id is already committed
/// and none is live.
pub proof fn lemma_commit_phase_noop(m: PoolModel, txs: Seq<Transaction>)
    requires
        forall|k: int| 0 <= k < txs.len() ==> m.committed.contains((#[trigger] txs[k]).id),
        forall|k: int| 0 <= k < txs.len() ==> !has_id(m.live, (#[trigger] txs[k]).id),
    ensures
        commit_phase_model(m, txs) == m,
    decreases txs.len(),
{
    if txs.len() > 0 {
        assert forall|k: int| 0 <= k < txs.drop_last().len() implies m.committed.contains(
            (#[trigger] txs.drop_last()[k]).id,
        ) && !has_id(m.live, txs.drop_last()[k].id) by {
            assert(txs.drop_last()[k] == txs[k]);
        }
        lemma_commit_phase_noop(m, txs.drop_last());
        assert(txs.last() == txs[txs.len() - 1]);
        lemma_commit_id_noop(m, txs.last().id);
    }
}

/// The conflict-eviction phase is a no-op when none of the block's coins
/// is live.
pub proof fn lemma_evict_phase_noop(m: PoolModel, txs: Seq<Transaction>)
    requires
        forall|k: int| 0 <= k < txs.len() ==> !has_coin(m.live, (#[trigger] txs[k]).coin),
    ensures
        evict_phase_model(m, txs) == m,
    decreases txs.len(),
{
    if txs.len() > 0 {
        assert forall|k: int| 0 <= k < txs.drop_last().len() implies !has_coin(
            m.live,
            (#[trigger] txs.drop_last()[k]).coin,
        ) by {
            assert(txs.drop_last()[k] == txs[k]);
        }
        lemma_evict_phase_noop(m, txs.drop_last());
        assert(txs.last() == txs[txs.len() - 1]);
        assert(evict_coin_model(m, txs.last().coin) == m);
    }
}

/// Law: reconciliation against the same committed block is idempotent.
/// Applying the same block's update twice leaves exactly the state the
/// first application produced — the second run evicts nothing further and
/// the pending count is not double-counted.
pub proof fn lemma_block_update_idempotent(m: PoolModel, txs: Seq<Transaction>)
    requires
        wf_model(m),
    ensures
        wf_model(block_update_model(m, txs)),
        block_update_model(block_update_model(m, txs), txs) == block_update_model(m, txs),
{
    let m1 = commit_phase_model(m, txs);
    let m2 = evict_phase_model(m1, txs);
    lemma_commit_phase_props(m, txs);
    lemma_evict_phase_props(m1, txs);
    assert forall|k: int| 0 <= k < txs.len() implies m2.committed.contains((#[trigger] txs[k]).id)
        && !has_id(m2.live, txs[k].id) by {
        assert(m1.committed.contains(txs[k].id));
        assert(!has_id(m1.live, txs[k].id));
    }
    lemma_commit_phase_noop(m2, txs);
    lemma_evict_phase_noop(m2, txs);
}

/// With distinct ids, the chosen `id_index` is the index where the id was
/// actually seen.
pub proof fn lemma_id_index_agrees(s: Seq<TxInfo>, id: u64, i: int)
    requires
        ids_distinct(s),
        0 <= i < s.len(),
        s[i].tx.id == id,
    ensures
        has_id(s, id),
        id_index(s, id) == i,
        s[id_index(s, id)] == s[i],
{
    assert(has_id(s, id));
    let j = id_index(s, id);
    assert(0 <= j < s.len() && s[j].tx.id == id);
    if i < j {
        assert(s[i].tx.id != s[j].tx.id);
    } else if j < i {
        assert(s[j].tx.id != s[i].tx.id);
    }
}

/// With distinct coins, the chosen `coin_index` is the index where the
/// coin was actually seen.
pub proof fn lemma_coin_index_agrees(s: Seq<TxInfo>, coin: u64, i: int)
    requires
        coins_distinct(s),
        0 <= i < s.len(),
        s[i].tx.coin == coin,
    ensures
        has_coin(s, coin),
        coin_index(s, coin) == i,
        s[coin_index(s, coin)] == s[i],
{
    assert(has_coin(s, coin));
    let j = coin_index(s, coin);
    assert(0 <= j < s.len() && s[j].tx.coin == coin);
    if i < j {
        assert(s[i].tx.coin != s[j].tx.coin);
    } else if j < i {
        assert(s[j].tx.coin != s[i].tx.coin);
    }
}

/// Membership of an id among the live entries.
fn vec_contains_id(v: &Vec<TxInfo>, id: u64) -> (r: bool)
    ensures
        r == has_id(v@, id),
{
    let n = v.len();
    let mut i: usize = 0;
    while i < n
        invariant
            n == v.len(),
            i <= n,
            forall|k: int| 0 <= k < i ==> (#[trigger] v@[k]).tx.id != id,
        decreases n - i,
    {
        if v[i].tx.id == id {
            assert(has_id(v@, id));
            return true;
        }
        i += 1;
    }
    proof {
        assert(!has_id(v@, id)) by {
            if has_id(v@, id) {
                let w = choose|w: int| 0 <= w < v@.len() && (#[trigger] v@[w]).tx.id == id;
                assert(v@[w].tx.id != id);
            }
        }
    }
    false
}

/// First index carrying the id, if any.
fn find_id_index(v: &Vec<TxInfo>, id: u64) -> (r: Option<usize>)
    ensures
        match r {
            Some(j) => j < v@.len() && v@[j as int].tx.id == id,
            None => !has_id(v@, id),
        },
{
    let n = v.len();
    let mut i: usize = 0;
    while i < n
        invariant
            n == v.len(),
            i <= n,
            forall|k: int| 0 <= k < i ==> (#[trigger] v@[k]).tx.id != id,
        decreases n - i,
    {
        if v[i].tx.id == id {
            return Some(i);
        }
        i += 1;
    }
    proof {
        assert(!has_id(v@, id)) by {
            if has_id(v@, id) {
                let w = choose|w: int| 0 <= w < v@.len() && (#[trigger] v@[w]).tx.id == id;
                assert(v@[w].tx.id != id);
            }
        }
    }
    None
}

/// First index spending the coin, if any.
fn find_coin_index(v: &Vec<TxInfo>, coin: u64) -> (r: Option<usize>)
    ensures
        match r {
            Some(j) => j < v@.len() && v@[j as int].tx.coin == coin,
            None => !has_coin(v@, coin),
        },
{
    let n = v.len();
    let mut i: usize = 0;
    while i < n
        invariant
            n == v.len(),
            i <= n,
            forall|k: int| 0 <= k < i ==> (#[trigger] v@[k]).tx.coin != coin,
        decreases n - i,
    {
        if v[i].tx.coin == coin {
            return Some(i);
        }
        i += 1;
    }
    proof {
        assert(!has_coin(v@, coin)) by {
            if has_coin(v@, coin) {
                let w = choose|w: int| 0 <= w < v@.len() && (#[trigger] v@[w]).tx.coin == coin;
                assert(v@[w].tx.coin != coin);
            }
        }
    }
    None
}

/// Membership of a plain id list.
fn contains_u64(v: &Vec<u64>, x: u64) -> (r: bool)
    ensures
        r == v@.contains(x),
{
    let n = v.len();
    let mut i: usize = 0;
    while i < n
        invariant
            n == v.len(),
            i <= n,
            forall|k: int| 0 <= k < i ==> v@[k] != x,
        decreases n - i,
    {
        if v[i] == x {
            return true;
        }
        i += 1;
    }
    proof {
        assert(!v@.contains(x)) by {
            if v@.contains(x) {
                let w = choose|w: int| 0 <= w < v@.len() && v@[w] == x;
                assert(v@[w] != x);
            }
        }
    }
    false
}

} // verus!
