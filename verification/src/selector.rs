//! Gas-bounded transaction selection for block production: a pure,
//! deterministic function over the pool's includable view. Candidates are
//! considered by priority — higher tip first, ties broken by the earlier
//! submission number — accumulating gas, skipping every candidate whose
//! gas no longer fits the budget.

use vstd::prelude::*;

use crate::pool::{sum_gas, submitted_distinct};
use crate::tx::{Transaction, TxInfo};

verus! {

/// The transactions carried by a sequence of pool entries, in order.
pub open spec fn txs_of(s: Seq<TxInfo>) -> Seq<Transaction> {
    s.map_values(|e: TxInfo| e.tx)
}

/// Total gas of a sequence of plain transactions.
pub open spec fn sum_tx_gas(s: Seq<Transaction>) -> int
    decreases s.len(),
{
    if s.len() == 0 {
        0
    } else {
        sum_tx_gas(s.drop_last()) + s.last().gas
    }
}

/// Projecting entries to their transactions keeps the total gas.
pub proof fn lemma_sum_txs_of(s: Seq<TxInfo>)
    ensures
        sum_tx_gas(txs_of(s)) == sum_gas(s),
    decreases s.len(),
{
    if s.len() > 0 {
        assert(txs_of(s).drop_last() =~= txs_of(s.drop_last()));
        assert(txs_of(s).last() == s.last().tx);
        lemma_sum_txs_of(s.drop_last());
    }
}

/// `a` ranks no worse than `b`: strictly higher tip, or the same tip and
/// a submission number at most `b`'s.
pub open spec fn in_order(a: TxInfo, b: TxInfo) -> bool {
    a.tx.tip > b.tx.tip || (a.tx.tip == b.tx.tip && a.submitted <= b.submitted)
}

/// Sorted by selection priority.
pub open spec fn sorted_by_priority(s: Seq<TxInfo>) -> bool {
    forall|i: int, j: int| 0 <= i < j < s.len() ==> #[trigger] in_order(s[i], s[j])
}

/// `a` and `b` hold exactly the same entries (with distinct submission
/// numbers on both sides this makes them permutations of each other).
pub open spec fn same_entries(a: Seq<TxInfo>, b: Seq<TxInfo>) -> bool {
    a.len() == b.len() && (forall|x: TxInfo| a.contains(x) <==> b.contains(x))
}

/// The greedy pass over a priority-ordered sequence: take each candidate
/// whose gas still fits the remaining budget, skip the others.
pub open spec fn greedy(s: Seq<TxInfo>, budget: int) -> Seq<TxInfo>
    decreases s.len(),
{
    if s.len() == 0 {
        Seq::empty()
    } else if s[0].tx.gas <= budget {
        seq![s[0]] + greedy(s.skip(1), budget - s[0].tx.gas)
    } else {
        greedy(s.skip(1), budget)
    }
}

/// Total gas distributes over concatenation.
pub proof fn lemma_sum_gas_concat(a: Seq<TxInfo>, b: Seq<TxInfo>)
    ensures
        sum_gas(a + b) == sum_gas(a) + sum_gas(b),
    decreases b.len(),
{
    if b.len() == 0 {
        assert(a + b =~= a);
    } else {
        assert((a + b).drop_last() =~= a + b.drop_last());
        assert((a + b).last() == b.last());
        lemma_sum_gas_concat(a, b.drop_last());
    }
}

/// Total gas of a one-entry sequence.
pub proof fn lemma_sum_gas_singleton(x: TxInfo)
    ensures
        sum_gas(seq![x]) == x.tx.gas,
{
    let s = seq![x];
    assert(s.last() == x);
    assert(s.drop_last() =~= Seq::<TxInfo>::empty());
    assert(sum_gas(Seq::<TxInfo>::empty()) == 0);
    assert(sum_gas(s) == sum_gas(s.drop_last()) + s.last().tx.gas);
}

/// The greedy pass never exceeds its budget.
pub proof fn lemma_greedy_budget(s: Seq<TxInfo>, budget: int)
    requires
        budget >= 0,
    ensures
        0 <= sum_gas(greedy(s, budget)) <= budget,
    decreases s.len(),
{
    if s.len() == 0 {
    } else if s[0].tx.gas <= budget {
        lemma_greedy_budget(s.skip(1), budget - s[0].tx.gas);
        lemma_sum_gas_concat(seq![s[0]], greedy(s.skip(1), budget - s[0].tx.gas));
        lemma_sum_gas_singleton(s[0]);
    } else {
        lemma_greedy_budget(s.skip(1), budget);
    }
}

/// What appending one lower-priority candidate does to the greedy pass:
/// it is taken exactly when its gas fits what the pass already left of
/// the budget.
pub proof fn lemma_greedy_extend(s: Seq<TxInfo>, e: TxInfo, budget: int)
    ensures
        greedy(s.push(e), budget) == (if e.tx.gas <= budget - sum_gas(greedy(s, budget)) {
            greedy(s, budget).push(e)
        } else {
            greedy(s, budget)
        }),
    decreases s.len(),
{
    if s.len() == 0 {
        assert(s.push(e)[0] == e);
        assert(s.push(e).skip(1) =~= Seq::<TxInfo>::empty());
        assert(greedy(s, budget) == Seq::<TxInfo>::empty());
        assert(sum_gas(Seq::<TxInfo>::empty()) == 0);
        assert(greedy(Seq::<TxInfo>::empty(), budget - e.tx.gas) == Seq::<TxInfo>::empty());
        assert(greedy(Seq::<TxInfo>::empty(), budget) == Seq::<TxInfo>::empty());
        if e.tx.gas <= budget {
            assert(greedy(s.push(e), budget) == seq![e] + greedy(
                s.push(e).skip(1),
                budget - e.tx.gas,
            ));
            assert(seq![e] + Seq::<TxInfo>::empty() =~= Seq::<TxInfo>::empty().push(e));
        }
    } else {
        assert(s.push(e)[0] == s[0]);
        assert(s.push(e).skip(1) =~= s.skip(1).push(e));
        lemma_greedy_extend(s.skip(1), e, budget - s[0].tx.gas);
        lemma_greedy_extend(s.skip(1), e, budget);
        if s[0].tx.gas <= budget {
            let t = greedy(s.skip(1), budget - s[0].tx.gas);
            lemma_sum_gas_concat(seq![s[0]], t);
            lemma_sum_gas_singleton(s[0]);
            assert(greedy(s, budget) == seq![s[0]] + t);
            assert(greedy(s.push(e), budget) == seq![s[0]] + greedy(
                s.skip(1).push(e),
                budget - s[0].tx.gas,
            ));
            if e.tx.gas <= (budget - s[0].tx.gas) - sum_gas(t) {
                assert(seq![s[0]] + t.push(e) =~= (seq![s[0]] + t).push(e));
            }
        } else {
            assert(greedy(s, budget) == greedy(s.skip(1), budget));
            assert(greedy(s.push(e), budget) == greedy(s.skip(1).push(e), budget));
        }
    }
}

/// The highest-priority entry of a nonempty list.
fn argmax(v: &Vec<TxInfo>) -> (r: usize)
    requires
        v@.len() > 0,
    ensures
        r < v@.len(),
        forall|b: int| 0 <= b < v@.len() ==> in_order(v@[r as int], #[trigger] v@[b]),
{
    let n = v.len();
    let mut best: usize = 0;
    let mut i: usize = 1;
    while i < n
        invariant
            n == v.len(),
            best < i <= n,
            forall|b: int| 0 <= b < i ==> in_order(v@[best as int], #[trigger] v@[b]),
        decreases n - i,
    {
        let better = v[i].tx.tip > v[best].tx.tip || (v[i].tx.tip == v[best].tx.tip
            && v[i].submitted < v[best].submitted);
        if better {
            best = i;
        }
        i += 1;
    }
    best
}

/// Selects a gas-bounded, priority-ordered subset of the candidates: the
/// greedy pass over the candidates sorted by priority. The result is
/// exactly what the greedy pass takes from some priority-sorted
/// arrangement of the candidates, it stays within the budget, and every
/// selected entry is a candidate.
pub fn select_transactions(candidates: Vec<TxInfo>, max_gas: u64) -> (r: Vec<TxInfo>)
    requires
        submitted_distinct(candidates@),
    ensures
        0 <= sum_gas(r@) <= max_gas,
        sorted_by_priority(r@),
        submitted_distinct(r@),
        forall|k: int| 0 <= k < r@.len() ==> candidates@.contains(#[trigger] r@[k]),
        exists|s: Seq<TxInfo>|
            sorted_by_priority(s) && same_entries(candidates@, s) && r@ == greedy(
                s,
                max_gas as int,
            ),
{
    let mut rem = candidates;
    let mut out: Vec<TxInfo> = Vec::new();
    let mut used: u64 = 0;
    let ghost mut processed: Seq<TxInfo> = Seq::empty();
    let ghost cand0 = rem@;
    while rem.len() > 0
        invariant
            used == sum_gas(out@),
            used <= max_gas,
            out@ == greedy(processed, max_gas as int),
            sorted_by_priority(processed),
            submitted_distinct(processed),
            submitted_distinct(rem@),
            forall|a: int, b: int|
                0 <= a < processed.len() && 0 <= b < rem@.len() ==> in_order(
                    #[trigger] processed[a],
                    #[trigger] rem@[b],
                ),
            forall|a: int, b: int|
                0 <= a < processed.len() && 0 <= b < rem@.len() ==> (#[trigger] processed[a]).submitted
                    != (#[trigger] rem@[b]).submitted,
            forall|x: TxInfo| cand0.contains(x) <==> processed.contains(x) || rem@.contains(x),
            processed.len() + rem@.len() == cand0.len(),
            sorted_by_priority(out@),
            submitted_distinct(out@),
            forall|k: int| 0 <= k < out@.len() ==> cand0.contains(#[trigger] out@[k]),
            forall|k: int, b: int|
                0 <= k < out@.len() && 0 <= b < rem@.len() ==> in_order(
                    #[trigger] out@[k],
                    #[trigger] rem@[b],
                ),
            forall|k: int, b: int|
                0 <= k < out@.len() && 0 <= b < rem@.len() ==> (#[trigger] out@[k]).submitted != (
                #[trigger] rem@[b]).submitted,
        decreases rem@.len(),
    {
        let idx = argmax(&rem);
        let ghost rem0 = rem@;
        let ghost processed0 = processed;
        let e = rem.remove(idx);
        proof {
            rem0.remove_ensures(idx as int);
            assert(rem0[idx as int] == e);
            assert(rem0.contains(e));
            // How removal maps membership between the old and new remainder.
            assert forall|x: TxInfo| rem0.contains(x) implies rem@.contains(x) || x == e by {
                let w = choose|w: int| 0 <= w < rem0.len() && rem0[w] == x;
                if w < idx {
                    assert(rem@[w] == x);
                } else if w > idx {
                    assert(rem@[w - 1] == x);
                }
            }
            assert forall|x: TxInfo| rem@.contains(x) implies rem0.contains(x) by {
                let w = choose|w: int| 0 <= w < rem@.len() && rem@[w] == x;
                if w < idx {
                    assert(rem0[w] == x);
                } else {
                    assert(rem0[w + 1] == x);
                }
            }
            // Every element left behind sat at an index other than `idx`.
            assert forall|b: int| 0 <= b < rem@.len() implies (#[trigger] rem@[b]).submitted
                != e.submitted by {
                if b < idx {
                    assert(rem@[b] == rem0[b]);
                } else {
                    assert(rem@[b] == rem0[b + 1]);
                }
            }
            lemma_greedy_extend(processed0, e, max_gas as int);
            processed = processed0.push(e);
            // Membership across the push.
            assert forall|x: TxInfo| processed.contains(x) implies processed0.contains(x) || x
                == e by {
                let w = choose|w: int| 0 <= w < processed.len() && processed[w] == x;
                if w < processed0.len() {
                    assert(processed0[w] == x);
                }
            }
            assert forall|x: TxInfo| processed0.contains(x) implies processed.contains(x) by {
                let w = choose|w: int| 0 <= w < processed0.len() && processed0[w] == x;
                assert(processed[w] == x);
            }
            assert(processed.contains(e)) by {
                assert(processed[processed0.len() as int] == e);
            }
        }
        let fits = e.tx.gas <= max_gas - used;
        if fits {
            let ghost out0 = out@;
            out.push(e);
            used = used + e.tx.gas;
            proof {
                assert(out@.drop_last() =~= out0);
                assert(out@ == out0.push(e));
                assert(sum_gas(out@) == sum_gas(out0) + e.tx.gas);
            }
        }
    }
    proof {
        assert(same_entries(cand0, processed));
    }
    out
}

} // verus!
