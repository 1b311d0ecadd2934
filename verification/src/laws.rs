//! Global laws of the engine, stated over the mathematical model.
//!
//! Each public proof function here is a property of every finite input
//! sequence: conservation of funds, monotonicity of the locked flag, the
//! effect of an applied chargeback, prefix determinism, idempotence of
//! repeated dispute-family records, and the held-funds accounting
//! invariant (held balances equal the sum of the currently disputed
//! amounts, hence are never negative for conforming inputs).

use vstd::prelude::*;
use vstd::set::fold::{is_fun_commutative, lemma_finite_set_induct, lemma_fold_empty, lemma_fold_insert};
use vstd::set_lib::lemma_set_subset_finite;
use crate::model::{ClientId, Transaction, TxId, TxType};
use crate::tx_processor::{
    DisputeState, EngineModel, LedgerModel, lemma_run_push, lemma_step_preserves_wf,
};

verus! {

/// Sum of `available + held` over the listed clients.
pub open spec fn sum_totals_from(order: Seq<ClientId>, ledgers: Map<ClientId, LedgerModel>) -> int
    decreases order.len(),
{
    if order.len() == 0 {
        0
    } else {
        sum_totals_from(order.drop_last(), ledgers) + ledgers[order.last()].total()
    }
}

/// Sum of `available + held` over all clients of the state.
pub open spec fn sum_totals(m: EngineModel) -> int {
    sum_totals_from(m.order, m.ledgers)
}

/// Net amount one record adds to the sum of all balances: an accepted
/// deposit adds its amount, an accepted withdrawal removes its amount, an
/// applied chargeback removes the charged-back deposit's amount, and every
/// other record leaves the sum unchanged.
pub open spec fn step_delta(m: EngineModel, tx: Transaction) -> int {
    let s = m.touch(tx.client);
    match tx.tx_type {
        TxType::Deposit => match tx.amount {
            Option::Some(a) => if s.deposit_applies(tx.client, tx.tx_id, a@) {
                a@
            } else {
                0
            },
            Option::None => 0,
        },
        TxType::Withdrawal => match tx.amount {
            Option::Some(a) => if s.withdrawal_applies(tx.client, a@) {
                -a@
            } else {
                0
            },
            Option::None => 0,
        },
        TxType::Dispute => 0,
        TxType::Resolve => 0,
        TxType::Chargeback => if s.chargeback_applies(tx.client, tx.tx_id) {
            -s.deposits[tx.tx_id].amount
        } else {
            0
        },
    }
}

/// Net flow of a whole sequence, evaluated along the run: accepted deposits
/// minus accepted withdrawals minus charged-back amounts.
pub open spec fn net_flow(m: EngineModel, txs: Seq<Transaction>) -> int
    decreases txs.len(),
{
    if txs.len() == 0 {
        0
    } else {
        step_delta(m, txs[0]) + net_flow(m.step(txs[0]), txs.drop_first())
    }
}

/// The sum ignores map entries outside the listed clients.
proof fn lemma_sum_same(
    order: Seq<ClientId>,
    l1: Map<ClientId, LedgerModel>,
    l2: Map<ClientId, LedgerModel>,
)
    requires
        forall|k: int| 0 <= k < order.len() ==> l1[#[trigger] order[k]] == l2[order[k]],
    ensures
        sum_totals_from(order, l1) == sum_totals_from(order, l2),
    decreases order.len(),
{
    if order.len() > 0 {
        lemma_sum_same(order.drop_last(), l1, l2);
    }
}

/// Updating the ledger of one listed client changes the sum by the change
/// of that ledger's total.
proof fn lemma_sum_update(
    order: Seq<ClientId>,
    ledgers: Map<ClientId, LedgerModel>,
    c: ClientId,
    v: LedgerModel,
)
    requires
        order.no_duplicates(),
        order.contains(c),
    ensures
        sum_totals_from(order, ledgers.insert(c, v)) == sum_totals_from(order, ledgers)
            + v.total() - ledgers[c].total(),
    decreases order.len(),
{
    let last = order.last();
    let dl = order.drop_last();
    if last == c {
        assert forall|k: int| 0 <= k < dl.len() implies ledgers[#[trigger] dl[k]]
            == ledgers.insert(c, v)[dl[k]] by {
            assert(order[k] == dl[k]);
            assert(order[k] != c);
        }
        lemma_sum_same(dl, ledgers, ledgers.insert(c, v));
    } else {
        let i = choose|i: int| 0 <= i < order.len() && order[i] == c;
        assert(dl[i] == c);
        assert(dl.contains(c));
        lemma_sum_update(dl, ledgers, c, v);
    }
}

/// Appending a client with a fresh zero ledger leaves the sum unchanged.
proof fn lemma_sum_push_new(
    order: Seq<ClientId>,
    ledgers: Map<ClientId, LedgerModel>,
    c: ClientId,
)
    requires
        !order.contains(c),
    ensures
        sum_totals_from(order.push(c), ledgers.insert(c, LedgerModel::new_ledger()))
            == sum_totals_from(order, ledgers),
{
    let l2 = ledgers.insert(c, LedgerModel::new_ledger());
    assert(order.push(c).drop_last() =~= order);
    assert(order.push(c).last() == c);
    assert forall|k: int| 0 <= k < order.len() implies ledgers[#[trigger] order[k]]
        == l2[order[k]] by {
        assert(order.contains(order[k]));
    }
    lemma_sum_same(order, ledgers, l2);
}

/// Touching a client leaves the sum unchanged.
proof fn lemma_touch_sum(m: EngineModel, c: ClientId)
    requires
        m.wf(),
    ensures
        sum_totals(m.touch(c)) == sum_totals(m),
{
    if !m.ledgers.contains_key(c) {
        assert(!m.order.contains(c));
        lemma_sum_push_new(m.order, m.ledgers, c);
    }
}

/// One step changes the sum of all balances by exactly `step_delta`.
pub proof fn lemma_step_conserves(m: EngineModel, tx: Transaction)
    requires
        m.wf(),
    ensures
        sum_totals(m.step(tx)) == sum_totals(m) + step_delta(m, tx),
{
    lemma_touch_sum(m, tx.client);
    crate::tx_processor::lemma_touch_preserves_wf(m, tx.client);
    let s = m.touch(tx.client);
    let c = tx.client;
    let t = tx.tx_id;
    assert(s.order.contains(c));
    match tx.tx_type {
        TxType::Deposit => {
            if tx.amount is Some {
                let a = tx.amount->0@;
                if s.deposit_applies(c, t, a) {
                    lemma_sum_update(
                        s.order,
                        s.ledgers,
                        c,
                        LedgerModel { available: s.ledgers[c].available + a, ..s.ledgers[c] },
                    );
                }
            }
        },
        TxType::Withdrawal => {
            if tx.amount is Some {
                let a = tx.amount->0@;
                if s.withdrawal_applies(c, a) {
                    lemma_sum_update(
                        s.order,
                        s.ledgers,
                        c,
                        LedgerModel { available: s.ledgers[c].available - a, ..s.ledgers[c] },
                    );
                }
            }
        },
        TxType::Dispute => {
            if s.dispute_applies(c, t) {
                let a = s.deposits[t].amount;
                lemma_sum_update(
                    s.order,
                    s.ledgers,
                    c,
                    LedgerModel {
                        available: s.ledgers[c].available - a,
                        held: s.ledgers[c].held + a,
                        ..s.ledgers[c]
                    },
                );
            }
        },
        TxType::Resolve => {
            if s.resolve_applies(c, t) {
                let a = s.deposits[t].amount;
                lemma_sum_update(
                    s.order,
                    s.ledgers,
                    c,
                    LedgerModel {
                        available: s.ledgers[c].available + a,
                        held: s.ledgers[c].held - a,
                        ..s.ledgers[c]
                    },
                );
            }
        },
        TxType::Chargeback => {
            if s.chargeback_applies(c, t) {
                let a = s.deposits[t].amount;
                lemma_sum_update(
                    s.order,
                    s.ledgers,
                    c,
                    LedgerModel { held: s.ledgers[c].held - a, locked: true, ..s.ledgers[c] },
                );
            }
        },
    }
}

/// Law: the engine is net-conservative modulo chargebacks. Over any input
/// sequence, the sum over all clients of `available + held` changes by the
/// accepted deposit amounts minus the accepted withdrawal amounts minus the
/// charged-back amounts.
pub proof fn lemma_conservation(m: EngineModel, txs: Seq<Transaction>)
    requires
        m.wf(),
    ensures
        sum_totals(m.run(txs)) == sum_totals(m) + net_flow(m, txs),
    decreases txs.len(),
{
    if txs.len() > 0 {
        lemma_step_conserves(m, txs[0]);
        lemma_step_preserves_wf(m, txs[0]);
        lemma_conservation(m.step(txs[0]), txs.drop_first());
    }
}

/// A locked ledger stays locked across one step.
proof fn lemma_step_keeps_locked(m: EngineModel, tx: Transaction, c: ClientId)
    requires
        m.ledgers.contains_key(c),
        m.ledgers[c].locked,
    ensures
        m.step(tx).ledgers.contains_key(c),
        m.step(tx).ledgers[c].locked,
{
}

/// Law: once a client's ledger is locked, it remains locked for the
/// remainder of the stream.
pub proof fn lemma_locked_stays(m: EngineModel, txs: Seq<Transaction>, c: ClientId)
    requires
        m.ledgers.contains_key(c),
        m.ledgers[c].locked,
    ensures
        m.run(txs).ledgers.contains_key(c),
        m.run(txs).ledgers[c].locked,
    decreases txs.len(),
{
    if txs.len() > 0 {
        lemma_step_keeps_locked(m, txs[0], c);
        lemma_locked_stays(m.step(txs[0]), txs.drop_first(), c);
    }
}

/// `run` distributes over concatenation.
pub proof fn lemma_run_append(m: EngineModel, a: Seq<Transaction>, b: Seq<Transaction>)
    ensures
        m.run(a + b) == m.run(a).run(b),
    decreases a.len(),
{
    if a.len() == 0 {
        assert(a + b =~= b);
    } else {
        assert((a + b)[0] == a[0]);
        assert((a + b).drop_first() =~= a.drop_first() + b);
        lemma_run_append(m.step(a[0]), a.drop_first(), b);
    }
}

/// Law: determinism over prefixes. Running a sequence is the same as
/// running any prefix and then the remainder from the state the prefix
/// reached; replaying a prefix therefore reproduces exactly the state the
/// engine had at that point.
pub proof fn lemma_run_prefix(m: EngineModel, txs: Seq<Transaction>, i: int)
    requires
        0 <= i <= txs.len(),
    ensures
        m.run(txs) == m.run(txs.take(i)).run(txs.skip(i)),
{
    assert(txs.take(i) + txs.skip(i) =~= txs);
    lemma_run_append(m, txs.take(i), txs.skip(i));
}

/// Law: if a chargeback record takes effect at position `i` of the stream,
/// the client it names is locked in the final state.
pub proof fn lemma_chargeback_locks(m: EngineModel, txs: Seq<Transaction>, i: int)
    requires
        0 <= i < txs.len(),
        txs[i].tx_type == TxType::Chargeback,
        m.run(txs.take(i)).touch(txs[i].client).chargeback_applies(txs[i].client, txs[i].tx_id),
    ensures
        m.run(txs).ledgers.contains_key(txs[i].client),
        m.run(txs).ledgers[txs[i].client].locked,
{
    let c = txs[i].client;
    let pre = m.run(txs.take(i));
    let after = pre.step(txs[i]);
    assert(after.ledgers.contains_key(c) && after.ledgers[c].locked);
    assert(txs.take(i + 1) =~= txs.take(i).push(txs[i]));
    lemma_run_push(m, txs.take(i), txs[i]);
    assert(m.run(txs.take(i + 1)) == after);
    lemma_run_prefix(m, txs, i + 1);
    lemma_locked_stays(after, txs.skip(i + 1), c);
}

/// The (transaction id, amount) pairs currently under dispute and credited
/// to client `c`.
pub open spec fn disputed_pairs(m: EngineModel, c: ClientId) -> Set<(TxId, int)> {
    Set::new(
        |p: (TxId, int)|
            m.disputes.contains_key(p.0) && m.disputes[p.0] == DisputeState::Disputed
                && m.deposits.contains_key(p.0) && m.deposits[p.0].client == c && p.1
                == m.deposits[p.0].amount,
    )
}

/// Folding function for sums of disputed amounts.
pub open spec fn add_pair() -> spec_fn(int, (TxId, int)) -> int {
    |b: int, p: (TxId, int)| b + p.1
}

/// Sum of the amounts currently under dispute for client `c`.
pub open spec fn disputed_sum(m: EngineModel, c: ClientId) -> int {
    disputed_pairs(m, c).fold(0, add_pair())
}

/// Accounting invariant for held funds: finitely many disputes, every
/// ledger's held funds are exactly the sum of its currently disputed
/// amounts, and disputes only ever concern clients that have a ledger.
pub open spec fn held_accounted(m: EngineModel) -> bool {
    &&& m.disputes.dom().finite()
    &&& forall|c: ClientId| m.ledgers.contains_key(c) ==> (#[trigger] m.ledgers[c]).held
        == disputed_sum(m, c)
    &&& forall|c: ClientId| !(#[trigger] m.ledgers.contains_key(c)) ==> disputed_pairs(m, c)
        =~= Set::<(TxId, int)>::empty()
}

/// All recorded deposit amounts are nonnegative.
pub open spec fn nonneg_deposits(m: EngineModel) -> bool {
    forall|t: TxId| m.deposits.contains_key(t) ==> (#[trigger] m.deposits[t]).amount >= 0
}

proof fn lemma_add_pair_commutative()
    ensures
        is_fun_commutative(add_pair()),
{
}

proof fn lemma_disputed_pairs_finite(m: EngineModel, c: ClientId)
    requires
        m.disputes.dom().finite(),
    ensures
        disputed_pairs(m, c).finite(),
{
    let f = |t: TxId| (t, m.deposits[t].amount);
    let sup = m.disputes.dom().map(f);
    m.disputes.dom().lemma_map_finite(f);
    assert forall|p: (TxId, int)| disputed_pairs(m, c).contains(p) implies sup.contains(p) by {
        assert(m.disputes.dom().contains(p.0) && p == f(p.0));
    }
    lemma_set_subset_finite(sup, disputed_pairs(m, c));
}

/// A fold of nonnegative amounts is nonnegative.
proof fn lemma_fold_nonneg(s: Set<(TxId, int)>)
    requires
        s.finite(),
        forall|p: (TxId, int)| s.contains(p) ==> p.1 >= 0,
    ensures
        s.fold(0, add_pair()) >= 0,
{
    lemma_add_pair_commutative();
    let pred = |s2: Set<(TxId, int)>|
        (forall|p: (TxId, int)| s2.contains(p) ==> p.1 >= 0) ==> s2.fold(0, add_pair()) >= 0;
    assert(pred(Set::<(TxId, int)>::empty())) by {
        lemma_fold_empty(0, add_pair());
    }
    assert forall|s2: Set<(TxId, int)>, a: (TxId, int)|
        pred(s2) && s2.finite() && !s2.contains(a) implies #[trigger] pred(s2.insert(a)) by {
        if forall|p: (TxId, int)| s2.insert(a).contains(p) ==> p.1 >= 0 {
            assert forall|p: (TxId, int)| s2.contains(p) implies p.1 >= 0 by {
                assert(s2.insert(a).contains(p));
            }
            assert(s2.insert(a).contains(a));
            lemma_fold_insert(s2, 0, add_pair(), a);
        }
    }
    lemma_finite_set_induct(s, pred);
}

/// One step preserves the held-funds accounting invariant. For a deposit
/// the recorded amount must be nonnegative, as conforming inputs
/// guarantee.
pub proof fn lemma_step_preserves_accounting(m: EngineModel, tx: Transaction)
    requires
        m.wf(),
        held_accounted(m),
        nonneg_deposits(m),
        tx.tx_type == TxType::Deposit && tx.amount is Some ==> tx.amount->0@ >= 0,
    ensures
        held_accounted(m.step(tx)),
        nonneg_deposits(m.step(tx)),
{
    lemma_add_pair_commutative();
    crate::tx_processor::lemma_touch_preserves_wf(m, tx.client);
    let s = m.touch(tx.client);
    let c = tx.client;
    let t = tx.tx_id;

    // Touching changes neither the disputes nor the deposits, so no
    // disputed sum moves; a freshly created ledger holds zero, the sum
    // over its (empty) disputed set.
    assert forall|c2: ClientId| #[trigger]
        disputed_pairs(s, c2) =~= disputed_pairs(m, c2) by {}
    assert(held_accounted(s)) by {
        if !m.ledgers.contains_key(c) {
            assert(disputed_pairs(m, c) =~= Set::<(TxId, int)>::empty());
            assert(s.ledgers[c].held == 0);
            lemma_fold_empty(0, add_pair());
            assert(disputed_sum(s, c) == 0);
        }
        assert forall|c2: ClientId| s.ledgers.contains_key(c2) implies (
        #[trigger] s.ledgers[c2]).held == disputed_sum(s, c2) by {
            if m.ledgers.contains_key(c2) {
                assert(disputed_pairs(s, c2) == disputed_pairs(m, c2));
            } else {
                assert(c2 == c);
            }
        }
    }
    assert(nonneg_deposits(s));

    match tx.tx_type {
        TxType::Deposit => {
            if tx.amount is Some {
                let a = tx.amount->0@;
                if s.deposit_applies(c, t, a) {
                    let m2 = s.apply_deposit(c, t, a);
                    // The new deposit is not disputed, so every disputed
                    // set keeps its members and their amounts.
                    assert forall|c2: ClientId| #[trigger]
                        disputed_pairs(m2, c2) =~= disputed_pairs(s, c2) by {
                        assert forall|p: (TxId, int)|
                            disputed_pairs(m2, c2).contains(p) == disputed_pairs(s, c2).contains(
                            p) by {
                            if s.disputes.contains_key(p.0) {
                                assert(s.deposits.contains_key(p.0));
                                assert(p.0 != t);
                            }
                        }
                    }
                    assert(held_accounted(m2)) by {
                        assert forall|c2: ClientId| m2.ledgers.contains_key(c2) implies (
                        #[trigger] m2.ledgers[c2]).held == disputed_sum(m2, c2) by {
                            assert(disputed_pairs(m2, c2) == disputed_pairs(s, c2));
                            assert(m2.ledgers[c2].held == s.ledgers[c2].held);
                        }
                    }
                }
            }
        },
        TxType::Withdrawal => {
            if tx.amount is Some {
                let a = tx.amount->0@;
                if s.withdrawal_applies(c, a) {
                    let m2 = s.apply_withdrawal(c, a);
                    assert forall|c2: ClientId| #[trigger]
                        disputed_pairs(m2, c2) =~= disputed_pairs(s, c2) by {}
                    assert(held_accounted(m2)) by {
                        assert forall|c2: ClientId| m2.ledgers.contains_key(c2) implies (
                        #[trigger] m2.ledgers[c2]).held == disputed_sum(m2, c2) by {
                            assert(disputed_pairs(m2, c2) == disputed_pairs(s, c2));
                            assert(m2.ledgers[c2].held == s.ledgers[c2].held);
                        }
                    }
                }
            }
        },
        TxType::Dispute => {
            if s.dispute_applies(c, t) {
                let amt = s.deposits[t].amount;
                let m2 = s.apply_dispute(c, t);
                let pair = (t, amt);
                assert(disputed_pairs(m2, c) =~= disputed_pairs(s, c).insert(pair));
                assert(!disputed_pairs(s, c).contains(pair));
                lemma_disputed_pairs_finite(s, c);
                lemma_fold_insert(disputed_pairs(s, c), 0, add_pair(), pair);
                assert(disputed_sum(m2, c) == disputed_sum(s, c) + amt);
                assert forall|c2: ClientId| c2 != c implies #[trigger] disputed_pairs(m2, c2)
                    =~= disputed_pairs(s, c2) by {}
                assert(held_accounted(m2)) by {
                    assert forall|c2: ClientId| m2.ledgers.contains_key(c2) implies (
                    #[trigger] m2.ledgers[c2]).held == disputed_sum(m2, c2) by {
                        if c2 != c {
                            assert(disputed_pairs(m2, c2) == disputed_pairs(s, c2));
                            assert(m2.ledgers[c2].held == s.ledgers[c2].held);
                        }
                    }
                    assert forall|c2: ClientId| !(#[trigger] m2.ledgers.contains_key(
                        c2,
                    )) implies disputed_pairs(m2, c2) =~= Set::<(TxId, int)>::empty() by {
                        assert(disputed_pairs(m2, c2) == disputed_pairs(s, c2));
                    }
                }
            }
        },
        TxType::Resolve => {
            if s.resolve_applies(c, t) {
                let amt = s.deposits[t].amount;
                let m2 = s.apply_resolve(c, t);
                let pair = (t, amt);
                assert(disputed_pairs(s, c) =~= disputed_pairs(m2, c).insert(pair));
                assert(!disputed_pairs(m2, c).contains(pair));
                lemma_disputed_pairs_finite(m2, c);
                lemma_fold_insert(disputed_pairs(m2, c), 0, add_pair(), pair);
                assert(disputed_sum(m2, c) == disputed_sum(s, c) - amt);
                assert forall|c2: ClientId| c2 != c implies #[trigger] disputed_pairs(m2, c2)
                    =~= disputed_pairs(s, c2) by {}
                assert(held_accounted(m2)) by {
                    assert forall|c2: ClientId| m2.ledgers.contains_key(c2) implies (
                    #[trigger] m2.ledgers[c2]).held == disputed_sum(m2, c2) by {
                        if c2 != c {
                            assert(disputed_pairs(m2, c2) == disputed_pairs(s, c2));
                            assert(m2.ledgers[c2].held == s.ledgers[c2].held);
                        }
                    }
                    assert forall|c2: ClientId| !(#[trigger] m2.ledgers.contains_key(
                        c2,
                    )) implies disputed_pairs(m2, c2) =~= Set::<(TxId, int)>::empty() by {
                        assert(disputed_pairs(m2, c2) == disputed_pairs(s, c2));
                    }
                }
            }
        },
        TxType::Chargeback => {
            if s.chargeback_applies(c, t) {
                let amt = s.deposits[t].amount;
                let m2 = s.apply_chargeback(c, t);
                let pair = (t, amt);
                assert(disputed_pairs(s, c) =~= disputed_pairs(m2, c).insert(pair));
                assert(!disputed_pairs(m2, c).contains(pair));
                lemma_disputed_pairs_finite(m2, c);
                lemma_fold_insert(disputed_pairs(m2, c), 0, add_pair(), pair);
                assert(disputed_sum(m2, c) == disputed_sum(s, c) - amt);
                assert forall|c2: ClientId| c2 != c implies #[trigger] disputed_pairs(m2, c2)
                    =~= disputed_pairs(s, c2) by {}
                assert(held_accounted(m2)) by {
                    assert forall|c2: ClientId| m2.ledgers.contains_key(c2) implies (
                    #[trigger] m2.ledgers[c2]).held == disputed_sum(m2, c2) by {
                        if c2 != c {
                            assert(disputed_pairs(m2, c2) == disputed_pairs(s, c2));
                            assert(m2.ledgers[c2].held == s.ledgers[c2].held);
                        }
                    }
                    assert forall|c2: ClientId| !(#[trigger] m2.ledgers.contains_key(
                        c2,
                    )) implies disputed_pairs(m2, c2) =~= Set::<(TxId, int)>::empty() by {
                        assert(disputed_pairs(m2, c2) == disputed_pairs(s, c2));
                    }
                }
            }
        },
    }
}

/// The accounting invariant holds along any run whose deposit records
/// carry nonnegative amounts.
pub proof fn lemma_run_preserves_accounting(m: EngineModel, txs: Seq<Transaction>)
    requires
        m.wf(),
        held_accounted(m),
        nonneg_deposits(m),
        forall|i: int|
            0 <= i < txs.len() && (#[trigger] txs[i]).tx_type == TxType::Deposit && txs[i].amount
                is Some ==> txs[i].amount->0@ >= 0,
    ensures
        m.run(txs).wf(),
        held_accounted(m.run(txs)),
        nonneg_deposits(m.run(txs)),
    decreases txs.len(),
{
    if txs.len() > 0 {
        lemma_step_preserves_wf(m, txs[0]);
        lemma_step_preserves_accounting(m, txs[0]);
        assert forall|i: int|
            0 <= i < txs.drop_first().len() && (#[trigger] txs.drop_first()[i]).tx_type
                == TxType::Deposit && txs.drop_first()[i].amount is Some implies txs.drop_first(
        )[i].amount->0@ >= 0 by {
            assert(txs.drop_first()[i] == txs[i + 1]);
        }
        lemma_run_preserves_accounting(m.step(txs[0]), txs.drop_first());
    }
}

/// Law: held funds are never negative. Over any input whose deposit
/// records carry nonnegative amounts, every client's held balance equals
/// the sum of that client's currently disputed deposit amounts, and is
/// therefore nonnegative.
pub proof fn lemma_held_nonnegative(txs: Seq<Transaction>, c: ClientId)
    requires
        forall|i: int|
            0 <= i < txs.len() && (#[trigger] txs[i]).tx_type == TxType::Deposit && txs[i].amount
                is Some ==> txs[i].amount->0@ >= 0,
        EngineModel::empty().run(txs).ledgers.contains_key(c),
    ensures
        EngineModel::empty().run(txs).ledgers[c].held == disputed_sum(
            EngineModel::empty().run(txs),
            c,
        ),
        EngineModel::empty().run(txs).ledgers[c].held >= 0,
{
    let m0 = EngineModel::empty();
    assert(held_accounted(m0)) by {
        assert(m0.disputes.dom() =~= Set::<TxId>::empty());
        assert forall|c2: ClientId| !(#[trigger] m0.ledgers.contains_key(
            c2,
        )) implies disputed_pairs(m0, c2) =~= Set::<(TxId, int)>::empty() by {}
    }
    lemma_run_preserves_accounting(m0, txs);
    let mf = m0.run(txs);
    lemma_disputed_pairs_finite(mf, c);
    assert forall|p: (TxId, int)| disputed_pairs(mf, c).contains(p) implies p.1 >= 0 by {
        assert(mf.deposits.contains_key(p.0));
    }
    lemma_fold_nonneg(disputed_pairs(mf, c));
}

/// Law: dispute-family records are idempotent. A second consecutive
/// dispute of the same transaction changes nothing, and likewise a second
/// consecutive chargeback.
pub proof fn lemma_dispute_idempotent(m: EngineModel, tx: Transaction)
    requires
        tx.tx_type == TxType::Dispute || tx.tx_type == TxType::Chargeback,
    ensures
        m.step(tx).step(tx) == m.step(tx),
{
    let s1 = m.step(tx);
    assert(s1.ledgers.contains_key(tx.client));
    assert(s1.touch(tx.client) == s1);
}

} // verus!
