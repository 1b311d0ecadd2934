//! The transaction-processing engine.
//!
//! `TxProcessor` owns the client ledgers, the record of accepted deposits
//! (for dispute lookup) and the per-transaction dispute state. Its behaviour
//! is specified by the mathematical model `EngineModel` and the transition
//! function `EngineModel::step`; every processed record drives the exec
//! state through exactly that transition.

use vstd::prelude::*;
use std::collections::HashMap;
use crate::amount::{Amount, in_range, BALANCE_LIMIT};
use crate::errors::TxError;
use crate::model::{ClientBalance, ClientId, Transaction, TxId, TxType};

verus! {

broadcast use
    vstd::std_specs::hash::group_hash_axioms,
    vstd::seq_lib::lemma_seq_contains_after_push;

/// Dispute lifecycle of a deposit. Absence from the dispute map means the
/// deposit is not (or no longer) under dispute.
#[derive(Clone, Copy, Debug, PartialEq, Eq, Structural)]
pub enum DisputeState {
    /// A dispute is pending: the amount is held.
    Disputed,
    /// The dispute ended in a chargeback; this state is terminal.
    ChargedBack,
}

/// What the engine records about an accepted deposit, keyed by its
/// transaction id.
#[derive(Clone, Copy, Debug, PartialEq, Eq, Structural)]
pub struct DepositRecord {
    pub client: ClientId,
    pub amount: Amount,
}

/// Mathematical model of one client ledger.
#[verifier::ext_equal]
pub struct LedgerModel {
    pub available: int,
    pub held: int,
    pub locked: bool,
}

impl LedgerModel {
    /// A fresh ledger: no funds, not locked.
    pub open spec fn new_ledger() -> LedgerModel {
        LedgerModel { available: 0, held: 0, locked: false }
    }

    /// Total funds are derived, never stored.
    pub open spec fn total(self) -> int {
        self.available + self.held
    }

    /// Both balances lie in the range the engine keeps them in.
    pub open spec fn wf(self) -> bool {
        in_range(self.available) && in_range(self.held)
    }
}

/// Mathematical model of an accepted deposit.
#[verifier::ext_equal]
pub struct DepositModel {
    pub client: ClientId,
    pub amount: int,
}

/// Mathematical model of the whole engine state.
///
/// `order` lists the clients in order of first appearance; it carries no
/// balances of its own and exists so that the snapshot (and sums over all
/// clients) have a definite sequence to walk.
#[verifier::ext_equal]
pub struct EngineModel {
    pub ledgers: Map<ClientId, LedgerModel>,
    pub order: Seq<ClientId>,
    pub deposits: Map<TxId, DepositModel>,
    pub disputes: Map<TxId, DisputeState>,
}

/// A deposit or withdrawal record without an amount; the one fatal
/// condition the engine itself can meet.
pub open spec fn missing_amount(tx: Transaction) -> bool {
    (tx.tx_type == TxType::Deposit || tx.tx_type == TxType::Withdrawal) && tx.amount is None
}

impl EngineModel {
    /// The state of a freshly constructed engine.
    pub open spec fn empty() -> EngineModel {
        EngineModel {
            ledgers: Map::empty(),
            order: Seq::empty(),
            deposits: Map::empty(),
            disputes: Map::empty(),
        }
    }

    /// Well-formedness, maintained by every transition:
    /// the client order is duplicate-free and lists exactly the ledgers;
    /// all balances are in range; recorded deposit amounts are bounded by
    /// the width of the balance range; only recorded deposits have a
    /// dispute state.
    pub open spec fn wf(self) -> bool {
        &&& self.order.no_duplicates()
        &&& forall|c: ClientId| #[trigger] self.ledgers.contains_key(c) ==> self.order.contains(c)
        &&& forall|c: ClientId| #[trigger] self.order.contains(c) ==> self.ledgers.contains_key(c)
        &&& forall|c: ClientId| self.ledgers.contains_key(c) ==> (#[trigger] self.ledgers[c]).wf()
        &&& forall|t: TxId| self.deposits.contains_key(t) ==> {
            let a = (#[trigger] self.deposits[t]).amount;
            -2 * BALANCE_LIMIT <= a <= 2 * BALANCE_LIMIT
        }
        &&& forall|t: TxId| #[trigger] self.disputes.contains_key(t) ==> self.deposits.contains_key(t)
    }

    /// Every record first makes sure the ledger of the client it names
    /// exists, even when the record ends up being ignored; the client then
    /// shows up in the output with a zero balance.
    pub open spec fn touch(self, c: ClientId) -> EngineModel {
        if self.ledgers.contains_key(c) {
            self
        } else {
            EngineModel {
                ledgers: self.ledgers.insert(c, LedgerModel::new_ledger()),
                order: self.order.push(c),
                ..self
            }
        }
    }

    /// A deposit is accepted if its transaction id is new and the credited
    /// balance stays in range. The deposit is then recorded for later
    /// disputes. Transaction ids are globally unique in conforming inputs;
    /// a record that re-uses the id of an accepted deposit is ignored, so
    /// the recorded amount a dispute refers to can never change.
    /// (Callers must have touched `c`.)
    pub open spec fn deposit_applies(self, c: ClientId, t: TxId, a: int) -> bool {
        &&& !self.deposits.contains_key(t)
        &&& in_range(self.ledgers[c].available + a)
    }

    /// Effect of an accepted deposit.
    pub open spec fn apply_deposit(self, c: ClientId, t: TxId, a: int) -> EngineModel {
        if self.deposit_applies(c, t, a) {
            EngineModel {
                ledgers: self.ledgers.insert(
                    c,
                    LedgerModel { available: self.ledgers[c].available + a, ..self.ledgers[c] },
                ),
                deposits: self.deposits.insert(t, DepositModel { client: c, amount: a }),
                ..self
            }
        } else {
            self
        }
    }

    /// A withdrawal is accepted if the available funds cover it and the
    /// debited balance stays in range; otherwise it is silently ignored.
    pub open spec fn withdrawal_applies(self, c: ClientId, a: int) -> bool {
        &&& self.ledgers[c].available >= a
        &&& in_range(self.ledgers[c].available - a)
    }

    /// Effect of an accepted withdrawal.
    pub open spec fn apply_withdrawal(self, c: ClientId, a: int) -> EngineModel {
        if self.withdrawal_applies(c, a) {
            EngineModel {
                ledgers: self.ledgers.insert(
                    c,
                    LedgerModel { available: self.ledgers[c].available - a, ..self.ledgers[c] },
                ),
                ..self
            }
        } else {
            self
        }
    }

    /// A dispute takes effect if it references a recorded deposit of the
    /// same client that is not already disputed or charged back, and the
    /// moved funds stay in range.
    pub open spec fn dispute_applies(self, c: ClientId, t: TxId) -> bool {
        &&& self.deposits.contains_key(t)
        &&& self.deposits[t].client == c
        &&& !self.disputes.contains_key(t)
        &&& in_range(self.ledgers[c].available - self.deposits[t].amount)
        &&& in_range(self.ledgers[c].held + self.deposits[t].amount)
    }

    /// Effect of a dispute: the deposited amount moves from available to
    /// held, and the deposit is marked disputed.
    pub open spec fn apply_dispute(self, c: ClientId, t: TxId) -> EngineModel {
        if self.dispute_applies(c, t) {
            let a = self.deposits[t].amount;
            EngineModel {
                ledgers: self.ledgers.insert(
                    c,
                    LedgerModel {
                        available: self.ledgers[c].available - a,
                        held: self.ledgers[c].held + a,
                        ..self.ledgers[c]
                    },
                ),
                disputes: self.disputes.insert(t, DisputeState::Disputed),
                ..self
            }
        } else {
            self
        }
    }

    /// A resolve takes effect only on a currently disputed deposit of the
    /// same client, with the moved funds in range.
    pub open spec fn resolve_applies(self, c: ClientId, t: TxId) -> bool {
        &&& self.deposits.contains_key(t)
        &&& self.deposits[t].client == c
        &&& self.disputes.contains_key(t)
        &&& self.disputes[t] == DisputeState::Disputed
        &&& in_range(self.ledgers[c].available + self.deposits[t].amount)
        &&& in_range(self.ledgers[c].held - self.deposits[t].amount)
    }

    /// Effect of a resolve: the inverse of the dispute; the deposit is no
    /// longer disputed and may be disputed again later.
    pub open spec fn apply_resolve(self, c: ClientId, t: TxId) -> EngineModel {
        if self.resolve_applies(c, t) {
            let a = self.deposits[t].amount;
            EngineModel {
                ledgers: self.ledgers.insert(
                    c,
                    LedgerModel {
                        available: self.ledgers[c].available + a,
                        held: self.ledgers[c].held - a,
                        ..self.ledgers[c]
                    },
                ),
                disputes: self.disputes.remove(t),
                ..self
            }
        } else {
            self
        }
    }

    /// A chargeback takes effect only on a currently disputed deposit of
    /// the same client, with the debited held funds in range.
    pub open spec fn chargeback_applies(self, c: ClientId, t: TxId) -> bool {
        &&& self.deposits.contains_key(t)
        &&& self.deposits[t].client == c
        &&& self.disputes.contains_key(t)
        &&& self.disputes[t] == DisputeState::Disputed
        &&& in_range(self.ledgers[c].held - self.deposits[t].amount)
    }

    /// Effect of a chargeback: the held amount is removed, the account is
    /// locked, and the deposit reaches the terminal `ChargedBack` state.
    pub open spec fn apply_chargeback(self, c: ClientId, t: TxId) -> EngineModel {
        if self.chargeback_applies(c, t) {
            let a = self.deposits[t].amount;
            EngineModel {
                ledgers: self.ledgers.insert(
                    c,
                    LedgerModel {
                        held: self.ledgers[c].held - a,
                        locked: true,
                        ..self.ledgers[c]
                    },
                ),
                disputes: self.disputes.insert(t, DisputeState::ChargedBack),
                ..self
            }
        } else {
            self
        }
    }

    /// The transition taken for one record. A deposit or withdrawal
    /// without an amount is fatal: the engine stops after touching the
    /// ledger, so `step` leaves the touched state unchanged for it.
    pub open spec fn step(self, tx: Transaction) -> EngineModel {
        let s = self.touch(tx.client);
        match tx.tx_type {
            TxType::Deposit => match tx.amount {
                Option::Some(a) => s.apply_deposit(tx.client, tx.tx_id, a@),
                Option::None => s,
            },
            TxType::Withdrawal => match tx.amount {
                Option::Some(a) => s.apply_withdrawal(tx.client, a@),
                Option::None => s,
            },
            TxType::Dispute => s.apply_dispute(tx.client, tx.tx_id),
            TxType::Resolve => s.apply_resolve(tx.client, tx.tx_id),
            TxType::Chargeback => s.apply_chargeback(tx.client, tx.tx_id),
        }
    }

    /// The state after processing a whole sequence of records, first to
    /// last.
    pub open spec fn run(self, txs: Seq<Transaction>) -> EngineModel
        decreases txs.len(),
    {
        if txs.len() == 0 {
            self
        } else {
            self.step(txs[0]).run(txs.drop_first())
        }
    }
}

/// Index of the first record with a missing amount, or -1 if there is none.
pub open spec fn first_missing(txs: Seq<Transaction>) -> int
    decreases txs.len(),
{
    if txs.len() == 0 {
        -1
    } else if missing_amount(txs[0]) {
        0
    } else {
        let r = first_missing(txs.drop_first());
        if r < 0 {
            -1
        } else {
            r + 1
        }
    }
}

/// The engine: ledgers per client, accepted deposits per transaction id,
/// dispute states, and the order in which clients first appeared.
pub struct TxProcessor {
    pub clients_balance: HashMap<ClientId, ClientBalance>,
    pub client_order: Vec<ClientId>,
    pub account_transactions: HashMap<TxId, DepositRecord>,
    pub dispute_states: HashMap<TxId, DisputeState>,
}

impl View for TxProcessor {
    type V = EngineModel;

    open spec fn view(&self) -> EngineModel {
        EngineModel {
            ledgers: self.clients_balance@.map_values(
                |cb: ClientBalance|
                    LedgerModel { available: cb.available@, held: cb.held@, locked: cb.locked },
            ),
            order: self.client_order@,
            deposits: self.account_transactions@.map_values(
                |d: DepositRecord| DepositModel { client: d.client, amount: d.amount@ },
            ),
            disputes: self.dispute_states@,
        }
    }
}

impl TxProcessor {
    /// Model well-formedness, plus: each stored ledger knows its own
    /// client id.
    pub open spec fn wf(self) -> bool {
        &&& self@.wf()
        &&& forall|c: ClientId| self.clients_balance@.contains_key(c) ==> (
        #[trigger] self.clients_balance@[c]).client == c
    }

    /// A fresh engine with no clients and no recorded transactions.
    pub fn new() -> (r: TxProcessor)
        ensures
            r.wf(),
            r@ == EngineModel::empty(),
    {
        let p = TxProcessor {
            clients_balance: HashMap::new(),
            client_order: Vec::new(),
            account_transactions: HashMap::new(),
            dispute_states: HashMap::new(),
        };
        proof {
            assert(p@ =~= EngineModel::empty());
        }
        p
    }

    /// Process one record: exactly the model transition `step`. The only
    /// fatal condition is a deposit or withdrawal without an amount; every
    /// policy rejection is silent.
    pub fn process_tx(&mut self, tx: Transaction) -> (r: Result<(), TxError>)
        requires
            old(self).wf(),
        ensures
            final(self).wf(),
            final(self)@ == old(self)@.step(tx),
            match r {
                Ok(_) => !missing_amount(tx),
                Err(e) => missing_amount(tx) && e == TxError::AmountMissing,
            },
    {
        proof {
            lemma_touch_preserves_wf(old(self)@, tx.client);
            lemma_step_preserves_wf(old(self)@, tx);
        }
        let ghost s = old(self)@.touch(tx.client);

        // The ledger of the named client is created on demand, even for
        // records that end up being ignored.
        if !self.clients_balance.contains_key(&tx.client) {
            self.clients_balance.insert(tx.client, ClientBalance::new_empty(tx.client));
            self.client_order.push(tx.client);
        }
        proof {
            assert(self@ =~= s);
        }
        let led = *self.clients_balance.get(&tx.client).unwrap();
        proof {
            assert(led.client == tx.client);
            assert(led.wf()) by {
                assert(s.ledgers[tx.client] == LedgerModel {
                    available: led.available@,
                    held: led.held@,
                    locked: led.locked,
                });
            }
        }

        match tx.tx_type {
            TxType::Deposit => {
                let a = match tx.amount {
                    Some(a) => a,
                    None => {
                        return Err(TxError::AmountMissing);
                    },
                };
                if !self.account_transactions.contains_key(&tx.tx_id) {
                    // Bounds are checked by comparison so that no i128
                    // arithmetic touches the unconstrained amount itself.
                    let hi = BALANCE_LIMIT - led.available.units;
                    let lo = -BALANCE_LIMIT - led.available.units;
                    if lo <= a.units && a.units <= hi {
                        let mut l2 = led;
                        l2.add_funds(a);
                        self.clients_balance.insert(tx.client, l2);
                        self.account_transactions.insert(
                            tx.tx_id,
                            DepositRecord { client: tx.client, amount: a },
                        );
                    }
                }
                proof {
                    assert(self@ =~= s.apply_deposit(tx.client, tx.tx_id, a@));
                    assert(self@ == old(self)@.step(tx));
                }
                Ok(())
            },
            TxType::Withdrawal => {
                let a = match tx.amount {
                    Some(a) => a,
                    None => {
                        return Err(TxError::AmountMissing);
                    },
                };
                if a.units <= led.available.units && led.available.units - BALANCE_LIMIT
                    <= a.units {
                    let mut l2 = led;
                    let _ = l2.remove_funds(a);
                    self.clients_balance.insert(tx.client, l2);
                }
                proof {
                    assert(self@ =~= s.apply_withdrawal(tx.client, a@));
                    assert(self@ == old(self)@.step(tx));
                }
                Ok(())
            },
            TxType::Dispute => {
                if let Some(dep) = self.account_transactions.get(&tx.tx_id) {
                    let dep = *dep;
                    if dep.client == tx.client && !self.dispute_states.contains_key(&tx.tx_id) {
                        let na = led.available.units - dep.amount.units;
                        let nh = led.held.units + dep.amount.units;
                        if -BALANCE_LIMIT <= na && na <= BALANCE_LIMIT && -BALANCE_LIMIT <= nh
                            && nh <= BALANCE_LIMIT {
                            let mut l2 = led;
                            l2.hold_funds(dep.amount);
                            self.clients_balance.insert(tx.client, l2);
                            self.dispute_states.insert(tx.tx_id, DisputeState::Disputed);
                        }
                    }
                }
                proof {
                    assert(self@ =~= s.apply_dispute(tx.client, tx.tx_id));
                    assert(self@ == old(self)@.step(tx));
                }
                Ok(())
            },
            TxType::Resolve => {
                if let Some(dep) = self.account_transactions.get(&tx.tx_id) {
                    let dep = *dep;
                    let disputed = match self.dispute_states.get(&tx.tx_id) {
                        Some(ds) => *ds == DisputeState::Disputed,
                        None => false,
                    };
                    if dep.client == tx.client && disputed {
                        let na = led.available.units + dep.amount.units;
                        let nh = led.held.units - dep.amount.units;
                        if -BALANCE_LIMIT <= na && na <= BALANCE_LIMIT && -BALANCE_LIMIT <= nh
                            && nh <= BALANCE_LIMIT {
                            let mut l2 = led;
                            l2.resolve_funds(dep.amount);
                            self.clients_balance.insert(tx.client, l2);
                            self.dispute_states.remove(&tx.tx_id);
                        }
                    }
                }
                proof {
                    assert(self@ =~= s.apply_resolve(tx.client, tx.tx_id));
                    assert(self@ == old(self)@.step(tx));
                }
                Ok(())
            },
            TxType::Chargeback => {
                if let Some(dep) = self.account_transactions.get(&tx.tx_id) {
                    let dep = *dep;
                    let disputed = match self.dispute_states.get(&tx.tx_id) {
                        Some(ds) => *ds == DisputeState::Disputed,
                        None => false,
                    };
                    if dep.client == tx.client && disputed {
                        let nh = led.held.units - dep.amount.units;
                        if -BALANCE_LIMIT <= nh && nh <= BALANCE_LIMIT {
                            let mut l2 = led;
                            l2.chargeback_funds(dep.amount);
                            self.clients_balance.insert(tx.client, l2);
                            self.dispute_states.insert(tx.tx_id, DisputeState::ChargedBack);
                        }
                    }
                }
                proof {
                    assert(self@ =~= s.apply_chargeback(tx.client, tx.tx_id));
                    assert(self@ == old(self)@.step(tx));
                }
                Ok(())
            },
        }
    }

    /// Process a whole input sequence, stopping at the first fatal record.
    /// On success the state is exactly `run` over the sequence; on failure
    /// it is `run` over the prefix up to and including the fatal record,
    /// whose ledger was still created.
    #[verifier::loop_isolation(false)]
    pub fn process_input(&mut self, txs: &Vec<Transaction>) -> (r: Result<(), TxError>)
        requires
            old(self).wf(),
        ensures
            final(self).wf(),
            match r {
                Ok(_) => {
                    &&& first_missing(txs@) == -1
                    &&& final(self)@ == old(self)@.run(txs@)
                },
                Err(e) => {
                    &&& e == TxError::AmountMissing
                    &&& 0 <= first_missing(txs@) < txs@.len()
                    &&& final(self)@ == old(self)@.run(txs@.take(first_missing(txs@) + 1))
                },
            },
    {
        let ghost orig: EngineModel = self@;
        let mut i: usize = 0;
        while i < txs.len()
            invariant
                0 <= i <= txs@.len(),
                self.wf(),
                self@ == orig.run(txs@.take(i as int)),
                forall|j: int| 0 <= j < i ==> !missing_amount(txs@[j]),
            decreases txs@.len() - i,
        {
            let tx = txs[i];
            let step_result = self.process_tx(tx);
            proof {
                assert(txs@.take(i + 1) =~= txs@.take(i as int).push(txs@[i as int]));
                lemma_run_push(orig, txs@.take(i as int), txs@[i as int]);
            }
            match step_result {
                Ok(_) => {},
                Err(e) => {
                    proof {
                        lemma_first_missing_at(txs@, i as int);
                    }
                    return Err(e);
                },
            }
            i = i + 1;
        }
        proof {
            assert(txs@.take(txs@.len() as int) =~= txs@);
            lemma_first_missing_none(txs@);
        }
        Ok(())
    }

    /// Read-only lookup of one client's ledger.
    pub fn get_balance(&self, client: ClientId) -> (r: Option<&ClientBalance>)
        ensures
            match r {
                Some(cb) => {
                    &&& self.clients_balance@.contains_key(client)
                    &&& *cb == self.clients_balance@[client]
                    &&& self@.ledgers.contains_key(client)
                    &&& cb.available@ == self@.ledgers[client].available
                    &&& cb.held@ == self@.ledgers[client].held
                    &&& cb.locked == self@.ledgers[client].locked
                },
                None => !self@.ledgers.contains_key(client),
            },
    {
        self.clients_balance.get(&client)
    }

    /// The final balances of every client that ever appeared, in order of
    /// first appearance.
    pub fn snapshot(&self) -> (rows: Vec<ClientBalance>)
        requires
            self.wf(),
        ensures
            rows@.len() == self@.order.len(),
            forall|i: int| 0 <= i < rows@.len() ==> {
                let c = self@.order[i];
                &&& (#[trigger] rows@[i]).client == c
                &&& rows@[i].available@ == self@.ledgers[c].available
                &&& rows@[i].held@ == self@.ledgers[c].held
                &&& rows@[i].locked == self@.ledgers[c].locked
                &&& rows@[i].wf()
            },
    {
        let mut rows: Vec<ClientBalance> = Vec::new();
        let mut i: usize = 0;
        while i < self.client_order.len()
            invariant
                0 <= i <= self@.order.len(),
                self.wf(),
                rows@.len() == i,
                forall|k: int| 0 <= k < i ==> {
                    let c = self@.order[k];
                    &&& (#[trigger] rows@[k]).client == c
                    &&& rows@[k].available@ == self@.ledgers[c].available
                    &&& rows@[k].held@ == self@.ledgers[c].held
                    &&& rows@[k].locked == self@.ledgers[c].locked
                    &&& rows@[k].wf()
                },
            decreases self@.order.len() - i,
        {
            let c = self.client_order[i];
            proof {
                assert(self@.order[i as int] == c);
                assert(self@.order.contains(c));
                assert(self@.ledgers.contains_key(c));
            }
            let cb = *self.clients_balance.get(&c).unwrap();
            let ghost rows0 = rows@;
            rows.push(cb);
            proof {
                assert forall|k: int| 0 <= k < i + 1 implies {
                    let cc = self@.order[k];
                    &&& (#[trigger] rows@[k]).client == cc
                    &&& rows@[k].available@ == self@.ledgers[cc].available
                    &&& rows@[k].held@ == self@.ledgers[cc].held
                    &&& rows@[k].locked == self@.ledgers[cc].locked
                    &&& rows@[k].wf()
                } by {
                    if k < i {
                        assert(rows@[k] == rows0[k]);
                    } else {
                        assert(rows@[k] == cb);
                        assert(cb == self.clients_balance@[c]);
                        assert(self@.ledgers[c] == LedgerModel {
                            available: cb.available@,
                            held: cb.held@,
                            locked: cb.locked,
                        });
                    }
                }
            }
            i = i + 1;
        }
        rows
    }
}

/// `run` distributes over appending one record at the end.
pub proof fn lemma_run_push(s: EngineModel, pre: Seq<Transaction>, tx: Transaction)
    ensures
        s.run(pre.push(tx)) == s.run(pre).step(tx),
    decreases pre.len(),
{
    if pre.len() == 0 {
        assert(pre.push(tx)[0] == tx);
        assert(pre.push(tx).drop_first() =~= Seq::<Transaction>::empty());
        assert(s.run(pre.push(tx)) == s.step(tx).run(Seq::<Transaction>::empty()));
        assert(s.run(pre) == s);
    } else {
        assert(pre.push(tx)[0] == pre[0]);
        assert(pre.push(tx).drop_first() =~= pre.drop_first().push(tx));
        lemma_run_push(s.step(pre[0]), pre.drop_first(), tx);
        assert(s.run(pre.push(tx)) == s.step(pre[0]).run(pre.drop_first().push(tx)));
        assert(s.run(pre) == s.step(pre[0]).run(pre.drop_first()));
    }
}

/// If the records before `i` all carry their amounts and the one at `i`
/// does not, then `i` is the first missing-amount index.
proof fn lemma_first_missing_at(txs: Seq<Transaction>, i: int)
    requires
        0 <= i < txs.len(),
        forall|j: int| 0 <= j < i ==> !missing_amount(txs[j]),
        missing_amount(txs[i]),
    ensures
        first_missing(txs) == i,
    decreases i,
{
    if i > 0 {
        lemma_first_missing_at(txs.drop_first(), i - 1);
    }
}

/// If every record carries its amount, there is no missing-amount index.
proof fn lemma_first_missing_none(txs: Seq<Transaction>)
    requires
        forall|j: int| 0 <= j < txs.len() ==> !missing_amount(txs[j]),
    ensures
        first_missing(txs) == -1,
    decreases txs.len(),
{
    if txs.len() > 0 {
        lemma_first_missing_none(txs.drop_first());
    }
}

/// Touching a client keeps the model well-formed, and afterwards the
/// client's ledger exists and is well-formed.
pub proof fn lemma_touch_preserves_wf(m: EngineModel, c: ClientId)
    requires
        m.wf(),
    ensures
        m.touch(c).wf(),
        m.touch(c).ledgers.contains_key(c),
        m.touch(c).ledgers[c].wf(),
{
    if !m.ledgers.contains_key(c) {
        let s = m.touch(c);
        assert(!m.order.contains(c));
        assert(s.order.no_duplicates()) by {
            assert forall|i: int, j: int| 0 <= i < j < s.order.len() implies s.order[i]
                != s.order[j] by {
                if j == m.order.len() {
                    assert(m.order.contains(m.order[i]));
                }
            }
        }
        assert forall|x: ClientId| #[trigger] s.ledgers.contains_key(x) implies s.order.contains(
            x,
        ) by {
            if x != c {
                assert(m.ledgers.contains_key(x));
            }
        }
    }
}

/// One step keeps the model well-formed.
pub proof fn lemma_step_preserves_wf(m: EngineModel, tx: Transaction)
    requires
        m.wf(),
    ensures
        m.step(tx).wf(),
{
    lemma_touch_preserves_wf(m, tx.client);
    let s = m.touch(tx.client);
    let c = tx.client;
    let t = tx.tx_id;
    match tx.tx_type {
        TxType::Deposit => {
            if tx.amount is Some {
                let a = tx.amount->0@;
                if s.deposit_applies(c, t, a) {
                    let s2 = s.apply_deposit(c, t, a);
                    assert(in_range(s.ledgers[c].available));
                    assert(-2 * BALANCE_LIMIT <= a <= 2 * BALANCE_LIMIT);
                    assert forall|x: ClientId| #[trigger] s2.ledgers.contains_key(x) implies
                        s2.order.contains(x) by {
                        assert(s.ledgers.contains_key(x));
                    }
                }
            }
        },
        TxType::Withdrawal => {
            if tx.amount is Some {
                let a = tx.amount->0@;
                if s.withdrawal_applies(c, a) {
                    let s2 = s.apply_withdrawal(c, a);
                    assert forall|x: ClientId| #[trigger] s2.ledgers.contains_key(x) implies
                        s2.order.contains(x) by {
                        assert(s.ledgers.contains_key(x));
                    }
                }
            }
        },
        TxType::Dispute => {
            if s.dispute_applies(c, t) {
                let s2 = s.apply_dispute(c, t);
                assert forall|x: ClientId| #[trigger] s2.ledgers.contains_key(x) implies
                    s2.order.contains(x) by {
                    assert(s.ledgers.contains_key(x));
                }
            }
        },
        TxType::Resolve => {
            if s.resolve_applies(c, t) {
                let s2 = s.apply_resolve(c, t);
                assert forall|x: ClientId| #[trigger] s2.ledgers.contains_key(x) implies
                    s2.order.contains(x) by {
                    assert(s.ledgers.contains_key(x));
                }
            }
        },
        TxType::Chargeback => {
            if s.chargeback_applies(c, t) {
                let s2 = s.apply_chargeback(c, t);
                assert forall|x: ClientId| #[trigger] s2.ledgers.contains_key(x) implies
                    s2.order.contains(x) by {
                    assert(s.ledgers.contains_key(x));
                }
            }
        },
    }
}

} // verus!
