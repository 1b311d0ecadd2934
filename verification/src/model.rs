//! Transaction records and per-client ledgers.

use vstd::prelude::*;
use crate::amount::{Amount, in_range};
use crate::errors::BalanceError;

verus! {

pub type ClientId = u16;

pub type TxId = u32;

/// The five transaction kinds.
#[derive(Clone, Copy, Debug, PartialEq, Eq, Structural)]
pub enum TxType {
    Deposit,
    Withdrawal,
    Dispute,
    Resolve,
    Chargeback,
}

/// One input record. Deposits and withdrawals carry an amount; the
/// dispute-family kinds reference a prior transaction id and carry none.
#[derive(Clone, Copy, Debug, PartialEq, Eq, Structural)]
pub struct Transaction {
    pub tx_type: TxType,
    pub client: ClientId,
    pub tx_id: TxId,
    pub amount: Option<Amount>,
}

/// Per-client balances. The total is derived (`available + held`), not
/// stored.
#[derive(Clone, Copy, Debug, PartialEq, Eq, Structural)]
pub struct ClientBalance {
    pub client: ClientId,
    pub available: Amount,
    pub held: Amount,
    pub locked: bool,
}

impl ClientBalance {
    /// Both stored balances lie in the range the engine keeps them in.
    pub open spec fn wf(self) -> bool {
        in_range(self.available@) && in_range(self.held@)
    }

    /// A fresh ledger: no funds, not locked.
    pub fn new_empty(client: ClientId) -> (r: ClientBalance)
        ensures
            r.client == client,
            r.available@ == 0,
            r.held@ == 0,
            !r.locked,
            r.wf(),
    {
        ClientBalance {
            client,
            available: Amount::zero(),
            held: Amount::zero(),
            locked: false,
        }
    }

    /// Deposit: credit the available funds.
    pub fn add_funds(&mut self, amount: Amount)
        requires
            old(self).wf(),
            in_range(old(self).available@ + amount@),
        ensures
            final(self).available@ == old(self).available@ + amount@,
            final(self).held == old(self).held,
            final(self).locked == old(self).locked,
            final(self).client == old(self).client,
            final(self).wf(),
    {
        self.available = self.available.add(amount);
    }

    /// Withdrawal: debit the available funds if they cover the amount,
    /// otherwise report `InsufficientFunds` and change nothing.
    pub fn remove_funds(&mut self, amount: Amount) -> (r: Result<(), BalanceError>)
        requires
            old(self).wf(),
            old(self).available@ >= amount@ ==> in_range(old(self).available@ - amount@),
        ensures
            old(self).available@ >= amount@ ==> {
                &&& r is Ok
                &&& final(self).available@ == old(self).available@ - amount@
            },
            old(self).available@ < amount@ ==> {
                &&& r == Result::<(), BalanceError>::Err(BalanceError::InsufficientFunds)
                &&& *final(self) == *old(self)
            },
            final(self).held == old(self).held,
            final(self).locked == old(self).locked,
            final(self).client == old(self).client,
            final(self).wf(),
    {
        if self.available.ge(&amount) {
            self.available = self.available.sub(amount);
            Ok(())
        } else {
            Err(BalanceError::InsufficientFunds)
        }
    }

    /// Dispute: move the amount from available to held. Available funds may
    /// go negative here; that is intended when the disputed deposit was
    /// already withdrawn.
    pub fn hold_funds(&mut self, amount: Amount)
        requires
            old(self).wf(),
            in_range(old(self).available@ - amount@),
            in_range(old(self).held@ + amount@),
        ensures
            final(self).available@ == old(self).available@ - amount@,
            final(self).held@ == old(self).held@ + amount@,
            final(self).locked == old(self).locked,
            final(self).client == old(self).client,
            final(self).wf(),
    {
        self.available = self.available.sub(amount);
        self.held = self.held.add(amount);
    }

    /// Resolve: move the amount back from held to available; the inverse of
    /// `hold_funds`.
    pub fn resolve_funds(&mut self, amount: Amount)
        requires
            old(self).wf(),
            in_range(old(self).available@ + amount@),
            in_range(old(self).held@ - amount@),
        ensures
            final(self).available@ == old(self).available@ + amount@,
            final(self).held@ == old(self).held@ - amount@,
            final(self).locked == old(self).locked,
            final(self).client == old(self).client,
            final(self).wf(),
    {
        self.held = self.held.sub(amount);
        self.available = self.available.add(amount);
    }

    /// Chargeback: remove the held amount entirely and lock the account.
    pub fn chargeback_funds(&mut self, amount: Amount)
        requires
            old(self).wf(),
            in_range(old(self).held@ - amount@),
        ensures
            final(self).available == old(self).available,
            final(self).held@ == old(self).held@ - amount@,
            final(self).locked,
            final(self).client == old(self).client,
            final(self).wf(),
    {
        self.held = self.held.sub(amount);
        self.locked = true;
    }

    /// Total funds: derived as `available + held`.
    pub fn total(&self) -> (r: Amount)
        requires
            self.wf(),
        ensures
            r@ == self.available@ + self.held@,
    {
        self.available.add(self.held)
    }
}

} // verus!
