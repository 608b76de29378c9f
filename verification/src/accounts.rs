use vstd::prelude::*;
use crate::transaction::{
    Transaction, TransactionType, disputable_by_id, disputable_with_id, first_where,
    lemma_first_where_exists, lemma_first_where_is_first, lemma_first_where_none,
    transaction_by_id, with_id,
};

verus! {

/// Account storing available and held amounts, in ten-thousandths of a unit.
#[derive(Debug, PartialEq, Eq)]
pub struct Account {
    pub client_id: u16,
    pub available: i128,
    pub held: i128,
    pub total: i128,
    pub locked: bool,
    /// The withdrawals of this client that are under an open dispute.
    pub disputed: Vec<Transaction>,
}

/// What an account holds, as mathematical values.
pub struct AccountState {
    pub client_id: u16,
    pub available: int,
    pub held: int,
    pub total: int,
    pub locked: bool,
    pub disputed: Seq<Transaction>,
}

/// The largest change that one record can make to a balance.
pub open spec fn step_limit() -> int {
    0x8000_0000_0000_0000
}

/// `s` without its element at `i`, the last element moved into its place.
pub open spec fn swap_removed(s: Seq<Transaction>, i: int) -> Seq<Transaction> {
    s.update(i, s.last()).drop_last()
}

impl AccountState {
    /// A fresh account: nothing on it, unlocked, no open dispute.
    pub open spec fn empty(client_id: u16) -> Self {
        AccountState {
            client_id,
            available: 0,
            held: 0,
            total: 0,
            locked: false,
            disputed: Seq::empty(),
        }
    }

    /// Every record under dispute carries the amount that was frozen for it.
    pub open spec fn wf(self) -> bool {
        forall|i: int| 0 <= i < self.disputed.len() ==> (#[trigger] self.disputed[i]).amount is Some
    }

    /// Each balance is in the range of a 128-bit integer.
    pub open spec fn fits(self) -> bool {
        &&& i128::MIN <= self.available <= i128::MAX
        &&& i128::MIN <= self.held <= i128::MAX
        &&& i128::MIN <= self.total <= i128::MAX
    }

    /// The balances leave room for `steps` more records in a 128-bit integer.
    pub open spec fn has_room(self, steps: nat) -> bool {
        let bound = i128::MAX - steps * step_limit();
        &&& -bound <= self.available <= bound
        &&& -bound <= self.held <= bound
        &&& -bound <= self.total <= bound
    }

    pub open spec fn deposit(self, amount: int) -> Self {
        AccountState { available: self.available + amount, total: self.total + amount, ..self }
    }

    /// A withdrawal that the available funds do not cover changes nothing.
    pub open spec fn withdraw(self, amount: int) -> Self {
        if self.available - amount >= 0 {
            AccountState { available: self.available - amount, total: self.total - amount, ..self }
        } else {
            self
        }
    }

    /// Opens a dispute on `target`: its amount is held and counted in the total.
    pub open spec fn dispute(self, target: Transaction) -> Self {
        let amount = target.amount.unwrap() as int;
        AccountState {
            held: self.held + amount,
            total: self.total + amount,
            disputed: self.disputed.push(target),
            ..self
        }
    }

    /// Closes the dispute at position `i` in favour of the client.
    pub open spec fn resolve(self, i: int) -> Self {
        let amount = self.disputed[i].amount.unwrap() as int;
        AccountState {
            available: self.available + amount,
            held: self.held - amount,
            disputed: swap_removed(self.disputed, i),
            ..self
        }
    }

    /// Closes the dispute at position `i` by a chargeback, which locks the account.
    pub open spec fn chargeback(self, i: int) -> Self {
        let amount = self.disputed[i].amount.unwrap() as int;
        AccountState {
            held: self.held - amount,
            total: self.total - amount,
            locked: true,
            disputed: swap_removed(self.disputed, i),
            ..self
        }
    }

    /// The account after `record`, where `history` is the whole log.
    /// A record whose precondition fails changes nothing.
    pub open spec fn apply(self, history: Seq<Transaction>, record: Transaction) -> Self {
        match (record.kind, record.amount) {
            (TransactionType::Deposit, Some(amount)) => self.deposit(amount as int),
            (TransactionType::Withdrawal, Some(amount)) => self.withdraw(amount as int),
            (TransactionType::Dispute, None) => match first_where(
                history,
                disputable_with_id(record.tx),
            ) {
                Some(i) => self.dispute(history[i]),
                None => self,
            },
            (TransactionType::Resolve, None) => match first_where(
                self.disputed,
                with_id(record.tx),
            ) {
                Some(i) => self.resolve(i),
                None => self,
            },
            (TransactionType::Chargeback, None) => match first_where(
                self.disputed,
                with_id(record.tx),
            ) {
                Some(i) => self.chargeback(i),
                None => self,
            },
            _ => self,
        }
    }
}

impl View for Account {
    type V = AccountState;

    open spec fn view(&self) -> AccountState {
        AccountState {
            client_id: self.client_id,
            available: self.available as int,
            held: self.held as int,
            total: self.total as int,
            locked: self.locked,
            disputed: self.disputed@,
        }
    }
}

/// One record keeps an account well formed and with its client.
pub proof fn lemma_apply_keeps_wf(
    state: AccountState,
    history: Seq<Transaction>,
    record: Transaction,
)
    requires
        state.wf(),
    ensures
        state.apply(history, record).wf(),
        state.apply(history, record).client_id == state.client_id,
{
    if first_where(history, disputable_with_id(record.tx)) is Some {
        lemma_first_where_is_first(history, disputable_with_id(record.tx));
    }
    if first_where(state.disputed, with_id(record.tx)) is Some {
        lemma_first_where_is_first(state.disputed, with_id(record.tx));
    }
}

/// One record uses up at most one step of the room that the balances have.
pub proof fn lemma_apply_keeps_room(
    state: AccountState,
    history: Seq<Transaction>,
    record: Transaction,
    steps: nat,
)
    requires
        state.wf(),
        state.has_room(steps + 1),
    ensures
        state.apply(history, record).has_room(steps),
{
    if first_where(history, disputable_with_id(record.tx)) is Some {
        lemma_first_where_is_first(history, disputable_with_id(record.tx));
    }
    if first_where(state.disputed, with_id(record.tx)) is Some {
        lemma_first_where_is_first(state.disputed, with_id(record.tx));
    }
}

/// `target` is the record that a dispute of its id freezes: the first
/// disputable record of `history` with that id.
pub open spec fn is_dispute_target(history: Seq<Transaction>, target: Transaction) -> bool {
    match first_where(history, disputable_with_id(target.tx)) {
        Some(i) => history[i] == target,
        None => false,
    }
}

impl AccountState {
    /// Every record under dispute is the one that `history` gives for its id.
    pub open spec fn tracks(self, history: Seq<Transaction>) -> bool {
        forall|k: int|
            0 <= k < self.disputed.len() ==> is_dispute_target(history, #[trigger] self.disputed[k])
    }
}

/// An account that tracks a history is well formed.
pub proof fn lemma_tracks_is_wf(state: AccountState, history: Seq<Transaction>)
    requires
        state.tracks(history),
    ensures
        state.wf(),
{
    assert forall|k: int| 0 <= k < state.disputed.len() implies (
    #[trigger] state.disputed[k]).amount is Some by {
        let target = state.disputed[k];
        lemma_first_where_is_first(history, disputable_with_id(target.tx));
    }
}

/// An account that tracks a history still tracks it after any of its records.
pub proof fn lemma_apply_keeps_track(
    state: AccountState,
    history: Seq<Transaction>,
    record: Transaction,
)
    requires
        state.tracks(history),
    ensures
        state.apply(history, record).tracks(history),
{
    if first_where(history, disputable_with_id(record.tx)) is Some {
        lemma_first_where_is_first(history, disputable_with_id(record.tx));
    }
    if first_where(state.disputed, with_id(record.tx)) is Some {
        lemma_first_where_is_first(state.disputed, with_id(record.tx));
    }
}

/// A withdrawal of more than the available funds leaves the account as it was.
pub proof fn lemma_overdrawn_withdrawal_changes_nothing(
    state: AccountState,
    history: Seq<Transaction>,
    withdrawal: Transaction,
)
    requires
        withdrawal.kind == TransactionType::Withdrawal,
        withdrawal.amount is Some,
        withdrawal.amount.unwrap() > state.available,
    ensures
        state.apply(history, withdrawal) == state,
{
}

/// No record unlocks an account: a locked account stays locked.
pub proof fn lemma_lock_is_one_way(
    state: AccountState,
    history: Seq<Transaction>,
    record: Transaction,
)
    requires
        state.locked,
    ensures
        state.apply(history, record).locked,
{
}

/// A dispute of the withdrawal `tx` followed by its resolution gives back
/// the held funds, the open disputes and the lock as they were, and leaves
/// the withdrawn amount on the available funds and on the total: the
/// account is as before exactly when that amount is zero.
pub proof fn lemma_dispute_then_resolve(
    state: AccountState,
    history: Seq<Transaction>,
    dispute: Transaction,
    resolve: Transaction,
)
    requires
        state.tracks(history),
        dispute.kind == TransactionType::Dispute,
        dispute.amount is None,
        resolve.kind == TransactionType::Resolve,
        resolve.amount is None,
        resolve.tx == dispute.tx,
        first_where(history, disputable_with_id(dispute.tx)) is Some,
    ensures
        ({
            let target = history[first_where(history, disputable_with_id(dispute.tx)).unwrap()];
            let amount = target.amount.unwrap() as int;
            let disputed = state.apply(history, dispute);
            let resolved = disputed.apply(history, resolve);
            &&& target.kind == TransactionType::Withdrawal
            &&& target.tx == dispute.tx
            &&& disputed.held == state.held + amount
            &&& resolved.held == state.held
            &&& resolved.disputed == state.disputed
            &&& resolved.locked == state.locked
            &&& resolved.client_id == state.client_id
            &&& resolved.available == state.available + amount
            &&& resolved.total == state.total + amount
            &&& amount == 0 ==> resolved == state
        }),
{
    let tx = dispute.tx;
    lemma_first_where_is_first(history, disputable_with_id(tx));
    let disputed = state.apply(history, dispute);
    lemma_first_where_exists(disputed.disputed, with_id(tx), state.disputed.len() as int);
    let resolved = disputed.apply(history, resolve);
    assert(resolved.disputed =~= state.disputed);
}

/// A chargeback of a withdrawal under dispute takes its amount off the held
/// funds and off the total and locks the account. Where the id was under
/// dispute once, it is under dispute no more: a later resolution or
/// chargeback of it changes nothing.
pub proof fn lemma_chargeback_closes_dispute(
    state: AccountState,
    history: Seq<Transaction>,
    chargeback: Transaction,
    later: Transaction,
)
    requires
        state.wf(),
        chargeback.kind == TransactionType::Chargeback,
        chargeback.amount is None,
        later.kind == TransactionType::Resolve || later.kind == TransactionType::Chargeback,
        later.amount is None,
        later.tx == chargeback.tx,
        first_where(state.disputed, with_id(chargeback.tx)) is Some,
    ensures
        ({
            let k = first_where(state.disputed, with_id(chargeback.tx)).unwrap();
            let amount = state.disputed[k].amount.unwrap() as int;
            let charged = state.apply(history, chargeback);
            &&& charged.held == state.held - amount
            &&& charged.total == state.total - amount
            &&& charged.available == state.available
            &&& charged.locked
            &&& charged.disputed == swap_removed(state.disputed, k)
            &&& (forall|j: int|
                0 <= j < state.disputed.len() && j != k ==> (#[trigger] state.disputed[j]).tx
                    != chargeback.tx) ==> {
                &&& first_where(charged.disputed, with_id(chargeback.tx)) is None
                &&& charged.apply(history, later) == charged
            }
        }),
{
    let tx = chargeback.tx;
    let k = first_where(state.disputed, with_id(tx)).unwrap();
    lemma_first_where_is_first(state.disputed, with_id(tx));
    let charged = state.apply(history, chargeback);
    if forall|j: int|
        0 <= j < state.disputed.len() && j != k ==> (#[trigger] state.disputed[j]).tx != tx {
        assert forall|j: int| 0 <= j < charged.disputed.len() implies !with_id(tx)(
            #[trigger] charged.disputed[j],
        ) by {}
        lemma_first_where_none(charged.disputed, with_id(tx));
    }
}

impl Account {
    pub fn new(client_id: u16) -> (account: Self)
        ensures
            account@ == AccountState::empty(client_id),
    {
        Self { client_id, available: 0, held: 0, total: 0, locked: false, disputed: Vec::new() }
    }

    /// Applies one record of `history` to this account. The account must be
    /// well formed and the new balances must fit 128-bit integers.
    pub fn apply(&mut self, history: &[Transaction], record: &Transaction)
        requires
            old(self)@.wf(),
            old(self)@.apply(history@, *record).fits(),
        ensures
            final(self)@ == old(self)@.apply(history@, *record),
            final(self)@.wf(),
    {
        proof {
            lemma_apply_keeps_wf(self@, history@, *record);
        }
        match (record.kind, record.amount) {
            (TransactionType::Deposit, Some(amount)) => {
                self.available = self.available + amount as i128;
                self.total = self.total + amount as i128;
            },
            (TransactionType::Withdrawal, Some(amount)) => {
                if self.available >= amount as i128 {
                    self.available = self.available - amount as i128;
                    self.total = self.total - amount as i128;
                }
            },
            (TransactionType::Dispute, None) => {
                if let Some((_, target)) = disputable_by_id(history, record.tx) {
                    let amount: i128 = target.amount.unwrap() as i128;
                    self.held = self.held + amount;
                    self.total = self.total + amount;
                    self.disputed.push(*target);
                }
            },
            (TransactionType::Resolve, None) => {
                if let Some((index, target)) = transaction_by_id(self.disputed.as_slice(), record.tx) {
                    let amount: i128 = target.amount.unwrap() as i128;
                    self.available = self.available + amount;
                    self.held = self.held - amount;
                    self.disputed.swap_remove(index);
                }
            },
            (TransactionType::Chargeback, None) => {
                if let Some((index, target)) = transaction_by_id(self.disputed.as_slice(), record.tx) {
                    let amount: i128 = target.amount.unwrap() as i128;
                    self.held = self.held - amount;
                    self.total = self.total - amount;
                    self.locked = true;
                    self.disputed.swap_remove(index);
                }
            },
            _ => {},
        }
    }
}

} // verus!
