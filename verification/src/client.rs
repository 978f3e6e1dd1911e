//! The executable account: balances in machine integers, the records in a
//! hash map and the window in a deque, held to the rules of
//! [`crate::state`].

use crate::state::{ClientState, BALANCE_LIMIT, WINDOW_SIZE};
use crate::transaction::{
    Chargeback, Deposit, Dispute, RawTransaction, RawTransactionVariant, Resolve, Transaction,
    Withdrawal,
};
use std::collections::{HashMap, VecDeque};
use vstd::prelude::*;
use vstd::std_specs::hash::*;
use vstd::std_specs::vecdeque::*;

verus! {

broadcast use {
    vstd::std_specs::hash::group_hash_axioms,
    vstd::std_specs::vecdeque::group_vec_dequeue_axioms,
};

/// The working memory of an account: the deposits and withdrawals it keeps
/// and the order in which they were admitted. It is discarded when the
/// account's snapshot is taken.
#[derive(Debug, Clone)]
pub struct WorkingMemory {
    /// The deposits and withdrawals kept, by transaction id.
    processed_transactions: HashMap<u32, Transaction>,
    /// The ids of the transactions still open to dispute, oldest first.
    dispute_window: VecDeque<u32>,
}

impl WorkingMemory {
    /// The records kept.
    pub closed spec fn processed(&self) -> Map<u32, Transaction> {
        self.processed_transactions@
    }

    /// The ids kept open to dispute, oldest first.
    pub closed spec fn window(&self) -> Seq<u32> {
        self.dispute_window@
    }

    /// The number of ids kept open to dispute.
    pub fn window_len(&self) -> (n: usize)
        ensures
            n == self.window().len(),
    {
        self.dispute_window.len()
    }

    /// Whether `tx` is still open to dispute.
    pub fn in_window(&self, tx: u32) -> (found: bool)
        ensures
            found == self.window().contains(tx),
    {
        let mut i: usize = 0;
        while i < self.dispute_window.len()
            invariant
                i <= self.dispute_window.len(),
                forall|j: int| 0 <= j < i ==> self.dispute_window@[j] != tx,
            decreases self.dispute_window.len() - i,
        {
            if self.dispute_window[i] == tx {
                return true;
            }
            i = i + 1;
        }
        false
    }

    /// The number of records kept.
    pub fn len(&self) -> (n: usize)
        ensures
            n == self.processed().dom().len(),
    {
        self.processed_transactions.len()
    }

    /// The record kept under `tx`, if there is one.
    pub fn record(&self, tx: u32) -> (found: Option<Transaction>)
        ensures
            found == if self.processed().contains_key(tx) {
                Some(self.processed()[tx])
            } else {
                None
            },
    {
        match self.processed_transactions.get(&tx) {
            Some(record) => Some(*record),
            None => None,
        }
    }
}

/// An account that can hold funds.
#[derive(Debug, Clone)]
pub struct Client {
    /// The id of the client.
    pub id: u16,
    /// The funds the client may withdraw, in ten-thousandths.
    pub available_balance: i128,
    /// The funds held back by open disputes, in ten-thousandths.
    pub held_balance: i128,
    /// All funds of the client, in ten-thousandths.
    pub total_balance: i128,
    /// Whether the account is frozen.
    pub locked: bool,
    /// The records and the dispute window.
    pub memory: WorkingMemory,
}

impl View for Client {
    type V = ClientState;

    open spec fn view(&self) -> ClientState {
        ClientState {
            id: self.id,
            available: self.available_balance as int,
            held: self.held_balance as int,
            total: self.total_balance as int,
            locked: self.locked,
            processed: self.memory.processed(),
            window: self.memory.window(),
        }
    }
}

impl Client {
    /// Whether one more movement of any amount fits the balances.
    pub open spec fn has_room(&self) -> bool {
        self@.within(i128::MAX + i64::MIN)
    }

    /// Whether the balances are no further out of range than the eviction
    /// and the chargeback of one step can take them.
    pub open spec fn has_room_for_reversal(&self) -> bool {
        self@.within(BALANCE_LIMIT - 2 * i64::MIN)
    }

    /// Creates a new `Client` with nothing recorded and all balances zero.
    pub fn new(id: u16) -> (client: Self)
        ensures
            client@ == ClientState::new(id),
            client@.wf(),
            client@.sound(),
    {
        assert(ClientState::new(id).staked(0, 0) == 0);
        Self {
            id,
            available_balance: 0,
            held_balance: 0,
            total_balance: 0,
            locked: false,
            memory: WorkingMemory {
                processed_transactions: HashMap::new(),
                dispute_window: VecDeque::with_capacity(WINDOW_SIZE),
            },
        }
    }

    /// Applies a deposit: credits it and admits it to the window.
    fn process_deposit(&mut self, deposit: Deposit)
        requires
            old(self)@.wf(),
            old(self).has_room(),
            old(self)@.window.len() < WINDOW_SIZE,
            deposit.amount >= 0,
            !deposit.disputed,
            !deposit.resolved,
        ensures
            final(self)@ == old(self)@.deposit(deposit),
            final(self)@.wf(),
    {
        if deposit.client_id != self.id {
            return ;
        }
        self.total_balance = self.total_balance + deposit.amount as i128;
        self.available_balance = self.available_balance + deposit.amount as i128;
        self.memory.dispute_window.push_back(deposit.tx_id);
        self.memory.processed_transactions.insert(deposit.tx_id, Transaction::Deposit(deposit));
        proof {
            old(self)@.lemma_deposit_wf(deposit);
        }
    }

    /// Applies a withdrawal: debits it and admits it to the window where
    /// the total covers it, and keeps it as failed where not.
    fn process_withdrawal(&mut self, withdrawal: Withdrawal)
        requires
            old(self)@.wf(),
            old(self).has_room(),
            old(self)@.window.len() < WINDOW_SIZE,
            withdrawal.amount >= 0,
            !withdrawal.disputed,
            !withdrawal.resolved,
        ensures
            final(self)@ == old(self)@.withdraw(withdrawal),
            final(self)@.wf(),
    {
        let mut withdrawal = withdrawal;
        if withdrawal.client_id != self.id {
            return ;
        }
        proof {
            old(self)@.lemma_withdraw_wf(withdrawal);
        }
        if self.total_balance < withdrawal.amount as i128 {
            withdrawal.failed = true;
            self.memory.processed_transactions.insert(
                withdrawal.tx_id,
                Transaction::Withdrawal(withdrawal),
            );
            return ;
        }
        self.total_balance = self.total_balance - withdrawal.amount as i128;
        self.available_balance = self.available_balance - withdrawal.amount as i128;
        self.memory.dispute_window.push_back(withdrawal.tx_id);
        self.memory.processed_transactions.insert(
            withdrawal.tx_id,
            Transaction::Withdrawal(withdrawal),
        );
    }

    /// Applies a dispute: where the record it names is kept, belongs to the
    /// same client and was never disputed, the record's funds are held.
    fn process_dispute(&mut self, dispute: &Dispute)
        requires
            old(self)@.wf(),
            old(self).has_room(),
        ensures
            final(self)@ == old(self)@.dispute(*dispute),
            final(self)@.wf(),
    {
        if let Some(tx) = self.memory.record(dispute.tx_id) {
            match tx {
                Transaction::Deposit(deposit) => {
                    if deposit.disputed || deposit.resolved || dispute.client_id
                        != deposit.client_id {
                        return ;
                    }
                    let mut deposit = deposit;
                    deposit.disputed = true;
                    self.held_balance = self.held_balance + deposit.amount as i128;
                    self.available_balance = self.available_balance - deposit.amount as i128;
                    self.memory.processed_transactions.insert(
                        dispute.tx_id,
                        Transaction::Deposit(deposit),
                    );
                },
                Transaction::Withdrawal(withdrawal) => {
                    if withdrawal.disputed || withdrawal.resolved || dispute.client_id
                        != withdrawal.client_id {
                        return ;
                    }
                    let mut withdrawal = withdrawal;
                    withdrawal.disputed = true;
                    if !withdrawal.failed {
                        self.held_balance = self.held_balance - withdrawal.amount as i128;
                        self.available_balance = self.available_balance
                            + withdrawal.amount as i128;
                    }
                    self.memory.processed_transactions.insert(
                        dispute.tx_id,
                        Transaction::Withdrawal(withdrawal),
                    );
                },
                Transaction::Dispute(_) | Transaction::Resolve(_) | Transaction::Chargeback(
                    _,
                ) => {},
            }
        }
    }

    /// Applies a resolve, to the record kept under its id or, where one is
    /// handed in, to that record, which is then not kept: where the
    /// record's dispute is open and the client is the same, the funds held
    /// for it are released.
    fn process_resolve(&mut self, resolve: &Resolve, tx: Option<Transaction>)
        requires
            old(self)@.wf(),
            old(self).has_room(),
        ensures
            final(self)@ == match tx {
                Some(record) => old(self)@.resolve_record(*resolve, record),
                None => old(self)@.resolve(*resolve),
            },
            final(self)@.wf(),
    {
        let keep = tx.is_none();
        let transaction = if tx.is_some() {
            tx
        } else {
            self.memory.record(resolve.tx_id)
        };
        if let Some(t) = transaction {
            match t {
                Transaction::Deposit(deposit) => {
                    if !deposit.disputed || deposit.resolved || resolve.client_id
                        != deposit.client_id {
                        return ;
                    }
                    let mut deposit = deposit;
                    deposit.resolved = true;
                    self.held_balance = self.held_balance - deposit.amount as i128;
                    self.available_balance = self.available_balance + deposit.amount as i128;
                    if keep {
                        self.memory.processed_transactions.insert(
                            resolve.tx_id,
                            Transaction::Deposit(deposit),
                        );
                    }
                },
                Transaction::Withdrawal(withdrawal) => {
                    if !withdrawal.disputed || withdrawal.resolved || resolve.client_id
                        != withdrawal.client_id {
                        return ;
                    }
                    let mut withdrawal = withdrawal;
                    withdrawal.resolved = true;
                    if !withdrawal.failed {
                        self.held_balance = self.held_balance + withdrawal.amount as i128;
                        self.available_balance = self.available_balance
                            - withdrawal.amount as i128;
                    }
                    if keep {
                        self.memory.processed_transactions.insert(
                            resolve.tx_id,
                            Transaction::Withdrawal(withdrawal),
                        );
                    }
                },
                Transaction::Dispute(_) | Transaction::Resolve(_) | Transaction::Chargeback(
                    _,
                ) => {},
            }
        }
    }

    /// Applies a chargeback: where the record it names is kept, belongs to
    /// the same client and its dispute is open, the funds held for it
    /// leave the account and the account is locked.
    fn process_chargeback(&mut self, chargeback: &Chargeback) -> (taken: bool)
        requires
            old(self)@.wf(),
            old(self).has_room(),
        ensures
            final(self)@ == old(self)@.chargeback(*chargeback),
            final(self)@.wf(),
            taken == old(self)@.settleable(chargeback.client_id, chargeback.tx_id),
    {
        if let Some(tx) = self.memory.record(chargeback.tx_id) {
            match tx {
                Transaction::Deposit(deposit) => {
                    if !deposit.disputed || deposit.resolved || chargeback.client_id
                        != deposit.client_id {
                        return false;
                    }
                    let mut deposit = deposit;
                    deposit.resolved = true;
                    self.held_balance = self.held_balance - deposit.amount as i128;
                    self.total_balance = self.total_balance - deposit.amount as i128;
                    self.locked = true;
                    self.memory.processed_transactions.insert(
                        chargeback.tx_id,
                        Transaction::Deposit(deposit),
                    );
                    true
                },
                Transaction::Withdrawal(withdrawal) => {
                    if !withdrawal.disputed || withdrawal.resolved || chargeback.client_id
                        != withdrawal.client_id {
                        return false;
                    }
                    let mut withdrawal = withdrawal;
                    withdrawal.resolved = true;
                    if !withdrawal.failed {
                        self.held_balance = self.held_balance + withdrawal.amount as i128;
                        self.total_balance = self.total_balance + withdrawal.amount as i128;
                    }
                    self.locked = true;
                    self.memory.processed_transactions.insert(
                        chargeback.tx_id,
                        Transaction::Withdrawal(withdrawal),
                    );
                    true
                },
                Transaction::Dispute(_) | Transaction::Resolve(_) | Transaction::Chargeback(
                    _,
                ) => false,
            }
        } else {
            false
        }
    }

    /// Reverses the withdrawal kept under `id`, if there is one that went
    /// through and is not disputed, or whose dispute has ended: credits
    /// its amount back and marks it as failed.
    fn reverse_withdrawal(&mut self, id: u32)
        requires
            old(self)@.wf(),
            old(self).has_room(),
        ensures
            final(self)@ == old(self)@.reverse_withdrawal(id),
            final(self)@.wf(),
    {
        if let Some(Transaction::Withdrawal(withdrawal)) = self.memory.record(id) {
            if !withdrawal.failed && !withdrawal.disputed || withdrawal.resolved {
                let mut withdrawal = withdrawal;
                self.available_balance = self.available_balance + withdrawal.amount as i128;
                self.total_balance = self.total_balance + withdrawal.amount as i128;
                withdrawal.failed = true;
                self.memory.processed_transactions.insert(
                    id,
                    Transaction::Withdrawal(withdrawal),
                );
            }
        }
    }

    /// Evicts the oldest entry of the window: drops its record and, where
    /// a dispute is still open on it, ends that dispute as a resolve would.
    fn finalize_transaction(&mut self)
        requires
            old(self)@.wf(),
            old(self).has_room(),
        ensures
            final(self)@ == old(self)@.finalize(),
            final(self)@.wf(),
    {
        if let Some(id) = self.memory.dispute_window.pop_front() {
            proof {
                old(self)@.lemma_finalize_wf();
            }
            if let Some(old_tx) = self.memory.processed_transactions.remove(&id) {
                match old_tx {
                    Transaction::Deposit(deposit) => {
                        if deposit.disputed && !deposit.resolved {
                            self.process_resolve(
                                &Resolve { client_id: deposit.client_id, tx_id: deposit.tx_id },
                                Some(old_tx),
                            );
                        }
                    },
                    Transaction::Withdrawal(withdrawal) => {
                        if withdrawal.disputed && !withdrawal.resolved {
                            self.process_resolve(
                                &Resolve {
                                    client_id: withdrawal.client_id,
                                    tx_id: withdrawal.tx_id,
                                },
                                Some(old_tx),
                            );
                        }
                    },
                    Transaction::Dispute(_) | Transaction::Resolve(_) | Transaction::Chargeback(
                        _,
                    ) => {},
                }
            }
        }
    }

    /// Runs the reversal that follows a chargeback of `tx_id`: from the most
    /// recent entry of the window back to the first place of `tx_id`, it
    /// reverses one withdrawal after the other until the total is not
    /// negative.
    fn reverse_since(&mut self, tx_id: u32)
        requires
            old(self)@.wf(),
            old(self).has_room_for_reversal(),
        ensures
            final(self)@ == old(self)@.cascade(old(self)@.since(tx_id)),
            final(self)@.wf(),
    {
        let len = self.memory.dispute_window.len();
        let mut start: usize = 0;
        while start < len && self.memory.dispute_window[start] != tx_id
            invariant
                start <= len,
                len == self@.window.len(),
                self == old(self),
                forall|j: int| 0 <= j < start ==> self@.window[j] != tx_id,
            decreases len - start,
        {
            start = start + 1;
        }
        proof {
            self@.window.index_of_first_ensures(tx_id);
        }
        if start == len {
            return ;
        }
        let ghost ids = self@.window;
        let mut i: usize = len;
        while i > start && self.total_balance < 0
            invariant
                start <= i <= len,
                len == ids.len(),
                len <= WINDOW_SIZE,
                self@.window == ids,
                self@.wf(),
                self@.cascade(ids.subrange(start as int, i as int)) == old(self)@.cascade(
                    ids.subrange(start as int, len as int),
                ),
                self@.held == old(self)@.held,
                old(self).has_room_for_reversal(),
                old(self)@.available <= self@.available <= old(self)@.available + (len - i)
                    * i64::MAX,
                old(self)@.total <= self@.total,
                self@.total <= old(self)@.total || self@.total <= i64::MAX,
            decreases i,
        {
            proof {
                let run = ids.subrange(start as int, i as int);
                assert(run.last() == ids[i - 1]);
                assert(run.drop_last() == ids.subrange(start as int, i - 1));
                if self@.processed.contains_key(ids[i - 1]) {
                    assert(self@.record_ok(ids[i - 1]));
                }
            }
            i = i - 1;
            let id = self.memory.dispute_window[i];
            self.reverse_withdrawal(id);
        }
    }

    /// Applies one raw record to the account. A record that is malformed
    /// for its tag, or addressed to another account, changes nothing.
    /// Before a deposit or a withdrawal is applied, a full window loses
    /// its oldest entry. After a chargeback that was taken, withdrawals are
    /// reversed while the total is negative.
    pub fn process_transaction(&mut self, transaction: RawTransaction)
        requires
            old(self)@.wf(),
            old(self)@.in_range(),
        ensures
            final(self)@ == old(self)@.step(transaction),
            final(self)@.wf(),
            old(self)@.balanced() ==> final(self)@.balanced(),
    {
        proof {
            if old(self)@.balanced() {
                old(self)@.lemma_step_balanced(transaction);
            }
        }
        match transaction.variant {
            RawTransactionVariant::Deposit => {
                if let Ok(deposit) = Deposit::try_from(transaction) {
                    if deposit.client_id == self.id {
                        if self.memory.dispute_window.len() >= WINDOW_SIZE {
                            self.finalize_transaction();
                        }
                        self.process_deposit(deposit);
                    }
                }
            },
            RawTransactionVariant::Withdrawal => {
                if let Ok(withdrawal) = Withdrawal::try_from(transaction) {
                    if withdrawal.client_id == self.id {
                        if self.memory.dispute_window.len() >= WINDOW_SIZE {
                            self.finalize_transaction();
                        }
                        self.process_withdrawal(withdrawal);
                    }
                }
            },
            RawTransactionVariant::Dispute => {
                if let Ok(dispute) = Dispute::try_from(transaction) {
                    self.process_dispute(&dispute);
                }
            },
            RawTransactionVariant::Resolve => {
                if let Ok(resolve) = Resolve::try_from(transaction) {
                    self.process_resolve(&resolve, None);
                }
            },
            RawTransactionVariant::Chargeback => {
                if let Ok(chargeback) = Chargeback::try_from(transaction) {
                    if self.process_chargeback(&chargeback) {
                        self.reverse_since(chargeback.tx_id);
                    }
                }
            },
        }
    }

    /// Whether every balance is within [`BALANCE_LIMIT`] of zero.
    pub fn in_range(&self) -> (ok: bool)
        ensures
            ok == self@.in_range(),
    {
        -BALANCE_LIMIT <= self.available_balance && self.available_balance <= BALANCE_LIMIT
            && -BALANCE_LIMIT <= self.held_balance && self.held_balance <= BALANCE_LIMIT
            && -BALANCE_LIMIT <= self.total_balance && self.total_balance <= BALANCE_LIMIT
    }

    /// Takes one record as it arrives. A locked account takes nothing and
    /// says so: the result is `false` exactly when the account was locked,
    /// and its sequence is over. An account whose balances are out of range
    /// lets the record pass without effect.
    pub fn receive(&mut self, transaction: RawTransaction) -> (open: bool)
        requires
            old(self)@.wf(),
        ensures
            final(self)@ == old(self)@.receive(transaction),
            final(self)@.wf(),
            open == !old(self).locked,
            old(self).locked ==> final(self)@ == old(self)@,
            old(self)@.balanced() ==> final(self)@.balanced(),
            old(self)@.sound() && old(self)@.takes_fresh(transaction) ==> final(self)@.locked
                || final(self)@.sound(),
    {
        proof {
            if old(self)@.sound() && old(self)@.takes_fresh(transaction) {
                old(self)@.lemma_sound_step(transaction);
            }
        }
        if self.locked {
            return false;
        }
        if self.in_range() {
            self.process_transaction(transaction);
        }
        true
    }

    /// Takes the snapshot: keeps the balances and the lock and discards
    /// the records and the window.
    pub fn finish(&mut self)
        ensures
            final(self)@ == old(self)@.snapshot(),
            final(self)@.wf(),
    {
        self.memory.dispute_window.clear();
        self.memory.processed_transactions.clear();
    }

    /// Processes all the activity of the client in order, up to the record
    /// that finds the account locked, and leaves the snapshot: the final
    /// balances and lock, with the records and the window discarded.
    pub fn process_activity(&mut self, activity: Vec<RawTransaction>)
        requires
            old(self)@.wf(),
        ensures
            final(self)@ == old(self)@.run(activity@).snapshot(),
            final(self)@.wf(),
            old(self).locked ==> final(self)@ == old(self)@.snapshot(),
            old(self)@.balanced() ==> final(self)@.balanced(),
            old(self)@.sound() && ClientState::distinct_ids(activity@) && (forall|i: int|
                0 <= i < activity.len() ==> old(self)@.takes_fresh(#[trigger] activity@[i]))
                ==> final(self).locked || final(self).total_balance >= 0,
    {
        proof {
            if old(self)@.sound() && ClientState::distinct_ids(activity@) && (forall|i: int|
                0 <= i < activity.len() ==> old(self)@.takes_fresh(#[trigger] activity@[i])) {
                old(self)@.lemma_sound_run(activity@);
                let end = old(self)@.run(activity@);
                assert(end.staked(end.window.len() as int, end.window.len() as int) == 0);
            }
            if old(self).locked {
                old(self)@.lemma_run_locked(activity@);
            }
            if old(self)@.balanced() {
                old(self)@.lemma_run_balanced(activity@);
            }
        }
        let mut i: usize = 0;
        assert(activity@.subrange(0, activity.len() as int) == activity@);
        while i < activity.len() && !self.locked
            invariant
                i <= activity.len(),
                self@.wf(),
                self@.run(activity@.subrange(i as int, activity.len() as int)) == old(self)@.run(
                    activity@,
                ),
            decreases activity.len() - i,
        {
            proof {
                let rest = activity@.subrange(i as int, activity.len() as int);
                assert(rest.first() == activity@[i as int]);
                assert(rest.drop_first() == activity@.subrange(i + 1, activity.len() as int));
            }
            self.receive(activity[i]);
            i = i + 1;
        }
        proof {
            self@.lemma_run_locked(activity@.subrange(i as int, activity.len() as int));
        }
        self.finish();
    }
}

} // verus!
