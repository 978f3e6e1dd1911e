//! The account as a mathematical value, and the rules of the engine as
//! functions from one such value to the next.
//!
//! Balances are unbounded integers here. The executable account in
//! [`crate::client`] is held to these functions by its contracts.

use crate::transaction::{
    Chargeback, Deposit, Dispute, RawTransaction, RawTransactionVariant, Resolve, Transaction,
    Withdrawal,
};
use vstd::prelude::*;

verus! {

/// The number of transactions that stay open to dispute.
pub const WINDOW_SIZE: usize = 1000;

/// The magnitude up to which an account takes events: a balance further
/// from zero than this is outside the range the account works in.
pub const BALANCE_LIMIT: i128 = 0x4000_0000_0000_0000_0000_0000_0000_0000;

/// One account: its balances in ten-thousandths, its lock, the records it
/// keeps and the order in which they were admitted.
pub struct ClientState {
    /// The id of the account.
    pub id: u16,
    /// Funds the client may withdraw.
    pub available: int,
    /// Funds held back by open disputes.
    pub held: int,
    /// All funds of the account.
    pub total: int,
    /// Whether a chargeback has frozen the account.
    pub locked: bool,
    /// The records kept, by transaction id.
    pub processed: Map<u32, Transaction>,
    /// The ids still open to dispute, oldest first.
    pub window: Seq<u32>,
}

impl ClientState {
    /// A fresh account: nothing recorded, all balances zero.
    pub open spec fn new(id: u16) -> ClientState {
        ClientState {
            id,
            available: 0,
            held: 0,
            total: 0,
            locked: false,
            processed: Map::empty(),
            window: Seq::empty(),
        }
    }

    /// The account at rest: total funds are the available and the held.
    pub open spec fn balanced(self) -> bool {
        self.total == self.available + self.held
    }

    /// Whether every balance is within `bound` of zero.
    pub open spec fn within(self, bound: int) -> bool {
        &&& -bound <= self.available <= bound
        &&& -bound <= self.held <= bound
        &&& -bound <= self.total <= bound
    }

    /// Whether the balances are in the range in which events are taken.
    pub open spec fn in_range(self) -> bool {
        self.within(BALANCE_LIMIT as int)
    }

    /// What holds of the record kept under `tx`: it is a deposit or a
    /// withdrawal of this account under its own id, its amount is not
    /// negative, a dispute that has ended was opened, and it is still in
    /// the window unless it is a failed withdrawal.
    pub open spec fn record_ok(self, tx: u32) -> bool {
        let r = self.processed[tx];
        &&& r.is_record()
        &&& r.tx() == tx
        &&& r.client() == self.id
        &&& r.amount() >= 0
        &&& r.resolved() ==> r.disputed()
        &&& self.window.contains(tx) || r.failed()
    }

    /// The invariant of the working memory: the window is bounded and every
    /// record kept is in order.
    pub open spec fn wf(self) -> bool {
        &&& self.window.len() <= WINDOW_SIZE
        &&& self.processed.dom().finite()
        &&& forall|tx: u32| #[trigger] self.processed.contains_key(tx) ==> self.record_ok(tx)
    }

    /// The balances after `stake` went from available to held.
    pub open spec fn hold(self, stake: int) -> ClientState {
        ClientState { available: self.available - stake, held: self.held + stake, ..self }
    }

    /// The balances after `stake` went from held back to available.
    pub open spec fn release(self, stake: int) -> ClientState {
        ClientState { available: self.available + stake, held: self.held - stake, ..self }
    }

    /// The account after a deposit addressed to it: the amount is credited,
    /// the record kept and its id admitted to the window. One addressed to
    /// another account changes nothing.
    pub open spec fn deposit(self, d: Deposit) -> ClientState {
        if d.client_id != self.id {
            self
        } else {
            ClientState {
                available: self.available + d.amount,
                total: self.total + d.amount,
                processed: self.processed.insert(d.tx_id, Transaction::Deposit(d)),
                window: self.window.push(d.tx_id),
                ..self
            }
        }
    }

    /// The account after a withdrawal addressed to it. Where the total
    /// covers the amount it is debited, the record kept and its id admitted
    /// to the window; where not, the record is kept as failed, outside the
    /// window, and no balance moves.
    pub open spec fn withdraw(self, w: Withdrawal) -> ClientState {
        if w.client_id != self.id {
            self
        } else if self.total < w.amount {
            ClientState {
                processed: self.processed.insert(
                    w.tx_id,
                    Transaction::Withdrawal(Withdrawal { failed: true, ..w }),
                ),
                ..self
            }
        } else {
            ClientState {
                available: self.available - w.amount,
                total: self.total - w.amount,
                processed: self.processed.insert(w.tx_id, Transaction::Withdrawal(w)),
                window: self.window.push(w.tx_id),
                ..self
            }
        }
    }

    /// Whether a dispute from `client` on `tx` is taken: the record is kept,
    /// belongs to that client and was never disputed.
    pub open spec fn disputable(self, client: u16, tx: u32) -> bool {
        &&& self.processed.contains_key(tx)
        &&& self.processed[tx].undisputed()
        &&& self.processed[tx].client() == client
    }

    /// Whether a resolve or a chargeback from `client` on `tx` is taken: the
    /// record is kept, belongs to that client and its dispute is open.
    pub open spec fn settleable(self, client: u16, tx: u32) -> bool {
        &&& self.processed.contains_key(tx)
        &&& self.processed[tx].in_dispute()
        &&& self.processed[tx].client() == client
    }

    /// The account after a dispute: where it is taken, the record's stake
    /// goes from available to held and the record is marked; where not,
    /// nothing changes.
    pub open spec fn dispute(self, d: Dispute) -> ClientState {
        if self.disputable(d.client_id, d.tx_id) {
            let r = self.processed[d.tx_id];
            ClientState {
                processed: self.processed.insert(d.tx_id, r.mark_disputed()),
                ..self.hold(r.stake())
            }
        } else {
            self
        }
    }

    /// The account after a resolve: where it is taken, the record's stake
    /// goes from held back to available and the dispute ends; where not,
    /// nothing changes.
    pub open spec fn resolve(self, r: Resolve) -> ClientState {
        if self.settleable(r.client_id, r.tx_id) {
            let rec = self.processed[r.tx_id];
            ClientState {
                processed: self.processed.insert(r.tx_id, rec.mark_resolved()),
                ..self.release(rec.stake())
            }
        } else {
            self
        }
    }

    /// The account after a resolve was applied to `record`, which is not
    /// kept: where the record's dispute is open and it belongs to the
    /// resolve's client, its stake goes from held back to available.
    pub open spec fn resolve_record(self, r: Resolve, record: Transaction) -> ClientState {
        if record.in_dispute() && record.client() == r.client_id {
            self.release(record.stake())
        } else {
            self
        }
    }

    /// The account after a chargeback, before any reversal: where it is
    /// taken, the record's stake leaves the held and the total funds, the
    /// dispute ends and the account is locked; where not, nothing changes.
    pub open spec fn chargeback(self, c: Chargeback) -> ClientState {
        if self.settleable(c.client_id, c.tx_id) {
            let rec = self.processed[c.tx_id];
            ClientState {
                held: self.held - rec.stake(),
                total: self.total - rec.stake(),
                locked: true,
                processed: self.processed.insert(c.tx_id, rec.mark_resolved()),
                ..self
            }
        } else {
            self
        }
    }

    /// The account after the withdrawal kept under `tx`, if there is one
    /// and it is reversible, was undone: its amount is credited back and
    /// the record marked failed.
    pub open spec fn reverse_withdrawal(self, tx: u32) -> ClientState {
        if self.processed.contains_key(tx) && self.processed[tx].reversible() {
            let r = self.processed[tx];
            ClientState {
                available: self.available + r.amount(),
                total: self.total + r.amount(),
                processed: self.processed.insert(tx, r.mark_failed()),
                ..self
            }
        } else {
            self
        }
    }

    /// The account after the reversal ran over `ids`, most recent first:
    /// it undoes one withdrawal after the other and stops as soon as the
    /// total is not negative.
    pub open spec fn cascade(self, ids: Seq<u32>) -> ClientState
        decreases ids.len(),
    {
        if ids.len() == 0 || self.total >= 0 {
            self
        } else {
            self.reverse_withdrawal(ids.last()).cascade(ids.drop_last())
        }
    }

    /// The part of the window that a reversal after a chargeback of `tx`
    /// runs over: from the first place of `tx` to the end.
    pub open spec fn since(self, tx: u32) -> Seq<u32> {
        match self.window.index_of_first(tx) {
            Some(p) => self.window.subrange(p, self.window.len() as int),
            None => Seq::empty(),
        }
    }

    /// The account after a chargeback and the reversal that follows it
    /// where the chargeback was taken and left the total negative.
    pub open spec fn charge(self, c: Chargeback) -> ClientState {
        if self.settleable(c.client_id, c.tx_id) {
            self.chargeback(c).cascade(self.since(c.tx_id))
        } else {
            self
        }
    }

    /// The account after its oldest window entry was evicted: the record
    /// is dropped, and a dispute still open on it ends as a resolve would
    /// end it.
    pub open spec fn finalize(self) -> ClientState {
        if self.window.len() == 0 {
            self
        } else {
            let tx = self.window.first();
            let rest = ClientState {
                processed: self.processed.remove(tx),
                window: self.window.drop_first(),
                ..self
            };
            if self.processed.contains_key(tx) && self.processed[tx].in_dispute() {
                rest.release(self.processed[tx].stake())
            } else {
                rest
            }
        }
    }

    /// The account with room for one more window entry: a full window
    /// loses its oldest.
    pub open spec fn make_room(self) -> ClientState {
        if self.window.len() >= WINDOW_SIZE {
            self.finalize()
        } else {
            self
        }
    }

    /// The account after one raw record was applied. A record that is
    /// malformed for its tag changes nothing. A deposit or withdrawal
    /// addressed to this account first makes room in the window.
    pub open spec fn step(self, tx: RawTransaction) -> ClientState {
        match tx.variant {
            RawTransactionVariant::Deposit => match tx.as_deposit() {
                Ok(d) => if d.client_id == self.id {
                    self.make_room().deposit(d)
                } else {
                    self
                },
                Err(_) => self,
            },
            RawTransactionVariant::Withdrawal => match tx.as_withdrawal() {
                Ok(w) => if w.client_id == self.id {
                    self.make_room().withdraw(w)
                } else {
                    self
                },
                Err(_) => self,
            },
            RawTransactionVariant::Dispute => match tx.as_dispute() {
                Ok(d) => self.dispute(d),
                Err(_) => self,
            },
            RawTransactionVariant::Resolve => match tx.as_resolve() {
                Ok(r) => self.resolve(r),
                Err(_) => self,
            },
            RawTransactionVariant::Chargeback => match tx.as_chargeback() {
                Ok(c) => self.charge(c),
                Err(_) => self,
            },
        }
    }

    /// The account after one record arrived. A locked account takes
    /// nothing more, and neither does one whose balances are out of range.
    pub open spec fn receive(self, tx: RawTransaction) -> ClientState {
        if self.locked || !self.in_range() {
            self
        } else {
            self.step(tx)
        }
    }

    /// The account after a sequence of records arrived in order.
    pub open spec fn run(self, txs: Seq<RawTransaction>) -> ClientState
        decreases txs.len(),
    {
        if txs.len() == 0 {
            self
        } else {
            self.receive(txs.first()).run(txs.drop_first())
        }
    }

    /// The snapshot of the account: the balances and the lock, with the
    /// working memory discarded.
    pub open spec fn snapshot(self) -> ClientState {
        ClientState { processed: Map::empty(), window: Seq::empty(), ..self }
    }
}

impl ClientState {
    /// A deposit keeps the working memory in order.
    pub proof fn lemma_deposit_wf(self, d: Deposit)
        requires
            self.wf(),
            self.window.len() < WINDOW_SIZE,
            d.amount >= 0,
            d.resolved ==> d.disputed,
        ensures
            self.deposit(d).wf(),
    {
        let next = self.deposit(d);
        if d.client_id == self.id {
            assert(next.window.last() == d.tx_id);
            assert forall|tx: u32| #[trigger] next.processed.contains_key(tx) implies next.record_ok(
                tx,
            ) by {
                if tx != d.tx_id {
                    assert(self.record_ok(tx));
                    if self.window.contains(tx) {
                        let i = self.window.index_of(tx);
                        assert(next.window[i] == tx);
                    }
                }
            }
        }
    }

    /// A withdrawal keeps the working memory in order.
    pub proof fn lemma_withdraw_wf(self, w: Withdrawal)
        requires
            self.wf(),
            self.window.len() < WINDOW_SIZE,
            w.amount >= 0,
            w.resolved ==> w.disputed,
        ensures
            self.withdraw(w).wf(),
    {
        let next = self.withdraw(w);
        if w.client_id == self.id {
            if self.total >= w.amount {
                assert(next.window.last() == w.tx_id);
            }
            assert forall|tx: u32| #[trigger] next.processed.contains_key(tx) implies next.record_ok(
                tx,
            ) by {
                if tx != w.tx_id {
                    assert(self.record_ok(tx));
                    if self.window.contains(tx) {
                        let i = self.window.index_of(tx);
                        assert(next.window[i] == tx);
                    }
                }
            }
        }
    }

    /// An eviction keeps the working memory in order.
    pub proof fn lemma_finalize_wf(self)
        requires
            self.wf(),
        ensures
            self.finalize().wf(),
    {
        let next = self.finalize();
        if self.window.len() > 0 {
            let first = self.window.first();
            assert forall|tx: u32| #[trigger] next.processed.contains_key(tx) implies next.record_ok(
                tx,
            ) by {
                assert(self.record_ok(tx));
                if self.window.contains(tx) {
                    let i = self.window.index_of(tx);
                    assert(next.window[i - 1] == tx);
                }
            }
        }
    }

    /// Replacing a record by one that differs from it only in its marks
    /// keeps the working memory in order.
    pub proof fn lemma_mark_wf(self, tx: u32, marked: Transaction)
        requires
            self.wf(),
            self.processed.contains_key(tx),
            marked.is_record(),
            marked.tx() == tx,
            marked.client() == self.id,
            marked.amount() >= 0,
            marked.resolved() ==> marked.disputed(),
            self.processed[tx].failed() ==> marked.failed(),
        ensures
            (ClientState { processed: self.processed.insert(tx, marked), ..self }).wf(),
    {
        let next = ClientState { processed: self.processed.insert(tx, marked), ..self };
        assert forall|k: u32| #[trigger] next.processed.contains_key(k) implies next.record_ok(
            k,
        ) by {
            assert(self.record_ok(k));
        }
    }

    /// A dispute keeps the working memory in order.
    pub proof fn lemma_dispute_wf(self, d: Dispute)
        requires
            self.wf(),
        ensures
            self.dispute(d).wf(),
    {
        if self.disputable(d.client_id, d.tx_id) {
            assert(self.record_ok(d.tx_id));
            self.hold(self.processed[d.tx_id].stake()).lemma_mark_wf(
                d.tx_id,
                self.processed[d.tx_id].mark_disputed(),
            );
        }
    }

    /// A resolve keeps the working memory in order.
    pub proof fn lemma_resolve_wf(self, r: Resolve)
        requires
            self.wf(),
        ensures
            self.resolve(r).wf(),
    {
        if self.settleable(r.client_id, r.tx_id) {
            assert(self.record_ok(r.tx_id));
            self.release(self.processed[r.tx_id].stake()).lemma_mark_wf(
                r.tx_id,
                self.processed[r.tx_id].mark_resolved(),
            );
        }
    }

    /// A chargeback keeps the working memory in order.
    pub proof fn lemma_chargeback_wf(self, c: Chargeback)
        requires
            self.wf(),
        ensures
            self.chargeback(c).wf(),
    {
        if self.settleable(c.client_id, c.tx_id) {
            let rec = self.processed[c.tx_id];
            assert(self.record_ok(c.tx_id));
            (ClientState {
                held: self.held - rec.stake(),
                total: self.total - rec.stake(),
                locked: true,
                ..self
            }).lemma_mark_wf(c.tx_id, rec.mark_resolved());
        }
    }

    /// A reversal keeps the working memory in order.
    pub proof fn lemma_reverse_wf(self, tx: u32)
        requires
            self.wf(),
        ensures
            self.reverse_withdrawal(tx).wf(),
    {
        if self.processed.contains_key(tx) && self.processed[tx].reversible() {
            let rec = self.processed[tx];
            assert(self.record_ok(tx));
            (ClientState {
                available: self.available + rec.amount(),
                total: self.total + rec.amount(),
                ..self
            }).lemma_mark_wf(tx, rec.mark_failed());
        }
    }

    /// A run of reversals keeps the working memory in order.
    pub proof fn lemma_cascade_wf(self, ids: Seq<u32>)
        requires
            self.wf(),
        ensures
            self.cascade(ids).wf(),
        decreases ids.len(),
    {
        if ids.len() > 0 && self.total < 0 {
            self.lemma_reverse_wf(ids.last());
            self.reverse_withdrawal(ids.last()).lemma_cascade_wf(ids.drop_last());
        }
    }

    /// Every record that is applied keeps the working memory in order.
    pub proof fn lemma_step_wf(self, tx: RawTransaction)
        requires
            self.wf(),
        ensures
            self.step(tx).wf(),
    {
        self.lemma_finalize_wf();
        match tx.variant {
            RawTransactionVariant::Deposit => {
                if let Ok(d) = tx.as_deposit() {
                    self.make_room().lemma_deposit_wf(d);
                }
            },
            RawTransactionVariant::Withdrawal => {
                if let Ok(w) = tx.as_withdrawal() {
                    self.make_room().lemma_withdraw_wf(w);
                }
            },
            RawTransactionVariant::Dispute => {
                if let Ok(d) = tx.as_dispute() {
                    self.lemma_dispute_wf(d);
                }
            },
            RawTransactionVariant::Resolve => {
                if let Ok(r) = tx.as_resolve() {
                    self.lemma_resolve_wf(r);
                }
            },
            RawTransactionVariant::Chargeback => {
                if let Ok(c) = tx.as_chargeback() {
                    self.lemma_chargeback_wf(c);
                    self.chargeback(c).lemma_cascade_wf(self.since(c.tx_id));
                }
            },
        }
    }

    /// Every sequence of records keeps the working memory in order.
    pub proof fn lemma_run_wf(self, txs: Seq<RawTransaction>)
        requires
            self.wf(),
        ensures
            self.run(txs).wf(),
        decreases txs.len(),
    {
        if txs.len() > 0 {
            self.lemma_step_wf(txs.first());
            self.receive(txs.first()).lemma_run_wf(txs.drop_first());
        }
    }
}

} // verus!
