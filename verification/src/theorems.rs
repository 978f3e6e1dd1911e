//! What follows from the rules: facts about the account's mathematical
//! value that hold of every state and every record, each proved from the
//! definitions in [`crate::state`].

use crate::state::{ClientState, WINDOW_SIZE};
use crate::transaction::{Chargeback, Dispute, RawTransaction, Resolve, Withdrawal};
use vstd::prelude::*;

verus! {

impl ClientState {
    /// Whether the three balances are those of `other`.
    pub open spec fn same_balances(self, other: ClientState) -> bool {
        &&& self.available == other.available
        &&& self.held == other.held
        &&& self.total == other.total
    }

    /// The ids under which a failed withdrawal is kept.
    pub open spec fn failed_ids(self) -> Set<u32> {
        Set::new(|tx: u32| self.processed.contains_key(tx) && self.processed[tx].failed())
    }

    /// The account after every reversible withdrawal along `ids` was
    /// undone, most recent first, whatever the total.
    pub open spec fn reverse_all(self, ids: Seq<u32>) -> ClientState
        decreases ids.len(),
    {
        if ids.len() == 0 {
            self
        } else {
            self.reverse_withdrawal(ids.last()).reverse_all(ids.drop_last())
        }
    }

    /// A locked account stays as it is whatever arrives, and so does any
    /// account when nothing arrives.
    pub proof fn lemma_run_locked(self, txs: Seq<RawTransaction>)
        requires
            self.locked || txs.len() == 0,
        ensures
            self.run(txs) == self,
        decreases txs.len(),
    {
        if txs.len() > 0 {
            self.lemma_run_locked(txs.drop_first());
        }
    }

    /// A run of reversals keeps the total equal to the available and the
    /// held funds.
    pub proof fn lemma_cascade_balanced(self, ids: Seq<u32>)
        requires
            self.balanced(),
        ensures
            self.cascade(ids).balanced(),
        decreases ids.len(),
    {
        if ids.len() > 0 && self.total < 0 {
            self.reverse_withdrawal(ids.last()).lemma_cascade_balanced(ids.drop_last());
        }
    }

    /// Whatever record is applied, the total stays equal to the available
    /// and the held funds.
    pub proof fn lemma_step_balanced(self, tx: RawTransaction)
        requires
            self.balanced(),
        ensures
            self.step(tx).balanced(),
            self.receive(tx).balanced(),
    {
        if let Ok(c) = tx.as_chargeback() {
            self.chargeback(c).lemma_cascade_balanced(self.since(c.tx_id));
        }
    }

    /// Whatever sequence of records arrives, the total stays equal to the
    /// available and the held funds.
    pub proof fn lemma_run_balanced(self, txs: Seq<RawTransaction>)
        requires
            self.balanced(),
        ensures
            self.run(txs).balanced(),
        decreases txs.len(),
    {
        if txs.len() > 0 {
            self.lemma_step_balanced(txs.first());
            self.receive(txs.first()).lemma_run_balanced(txs.drop_first());
        }
    }

    /// The window never holds more than [`WINDOW_SIZE`] ids, and the
    /// records kept are no more than the ids in the window and the failed
    /// withdrawals together.
    pub proof fn lemma_memory_bound(self)
        requires
            self.wf(),
        ensures
            self.window.len() <= WINDOW_SIZE,
            self.failed_ids().finite(),
            self.processed.dom().len() <= self.window.len() + self.failed_ids().len(),
    {
        let keys = self.processed.dom();
        let windowed = self.window.to_set();
        let failed = self.failed_ids();
        assert(failed.subset_of(keys));
        vstd::set_lib::lemma_len_subset(failed, keys);
        vstd::seq_lib::seq_to_set_is_finite(self.window);
        assert forall|tx: u32| keys.contains(tx) implies windowed.union(failed).contains(tx) by {
            assert(self.processed.contains_key(tx));
            assert(self.record_ok(tx));
        }
        assert(keys.subset_of(windowed.union(failed)));
        vstd::set_lib::lemma_len_subset(keys, windowed.union(failed));
        vstd::set_lib::lemma_len_union(windowed, failed);
        self.window.lemma_cardinality_of_set();
    }

    /// A record addressed to another account changes nothing.
    pub proof fn lemma_misaddressed(self, tx: RawTransaction)
        requires
            self.wf(),
            tx.client_id != self.id,
        ensures
            self.step(tx) == self,
            self.receive(tx) == self,
    {
        if self.processed.contains_key(tx.tx_id) {
            assert(self.record_ok(tx.tx_id));
        }
    }

    /// A dispute followed by a resolve of the same transaction from the
    /// same client leaves the three balances as they were, unless a dispute
    /// was open on the transaction before: then the first changes nothing
    /// and the second ends the older dispute.
    pub proof fn lemma_dispute_then_resolve(self, d: Dispute, r: Resolve)
        requires
            d.tx_id == r.tx_id,
            d.client_id == r.client_id,
            !self.settleable(d.client_id, d.tx_id),
        ensures
            self.dispute(d).resolve(r).same_balances(self),
    {
    }

    /// A dispute followed by a chargeback of the same deposit from its
    /// client, whose dispute has not ended before, locks the account and
    /// takes the deposit's amount out of the total and of the available
    /// funds. Reversals that may follow are not counted here.
    pub proof fn lemma_dispute_then_chargeback(self, d: Dispute, c: Chargeback)
        requires
            d.tx_id == c.tx_id,
            d.client_id == c.client_id,
            self.processed.contains_key(d.tx_id),
            self.processed[d.tx_id] is Deposit,
            self.processed[d.tx_id].client() == d.client_id,
            !self.processed[d.tx_id].resolved(),
        ensures
            self.dispute(d).chargeback(c).locked,
            self.dispute(d).chargeback(c).total == self.total - self.processed[d.tx_id].amount(),
            self.dispute(d).chargeback(c).available == self.dispute(d).available,
            self.dispute(d).chargeback(c).held == self.dispute(d).held
                - self.processed[d.tx_id].amount(),
            self.dispute(d).chargeback(c).total >= 0 ==> self.dispute(d).charge(c)
                == self.dispute(d).chargeback(c),
    {
    }

    /// The same of the records as they arrive: a well-formed dispute
    /// followed by a well-formed resolve of the same transaction from the
    /// same client leaves the three balances as they were, unless a dispute
    /// was open on the transaction before.
    pub proof fn lemma_dispute_then_resolve_records(self, d: RawTransaction, r: RawTransaction)
        requires
            d.as_dispute() is Ok,
            r.as_resolve() is Ok,
            d.tx_id == r.tx_id,
            d.client_id == r.client_id,
            !self.settleable(d.client_id, d.tx_id),
        ensures
            self.step(d).step(r).same_balances(self),
            !self.step(d).step(r).locked == !self.locked,
    {
        self.lemma_dispute_then_resolve(d.as_dispute()->Ok_0, r.as_resolve()->Ok_0);
    }

    /// The same of the records as they arrive: a well-formed dispute
    /// followed by a well-formed chargeback of the same deposit from its
    /// client, whose dispute has not ended before, locks the account and
    /// takes the deposit's amount out of the total. Where that leaves the
    /// total negative, the reversal of withdrawals may give some of it back
    /// and never takes more.
    pub proof fn lemma_dispute_then_chargeback_records(
        self,
        d: RawTransaction,
        c: RawTransaction,
    )
        requires
            self.wf(),
            d.as_dispute() is Ok,
            c.as_chargeback() is Ok,
            d.tx_id == c.tx_id,
            d.client_id == c.client_id,
            self.processed.contains_key(d.tx_id),
            self.processed[d.tx_id] is Deposit,
            self.processed[d.tx_id].client() == d.client_id,
            !self.processed[d.tx_id].resolved(),
        ensures
            self.step(d).step(c).locked,
            self.step(d).step(c).total >= self.total - self.processed[d.tx_id].amount(),
            self.total >= self.processed[d.tx_id].amount() ==> self.step(d).step(c).total
                == self.total - self.processed[d.tx_id].amount(),
            self.processed[d.tx_id].undisputed() ==> self.step(d).step(c).held == self.held,
    {
        let dispute = d.as_dispute()->Ok_0;
        let chargeback = c.as_chargeback()->Ok_0;
        self.lemma_dispute_then_chargeback(dispute, chargeback);
        self.lemma_dispute_wf(dispute);
        self.dispute(dispute).lemma_chargeback_total(chargeback);
        self.dispute(dispute).lemma_chargeback_wf(chargeback);
        self.dispute(dispute).chargeback(chargeback).lemma_cascade_total(
            self.dispute(dispute).since(chargeback.tx_id),
        );
    }

    /// Once the dispute of a record has ended, nothing more applies to it:
    /// a dispute, a resolve or a chargeback of it changes nothing.
    pub proof fn lemma_resolved_is_final(self, tx: u32, client: u16)
        requires
            self.processed.contains_key(tx),
            self.processed[tx].resolved(),
        ensures
            self.dispute(Dispute { client_id: client, tx_id: tx }) == self,
            self.resolve(Resolve { client_id: client, tx_id: tx }) == self,
            self.charge(Chargeback { client_id: client, tx_id: tx }) == self,
    {
    }

    /// Evicting a transaction whose dispute is open leaves the account as
    /// resolving it first and evicting it then would. So a transaction
    /// that ages out of a full window with its dispute open leaves the
    /// same account as one that was resolved in time.
    pub proof fn lemma_eviction_resolves(self)
        requires
            self.window.len() > 0,
            self.processed.contains_key(self.window.first()),
            self.processed[self.window.first()].in_dispute(),
        ensures
            self.finalize() == self.resolve(
                Resolve {
                    client_id: self.processed[self.window.first()].client(),
                    tx_id: self.window.first(),
                },
            ).finalize(),
            self.make_room() == self.resolve(
                Resolve {
                    client_id: self.processed[self.window.first()].client(),
                    tx_id: self.window.first(),
                },
            ).make_room() || self.window.len() < WINDOW_SIZE,
    {
        let tx = self.window.first();
        let r = Resolve { client_id: self.processed[tx].client(), tx_id: tx };
        let resolved = self.resolve(r);
        assert(resolved.processed.remove(tx) == self.processed.remove(tx));
    }

    /// Undoing withdrawals never lowers a balance and leaves the held
    /// funds alone.
    pub proof fn lemma_reverse_all_grows(self, ids: Seq<u32>)
        requires
            self.wf(),
        ensures
            self.reverse_all(ids).total >= self.total,
            self.reverse_all(ids).available >= self.available,
            self.reverse_all(ids).held == self.held,
            self.reverse_all(ids).total - self.total == self.reverse_all(ids).available
                - self.available,
        decreases ids.len(),
    {
        if ids.len() > 0 {
            let tx = ids.last();
            if self.processed.contains_key(tx) {
                assert(self.record_ok(tx));
            }
            self.lemma_reverse_wf(tx);
            self.reverse_withdrawal(tx).lemma_reverse_all_grows(ids.drop_last());
        }
    }

    /// The reversal after a chargeback never lowers a balance, leaves the
    /// held funds alone, and ends with a total that is not negative
    /// exactly where undoing every reversible withdrawal along `ids` would:
    /// it gives up nothing by stopping early.
    pub proof fn lemma_cascade_total(self, ids: Seq<u32>)
        requires
            self.wf(),
        ensures
            self.cascade(ids).total >= self.total,
            self.cascade(ids).available >= self.available,
            self.cascade(ids).held == self.held,
            self.cascade(ids).total >= 0 <==> self.reverse_all(ids).total >= 0,
            self.total >= 0 ==> self.cascade(ids) == self,
        decreases ids.len(),
    {
        self.lemma_reverse_all_grows(ids);
        if ids.len() > 0 && self.total < 0 {
            let tx = ids.last();
            if self.processed.contains_key(tx) {
                assert(self.record_ok(tx));
            }
            self.lemma_reverse_wf(tx);
            self.reverse_withdrawal(tx).lemma_cascade_total(ids.drop_last());
        }
    }

    /// A chargeback that is taken leaves a total that is not negative
    /// exactly where the withdrawals that can be reversed, from the
    /// charged-back transaction's place in the window on, make up for what
    /// is missing.
    pub proof fn lemma_chargeback_total(self, c: Chargeback)
        requires
            self.wf(),
            self.settleable(c.client_id, c.tx_id),
        ensures
            self.charge(c).locked,
            self.charge(c).total >= 0 <==> self.chargeback(c).reverse_all(
                self.since(c.tx_id),
            ).total >= 0,
            self.charge(c).total >= self.total - self.processed[c.tx_id].stake(),
    {
        self.lemma_chargeback_wf(c);
        self.chargeback(c).lemma_cascade_total(self.since(c.tx_id));
        self.chargeback(c).lemma_cascade_locked(self.since(c.tx_id));
    }

    /// Reversals touch neither the lock nor the window nor the id.
    pub proof fn lemma_cascade_locked(self, ids: Seq<u32>)
        ensures
            self.cascade(ids).locked == self.locked,
            self.cascade(ids).window == self.window,
            self.cascade(ids).id == self.id,
        decreases ids.len(),
    {
        if ids.len() > 0 && self.total < 0 {
            self.reverse_withdrawal(ids.last()).lemma_cascade_locked(ids.drop_last());
        }
    }

    /// A withdrawal that the total does not cover is kept as failed,
    /// outside the window, and moves no balance.
    pub proof fn lemma_refused_withdrawal(self, w: Withdrawal)
        requires
            w.client_id == self.id,
            self.total < w.amount,
        ensures
            self.withdraw(w).same_balances(self),
            self.withdraw(w).window == self.window,
            self.withdraw(w).processed[w.tx_id].failed(),
    {
    }

    /// A withdrawal that went through and is then reversed has moved
    /// nothing: the total and the available funds are what they were
    /// before it, and the record is marked failed.
    pub proof fn lemma_reversal_undoes_withdrawal(self, w: Withdrawal)
        requires
            w.client_id == self.id,
            self.total >= w.amount,
            !w.failed,
            !w.disputed,
        ensures
            self.withdraw(w).reverse_withdrawal(w.tx_id).same_balances(self),
            self.withdraw(w).reverse_withdrawal(w.tx_id).processed[w.tx_id].failed(),
    {
    }

    /// While a withdrawal is marked failed, nothing that is said of it
    /// moves a balance: not a dispute, a resolve or a chargeback of it,
    /// and not its eviction. A reversal passes over it unless its dispute
    /// has ended.
    pub proof fn lemma_failed_withdrawal_is_inert(self, tx: u32, client: u16)
        requires
            self.processed.contains_key(tx),
            self.processed[tx].failed(),
        ensures
            self.dispute(Dispute { client_id: client, tx_id: tx }).same_balances(self),
            self.resolve(Resolve { client_id: client, tx_id: tx }).same_balances(self),
            self.chargeback(Chargeback { client_id: client, tx_id: tx }).same_balances(self),
            self.dispute(Dispute { client_id: client, tx_id: tx }).processed[tx].failed(),
            self.resolve(Resolve { client_id: client, tx_id: tx }).processed[tx].failed(),
            self.chargeback(Chargeback { client_id: client, tx_id: tx }).processed[tx].failed(),
            self.window.len() > 0 && self.window.first() == tx ==> self.finalize().same_balances(
                self,
            ),
            !self.processed[tx].resolved() ==> self.reverse_withdrawal(tx) == self,
    {
    }

    /// No record changes the id of an account.
    pub proof fn lemma_receive_keeps_id(self, tx: RawTransaction)
        ensures
            self.step(tx).id == self.id,
            self.receive(tx).id == self.id,
    {
        if let Ok(c) = tx.as_chargeback() {
            self.chargeback(c).lemma_cascade_locked(self.since(c.tx_id));
        }
    }

    /// Taking one more record after a sequence is taking the sequence with
    /// that record at its end.
    pub proof fn lemma_run_push(self, txs: Seq<RawTransaction>, tx: RawTransaction)
        ensures
            self.run(txs.push(tx)) == self.run(txs).receive(tx),
        decreases txs.len(),
    {
        let all = txs.push(tx);
        if txs.len() == 0 {
            assert(all.drop_first() == txs);
            assert(self.receive(tx).run(txs) == self.receive(tx));
        } else {
            assert(all.first() == txs.first());
            assert(all.drop_first() == txs.drop_first().push(tx));
            self.receive(txs.first()).lemma_run_push(txs.drop_first(), tx);
        }
    }
}

} // verus!
