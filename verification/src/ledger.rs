//! The accounting behind the balances: while an account is not locked and
//! every deposit and withdrawal came under an id of its own, the total is
//! covered transaction by transaction, and a chargeback can be made good.

use crate::state::ClientState;
use crate::transaction::{
    Chargeback, Deposit, RawTransaction, RawTransactionVariant, Withdrawal,
};
use vstd::prelude::*;

verus! {

impl ClientState {
    /// The stake of the record at place `i` of the window; 0 where none is
    /// kept.
    pub open spec fn stake_at(self, i: int) -> int {
        if self.processed.contains_key(self.window[i]) {
            self.processed[self.window[i]].stake()
        } else {
            0
        }
    }

    /// The stakes of the records at places `from` up to `to` of the
    /// window, added up.
    pub open spec fn staked(self, from: int, to: int) -> int
        decreases to - from,
    {
        if from >= to {
            0
        } else {
            self.staked(from, to - 1) + self.stake_at(to - 1)
        }
    }

    /// What holds of an account that is not locked when no id was used
    /// twice: the total is the available and the held funds; no id is in
    /// the window twice; every id in the window has its record, and that
    /// record is not failed; and the total was never overdrawn, that is,
    /// taking away what the transactions from any place of the window on
    /// have contributed leaves a total that is not negative.
    pub open spec fn sound(self) -> bool {
        &&& self.balanced()
        &&& self.window.no_duplicates()
        &&& forall|i: int|
            0 <= i < self.window.len() ==> self.processed.contains_key(#[trigger] self.window[i])
                && !self.processed[self.window[i]].failed()
        &&& forall|p: int|
            0 <= p <= self.window.len() ==> self.total - #[trigger] self.staked(
                p,
                self.window.len() as int,
            ) >= 0
    }

    /// Whether `tx` can be applied without using an id twice: it is no
    /// deposit or withdrawal, or no record is kept under its id.
    pub open spec fn takes_fresh(self, tx: RawTransaction) -> bool {
        (tx.variant is Deposit || tx.variant is Withdrawal) ==> !self.processed.contains_key(
            tx.tx_id,
        )
    }

    /// Two accounts whose records have the same stakes along a stretch of
    /// their windows, the second `shift` places further on, have the same
    /// sum over it.
    pub proof fn lemma_staked_same(self, other: ClientState, from: int, to: int, shift: int)
        requires
            forall|i: int| from <= i < to ==> self.stake_at(i) == other.stake_at(i + shift),
        ensures
            self.staked(from, to) == other.staked(from + shift, to + shift),
        decreases to - from,
    {
        if from < to {
            self.lemma_staked_same(other, from, to - 1, shift);
        }
    }

    /// An eviction keeps a sound account sound.
    pub proof fn lemma_sound_finalize(self)
        requires
            self.sound(),
        ensures
            self.finalize().sound(),
    {
        let next = self.finalize();
        if self.window.len() > 0 {
            let len = self.window.len() as int;
            assert forall|i: int| 0 <= i < len - 1 implies #[trigger] next.window[i]
                == self.window[i + 1] && next.window[i] != self.window[0] by {}
            assert forall|i: int| 0 <= i < len - 1 implies next.stake_at(i) == self.stake_at(
                i + 1,
            ) by {
                assert(next.window[i] == self.window[i + 1]);
            }
            assert forall|p: int| 0 <= p <= next.window.len() implies next.total
                - #[trigger] next.staked(p, next.window.len() as int) >= 0 by {
                next.lemma_staked_same(self, p, len - 1, 1);
                assert(self.total - self.staked(p + 1, len) >= 0);
            }
        }
    }

    /// A deposit under a new id keeps a sound account sound.
    pub proof fn lemma_sound_deposit(self, d: Deposit)
        requires
            self.sound(),
            d.amount >= 0,
            !self.processed.contains_key(d.tx_id),
        ensures
            self.deposit(d).sound(),
    {
        let next = self.deposit(d);
        if d.client_id == self.id {
            let len = self.window.len() as int;
            assert forall|i: int| 0 <= i < len implies #[trigger] next.window[i] == self.window[i]
                && self.window[i] != d.tx_id by {}
            assert(next.window[len] == d.tx_id);
            assert forall|i: int| 0 <= i < len implies next.stake_at(i) == self.stake_at(i) by {
                assert(next.window[i] == self.window[i]);
            }
            assert forall|p: int| 0 <= p <= next.window.len() implies next.total
                - #[trigger] next.staked(p, next.window.len() as int) >= 0 by {
                assert(self.total - self.staked(len, len) >= 0);
                if p <= len {
                    next.lemma_staked_same(self, p, len, 0);
                    assert(self.total - self.staked(p, len) >= 0);
                }
            }
        }
    }

    /// A withdrawal under a new id keeps a sound account sound.
    pub proof fn lemma_sound_withdraw(self, w: Withdrawal)
        requires
            self.sound(),
            w.amount >= 0,
            !w.failed,
            !self.processed.contains_key(w.tx_id),
        ensures
            self.withdraw(w).sound(),
    {
        let next = self.withdraw(w);
        if w.client_id == self.id {
            let len = self.window.len() as int;
            assert forall|i: int| 0 <= i < len implies #[trigger] next.window[i] == self.window[i]
                && self.window[i] != w.tx_id by {}
            assert forall|i: int| 0 <= i < len implies next.stake_at(i) == self.stake_at(i) by {
                assert(next.window[i] == self.window[i]);
            }
            assert forall|p: int| 0 <= p <= next.window.len() implies next.total
                - #[trigger] next.staked(p, next.window.len() as int) >= 0 by {
                assert(self.total - self.staked(len, len) >= 0);
                if p <= len {
                    next.lemma_staked_same(self, p, len, 0);
                    assert(self.total - self.staked(p, len) >= 0);
                }
                if self.total >= w.amount {
                    assert(next.window[len] == w.tx_id);
                }
            }
        }
    }

    /// Marking a record without changing its stake keeps the sums over the
    /// window.
    pub proof fn lemma_sound_mark(self, next: ClientState, tx: u32)
        requires
            self.sound(),
            self.processed.contains_key(tx),
            next.window == self.window,
            next.total == self.total,
            next.balanced(),
            next.processed == self.processed.insert(tx, next.processed[tx]),
            next.processed[tx].stake() == self.processed[tx].stake(),
            next.processed[tx].failed() == self.processed[tx].failed(),
        ensures
            next.sound(),
    {
        let len = self.window.len() as int;
        assert forall|i: int| 0 <= i < len implies next.stake_at(i) == self.stake_at(i) by {}
        assert forall|p: int| 0 <= p <= len implies next.total - #[trigger] next.staked(p, len)
            >= 0 by {
            next.lemma_staked_same(self, p, len, 0);
            assert(self.total - self.staked(p, len) >= 0);
        }
        assert forall|i: int| 0 <= i < len implies next.processed.contains_key(
            #[trigger] next.window[i],
        ) && !next.processed[next.window[i]].failed() by {
            assert(self.processed.contains_key(self.window[i]));
        }
    }

    /// Whatever record a sound account takes under an id that is not used
    /// twice, it is locked afterwards or sound again.
    pub proof fn lemma_sound_step(self, tx: RawTransaction)
        requires
            self.sound(),
            self.takes_fresh(tx),
        ensures
            self.step(tx).locked || self.step(tx).sound(),
            self.receive(tx).locked || self.receive(tx).sound(),
    {
        match tx.variant {
            RawTransactionVariant::Deposit => {
                if let Ok(d) = tx.as_deposit() {
                    self.lemma_sound_finalize();
                    self.make_room().lemma_sound_deposit(d);
                }
            },
            RawTransactionVariant::Withdrawal => {
                if let Ok(w) = tx.as_withdrawal() {
                    self.lemma_sound_finalize();
                    self.make_room().lemma_sound_withdraw(w);
                }
            },
            RawTransactionVariant::Dispute => {
                if let Ok(d) = tx.as_dispute() {
                    if self.disputable(d.client_id, d.tx_id) {
                        self.lemma_sound_mark(self.dispute(d), d.tx_id);
                    }
                }
            },
            RawTransactionVariant::Resolve => {
                if let Ok(r) = tx.as_resolve() {
                    if self.settleable(r.client_id, r.tx_id) {
                        self.lemma_sound_mark(self.resolve(r), r.tx_id);
                    }
                }
            },
            RawTransactionVariant::Chargeback => {
                if let Ok(c) = tx.as_chargeback() {
                    if self.settleable(c.client_id, c.tx_id) {
                        self.chargeback(c).lemma_cascade_locked(self.since(c.tx_id));
                    }
                }
            },
        }
    }

    /// Reversals neither add nor drop a record, and leave alone every
    /// record whose id they do not run over.
    pub proof fn lemma_cascade_spares(self, ids: Seq<u32>, tx: u32)
        ensures
            self.cascade(ids).processed.contains_key(tx) == self.processed.contains_key(tx),
            self.reverse_all(ids).processed.contains_key(tx) == self.processed.contains_key(tx),
            !ids.contains(tx) ==> self.cascade(ids).processed[tx] == self.processed[tx],
            !ids.contains(tx) ==> self.reverse_all(ids).processed[tx] == self.processed[tx],
        decreases ids.len(),
    {
        if ids.len() > 0 {
            let next = self.reverse_withdrawal(ids.last());
            next.lemma_cascade_spares(ids.drop_last(), tx);
            if !ids.contains(tx) {
                assert(ids[ids.len() - 1] != tx);
                assert forall|i: int| 0 <= i < ids.drop_last().len() implies ids.drop_last()[i]
                    != tx by {
                    assert(ids[i] != tx);
                }
            }
        }
    }

    /// A record kept after a step was kept before it, unless the step was
    /// the deposit or withdrawal that brought it.
    pub proof fn lemma_step_keys(self, tx: RawTransaction, id: u32)
        requires
            self.receive(tx).processed.contains_key(id),
        ensures
            self.processed.contains_key(id) || ((tx.variant is Deposit || tx.variant is Withdrawal)
                && tx.tx_id == id),
    {
        if let Ok(c) = tx.as_chargeback() {
            self.chargeback(c).lemma_cascade_spares(self.since(c.tx_id), id);
        }
    }

    /// The debits among the stakes at places `from` up to `to` of the
    /// window, added up: what undoing every withdrawal there would give
    /// back, negated.
    pub open spec fn debited(self, from: int, to: int) -> int
        decreases to - from,
    {
        if from >= to {
            0
        } else {
            self.debited(from, to - 1) + if self.stake_at(to - 1) < 0 {
                self.stake_at(to - 1)
            } else {
                0
            }
        }
    }

    /// The debits over a stretch of the window that begins with a credit
    /// are no more than the stakes over it without that credit.
    pub proof fn lemma_debited_below_staked(self, from: int, to: int)
        requires
            from < to,
            self.stake_at(from) >= 0,
        ensures
            self.debited(from, to) + self.stake_at(from) <= self.staked(from, to),
        decreases to - from,
    {
        if from + 1 < to {
            self.lemma_debited_below_staked(from, to - 1);
        } else {
            assert(self.debited(from, from) == 0);
            assert(self.staked(from, from) == 0);
        }
    }

    /// Two accounts whose records have the same stakes along a stretch of
    /// their windows have the same debits over it.
    pub proof fn lemma_debited_same(self, other: ClientState, from: int, to: int)
        requires
            forall|i: int| from <= i < to ==> self.stake_at(i) == other.stake_at(i),
        ensures
            self.debited(from, to) == other.debited(from, to),
        decreases to - from,
    {
        if from < to {
            self.lemma_debited_same(other, from, to - 1);
        }
    }

    /// Undoing every withdrawal along a stretch of the window, where each
    /// id has its record, none is failed and no withdrawal is in dispute,
    /// gives back all that those withdrawals took.
    pub proof fn lemma_reverse_all_refunds(self, from: int, to: int)
        requires
            self.wf(),
            self.window.no_duplicates(),
            0 <= from <= to <= self.window.len(),
            forall|i: int|
                from <= i < to ==> self.processed.contains_key(#[trigger] self.window[i])
                    && !self.processed[self.window[i]].failed() && !(self.processed[self.window[i]]
                    is Withdrawal && self.processed[self.window[i]].in_dispute()),
        ensures
            self.reverse_all(self.window.subrange(from, to)).total == self.total - self.debited(
                from,
                to,
            ),
        decreases to - from,
    {
        let ids = self.window.subrange(from, to);
        if from < to {
            let last = self.window[to - 1];
            let next = self.reverse_withdrawal(last);
            assert(ids.last() == last);
            assert(ids.drop_last() == self.window.subrange(from, to - 1));
            assert(self.record_ok(last));
            self.lemma_reverse_wf(last);
            assert forall|i: int| from <= i < to - 1 implies next.processed.contains_key(
                #[trigger] next.window[i],
            ) && next.processed[next.window[i]] == self.processed[self.window[i]] by {
                assert(self.window[i] != self.window[to - 1]);
                assert(self.processed.contains_key(self.window[i]));
            }
            assert forall|i: int| from <= i < to - 1 implies next.stake_at(i) == self.stake_at(
                i,
            ) by {
                assert(next.processed[next.window[i]] == self.processed[self.window[i]]);
            }
            next.lemma_debited_same(self, from, to - 1);
            next.lemma_reverse_all_refunds(from, to - 1);
        }
    }

    /// A chargeback on a sound account leaves a total that is not negative,
    /// provided that no withdrawal admitted after the charged-back
    /// transaction is in dispute at that moment: the reversal cannot touch
    /// such a withdrawal, and what it took may stay missing.
    pub proof fn lemma_chargeback_covered(self, c: Chargeback)
        requires
            self.wf(),
            self.sound(),
            self.settleable(c.client_id, c.tx_id),
            forall|i: int|
                0 < i < self.since(c.tx_id).len() ==> !(self.processed[#[trigger] self.since(
                    c.tx_id,
                )[i]] is Withdrawal && self.processed[self.since(c.tx_id)[i]].in_dispute()),
        ensures
            self.charge(c).locked,
            self.charge(c).total >= 0,
            self.charge(c).balanced(),
    {
        let tx = c.tx_id;
        let len = self.window.len() as int;
        let record = self.processed[tx];
        let charged = self.chargeback(c);
        let ids = self.since(tx);
        self.lemma_chargeback_wf(c);
        self.lemma_chargeback_total(c);
        charged.lemma_cascade_balanced(ids);
        charged.lemma_cascade_total(ids);
        assert(self.total - self.staked(len, len) >= 0);
        assert(self.record_ok(tx));
        self.window.index_of_first_ensures(tx);
        if record is Deposit {
            let p = self.window.index_of_first(tx).unwrap();
            assert(self.window[p] == tx);
            assert forall|i: int| p <= i < len implies charged.processed.contains_key(
                #[trigger] charged.window[i],
            ) && !charged.processed[charged.window[i]].failed() && !(
            charged.processed[charged.window[i]] is Withdrawal
                && charged.processed[charged.window[i]].in_dispute()) by {
                assert(self.processed.contains_key(self.window[i]));
                if i > p {
                    assert(self.window[i] != self.window[p]);
                    assert(ids[i - p] == self.window[i]);
                }
            }
            assert forall|i: int| p <= i < len implies charged.stake_at(i) == self.stake_at(i) by {
                assert(self.processed.contains_key(self.window[i]));
            }
            charged.lemma_reverse_all_refunds(p, len);
            charged.lemma_debited_same(self, p, len);
            self.lemma_debited_below_staked(p, len);
            assert(self.total - self.staked(p, len) >= 0);
        }
    }

    /// In a sound account no failed withdrawal is in the window, so the
    /// reversal after a chargeback never credits one: it leaves every
    /// failed withdrawal as the chargeback itself left it.
    pub proof fn lemma_failed_never_reversed(self, c: Chargeback, tx: u32)
        requires
            self.sound(),
            self.processed.contains_key(tx),
            self.processed[tx].failed(),
        ensures
            !self.window.contains(tx),
            self.charge(c).processed[tx] == self.chargeback(c).processed[tx],
            self.charge(c).processed[tx].failed(),
    {
        if self.window.contains(tx) {
            let i = self.window.index_of(tx);
            assert(!self.processed[self.window[i]].failed());
        }
        let ids = self.since(c.tx_id);
        self.window.index_of_first_ensures(c.tx_id);
        if ids.contains(tx) {
            let i = ids.index_of(tx);
            let p = self.window.index_of_first(c.tx_id).unwrap();
            assert(self.window[p + i] == tx);
        }
        self.chargeback(c).lemma_cascade_spares(ids, tx);
    }

    /// Whether no two deposits or withdrawals of `txs` come under one id.
    pub open spec fn distinct_ids(txs: Seq<RawTransaction>) -> bool {
        forall|i: int, j: int|
            0 <= i < j < txs.len() && (txs[i].variant is Deposit || txs[i].variant is Withdrawal)
                && (txs[j].variant is Deposit || txs[j].variant is Withdrawal) ==> txs[i].tx_id
                != txs[j].tx_id
    }

    /// A sound account that takes a sequence of records in which no id is
    /// used twice, and none that it has on record, is locked afterwards or
    /// sound again.
    pub proof fn lemma_sound_run(self, txs: Seq<RawTransaction>)
        requires
            self.locked || self.sound(),
            Self::distinct_ids(txs),
            forall|i: int| 0 <= i < txs.len() ==> self.takes_fresh(#[trigger] txs[i]),
        ensures
            self.run(txs).locked || self.run(txs).sound(),
        decreases txs.len(),
    {
        if txs.len() > 0 {
            let first = txs.first();
            let rest = txs.drop_first();
            let next = self.receive(first);
            if !self.locked {
                assert(self.takes_fresh(txs[0]));
                self.lemma_sound_step(first);
            }
            assert forall|i: int| 0 <= i < rest.len() implies next.takes_fresh(
                #[trigger] rest[i],
            ) by {
                assert(rest[i] == txs[i + 1]);
                assert(self.takes_fresh(txs[i + 1]));
                if next.processed.contains_key(rest[i].tx_id) {
                    self.lemma_step_keys(first, rest[i].tx_id);
                }
            }
            assert(Self::distinct_ids(rest)) by {
                assert forall|i: int, j: int|
                    0 <= i < j < rest.len() && (rest[i].variant is Deposit
                        || rest[i].variant is Withdrawal) && (rest[j].variant is Deposit
                        || rest[j].variant is Withdrawal) implies rest[i].tx_id != rest[j].tx_id by {
                    assert(rest[i] == txs[i + 1] && rest[j] == txs[j + 1]);
                }
            }
            next.lemma_sound_run(rest);
        }
    }

    /// A fresh account that takes records in which no id is used twice
    /// never has a negative total while it is not locked, and no failed
    /// withdrawal in its window.
    pub proof fn lemma_fresh_run(id: u16, txs: Seq<RawTransaction>)
        requires
            Self::distinct_ids(txs),
        ensures
            Self::new(id).run(txs).wf(),
            Self::new(id).run(txs).balanced(),
            Self::new(id).run(txs).locked || Self::new(id).run(txs).sound(),
            !Self::new(id).run(txs).locked ==> Self::new(id).run(txs).total >= 0,
    {
        let fresh = Self::new(id);
        assert(fresh.staked(0, 0) == 0);
        assert(fresh.sound());
        fresh.lemma_run_wf(txs);
        fresh.lemma_run_balanced(txs);
        fresh.lemma_sound_run(txs);
        let end = fresh.run(txs);
        if !end.locked {
            assert(end.total - end.staked(end.window.len() as int, end.window.len() as int) >= 0);
        }
    }
}

} // verus!
