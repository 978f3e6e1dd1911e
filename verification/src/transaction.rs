//! The event model: raw input records and the validated events made from them.

use vstd::prelude::*;
use vstd::std_specs::convert::TryFromSpecImpl;

verus! {

/// Why a raw record could not be read as the event its tag names.
#[derive(Debug, Clone, Copy, PartialEq, Eq)]
pub enum TransactionError {
    /// The record is not a well-formed deposit.
    InvalidDeposit,
    /// The record is not a well-formed withdrawal.
    InvalidWithdrawal,
    /// The record is not a well-formed dispute.
    InvalidDispute,
    /// The record is not a well-formed resolve.
    InvalidResolve,
    /// The record is not a well-formed chargeback.
    InvalidChargeback,
}

/// The tag of a raw record.
#[derive(Debug, Clone, Copy, PartialEq, Eq)]
pub enum RawTransactionVariant {
    /// A credit to the account.
    Deposit,
    /// A debit from the account.
    Withdrawal,
    /// A claim that an earlier transaction was erroneous.
    Dispute,
    /// The end of a dispute that releases the funds held for it.
    Resolve,
    /// The end of a dispute by reversal; freezes the account.
    Chargeback,
}

/// A record as it arrives: a tag, the ids, and an amount cell that may be empty.
#[derive(Debug, Clone, Copy, PartialEq, Eq)]
pub struct RawTransaction {
    /// The tag of the record.
    pub variant: RawTransactionVariant,
    /// The account the record is addressed to.
    pub client_id: u16,
    /// The transaction the record creates or refers to.
    pub tx_id: u32,
    /// The amount in ten-thousandths, absent where the cell was empty.
    pub amount: Option<i64>,
}

/// A credit, with the state of its dispute.
#[derive(Debug, Clone, Copy, PartialEq, Eq)]
pub struct Deposit {
    /// The account credited.
    pub client_id: u16,
    /// The id of this transaction.
    pub tx_id: u32,
    /// The amount in ten-thousandths.
    pub amount: i64,
    /// Whether a dispute was opened on it.
    pub disputed: bool,
    /// Whether that dispute has ended, by resolve or by chargeback.
    pub resolved: bool,
}

/// A debit, with the state of its dispute.
#[derive(Debug, Clone, Copy, PartialEq, Eq)]
pub struct Withdrawal {
    /// The account debited.
    pub client_id: u16,
    /// The id of this transaction.
    pub tx_id: u32,
    /// The amount in ten-thousandths.
    pub amount: i64,
    /// Whether a dispute was opened on it.
    pub disputed: bool,
    /// Whether that dispute has ended, by resolve or by chargeback.
    pub resolved: bool,
    /// Whether the debit was refused or later reversed; a failed
    /// withdrawal holds no funds.
    pub failed: bool,
}

/// A request to hold the funds of an earlier transaction.
#[derive(Debug, Clone, Copy, PartialEq, Eq)]
pub struct Dispute {
    /// The account the request is addressed to.
    pub client_id: u16,
    /// The transaction disputed.
    pub tx_id: u32,
}

/// A request to release the funds held by a dispute.
#[derive(Debug, Clone, Copy, PartialEq, Eq)]
pub struct Resolve {
    /// The account the request is addressed to.
    pub client_id: u16,
    /// The transaction whose dispute ends.
    pub tx_id: u32,
}

/// A request to reverse a disputed transaction and freeze the account.
#[derive(Debug, Clone, Copy, PartialEq, Eq)]
pub struct Chargeback {
    /// The account the request is addressed to.
    pub client_id: u16,
    /// The transaction reversed.
    pub tx_id: u32,
}

/// A validated event of any of the five kinds.
#[derive(Debug, Clone, Copy, PartialEq, Eq)]
#[non_exhaustive]
pub enum Transaction {
    /// A credit.
    Deposit(Deposit),
    /// A debit.
    Withdrawal(Withdrawal),
    /// A dispute of an earlier transaction.
    Dispute(Dispute),
    /// A resolve of a dispute.
    Resolve(Resolve),
    /// A chargeback of a dispute.
    Chargeback(Chargeback),
}

impl Transaction {
    /// Whether this is one of the two kinds an account keeps a record of.
    pub open spec fn is_record(self) -> bool {
        self is Deposit || self is Withdrawal
    }

    /// The account the event names.
    pub open spec fn client(self) -> u16 {
        match self {
            Transaction::Deposit(d) => d.client_id,
            Transaction::Withdrawal(w) => w.client_id,
            Transaction::Dispute(d) => d.client_id,
            Transaction::Resolve(r) => r.client_id,
            Transaction::Chargeback(c) => c.client_id,
        }
    }

    /// The transaction the event creates or refers to.
    pub open spec fn tx(self) -> u32 {
        match self {
            Transaction::Deposit(d) => d.tx_id,
            Transaction::Withdrawal(w) => w.tx_id,
            Transaction::Dispute(d) => d.tx_id,
            Transaction::Resolve(r) => r.tx_id,
            Transaction::Chargeback(c) => c.tx_id,
        }
    }

    /// The amount written on a record; an event that carries none has 0.
    pub open spec fn amount(self) -> int {
        match self {
            Transaction::Deposit(d) => d.amount as int,
            Transaction::Withdrawal(w) => w.amount as int,
            _ => 0,
        }
    }

    /// Whether a dispute was ever opened on the record.
    pub open spec fn disputed(self) -> bool {
        match self {
            Transaction::Deposit(d) => d.disputed,
            Transaction::Withdrawal(w) => w.disputed,
            _ => false,
        }
    }

    /// Whether the record's dispute has ended.
    pub open spec fn resolved(self) -> bool {
        match self {
            Transaction::Deposit(d) => d.resolved,
            Transaction::Withdrawal(w) => w.resolved,
            _ => false,
        }
    }

    /// Whether this is a withdrawal that was refused or reversed.
    pub open spec fn failed(self) -> bool {
        self matches Transaction::Withdrawal(w) && w.failed
    }

    /// What the record contributes to the account's funds: a deposit its
    /// amount, a withdrawal that went through the negated amount, and
    /// anything else nothing. A dispute moves exactly this much from
    /// available to held, and its end moves it back or out.
    pub open spec fn stake(self) -> int {
        match self {
            Transaction::Deposit(d) => d.amount as int,
            Transaction::Withdrawal(w) => if w.failed {
                0
            } else {
                -(w.amount as int)
            },
            _ => 0,
        }
    }

    /// A record on which no dispute was opened yet.
    pub open spec fn undisputed(self) -> bool {
        self.is_record() && !self.disputed() && !self.resolved()
    }

    /// A record whose dispute is open: raised, and not ended.
    pub open spec fn in_dispute(self) -> bool {
        self.is_record() && self.disputed() && !self.resolved()
    }

    /// A withdrawal that the reversal after a chargeback undoes: one that
    /// went through and is not disputed, or one whose dispute has ended.
    pub open spec fn reversible(self) -> bool {
        self matches Transaction::Withdrawal(w) && ((!w.failed && !w.disputed) || w.resolved)
    }

    /// The record with its dispute opened.
    pub open spec fn mark_disputed(self) -> Transaction {
        match self {
            Transaction::Deposit(d) => Transaction::Deposit(Deposit { disputed: true, ..d }),
            Transaction::Withdrawal(w) => Transaction::Withdrawal(
                Withdrawal { disputed: true, ..w },
            ),
            _ => self,
        }
    }

    /// The record with its dispute ended.
    pub open spec fn mark_resolved(self) -> Transaction {
        match self {
            Transaction::Deposit(d) => Transaction::Deposit(Deposit { resolved: true, ..d }),
            Transaction::Withdrawal(w) => Transaction::Withdrawal(
                Withdrawal { resolved: true, ..w },
            ),
            _ => self,
        }
    }

    /// The withdrawal marked as failed; any other event unchanged.
    pub open spec fn mark_failed(self) -> Transaction {
        match self {
            Transaction::Withdrawal(w) => Transaction::Withdrawal(Withdrawal { failed: true, ..w }),
            _ => self,
        }
    }
}

impl RawTransaction {
    /// The deposit this record stands for: it must be tagged as one and
    /// carry an amount that is not negative.
    pub open spec fn as_deposit(self) -> Result<Deposit, TransactionError> {
        match (self.variant, self.amount) {
            (RawTransactionVariant::Deposit, Some(amount)) if amount >= 0 => Ok(
                Deposit {
                    client_id: self.client_id,
                    tx_id: self.tx_id,
                    amount,
                    disputed: false,
                    resolved: false,
                },
            ),
            _ => Err(TransactionError::InvalidDeposit),
        }
    }

    /// The withdrawal this record stands for: it must be tagged as one and
    /// carry an amount that is not negative.
    pub open spec fn as_withdrawal(self) -> Result<Withdrawal, TransactionError> {
        match (self.variant, self.amount) {
            (RawTransactionVariant::Withdrawal, Some(amount)) if amount >= 0 => Ok(
                Withdrawal {
                    client_id: self.client_id,
                    tx_id: self.tx_id,
                    amount,
                    disputed: false,
                    resolved: false,
                    failed: false,
                },
            ),
            _ => Err(TransactionError::InvalidWithdrawal),
        }
    }

    /// The dispute this record stands for: it must be tagged as one and
    /// carry no amount.
    pub open spec fn as_dispute(self) -> Result<Dispute, TransactionError> {
        if self.variant is Dispute && self.amount is None {
            Ok(Dispute { client_id: self.client_id, tx_id: self.tx_id })
        } else {
            Err(TransactionError::InvalidDispute)
        }
    }

    /// The resolve this record stands for: it must be tagged as one and
    /// carry no amount.
    pub open spec fn as_resolve(self) -> Result<Resolve, TransactionError> {
        if self.variant is Resolve && self.amount is None {
            Ok(Resolve { client_id: self.client_id, tx_id: self.tx_id })
        } else {
            Err(TransactionError::InvalidResolve)
        }
    }

    /// The chargeback this record stands for: it must be tagged as one and
    /// carry no amount.
    pub open spec fn as_chargeback(self) -> Result<Chargeback, TransactionError> {
        if self.variant is Chargeback && self.amount is None {
            Ok(Chargeback { client_id: self.client_id, tx_id: self.tx_id })
        } else {
            Err(TransactionError::InvalidChargeback)
        }
    }
}

impl TryFrom<RawTransaction> for Deposit {
    type Error = TransactionError;

    fn try_from(value: RawTransaction) -> (ret: Result<Self, TransactionError>)
        ensures
            ret == value.as_deposit(),
    {
        match value.variant {
            RawTransactionVariant::Deposit => {
                if let Some(amount) = value.amount {
                    if amount < 0 {
                        return Err(TransactionError::InvalidDeposit);
                    }
                    return Ok(
                        Self {
                            client_id: value.client_id,
                            tx_id: value.tx_id,
                            amount,
                            disputed: false,
                            resolved: false,
                        },
                    );
                }
                Err(TransactionError::InvalidDeposit)
            },
            _ => Err(TransactionError::InvalidDeposit),
        }
    }
}

impl TryFromSpecImpl<RawTransaction> for Deposit {
    open spec fn obeys_try_from_spec() -> bool {
        true
    }

    open spec fn try_from_spec(v: RawTransaction) -> Result<Self, TransactionError> {
        v.as_deposit()
    }
}

impl TryFrom<RawTransaction> for Withdrawal {
    type Error = TransactionError;

    fn try_from(value: RawTransaction) -> (ret: Result<Self, TransactionError>)
        ensures
            ret == value.as_withdrawal(),
    {
        match value.variant {
            RawTransactionVariant::Withdrawal => {},
            _ => {
                return Err(TransactionError::InvalidWithdrawal);
            },
        }
        if let Some(amount) = value.amount {
            if amount < 0 {
                return Err(TransactionError::InvalidWithdrawal);
            }
            return Ok(
                Self {
                    client_id: value.client_id,
                    tx_id: value.tx_id,
                    amount,
                    disputed: false,
                    resolved: false,
                    failed: false,
                },
            );
        }
        Err(TransactionError::InvalidWithdrawal)
    }
}

impl TryFromSpecImpl<RawTransaction> for Withdrawal {
    open spec fn obeys_try_from_spec() -> bool {
        true
    }

    open spec fn try_from_spec(v: RawTransaction) -> Result<Self, TransactionError> {
        v.as_withdrawal()
    }
}

impl TryFrom<RawTransaction> for Dispute {
    type Error = TransactionError;

    fn try_from(value: RawTransaction) -> (ret: Result<Self, TransactionError>)
        ensures
            ret == value.as_dispute(),
    {
        match value.variant {
            RawTransactionVariant::Dispute => {},
            _ => {
                return Err(TransactionError::InvalidDispute);
            },
        }
        if value.amount.is_some() {
            return Err(TransactionError::InvalidDispute);
        }
        Ok(Self { client_id: value.client_id, tx_id: value.tx_id })
    }
}

impl TryFromSpecImpl<RawTransaction> for Dispute {
    open spec fn obeys_try_from_spec() -> bool {
        true
    }

    open spec fn try_from_spec(v: RawTransaction) -> Result<Self, TransactionError> {
        v.as_dispute()
    }
}

impl TryFrom<RawTransaction> for Resolve {
    type Error = TransactionError;

    fn try_from(value: RawTransaction) -> (ret: Result<Self, TransactionError>)
        ensures
            ret == value.as_resolve(),
    {
        match value.variant {
            RawTransactionVariant::Resolve => {},
            _ => {
                return Err(TransactionError::InvalidResolve);
            },
        }
        if value.amount.is_some() {
            return Err(TransactionError::InvalidResolve);
        }
        Ok(Self { client_id: value.client_id, tx_id: value.tx_id })
    }
}

impl TryFromSpecImpl<RawTransaction> for Resolve {
    open spec fn obeys_try_from_spec() -> bool {
        true
    }

    open spec fn try_from_spec(v: RawTransaction) -> Result<Self, TransactionError> {
        v.as_resolve()
    }
}

impl TryFrom<RawTransaction> for Chargeback {
    type Error = TransactionError;

    fn try_from(value: RawTransaction) -> (ret: Result<Self, TransactionError>)
        ensures
            ret == value.as_chargeback(),
    {
        match value.variant {
            RawTransactionVariant::Chargeback => {},
            _ => {
                return Err(TransactionError::InvalidChargeback);
            },
        }
        if value.amount.is_some() {
            return Err(TransactionError::InvalidChargeback);
        }
        Ok(Self { client_id: value.client_id, tx_id: value.tx_id })
    }
}

impl TryFromSpecImpl<RawTransaction> for Chargeback {
    open spec fn obeys_try_from_spec() -> bool {
        true
    }

    open spec fn try_from_spec(v: RawTransaction) -> Result<Self, TransactionError> {
        v.as_chargeback()
    }
}

} // verus!
