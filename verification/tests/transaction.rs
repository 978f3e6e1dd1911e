use dispute_engine::transaction::{
    Chargeback, Deposit, Dispute, RawTransaction, RawTransactionVariant, Resolve,
    TransactionError, Withdrawal,
};

/// An amount of currency units in ten-thousandths.
fn units(amount: f64) -> i64 {
    (amount * 10_000.0).round() as i64
}

#[test]
fn it_converts_a_transaction_to_a_deposit() {
    let tx = RawTransaction {
        variant: RawTransactionVariant::Deposit,
        client_id: 1,
        tx_id: 1,
        amount: Some(units(1.00_f64)),
    };
    let deposit: Deposit = tx.try_into().unwrap();
    assert_eq!(
        deposit,
        Deposit {
            client_id: 1,
            tx_id: 1,
            amount: units(1.00_f64),
            disputed: false,
            resolved: false,
        }
    );
}

#[test]
fn it_fails_to_convert_a_transaction_to_a_deposit_with_negative_amount() {
    let tx = RawTransaction {
        variant: RawTransactionVariant::Deposit,
        client_id: 1,
        tx_id: 1,
        amount: Some(units(-1.00_f64)),
    };
    let deposit: Result<Deposit, TransactionError> = tx.try_into();
    assert!(
        deposit == Err(TransactionError::InvalidDeposit),
        "Should have failed to convert a transaction with negative amount to a deposit!"
    );
}

#[test]
fn it_fails_to_convert_a_withdrawal_into_a_deposit() {
    let tx = RawTransaction {
        variant: RawTransactionVariant::Withdrawal,
        client_id: 1,
        tx_id: 1,
        amount: Some(units(1.00_f64)),
    };
    let deposit: Result<Deposit, TransactionError> = tx.try_into();
    assert!(
        deposit == Err(TransactionError::InvalidDeposit),
        "Should have failed to convert a withdrawal to a deposit!"
    );
}

#[test]
fn it_fails_to_convert_an_invalid_transaction_into_a_deposit() {
    let tx = RawTransaction {
        variant: RawTransactionVariant::Deposit,
        client_id: 1,
        tx_id: 1,
        amount: None,
    };
    let deposit: Result<Deposit, TransactionError> = tx.try_into();
    assert!(
        deposit == Err(TransactionError::InvalidDeposit),
        "Should have failed to convert an invalid transaction to a deposit!"
    );
}

#[test]
fn it_converts_a_transaction_to_a_withdrawal() {
    let tx = RawTransaction {
        variant: RawTransactionVariant::Withdrawal,
        client_id: 1,
        tx_id: 1,
        amount: Some(units(1.00_f64)),
    };
    let withdrawal: Withdrawal = tx.try_into().unwrap();
    assert_eq!(
        withdrawal,
        Withdrawal {
            client_id: 1,
            tx_id: 1,
            amount: units(1.00_f64),
            disputed: false,
            resolved: false,
            failed: false
        }
    );
}

#[test]
fn it_fails_to_convert_a_transaction_with_negative_amount_to_a_withdrawal() {
    let tx = RawTransaction {
        variant: RawTransactionVariant::Withdrawal,
        client_id: 1,
        tx_id: 1,
        amount: Some(units(-1.00_f64)),
    };
    let withdrawal: Result<Withdrawal, TransactionError> = tx.try_into();
    assert!(
        withdrawal == Err(TransactionError::InvalidWithdrawal),
        "Should have failed to convert a transaction with negative amount to a withdrawal!"
    );
}

#[test]
fn it_fails_to_convert_a_deposit_into_a_withdrawal() {
    let tx = RawTransaction {
        variant: RawTransactionVariant::Deposit,
        client_id: 1,
        tx_id: 1,
        amount: Some(units(1.00_f64)),
    };
    let withdrawal: Result<Withdrawal, TransactionError> = tx.try_into();
    assert!(
        withdrawal == Err(TransactionError::InvalidWithdrawal),
        "Should have failed to convert a deposit to a withdrawal!"
    );
}

#[test]
fn it_fails_to_convert_an_invalid_transaction_into_a_withdrawal() {
    let tx = RawTransaction {
        variant: RawTransactionVariant::Withdrawal,
        client_id: 1,
        tx_id: 1,
        amount: None,
    };
    let withdrawal: Result<Withdrawal, TransactionError> = tx.try_into();
    assert!(
        withdrawal == Err(TransactionError::InvalidWithdrawal),
        "Should have failed to convert an invalid transaction to a withdrawal!"
    );
}

#[test]
fn it_converts_a_transaction_to_a_dispute() {
    let tx = RawTransaction {
        variant: RawTransactionVariant::Dispute,
        client_id: 1,
        tx_id: 1,
        amount: None,
    };
    let dispute: Dispute = tx.try_into().unwrap();
    assert_eq!(
        dispute,
        Dispute {
            client_id: 1,
            tx_id: 1
        }
    );
}

#[test]
fn it_fails_to_convert_a_withdrawal_into_a_dispute() {
    let tx = RawTransaction {
        variant: RawTransactionVariant::Withdrawal,
        client_id: 1,
        tx_id: 1,
        amount: Some(units(1.00_f64)),
    };
    let dispute: Result<Dispute, TransactionError> = tx.try_into();
    assert!(
        dispute == Err(TransactionError::InvalidDispute),
        "Should have failed to convert a withdrawal to a dispute!"
    );
}

#[test]
fn it_fails_to_convert_an_invalid_transaction_into_a_dispute() {
    let tx = RawTransaction {
        variant: RawTransactionVariant::Dispute,
        client_id: 1,
        tx_id: 1,
        amount: Some(units(1.00_f64)),
    };
    let dispute: Result<Dispute, TransactionError> = tx.try_into();
    assert!(
        dispute == Err(TransactionError::InvalidDispute),
        "Should have failed to convert an invalid transaction to a dispute!"
    );
}

#[test]
fn it_converts_a_transaction_to_a_resolve() {
    let tx = RawTransaction {
        variant: RawTransactionVariant::Resolve,
        client_id: 1,
        tx_id: 1,
        amount: None,
    };
    let resolve: Resolve = tx.try_into().unwrap();
    assert_eq!(
        resolve,
        Resolve {
            client_id: 1,
            tx_id: 1
        }
    );
}

#[test]
fn it_fails_to_convert_a_dispute_into_a_resolve() {
    let tx = RawTransaction {
        variant: RawTransactionVariant::Dispute,
        client_id: 1,
        tx_id: 1,
        amount: None,
    };
    let resolve: Result<Resolve, TransactionError> = tx.try_into();
    assert!(
        resolve == Err(TransactionError::InvalidResolve),
        "Should have failed to convert a dispute to a resolve!"
    );
}

#[test]
fn it_fails_to_convert_an_invalid_transaction_into_a_resolve() {
    let tx = RawTransaction {
        variant: RawTransactionVariant::Resolve,
        client_id: 1,
        tx_id: 1,
        amount: Some(units(1.00_f64)),
    };
    let resolve: Result<Resolve, TransactionError> = tx.try_into();
    assert!(
        resolve == Err(TransactionError::InvalidResolve),
        "Should have failed to convert an invalid transaction to a resolve!"
    );
}

#[test]
fn it_converts_a_transaction_to_a_chargeback() {
    let tx = RawTransaction {
        variant: RawTransactionVariant::Chargeback,
        client_id: 1,
        tx_id: 1,
        amount: None,
    };
    let chargeback: Chargeback = tx.try_into().unwrap();
    assert_eq!(
        chargeback,
        Chargeback {
            client_id: 1,
            tx_id: 1
        }
    );
}

#[test]
fn it_fails_to_convert_a_resolve_into_a_chargeback() {
    let tx = RawTransaction {
        variant: RawTransactionVariant::Resolve,
        client_id: 1,
        tx_id: 1,
        amount: None,
    };
    let chargeback: Result<Chargeback, TransactionError> = tx.try_into();
    assert!(
        chargeback == Err(TransactionError::InvalidChargeback),
        "Should have failed to convert a resolve to a chargeback!"
    );
}

#[test]
fn it_fails_to_convert_an_invalid_transaction_into_a_chargeback() {
    let tx = RawTransaction {
        variant: RawTransactionVariant::Chargeback,
        client_id: 1,
        tx_id: 1,
        amount: Some(units(1.00_f64)),
    };
    let chargeback: Result<Chargeback, TransactionError> = tx.try_into();
    assert!(
        chargeback == Err(TransactionError::InvalidChargeback),
        "Should have failed to convert an invalid transaction to a chargeback!"
    );
}
