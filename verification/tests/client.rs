use dispute_engine::client::Client;
use dispute_engine::transaction::{RawTransaction, RawTransactionVariant};

/// An amount of currency units in ten-thousandths.
fn units(amount: f64) -> i64 {
    (amount * 10_000.0).round() as i64
}

/// A balance in currency units.
fn as_f64(balance: i128) -> f64 {
    balance as f64 / 10_000.0
}

#[test]
fn it_processes_deposits() {
    let mut activity = Vec::new();
    activity.push(RawTransaction {
        tx_id: 1,
        client_id: 1,
        amount: Some(units(1_000.0_f64)),
        variant: RawTransactionVariant::Deposit,
    });
    activity.push(RawTransaction {
        tx_id: 2,
        client_id: 1,
        amount: Some(units(2_000.0_f64)),
        variant: RawTransactionVariant::Deposit,
    });

    let mut client = Client::new(1);

    client.process_activity(activity);

    assert!((as_f64(client.available_balance) - 3_000.0_f64).abs() < f64::EPSILON);
    assert!((as_f64(client.total_balance) - 3_000.0_f64).abs() < f64::EPSILON);
    assert!((as_f64(client.available_balance) - as_f64(client.total_balance)).abs() < f64::EPSILON);
    assert!(as_f64(client.held_balance).abs() < f64::EPSILON);
    assert!(!client.locked);
}

#[test]
fn it_fails_to_process_deposits_with_different_client_ids() {
    let mut activity = Vec::new();
    activity.push(RawTransaction {
        tx_id: 1,
        client_id: 1,
        amount: Some(units(1_000.0_f64)),
        variant: RawTransactionVariant::Deposit,
    });
    activity.push(RawTransaction {
        tx_id: 2,
        client_id: 2,
        amount: Some(units(2_000.0_f64)),
        variant: RawTransactionVariant::Deposit,
    });

    let mut client = Client::new(1);

    client.process_activity(activity);

    assert!((as_f64(client.available_balance) - 1_000.0_f64).abs() < f64::EPSILON);
    assert!((as_f64(client.available_balance) - as_f64(client.total_balance)).abs() < f64::EPSILON);
    assert!(!client.locked);
}

#[test]
fn it_processes_withdrawals() {
    let mut activity = Vec::new();
    activity.push(RawTransaction {
        tx_id: 1,
        client_id: 1,
        amount: Some(units(1_500.0_f64)),
        variant: RawTransactionVariant::Deposit,
    });
    activity.push(RawTransaction {
        tx_id: 2,
        client_id: 1,
        amount: Some(units(1_000.0_f64)),
        variant: RawTransactionVariant::Withdrawal,
    });

    let mut client = Client::new(1);

    client.process_activity(activity);

    assert!((as_f64(client.available_balance) - 500.0).abs() < f64::EPSILON);
    assert!((as_f64(client.total_balance) - 500.0).abs() < f64::EPSILON);
    assert!((as_f64(client.available_balance) - as_f64(client.total_balance)).abs() < f64::EPSILON);
    assert!(as_f64(client.held_balance).abs() < f64::EPSILON);
    assert!(!client.locked);
}

#[test]
fn it_fails_to_process_withdrawals_with_different_client_ids() {
    let mut activity = Vec::new();
    activity.push(RawTransaction {
        tx_id: 1,
        client_id: 1,
        amount: Some(units(1_500.0_f64)),
        variant: RawTransactionVariant::Deposit,
    });
    activity.push(RawTransaction {
        tx_id: 2,
        client_id: 2,
        amount: Some(units(1_000.0_f64)),
        variant: RawTransactionVariant::Withdrawal,
    });

    let mut client = Client::new(1);

    client.process_activity(activity);

    assert!((as_f64(client.available_balance) - 1_500.0_f64).abs() < f64::EPSILON);
    assert!((as_f64(client.available_balance) - as_f64(client.total_balance)).abs() < f64::EPSILON);
    assert!(as_f64(client.held_balance).abs() < f64::EPSILON);
    assert!(!client.locked);
}

#[test]
fn it_handles_disputes_of_deposits() {
    let mut activity = Vec::new();
    activity.push(RawTransaction {
        tx_id: 1,
        client_id: 1,
        amount: Some(units(1_500.0_f64)),
        variant: RawTransactionVariant::Deposit,
    });
    activity.push(RawTransaction {
        tx_id: 1,
        client_id: 1,
        amount: None,
        variant: RawTransactionVariant::Dispute,
    });

    let mut client = Client::new(1);

    client.process_activity(activity);

    assert!(as_f64(client.available_balance).abs() < f64::EPSILON);
    assert!((as_f64(client.total_balance) - as_f64(client.held_balance)).abs() < f64::EPSILON);
    assert!((as_f64(client.held_balance) - 1500.0).abs() < f64::EPSILON);
    assert!(!client.locked);
}

#[test]
fn it_handles_disputes_of_withdrawals() {
    let mut activity = Vec::new();
    activity.push(RawTransaction {
        tx_id: 1,
        client_id: 1,
        amount: Some(units(1_500.0_f64)),
        variant: RawTransactionVariant::Deposit,
    });
    activity.push(RawTransaction {
        tx_id: 2,
        client_id: 1,
        amount: Some(units(1_000.0_f64)),
        variant: RawTransactionVariant::Withdrawal,
    });
    activity.push(RawTransaction {
        tx_id: 2,
        client_id: 1,
        amount: None,
        variant: RawTransactionVariant::Dispute,
    });

    let mut client = Client::new(1);

    client.process_activity(activity);

    assert!((as_f64(client.available_balance) - 1500.0).abs() < f64::EPSILON);
    assert!((as_f64(client.total_balance) - 500.0).abs() < f64::EPSILON);
    assert!((as_f64(client.held_balance) + 1000.0).abs() < f64::EPSILON);
    assert!(!client.locked);
}

#[test]
fn it_fails_withdrawals_with_insufficient_balance() {
    let mut activity = Vec::new();
    activity.push(RawTransaction {
        tx_id: 1,
        client_id: 1,
        amount: Some(units(1_500.0_f64)),
        variant: RawTransactionVariant::Deposit,
    });
    activity.push(RawTransaction {
        tx_id: 2,
        client_id: 1,
        amount: Some(units(2_000.0_f64)),
        variant: RawTransactionVariant::Withdrawal,
    });

    let mut client = Client::new(1);

    client.process_activity(activity);

    assert!((as_f64(client.available_balance) - 1500.0).abs() < f64::EPSILON);
    assert!((as_f64(client.total_balance) - 1500.0).abs() < f64::EPSILON);
    assert!((as_f64(client.available_balance) - as_f64(client.total_balance)).abs() < f64::EPSILON);
    assert!(as_f64(client.held_balance).abs() < f64::EPSILON);
    assert!(!client.locked);
}

#[test]
fn it_handles_disputes_of_deposits_and_withdrawals() {
    let mut activity = Vec::new();
    activity.push(RawTransaction {
        tx_id: 1,
        client_id: 1,
        amount: Some(units(1_500.0_f64)),
        variant: RawTransactionVariant::Deposit,
    });
    activity.push(RawTransaction {
        tx_id: 2,
        client_id: 1,
        amount: Some(units(1_000.0_f64)),
        variant: RawTransactionVariant::Withdrawal,
    });
    activity.push(RawTransaction {
        tx_id: 1,
        client_id: 1,
        amount: None,
        variant: RawTransactionVariant::Dispute,
    });
    activity.push(RawTransaction {
        tx_id: 2,
        client_id: 1,
        amount: None,
        variant: RawTransactionVariant::Dispute,
    });

    let mut client = Client::new(1);

    client.process_activity(activity);

    assert!(as_f64(client.available_balance).abs() < f64::EPSILON);
    assert!((as_f64(client.total_balance) - as_f64(client.held_balance)).abs() < f64::EPSILON);
    assert!((as_f64(client.held_balance) - 500.0).abs() < f64::EPSILON);
    assert!(!client.locked);
}

#[test]
fn it_rejects_disputes_of_deposits_with_different_client_ids() {
    let mut activity = Vec::new();
    activity.push(RawTransaction {
        tx_id: 1,
        client_id: 1,
        amount: Some(units(1_500.0_f64)),
        variant: RawTransactionVariant::Deposit,
    });
    activity.push(RawTransaction {
        tx_id: 1,
        client_id: 2,
        amount: None,
        variant: RawTransactionVariant::Dispute,
    });

    let mut client = Client::new(1);

    client.process_activity(activity);

    assert!((as_f64(client.available_balance) - 1500.0).abs() < f64::EPSILON);
    assert!((as_f64(client.total_balance) - as_f64(client.available_balance)).abs() < f64::EPSILON);
    assert!(as_f64(client.held_balance).abs() < f64::EPSILON);
    assert!(!client.locked);
}

#[test]
fn it_rejects_disputes_of_withdrawals_with_different_client_ids() {
    let mut activity = Vec::new();
    activity.push(RawTransaction {
        tx_id: 1,
        client_id: 1,
        amount: Some(units(1_500.0_f64)),
        variant: RawTransactionVariant::Deposit,
    });
    activity.push(RawTransaction {
        tx_id: 2,
        client_id: 1,
        amount: Some(units(1_000.0_f64)),
        variant: RawTransactionVariant::Withdrawal,
    });
    activity.push(RawTransaction {
        tx_id: 2,
        client_id: 2,
        amount: None,
        variant: RawTransactionVariant::Dispute,
    });

    let mut client = Client::new(1);

    client.process_activity(activity);

    assert!((as_f64(client.available_balance) - 500.0).abs() < f64::EPSILON);
    assert!((as_f64(client.total_balance) - as_f64(client.available_balance)).abs() < f64::EPSILON);
    assert!(as_f64(client.held_balance).abs() < f64::EPSILON);
    assert!(!client.locked);
}

#[test]
fn it_handles_resolves_of_deposit_disputes() {
    let mut activity = Vec::new();
    activity.push(RawTransaction {
        tx_id: 1,
        client_id: 1,
        amount: Some(units(1_500.0_f64)),
        variant: RawTransactionVariant::Deposit,
    });
    activity.push(RawTransaction {
        tx_id: 1,
        client_id: 1,
        amount: None,
        variant: RawTransactionVariant::Dispute,
    });
    activity.push(RawTransaction {
        tx_id: 1,
        client_id: 1,
        amount: None,
        variant: RawTransactionVariant::Resolve,
    });

    let mut client = Client::new(1);

    client.process_activity(activity);

    assert!((as_f64(client.available_balance) - 1500.0).abs() < f64::EPSILON);
    assert!((as_f64(client.total_balance) - as_f64(client.available_balance)).abs() < f64::EPSILON);
    assert!(as_f64(client.held_balance).abs() < f64::EPSILON);
    assert!(!client.locked);
}

#[test]
fn it_handles_resolves_of_withdrawal_disputes() {
    let mut activity = Vec::new();
    activity.push(RawTransaction {
        tx_id: 1,
        client_id: 1,
        amount: Some(units(1_500.0_f64)),
        variant: RawTransactionVariant::Deposit,
    });
    activity.push(RawTransaction {
        tx_id: 2,
        client_id: 1,
        amount: Some(units(1_000.0_f64)),
        variant: RawTransactionVariant::Withdrawal,
    });
    activity.push(RawTransaction {
        tx_id: 2,
        client_id: 1,
        amount: None,
        variant: RawTransactionVariant::Dispute,
    });
    activity.push(RawTransaction {
        tx_id: 2,
        client_id: 1,
        amount: None,
        variant: RawTransactionVariant::Resolve,
    });

    let mut client = Client::new(1);

    client.process_activity(activity);

    assert!((as_f64(client.available_balance) - 500.0).abs() < f64::EPSILON);
    assert!((as_f64(client.total_balance) - as_f64(client.available_balance)).abs() < f64::EPSILON);
    assert!(as_f64(client.held_balance).abs() < f64::EPSILON);
    assert!(!client.locked);
}

#[test]
fn it_rejects_resolves_of_deposit_disputes_with_different_client_ids() {
    let mut activity = Vec::new();
    activity.push(RawTransaction {
        tx_id: 1,
        client_id: 1,
        amount: Some(units(1_500.0_f64)),
        variant: RawTransactionVariant::Deposit,
    });
    activity.push(RawTransaction {
        tx_id: 1,
        client_id: 1,
        amount: None,
        variant: RawTransactionVariant::Dispute,
    });
    activity.push(RawTransaction {
        tx_id: 1,
        client_id: 2,
        amount: None,
        variant: RawTransactionVariant::Resolve,
    });

    let mut client = Client::new(1);

    client.process_activity(activity);

    assert!(as_f64(client.available_balance).abs() < f64::EPSILON);
    assert!((as_f64(client.total_balance) - as_f64(client.held_balance)).abs() < f64::EPSILON);
    assert!((as_f64(client.held_balance) - 1500.0).abs() < f64::EPSILON);
    assert!(!client.locked);
}

#[test]
fn it_rejects_resolves_of_withdrawal_disputes_with_different_client_ids() {
    let mut activity = Vec::new();
    activity.push(RawTransaction {
        tx_id: 1,
        client_id: 1,
        amount: Some(units(1_500.0_f64)),
        variant: RawTransactionVariant::Deposit,
    });
    activity.push(RawTransaction {
        tx_id: 2,
        client_id: 1,
        amount: Some(units(1_000.0_f64)),
        variant: RawTransactionVariant::Withdrawal,
    });
    activity.push(RawTransaction {
        tx_id: 2,
        client_id: 1,
        amount: None,
        variant: RawTransactionVariant::Dispute,
    });
    activity.push(RawTransaction {
        tx_id: 2,
        client_id: 2,
        amount: None,
        variant: RawTransactionVariant::Resolve,
    });

    let mut client = Client::new(1);

    client.process_activity(activity);

    assert!((as_f64(client.available_balance) - 1500.0).abs() < f64::EPSILON);
    assert!((as_f64(client.total_balance) - 500.0).abs() < f64::EPSILON);
    assert!((as_f64(client.held_balance) + 1000.0).abs() < f64::EPSILON);
    assert!(!client.locked);
}

#[test]
fn it_handles_chargebacks_of_deposit_disputes() {
    let mut activity = Vec::new();
    activity.push(RawTransaction {
        tx_id: 1,
        client_id: 1,
        amount: Some(units(1_500.0_f64)),
        variant: RawTransactionVariant::Deposit,
    });
    activity.push(RawTransaction {
        tx_id: 1,
        client_id: 1,
        amount: None,
        variant: RawTransactionVariant::Dispute,
    });
    activity.push(RawTransaction {
        tx_id: 1,
        client_id: 1,
        amount: None,
        variant: RawTransactionVariant::Chargeback,
    });

    let mut client = Client::new(1);

    client.process_activity(activity);

    println!("{:?}", client);
    assert!(as_f64(client.available_balance).abs() < f64::EPSILON);
    assert!(as_f64(client.held_balance).abs() < f64::EPSILON);
    assert!(as_f64(client.total_balance).abs() < f64::EPSILON);
    assert!(client.locked);
}

#[test]
fn it_handles_chargebacks_of_withdrawal_disputes() {
    let mut activity = Vec::new();
    activity.push(RawTransaction {
        tx_id: 1,
        client_id: 1,
        amount: Some(units(1_500.0_f64)),
        variant: RawTransactionVariant::Deposit,
    });
    activity.push(RawTransaction {
        tx_id: 2,
        client_id: 1,
        amount: Some(units(1_000.0_f64)),
        variant: RawTransactionVariant::Withdrawal,
    });
    activity.push(RawTransaction {
        tx_id: 2,
        client_id: 1,
        amount: None,
        variant: RawTransactionVariant::Dispute,
    });
    activity.push(RawTransaction {
        tx_id: 2,
        client_id: 1,
        amount: None,
        variant: RawTransactionVariant::Chargeback,
    });

    let mut client = Client::new(1);

    client.process_activity(activity);

    assert!((as_f64(client.available_balance) - 1500.0).abs() < f64::EPSILON);
    assert!((as_f64(client.total_balance) - 1500.0).abs() < f64::EPSILON);
    assert!(as_f64(client.held_balance).abs() < f64::EPSILON);
    assert!(client.locked);
}

#[test]
fn it_reverses_withdrawals_after_a_chargeback() {
    let mut activity = Vec::new();
    activity.push(RawTransaction {
        tx_id: 1,
        client_id: 1,
        amount: Some(units(1_500.0_f64)),
        variant: RawTransactionVariant::Deposit,
    });
    activity.push(RawTransaction {
        tx_id: 2,
        client_id: 1,
        amount: Some(units(1_000.0_f64)),
        variant: RawTransactionVariant::Withdrawal,
    });
    activity.push(RawTransaction {
        tx_id: 1,
        client_id: 1,
        amount: None,
        variant: RawTransactionVariant::Dispute,
    });
    activity.push(RawTransaction {
        tx_id: 1,
        client_id: 1,
        amount: None,
        variant: RawTransactionVariant::Chargeback,
    });

    let mut client = Client::new(1);

    client.process_activity(activity);

    assert!(as_f64(client.available_balance).abs() < f64::EPSILON);
    assert!(as_f64(client.held_balance).abs() < f64::EPSILON);
    assert!(as_f64(client.total_balance).abs() < f64::EPSILON);
    assert!(client.locked);
}

#[test]
fn it_stops_processing_transactions_when_a_client_is_locked() {
    let mut activity = Vec::new();
    activity.push(RawTransaction {
        tx_id: 1,
        client_id: 1,
        amount: Some(units(1_500.0_f64)),
        variant: RawTransactionVariant::Deposit,
    });
    activity.push(RawTransaction {
        tx_id: 1,
        client_id: 1,
        amount: None,
        variant: RawTransactionVariant::Dispute,
    });
    activity.push(RawTransaction {
        tx_id: 1,
        client_id: 1,
        amount: None,
        variant: RawTransactionVariant::Chargeback,
    });
    activity.push(RawTransaction {
        tx_id: 3,
        client_id: 1,
        amount: Some(units(1_000.0_f64)),
        variant: RawTransactionVariant::Deposit,
    });

    let mut client = Client::new(1);

    client.process_activity(activity);

    assert!(as_f64(client.available_balance).abs() < f64::EPSILON);
    assert!(as_f64(client.held_balance).abs() < f64::EPSILON);
    assert!(as_f64(client.total_balance).abs() < f64::EPSILON);
    assert!(client.locked);
}

#[test]
fn it_handles_a_large_volume_of_transactions() {
    let mut activity = Vec::new();
    for i in 0..2000 {
        activity.push(RawTransaction {
            tx_id: i,
            client_id: 1,
            amount: Some(units(1.0_f64)),
            variant: RawTransactionVariant::Deposit,
        });
    }

    let mut client = Client::new(1);

    client.process_activity(activity);

    assert!((as_f64(client.available_balance) - 2000.0).abs() < f64::EPSILON);
    assert!((as_f64(client.total_balance) - as_f64(client.available_balance)).abs() < f64::EPSILON);
    assert!(as_f64(client.held_balance).abs() < f64::EPSILON);
    assert!(!client.locked);
}

#[test]
fn it_handles_resolving_deposit_disputes_after_window_expired() {
    let mut activity = Vec::new();
    activity.push(RawTransaction {
        tx_id: 0,
        client_id: 1,
        amount: Some(units(1.0_f64)),
        variant: RawTransactionVariant::Deposit,
    });
    activity.push(RawTransaction {
        tx_id: 1,
        client_id: 1,
        amount: None,
        variant: RawTransactionVariant::Dispute,
    });
    for i in 0..1000 {
        activity.push(RawTransaction {
            tx_id: i + 1,
            client_id: 1,
            amount: Some(units(1.0_f64)),
            variant: RawTransactionVariant::Deposit,
        });
    }

    let mut client = Client::new(1);

    client.process_activity(activity);

    assert!((as_f64(client.available_balance) - 1001.0).abs() < f64::EPSILON);
    assert!((as_f64(client.total_balance) - as_f64(client.available_balance)).abs() < f64::EPSILON);
    assert!(as_f64(client.held_balance).abs() < f64::EPSILON);
    assert!(!client.locked);
}

#[test]
fn it_handles_resolving_withdrawal_disputes_after_window_expired() {
    let mut activity = Vec::new();
    activity.push(RawTransaction {
        tx_id: 0,
        client_id: 1,
        amount: Some(units(1.0_f64)),
        variant: RawTransactionVariant::Deposit,
    });
    activity.push(RawTransaction {
        tx_id: 1,
        client_id: 1,
        amount: Some(units(1.0_f64)),
        variant: RawTransactionVariant::Withdrawal,
    });
    activity.push(RawTransaction {
        tx_id: 1,
        client_id: 1,
        amount: None,
        variant: RawTransactionVariant::Dispute,
    });
    for i in 0..1000 {
        activity.push(RawTransaction {
            tx_id: i + 2,
            client_id: 1,
            amount: Some(units(1.0_f64)),
            variant: RawTransactionVariant::Deposit,
        });
    }

    let mut client = Client::new(1);

    client.process_activity(activity);

    assert!((as_f64(client.available_balance) - 1000.0).abs() < f64::EPSILON);
    assert!((as_f64(client.total_balance) - as_f64(client.available_balance)).abs() < f64::EPSILON);
    assert!(as_f64(client.held_balance).abs() < f64::EPSILON);
    assert!(!client.locked);
}

#[test]
fn it_handles_resolving_a_dispute_for_a_failed_withdrawal() {
    let mut activity = Vec::new();
    activity.push(RawTransaction {
        tx_id: 1,
        client_id: 1,
        amount: Some(units(1.0_f64)),
        variant: RawTransactionVariant::Withdrawal,
    });
    activity.push(RawTransaction {
        tx_id: 1,
        client_id: 1,
        amount: None,
        variant: RawTransactionVariant::Dispute,
    });
    activity.push(RawTransaction {
        tx_id: 2,
        client_id: 1,
        amount: None,
        variant: RawTransactionVariant::Resolve,
    });

    let mut client = Client::new(1);

    client.process_activity(activity);

    assert!(as_f64(client.available_balance).abs() < f64::EPSILON);
    assert!(as_f64(client.total_balance).abs() < f64::EPSILON);
    assert!(as_f64(client.held_balance).abs() < f64::EPSILON);
    assert!(!client.locked);
}

#[test]
fn it_handles_a_chargeback_for_a_failed_withdrawal() {
    let mut activity = Vec::new();
    activity.push(RawTransaction {
        tx_id: 1,
        client_id: 1,
        amount: Some(units(1.0_f64)),
        variant: RawTransactionVariant::Withdrawal,
    });
    activity.push(RawTransaction {
        tx_id: 1,
        client_id: 1,
        amount: None,
        variant: RawTransactionVariant::Dispute,
    });
    activity.push(RawTransaction {
        tx_id: 1,
        client_id: 1,
        amount: None,
        variant: RawTransactionVariant::Chargeback,
    });

    let mut client = Client::new(1);

    client.process_activity(activity);

    assert!(as_f64(client.available_balance).abs() < f64::EPSILON);
    assert!(as_f64(client.total_balance).abs() < f64::EPSILON);
    assert!(as_f64(client.held_balance).abs() < f64::EPSILON);
    assert!(client.locked);
}

#[test]
fn it_handles_deposits_withdrawals_disputes_and_resolves() {
    let mut activity = Vec::new();
    activity.push(RawTransaction {
        tx_id: 1,
        client_id: 1,
        amount: Some(units(1000.0_f64)),
        variant: RawTransactionVariant::Deposit,
    });
    activity.push(RawTransaction {
        tx_id: 2,
        client_id: 1,
        amount: Some(units(500.0_f64)),
        variant: RawTransactionVariant::Withdrawal,
    });
    activity.push(RawTransaction {
        tx_id: 1,
        client_id: 1,
        amount: None,
        variant: RawTransactionVariant::Dispute,
    });
    activity.push(RawTransaction {
        tx_id: 2,
        client_id: 1,
        amount: None,
        variant: RawTransactionVariant::Dispute,
    });
    activity.push(RawTransaction {
        tx_id: 1,
        client_id: 1,
        amount: None,
        variant: RawTransactionVariant::Resolve,
    });
    activity.push(RawTransaction {
        tx_id: 2,
        client_id: 1,
        amount: None,
        variant: RawTransactionVariant::Resolve,
    });

    let mut client = Client::new(1);

    client.process_activity(activity);

    assert!((as_f64(client.available_balance) - 500.0).abs() < f64::EPSILON);
    assert!((as_f64(client.total_balance) - as_f64(client.available_balance)).abs() < f64::EPSILON);
    assert!(as_f64(client.held_balance).abs() < f64::EPSILON);
    assert!(!client.locked);
}
