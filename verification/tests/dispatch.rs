use dispute_engine::client::Client;
use dispute_engine::processor::Processor;
use dispute_engine::transaction::{RawTransaction, RawTransactionVariant};

fn record(
    variant: RawTransactionVariant,
    client_id: u16,
    tx_id: u32,
    amount: Option<i64>,
) -> RawTransaction {
    RawTransaction { variant, client_id, tx_id, amount }
}

fn mixed_records() -> Vec<RawTransaction> {
    vec![
        record(RawTransactionVariant::Deposit, 3, 1, Some(50_000)),
        record(RawTransactionVariant::Deposit, 1, 2, Some(70_000)),
        record(RawTransactionVariant::Withdrawal, 3, 3, Some(20_000)),
        record(RawTransactionVariant::Deposit, 2, 4, Some(10_000)),
        record(RawTransactionVariant::Dispute, 1, 2, None),
        record(RawTransactionVariant::Withdrawal, 2, 5, Some(30_000)),
        record(RawTransactionVariant::Chargeback, 1, 2, None),
        record(RawTransactionVariant::Deposit, 1, 6, Some(90_000)),
        record(RawTransactionVariant::Dispute, 3, 3, None),
        record(RawTransactionVariant::Deposit, 1, 7, Some(90_000)),
        record(RawTransactionVariant::Deposit, 2, 8, Some(1)),
    ]
}

fn snapshot(client: &Client) -> (u16, i128, i128, i128, bool) {
    (client.id, client.available_balance, client.held_balance, client.total_balance, client.locked)
}

#[test]
fn no_records_give_no_clients() {
    let mut processor = Processor::new();
    assert!(processor.process_transactions(Vec::new()).is_empty());
}

#[test]
fn clients_come_out_once_each_in_order_of_first_appearance() {
    let mut processor = Processor::new();
    let clients = processor.process_transactions(mixed_records());
    let ids: Vec<u16> = clients.iter().map(|client| client.id).collect();
    assert_eq!(ids, vec![3, 1, 2]);
}

#[test]
fn each_client_is_given_its_own_records_in_their_order() {
    let mut processor = Processor::new();
    let clients = processor.process_transactions(mixed_records());
    assert_eq!(clients.len(), 3);
    for client in &clients {
        let mut alone = Client::new(client.id);
        alone.process_activity(
            mixed_records().into_iter().filter(|record| record.client_id == client.id).collect(),
        );
        assert_eq!(snapshot(client), snapshot(&alone));
    }
    assert_eq!(snapshot(&clients[0]), (3, 50_000, -20_000, 30_000, false));
    assert_eq!(snapshot(&clients[1]), (1, 0, 0, 0, true));
    assert_eq!(snapshot(&clients[2]), (2, 10_001, 0, 10_001, false));
}

#[test]
fn a_locked_client_ignores_its_later_records_while_the_others_go_on() {
    let mut processor = Processor::new();
    let clients = processor.process_transactions(vec![
        record(RawTransactionVariant::Deposit, 1, 1, Some(15_000_000)),
        record(RawTransactionVariant::Deposit, 2, 2, Some(5)),
        record(RawTransactionVariant::Dispute, 1, 1, None),
        record(RawTransactionVariant::Chargeback, 1, 1, None),
        record(RawTransactionVariant::Deposit, 1, 3, Some(10_000_000)),
        record(RawTransactionVariant::Deposit, 1, 4, Some(10_000_000)),
        record(RawTransactionVariant::Deposit, 1, 5, Some(10_000_000)),
        record(RawTransactionVariant::Deposit, 2, 6, Some(5)),
    ]);
    assert_eq!(snapshot(&clients[0]), (1, 0, 0, 0, true));
    assert_eq!(snapshot(&clients[1]), (2, 10, 0, 10, false));
}

#[test]
fn a_client_that_only_sends_malformed_records_still_gets_a_snapshot() {
    let mut processor = Processor::new();
    let clients = processor.process_transactions(vec![
        record(RawTransactionVariant::Deposit, 9, 1, Some(-5)),
        record(RawTransactionVariant::Dispute, 9, 1, Some(5)),
    ]);
    assert_eq!(clients.len(), 1);
    assert_eq!(snapshot(&clients[0]), (9, 0, 0, 0, false));
}

#[test]
fn snapshots_carry_no_working_memory() {
    let mut processor = Processor::new();
    let clients = processor.process_transactions(mixed_records());
    for client in &clients {
        assert_eq!(client.memory.len(), 0);
        assert_eq!(client.memory.window_len(), 0);
    }
}

#[test]
fn records_can_be_dispatched_one_by_one_and_joined() {
    let mut processor = Processor::default();
    for record in mixed_records() {
        processor.dispatch(record);
    }
    let stepwise: Vec<_> = processor.join_clients().iter().map(snapshot).collect();
    let at_once: Vec<_> =
        Processor::new().process_transactions(mixed_records()).iter().map(snapshot).collect();
    assert_eq!(stepwise, at_once);
}

#[test]
fn a_dispatcher_is_empty_again_after_it_was_joined() {
    let mut processor = Processor::new();
    let first = processor.process_transactions(mixed_records());
    assert_eq!(first.len(), 3);
    assert!(processor.join_clients().is_empty());
    let second = processor.process_transactions(vec![record(
        RawTransactionVariant::Deposit,
        1,
        1,
        Some(1),
    )]);
    assert_eq!(second.len(), 1);
    assert_eq!(snapshot(&second[0]), (1, 1, 0, 1, false));
}

#[test]
fn the_same_transaction_id_is_kept_apart_between_clients() {
    let mut processor = Processor::new();
    let clients = processor.process_transactions(vec![
        record(RawTransactionVariant::Deposit, 1, 1, Some(100)),
        record(RawTransactionVariant::Deposit, 2, 1, Some(200)),
        record(RawTransactionVariant::Dispute, 2, 1, None),
    ]);
    assert_eq!(snapshot(&clients[0]), (1, 100, 0, 100, false));
    assert_eq!(snapshot(&clients[1]), (2, 0, 200, 200, false));
}
