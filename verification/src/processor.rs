//! The dispatcher: it shards one sequence of records by client id, keeps
//! one account per client, hands each account its records in the order in
//! which they arrived, and collects the snapshots at the end.

use crate::client::Client;
use crate::state::ClientState;
use crate::transaction::RawTransaction;
use std::collections::HashMap;
use vstd::prelude::*;
use vstd::std_specs::hash::*;

verus! {

broadcast use vstd::std_specs::hash::group_hash_axioms;

/// The dispatcher as a mathematical value: the account of each client seen
/// so far, and the clients in the order in which they were first seen.
pub struct ProcessorState {
    /// The account of each client seen.
    pub accounts: Map<u16, ClientState>,
    /// The clients seen, in order of first appearance.
    pub order: Seq<u16>,
}

/// The records of `txs` that are addressed to `id`, in order.
pub open spec fn addressed_to(txs: Seq<RawTransaction>, id: u16) -> Seq<RawTransaction> {
    txs.filter(|tx: RawTransaction| tx.client_id == id)
}

/// The clients that `txs` addresses, each once, in order of first
/// appearance.
pub open spec fn clients_of(txs: Seq<RawTransaction>) -> Seq<u16>
    decreases txs.len(),
{
    if txs.len() == 0 {
        Seq::empty()
    } else {
        let before = clients_of(txs.drop_last());
        if before.contains(txs.last().client_id) {
            before
        } else {
            before.push(txs.last().client_id)
        }
    }
}

/// The snapshots that `txs` leads to: for each client that `txs` addresses,
/// in order of first appearance, what a fresh account of that client
/// becomes when it is given that client's records alone, in their order.
pub open spec fn sharded(txs: Seq<RawTransaction>) -> Seq<ClientState> {
    Seq::new(
        clients_of(txs).len(),
        |i: int|
            ClientState::new(clients_of(txs)[i]).run(
                addressed_to(txs, clients_of(txs)[i]),
            ).snapshot(),
    )
}

/// The mathematical values of a sequence of accounts.
pub open spec fn views(clients: Seq<Client>) -> Seq<ClientState> {
    Seq::new(clients.len(), |i: int| clients[i]@)
}

impl ProcessorState {
    /// The dispatcher before any record: no account.
    pub open spec fn empty() -> ProcessorState {
        ProcessorState { accounts: Map::empty(), order: Seq::empty() }
    }

    /// The invariant of the dispatcher: each client seen has exactly one
    /// account, under its own id and in order, and no other account is
    /// kept.
    pub open spec fn wf(self) -> bool {
        &&& self.order.no_duplicates()
        &&& forall|id: u16| self.accounts.contains_key(id) <==> self.order.contains(id)
        &&& forall|id: u16| #[trigger]
            self.accounts.contains_key(id) ==> self.accounts[id].id == id && self.accounts[id].wf()
    }

    /// The account that the next record for `id` goes to: the one kept, or
    /// a fresh one.
    pub open spec fn account(self, id: u16) -> ClientState {
        if self.accounts.contains_key(id) {
            self.accounts[id]
        } else {
            ClientState::new(id)
        }
    }

    /// The dispatcher after one record was handed to the account of the
    /// client it names, which is created if this is its first.
    pub open spec fn dispatch(self, tx: RawTransaction) -> ProcessorState {
        ProcessorState {
            accounts: self.accounts.insert(
                tx.client_id,
                self.account(tx.client_id).receive(tx),
            ),
            order: if self.accounts.contains_key(tx.client_id) {
                self.order
            } else {
                self.order.push(tx.client_id)
            },
        }
    }

    /// The dispatcher after a sequence of records was dispatched in order.
    pub open spec fn dispatch_all(self, txs: Seq<RawTransaction>) -> ProcessorState
        decreases txs.len(),
    {
        if txs.len() == 0 {
            self
        } else {
            self.dispatch_all(txs.drop_last()).dispatch(txs.last())
        }
    }

    /// The snapshots of all accounts, in order of first appearance.
    pub open spec fn snapshots(self) -> Seq<ClientState> {
        Seq::new(self.order.len(), |i: int| self.accounts[self.order[i]].snapshot())
    }

    /// Dispatching a record keeps the invariant.
    pub proof fn lemma_dispatch_wf(self, tx: RawTransaction)
        requires
            self.wf(),
        ensures
            self.dispatch(tx).wf(),
    {
        let next = self.dispatch(tx);
        let id = tx.client_id;
        self.account(id).lemma_step_wf(tx);
        self.account(id).lemma_receive_keeps_id(tx);
        if self.accounts.contains_key(id) {
            assert(self.order.contains(id));
        } else {
            assert(!self.order.contains(id));
            assert(next.order.last() == id);
            assert(next.order.drop_last() == self.order);
        }
        assert forall|k: u16| next.accounts.contains_key(k) <==> next.order.contains(k) by {
            if k != id {
                if self.order.contains(k) {
                    let i = self.order.index_of(k);
                    assert(next.order[i] == k);
                }
            }
        }
    }

    /// Dispatching a sequence of records keeps the invariant.
    pub proof fn lemma_dispatch_all_wf(self, txs: Seq<RawTransaction>)
        requires
            self.wf(),
        ensures
            self.dispatch_all(txs).wf(),
        decreases txs.len(),
    {
        if txs.len() > 0 {
            self.lemma_dispatch_all_wf(txs.drop_last());
            self.dispatch_all(txs.drop_last()).lemma_dispatch_wf(txs.last());
        }
    }

    /// What a dispatcher that starts empty has after `txs`: one account for
    /// each client that `txs` addresses, in order of first appearance, and
    /// each account is what a fresh account of that client becomes when
    /// it is given that client's records alone, in their order in `txs`.
    pub proof fn lemma_sharding(txs: Seq<RawTransaction>)
        ensures
            Self::empty().dispatch_all(txs).wf(),
            Self::empty().dispatch_all(txs).order == clients_of(txs),
            forall|id: u16| #[trigger]
                Self::empty().dispatch_all(txs).accounts.contains_key(id)
                    ==> Self::empty().dispatch_all(txs).accounts[id] == ClientState::new(id).run(
                    addressed_to(txs, id),
                ),
            forall|id: u16|
                !Self::empty().dispatch_all(txs).accounts.contains_key(id) ==> #[trigger] addressed_to(
                    txs,
                    id,
                ).len() == 0,
        decreases txs.len(),
    {
        reveal(Seq::filter);
        let done = Self::empty().dispatch_all(txs);
        Self::empty().lemma_dispatch_all_wf(txs);
        if txs.len() > 0 {
            let before = Self::empty().dispatch_all(txs.drop_last());
            let last = txs.last();
            Self::lemma_sharding(txs.drop_last());
            assert forall|id: u16| #[trigger] done.accounts.contains_key(id) implies done.accounts[id]
                == ClientState::new(id).run(addressed_to(txs, id)) by {
                if id == last.client_id {
                    let mine = addressed_to(txs.drop_last(), id);
                    assert(addressed_to(txs, id) == mine.push(last));
                    ClientState::new(id).lemma_run_push(mine, last);
                    if !before.accounts.contains_key(id) {
                        assert(mine.len() == 0);
                    }
                } else {
                    assert(addressed_to(txs, id) == addressed_to(txs.drop_last(), id));
                }
            }
            assert forall|id: u16| !done.accounts.contains_key(id) implies #[trigger] addressed_to(
                txs,
                id,
            ).len() == 0 by {
                assert(id != last.client_id);
                assert(addressed_to(txs, id) == addressed_to(txs.drop_last(), id));
            }
        }
    }
}

/// The records addressed to one client are records of the whole sequence,
/// and where no id is used twice in the whole, none is among them.
pub proof fn lemma_addressed_distinct(txs: Seq<RawTransaction>, id: u16)
    requires
        ClientState::distinct_ids(txs),
    ensures
        ClientState::distinct_ids(addressed_to(txs, id)),
        forall|i: int|
            0 <= i < addressed_to(txs, id).len() ==> txs.contains(#[trigger] addressed_to(txs, id)[i]),
    decreases txs.len(),
{
    reveal(Seq::filter);
    let mine = addressed_to(txs, id);
    if txs.len() > 0 {
        let before = txs.drop_last();
        let earlier = addressed_to(before, id);
        assert forall|i: int, j: int|
            0 <= i < j < before.len() && (before[i].variant is Deposit
                || before[i].variant is Withdrawal) && (before[j].variant is Deposit
                || before[j].variant is Withdrawal) implies before[i].tx_id != before[j].tx_id by {
            assert(before[i] == txs[i] && before[j] == txs[j]);
        }
        lemma_addressed_distinct(before, id);
        assert forall|i: int| 0 <= i < mine.len() implies txs.contains(#[trigger] mine[i]) by {
            if i < earlier.len() {
                assert(mine[i] == earlier[i]);
                assert(before.contains(earlier[i]));
                let k = before.index_of(earlier[i]);
                assert(txs[k] == mine[i]);
            } else {
                assert(mine[i] == txs[txs.len() - 1]);
            }
        }
        assert forall|i: int, j: int|
            0 <= i < j < mine.len() && (mine[i].variant is Deposit || mine[i].variant is Withdrawal)
                && (mine[j].variant is Deposit || mine[j].variant is Withdrawal) implies mine[i].tx_id
                != mine[j].tx_id by {
            assert(mine[i] == earlier[i]);
            if j < earlier.len() {
                assert(mine[j] == earlier[j]);
            } else {
                assert(mine[j] == txs[txs.len() - 1]);
                assert(before.contains(earlier[i]));
                let k = before.index_of(earlier[i]);
                assert(txs[k] == mine[i]);
            }
        }
    }
}

/// Where no two deposits or withdrawals of the whole input come under one
/// id, every snapshot has a total that is its available and held funds
/// together, and one that is not negative unless the account is locked.
pub proof fn lemma_sharded_sound(txs: Seq<RawTransaction>)
    requires
        ClientState::distinct_ids(txs),
    ensures
        forall|i: int|
            0 <= i < sharded(txs).len() ==> (#[trigger] sharded(txs)[i]).balanced() && (sharded(
                txs,
            )[i].locked || sharded(txs)[i].total >= 0),
{
    assert forall|i: int| 0 <= i < sharded(txs).len() implies (#[trigger] sharded(
        txs,
    )[i]).balanced() && (sharded(txs)[i].locked || sharded(txs)[i].total >= 0) by {
        let id = clients_of(txs)[i];
        lemma_addressed_distinct(txs, id);
        ClientState::lemma_fresh_run(id, addressed_to(txs, id));
    }
}

/// The dispatcher: one account per client, in the order in which the
/// clients first appeared.
#[derive(Debug)]
pub struct Processor {
    /// The account of each client seen.
    clients: HashMap<u16, Client>,
    /// The clients seen, in order of first appearance.
    order: Vec<u16>,
}

impl View for Processor {
    type V = ProcessorState;

    closed spec fn view(&self) -> ProcessorState {
        ProcessorState {
            accounts: self.clients@.map_values(|client: Client| client@),
            order: self.order@,
        }
    }
}

impl Default for Processor {
    fn default() -> (processor: Self)
        ensures
            processor@ == ProcessorState::empty(),
            processor@.wf(),
    {
        Processor::new()
    }
}

impl Processor {
    /// A dispatcher that has seen no record.
    pub fn new() -> (processor: Self)
        ensures
            processor@ == ProcessorState::empty(),
            processor@.wf(),
    {
        let processor = Processor { clients: HashMap::new(), order: Vec::new() };
        assert(processor@.accounts == Map::<u16, ClientState>::empty());
        processor
    }

    /// Hands one record to the account of the client it names, creating
    /// the account if this is the client's first record.
    pub fn dispatch(&mut self, transaction: RawTransaction)
        requires
            old(self)@.wf(),
        ensures
            final(self)@ == old(self)@.dispatch(transaction),
            final(self)@.wf(),
    {
        let id = transaction.client_id;
        let mut client = match self.clients.remove(&id) {
            Some(client) => client,
            None => {
                self.order.push(id);
                Client::new(id)
            },
        };
        assert(client@ == old(self)@.account(id));
        client.receive(transaction);
        self.clients.insert(id, client);
        proof {
            assert(self@.accounts == old(self)@.dispatch(transaction).accounts);
            old(self)@.lemma_dispatch_wf(transaction);
        }
    }

    /// Takes the snapshot of every account, in the order in which the
    /// clients first appeared, and leaves the dispatcher empty.
    pub fn join_clients(&mut self) -> (clients: Vec<Client>)
        requires
            old(self)@.wf(),
        ensures
            final(self)@ == ProcessorState::empty(),
            views(clients@) == old(self)@.snapshots(),
            clients.len() == old(self)@.order.len(),
    {
        let mut clients: Vec<Client> = Vec::new();
        let mut i: usize = 0;
        assert forall|j: int| 0 <= j < self.order.len() implies self.clients@.contains_key(
            #[trigger] self.order@[j],
        ) by {
            assert(self@.order.contains(self@.order[j]));
            assert(self@.accounts.contains_key(self@.order[j]));
        }
        while i < self.order.len()
            invariant
                i <= self.order.len(),
                self.order@ == old(self).order@,
                old(self)@.wf(),
                clients.len() == i,
                forall|j: int|
                    0 <= j < i ==> (#[trigger] clients[j])@ == old(self)@.accounts[old(
                        self,
                    ).order@[j]].snapshot(),
                forall|j: int|
                    i <= j < self.order.len() ==> self.clients@.contains_key(#[trigger] self.order@[j])
                        && self.clients@[self.order@[j]]@ == old(self)@.accounts[self.order@[j]],
            decreases self.order.len() - i,
        {
            let id = self.order[i];
            assert(self.clients@.contains_key(self.order@[i as int]));
            if let Some(client) = self.clients.remove(&id) {
                let mut client = client;
                client.finish();
                clients.push(client);
            }
            i = i + 1;
        }
        self.order.clear();
        self.clients.clear();
        proof {
            assert(self@.accounts == Map::<u16, ClientState>::empty());
            assert(views(clients@) == old(self)@.snapshots());
        }
        clients
    }

    /// Dispatches `transactions` in order and collects the snapshots: one
    /// per client, in the order in which the clients first appeared.
    pub fn process_transactions(&mut self, transactions: Vec<RawTransaction>) -> (clients: Vec<
        Client,
    >)
        requires
            old(self)@.wf(),
        ensures
            final(self)@ == ProcessorState::empty(),
            views(clients@) == old(self)@.dispatch_all(transactions@).snapshots(),
            old(self)@ == ProcessorState::empty() ==> views(clients@) == sharded(transactions@),
            old(self)@ == ProcessorState::empty() ==> clients.len() == clients_of(
                transactions@,
            ).len(),
            old(self)@ == ProcessorState::empty() && ClientState::distinct_ids(transactions@)
                ==> forall|i: int|
                0 <= i < clients.len() ==> (#[trigger] clients[i]).total_balance
                    == clients[i].available_balance + clients[i].held_balance && (clients[i].locked
                    || clients[i].total_balance >= 0),
    {
        proof {
            if old(self)@ == ProcessorState::empty() {
                ProcessorState::lemma_sharding(transactions@);
                let done = ProcessorState::empty().dispatch_all(transactions@);
                assert forall|i: int| 0 <= i < done.order.len() implies done.accounts.contains_key(
                    #[trigger] done.order[i],
                ) by {
                    assert(done.order.contains(done.order[i]));
                }
                assert(done.snapshots() == sharded(transactions@));
            }
        }
        let mut i: usize = 0;
        while i < transactions.len()
            invariant
                i <= transactions.len(),
                self@.wf(),
                self@ == old(self)@.dispatch_all(transactions@.take(i as int)),
            decreases transactions.len() - i,
        {
            proof {
                let next = transactions@.take(i + 1);
                assert(next.drop_last() == transactions@.take(i as int));
                assert(next.last() == transactions@[i as int]);
            }
            self.dispatch(transactions[i]);
            i = i + 1;
        }
        assert(transactions@.take(i as int) == transactions@);
        let clients = self.join_clients();
        proof {
            if old(self)@ == ProcessorState::empty() && ClientState::distinct_ids(transactions@) {
                lemma_sharded_sound(transactions@);
                assert forall|i: int| 0 <= i < clients.len() implies (#[trigger] clients[i])@
                    == sharded(transactions@)[i] by {
                    assert(views(clients@)[i] == clients[i]@);
                }
            }
        }
        clients
    }
}

} // verus!
