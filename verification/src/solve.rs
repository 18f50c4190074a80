//! The server's share-out of the search for one problem: the batches not yet
//! handed to a client, kept in order of how far along they are, the clients
//! taking part, and the clients waiting for a batch.
//!
//! Sending a batch to a waiting client is the caller's part: it takes the
//! waiting client with `take_waiting`, and stores the batch with `store_block`
//! when there is none or the send fails.
use vstd::prelude::*;
use std::collections::HashSet;
use crate::batch::{Batch, BatchData, BatchId, ScheduleArg};
use crate::client::{Client, ClientId};
use crate::scheduler::{Scheduler, scheduler_fits, room_for};
use vstd::std_specs::iter::IteratorSpec;

verus! {

broadcast use vstd::std_specs::hash::group_hash_axioms;

/// Whether the batches of `s` are in order of their placement counts.
pub open spec fn sorted_by_placed(s: Seq<(u64, Batch)>) -> bool {
    forall|i: int, j: int| 0 <= i <= j < s.len() ==> #[trigger] s[i].0 <= #[trigger] s[j].0
}

/// The placement count of the search buffer `words`: the word after the
/// to-explore words.
pub open spec fn placed_of(words: Seq<u64>, to_explore_size: int) -> u64 {
    words[to_explore_size]
}

/// Whether `words` is the start of the search of `s`: the first round seated,
/// the tables of the other rounds to explore, and nothing more.
pub open spec fn is_start_buffer(s: Scheduler, words: Seq<u64>) -> bool {
    &&& words.len() == s.spec_block_size()
    &&& s.valid_buffer(words)
    &&& s.explore_of(words) == s.initial_explore()
    &&& s.state_of(words) == s.seated(s.spec_player_count() as nat)
}

/// The start of the search has every player placed.
pub proof fn lemma_start_placed(s: Scheduler, words: Seq<u64>)
    requires
        s.wf(),
        s.spec_rounds() >= 1,
        is_start_buffer(s, words),
    ensures
        s.state_of(words).placed == s.spec_player_count(),
{
    s.lemma_placed_counts(words, words, 0, 0);
}

/// The search for one problem as the server shares it out.
pub struct ScheduleState {
    arg: ScheduleArg,
    unclaimed: Vec<(u64, Batch)>,
    clients: HashSet<usize>,
    queue: Vec<usize>,
    next_block_id: u64,
    block_size: usize,
    to_explore_size: usize,
}

impl ScheduleState {
    pub closed spec fn arg_spec(&self) -> ScheduleArg {
        self.arg
    }

    /// The batches not yet handed out, with their placement counts, fewest
    /// placements first.
    pub closed spec fn unclaimed_spec(&self) -> Seq<(u64, Batch)> {
        self.unclaimed@
    }

    /// The clients taking part.
    pub closed spec fn clients_spec(&self) -> Set<usize> {
        self.clients@
    }

    /// The clients waiting for a batch, first come first.
    pub closed spec fn queue_spec(&self) -> Seq<usize> {
        self.queue@
    }

    /// The number the next new batch gets.
    pub closed spec fn next_id_spec(&self) -> u64 {
        self.next_block_id
    }

    /// The number of words of a search buffer.
    pub closed spec fn block_size_spec(&self) -> int {
        self.block_size as int
    }

    /// The number of to-explore words at the start of a search buffer.
    pub closed spec fn to_explore_size_spec(&self) -> int {
        self.to_explore_size as int
    }

    /// The batches not yet handed out are in order of the counts kept beside
    /// them, each a whole search buffer.
    pub open spec fn wf(&self) -> bool {
        &&& self.to_explore_size_spec() < self.block_size_spec()
        &&& sorted_by_placed(self.unclaimed_spec())
        &&& forall|i: int|
            0 <= i < self.unclaimed_spec().len() ==> (#[trigger] self.unclaimed_spec()[i]).1.data_spec().words().len()
                >= self.block_size_spec()
    }

    /// The search for `arg`: one batch, number 0 and kept with count 0,
    /// holding the start of the search; no clients and no one waiting.
    pub fn new(arg: ScheduleArg) -> (r: Self)
        requires
            scheduler_fits(arg.tables_spec(), arg.rounds_spec() as int),
            arg.rounds_spec() >= 1,
            room_for(arg.tables_spec(), arg.rounds_spec() as int),
        ensures
            r.wf(),
            r.arg_spec() == arg,
            r.unclaimed_spec().len() == 1,
            r.unclaimed_spec()[0].0 == 0,
            r.unclaimed_spec()[0].1.id_spec().value() == 0,
            r.unclaimed_spec()[0].1.data_spec().words().len() == r.block_size_spec(),
            exists|s: Scheduler|
                #[trigger] s.wf() && s.spec_tables() == arg.tables_spec() && s.spec_rounds() == arg.rounds_spec()
                    && s.spec_block_size() == r.block_size_spec() && is_start_buffer(
                    s,
                    r.unclaimed_spec()[0].1.data_spec().words(),
                ),
            r.clients_spec() == Set::<usize>::empty(),
            r.queue_spec() == Seq::<usize>::empty(),
            r.next_id_spec() == 1,
    {
        let scheduler = Scheduler::new(arg.get_tables(), arg.get_rounds());
        let block_size = scheduler.get_block_size();
        let to_explore_size = scheduler.get_to_explore_size();
        let mut init: Vec<u64> = vec![0u64; block_size];
        proof {
            scheduler.lemma_room_for();
        }
        let _ = scheduler.initialise_buffer(init.as_mut_slice());
        let ghost start = init@;
        let batch = Batch::new(BatchId::new(0), BatchData::new(init));
        let mut unclaimed: Vec<(u64, Batch)> = Vec::new();
        unclaimed.push((0, batch));
        let r = Self {
            arg,
            unclaimed,
            clients: HashSet::new(),
            queue: Vec::new(),
            next_block_id: 1,
            block_size,
            to_explore_size,
        };
        proof {
            assert(r.unclaimed_spec()[0].1.data_spec().words() == start);
            assert(is_start_buffer(scheduler, start));
            assert(scheduler.wf());
        }
        r
    }

    /// Counts `client` as taking part, and hands it the batch with the most
    /// placements, if any is left; otherwise puts it at the back of the
    /// clients waiting. A batch handed out is also given to the client at
    /// time `now`.
    pub fn get_block(&mut self, client: &mut Client, now: u64) -> (r: Option<Batch>)
        requires
            old(self).wf(),
        ensures
            final(self).wf(),
            final(self).clients_spec() == old(self).clients_spec().insert(old(client).id_spec().value()),
            final(self).arg_spec() == old(self).arg_spec(),
            final(self).next_id_spec() == old(self).next_id_spec(),
            old(self).unclaimed_spec().len() > 0 ==> {
                let last = old(self).unclaimed_spec().last().1;
                &&& (r matches Some(b) && b.id_spec() == last.id_spec() && b.data_spec().words() == last.data_spec().words())
                &&& final(self).unclaimed_spec() == old(self).unclaimed_spec().drop_last()
                &&& final(self).queue_spec() == old(self).queue_spec()
                &&& final(client).claimed_map().dom() == old(client).claimed_map().dom().insert(last.id_spec().value())
                &&& final(client).claimed_map()[last.id_spec().value()].words() == last.data_spec().words()
                &&& forall|k: u64| k != last.id_spec().value() && #[trigger] old(client).claimed_map().contains_key(k)
                    ==> final(client).claimed_map()[k] == old(client).claimed_map()[k]
                &&& final(client).last_message_spec() == now
            },
            old(self).unclaimed_spec().len() == 0 ==> {
                &&& r is None
                &&& final(self).unclaimed_spec() == old(self).unclaimed_spec()
                &&& final(self).queue_spec() == old(self).queue_spec().push(old(client).id_spec().value())
                &&& *final(client) == *old(client)
            },
            final(client).id_spec() == old(client).id_spec(),
            final(client).steps_spec() == old(client).steps_spec(),
            final(client).sent_spec() == old(client).sent_spec(),
            final(client).recieved_spec() == old(client).recieved_spec(),
    {
        let id = client.get_id().get();
        if !self.clients.contains(&id) {
            self.clients.insert(id);
        } else {
            proof {
                assert(self.clients@.insert(id) =~= self.clients@);
            }
        }
        match self.unclaimed.pop() {
            Some((_, next)) => {
                let given = next.duplicate();
                client.claim_block(given, now);
                proof {
                    assert(client.claimed_map().dom() =~= old(client).claimed_map().dom().insert(next.id_spec().value()));
                }
                Some(next)
            },
            None => {
                self.queue.push(id);
                None
            },
        }
    }

    /// Takes the client that has waited longest, if any is waiting.
    pub fn take_waiting(&mut self) -> (r: Option<ClientId>)
        requires
            old(self).wf(),
        ensures
            final(self).wf(),
            old(self).queue_spec().len() > 0 ==> (r matches Some(c) && c.value() == old(self).queue_spec()[0]
                && final(self).queue_spec() == old(self).queue_spec().drop_first()),
            old(self).queue_spec().len() == 0 ==> r is None && final(self).queue_spec() == old(self).queue_spec(),
            final(self).unclaimed_spec() == old(self).unclaimed_spec(),
            final(self).block_size_spec() == old(self).block_size_spec(),
            final(self).to_explore_size_spec() == old(self).to_explore_size_spec(),
            final(self).clients_spec() == old(self).clients_spec(),
            final(self).next_id_spec() == old(self).next_id_spec(),
            final(self).arg_spec() == old(self).arg_spec(),
    {
        if self.queue.len() > 0 {
            let c = self.queue.remove(0);
            proof {
                assert(self.queue@ =~= old(self).queue_spec().drop_first());
            }
            Some(ClientId::new(c))
        } else {
            None
        }
    }

    /// Keeps `batch` among the batches not yet handed out, after those with
    /// fewer placements and before those with more.
    pub fn store_block(&mut self, batch: Batch)
        requires
            old(self).wf(),
            batch.data_spec().words().len() >= old(self).block_size_spec(),
        ensures
            final(self).wf(),
            exists|i: int|
                0 <= i <= old(self).unclaimed_spec().len() && final(self).unclaimed_spec()
                    == old(self).unclaimed_spec().insert(
                    i,
                    (placed_of(batch.data_spec().words(), old(self).to_explore_size_spec()), batch),
                ),
            final(self).queue_spec() == old(self).queue_spec(),
            final(self).clients_spec() == old(self).clients_spec(),
            final(self).next_id_spec() == old(self).next_id_spec(),
            final(self).arg_spec() == old(self).arg_spec(),
    {
        let placed = batch.get_data().get_ref()[self.to_explore_size];
        let mut index: usize = 0;
        while index < self.unclaimed.len() && self.unclaimed[index].0 < placed
            invariant
                index <= self.unclaimed@.len(),
                forall|j: int| 0 <= j < index ==> #[trigger] self.unclaimed@[j].0 < placed,
            decreases self.unclaimed@.len() - index,
        {
            index = index + 1;
        }
        let ghost before = self.unclaimed@;
        self.unclaimed.insert(index, (placed, batch));
        proof {
            let after = self.unclaimed@;
            assert(after == before.insert(index as int, (placed, batch)));
            assert(index < before.len() ==> before[index as int].0 >= placed);
            assert forall|i: int, j: int| 0 <= i <= j < after.len() implies #[trigger] after[i].0 <= #[trigger] after[j].0 by {
                if i < index && j > index {
                    assert(before[i].0 <= before[j - 1].0);
                } else if i < index && j < index {
                    assert(before[i].0 <= before[j].0);
                } else if i > index {
                    assert(before[i - 1].0 <= before[j - 1].0);
                } else if i == index && j > index {
                    assert(before[index as int].0 <= before[j - 1].0);
                }
            }
            assert forall|i: int| 0 <= i < after.len() implies (#[trigger] after[i]).1.data_spec().words().len()
                >= self.block_size_spec() by {
                if i < index {
                    assert(after[i] == before[i]);
                } else if i > index {
                    assert(after[i] == before[i - 1]);
                }
            }
        }
    }

    /// Hands `batch` out: to the client that has waited longest, which is
    /// returned with the batch for the caller to send it to, or, when no
    /// client waits, into the batches not yet handed out.
    pub fn hand_out(&mut self, batch: Batch) -> (r: Option<(ClientId, Batch)>)
        requires
            old(self).wf(),
            batch.data_spec().words().len() >= old(self).block_size_spec(),
        ensures
            final(self).wf(),
            old(self).queue_spec().len() > 0 ==> {
                &&& r matches Some(x) && x.0.value() == old(self).queue_spec()[0] && x.1 == batch
                &&& final(self).queue_spec() == old(self).queue_spec().drop_first()
                &&& final(self).unclaimed_spec() == old(self).unclaimed_spec()
            },
            old(self).queue_spec().len() == 0 ==> {
                &&& r is None
                &&& final(self).queue_spec() == old(self).queue_spec()
                &&& exists|i: int|
                    0 <= i <= old(self).unclaimed_spec().len() && final(self).unclaimed_spec()
                        == old(self).unclaimed_spec().insert(
                        i,
                        (placed_of(batch.data_spec().words(), old(self).to_explore_size_spec()), batch),
                    )
            },
            final(self).clients_spec() == old(self).clients_spec(),
            final(self).next_id_spec() == old(self).next_id_spec(),
            final(self).arg_spec() == old(self).arg_spec(),
    {
        let taken = self.take_waiting();
        match taken {
            Some(c) => Some((c, batch)),
            None => {
                self.store_block(batch);
                None
            },
        }
    }

    /// Takes in the result of batch `base` from `client`: when the client
    /// takes part, the batch is taken back from it and each child buffer
    /// becomes a new batch, numbered on from the next number; when it does
    /// not, nothing changes. The new batches are returned for the caller to
    /// hand out or store.
    pub fn add_batch_result(&mut self, client: &mut Client, base: u64, children: Vec<Vec<u64>>) -> (r: Vec<Batch>)
        requires
            old(self).wf(),
            old(self).clients_spec().contains(old(client).id_spec().value()) ==> old(client).claimed_map().contains_key(base),
        ensures
            final(self).wf(),
            final(self).unclaimed_spec() == old(self).unclaimed_spec(),
            final(self).queue_spec() == old(self).queue_spec(),
            final(self).clients_spec() == old(self).clients_spec(),
            final(self).arg_spec() == old(self).arg_spec(),
            !old(self).clients_spec().contains(old(client).id_spec().value()) ==> {
                &&& r@.len() == 0
                &&& *final(client) == *old(client)
                &&& final(self).next_id_spec() == old(self).next_id_spec()
            },
            old(self).clients_spec().contains(old(client).id_spec().value()) ==> {
                &&& final(client).claimed_map() == old(client).claimed_map().remove(base)
                &&& final(client).last_message_spec() == old(client).last_message_spec()
                &&& r@.len() == children@.len()
                &&& forall|i: int|
                    0 <= i < r@.len() ==> (#[trigger] r@[i]).id_spec().value() == (old(self).next_id_spec() + i)
                        % 0x1_0000_0000_0000_0000 && r@[i].data_spec().words() == children@[i]@
                &&& final(self).next_id_spec() == (old(self).next_id_spec() + children@.len()) % 0x1_0000_0000_0000_0000
            },
            final(client).id_spec() == old(client).id_spec(),
            final(client).steps_spec() == old(client).steps_spec(),
            final(client).sent_spec() == old(client).sent_spec(),
            final(client).recieved_spec() == old(client).recieved_spec(),
    {
        let mut out: Vec<Batch> = Vec::new();
        let id = client.get_id().get();
        if self.clients.contains(&id) {
            let taken = client.take_claimed(base);
            let mut i: usize = 0;
            let ghost start = self.next_block_id;
            while i < children.len()
                invariant
                    i <= children@.len(),
                    out@.len() == i,
                    self.next_block_id == (start + i) % 0x1_0000_0000_0000_0000,
                    forall|j: int|
                        0 <= j < i ==> (#[trigger] out@[j]).id_spec().value() == (start + j) % 0x1_0000_0000_0000_0000
                            && out@[j].data_spec().words() == children@[j]@,
                    self.unclaimed == old(self).unclaimed,
                    self.queue == old(self).queue,
                    self.clients == old(self).clients,
                    self.arg == old(self).arg,
                    self.block_size == old(self).block_size,
                    self.to_explore_size == old(self).to_explore_size,
                decreases children@.len() - i,
            {
                let block_id = self.next_block_id;
                self.next_block_id = self.next_block_id.wrapping_add(1);
                let words = children[i].clone();
                proof {
                    assert(words@ =~= children@[i as int]@);
                }
                out.push(Batch::new(BatchId::new(block_id), BatchData::new(words)));
                proof {
                    assert((start + i + 1) % 0x1_0000_0000_0000_0000 == ((start + i) % 0x1_0000_0000_0000_0000 + 1)
                        % 0x1_0000_0000_0000_0000) by (nonlinear_arith);
                }
                i = i + 1;
            }
        }
        out
    }

    /// Stops counting `client` as taking part: takes back every batch it holds
    /// and drops it from the clients waiting. The batches are returned for the
    /// caller to hand out or store. Nothing changes for a client that does not
    /// take part.
    pub fn free_all_from_client(&mut self, client: &mut Client) -> (r: Vec<Batch>)
        requires
            old(self).wf(),
        ensures
            final(self).wf(),
            final(self).clients_spec() == old(self).clients_spec().remove(old(client).id_spec().value()),
            final(self).unclaimed_spec() == old(self).unclaimed_spec(),
            final(self).next_id_spec() == old(self).next_id_spec(),
            final(self).arg_spec() == old(self).arg_spec(),
            !old(self).clients_spec().contains(old(client).id_spec().value()) ==> {
                &&& r@.len() == 0
                &&& *final(client) == *old(client)
                &&& final(self).queue_spec() == old(self).queue_spec()
            },
            old(self).clients_spec().contains(old(client).id_spec().value()) ==> {
                &&& final(client).claimed_map() == Map::<u64, BatchData>::empty()
                &&& r@.len() == old(client).claimed_map().len()
                &&& forall|i: int|
                    0 <= i < r@.len() ==> old(client).claimed_map().contains_key(#[trigger] r@[i].id_spec().value())
                        && old(client).claimed_map()[r@[i].id_spec().value()] == r@[i].data_spec()
                &&& forall|i: int, j: int|
                    0 <= i < j < r@.len() ==> #[trigger] r@[i].id_spec().value() != #[trigger] r@[j].id_spec().value()
                &&& final(self).queue_spec() == old(self).queue_spec().filter(
                    |c: usize| c != old(client).id_spec().value(),
                )
            },
            final(client).id_spec() == old(client).id_spec(),
    {
        let id = client.get_id().get();
        if self.clients.remove(&id) {
            let taken = client.take_all_claimed();
            let mut kept: Vec<usize> = Vec::new();
            let mut i: usize = 0;
            while i < self.queue.len()
                invariant
                    i <= self.queue@.len(),
                    self.queue == old(self).queue,
                    kept@ == self.queue@.take(i as int).filter(|c: usize| c != id),
                decreases self.queue@.len() - i,
            {
                let c = self.queue[i];
                proof {
                    assert(self.queue@.take(i + 1) =~= self.queue@.take(i as int).push(c));
                    self.queue@.take(i as int).lemma_filter_push(c, |c: usize| c != id);
                }
                if c != id {
                    kept.push(c);
                }
                i = i + 1;
            }
            proof {
                assert(self.queue@.take(self.queue@.len() as int) =~= self.queue@);
            }
            self.queue = kept;
            taken
        } else {
            Vec::new()
        }
    }

    pub fn get_unclaimed_len(&self) -> (r: usize)
        ensures
            r == self.unclaimed_spec().len(),
    {
        self.unclaimed.len()
    }

    pub fn get_queue_len(&self) -> (r: usize)
        ensures
            r == self.queue_spec().len(),
    {
        self.queue.len()
    }

    /// The numbers of the clients taking part, each once.
    pub fn get_clients(&self) -> (r: Vec<usize>)
        ensures
            r@.to_set() == self.clients_spec(),
            r@.no_duplicates(),
    {
        let mut out: Vec<usize> = Vec::new();
        for x in it: self.clients.iter()
            invariant
                out@ == it.seq().take(it.index() as int).unref(),
        {
            out.push(*x);
            proof {
                assert(out@ =~= it.seq().take(it.index() + 1).unref());
            }
        }
        proof {
            let rem = vstd::std_specs::hash::spec_hash_keys_iter(&self.clients).remaining();
            assert(out@ =~= rem.unref());
        }
        out
    }

    pub fn get_block_size(&self) -> (r: usize)
        ensures
            r == self.block_size_spec(),
    {
        self.block_size
    }
}

} // verus!
