//! What the server keeps about each connected solver client: the batches it
//! holds, when it last sent something, and how much work and data went
//! through it in recent seconds.
//!
//! Times are milliseconds on a clock that never goes back; the caller reads
//! the clock and passes the reading in.
use vstd::prelude::*;
use std::collections::HashMap;
use crate::batch::{Batch, BatchData, BatchId, Stats};
use vstd::std_specs::iter::IteratorSpec;

verus! {

broadcast use vstd::std_specs::hash::group_hash_axioms;

/// Why a request to the server ended without an answer.
#[derive(Copy, Clone, Debug, PartialEq, Eq, Structural)]
pub enum ApiError {
    Completed,
    StreamFinished,
    Timeout,
}

impl ApiError {
    /// The name of the variant, as the server prints it.
    pub fn message(&self) -> (r: &'static str)
        ensures
            *self == ApiError::Completed ==> r@ == "Completed"@,
            *self == ApiError::StreamFinished ==> r@ == "StreamFinished"@,
            *self == ApiError::Timeout ==> r@ == "Timeout"@,
    {
        match self {
            ApiError::Completed => "Completed",
            ApiError::StreamFinished => "StreamFinished",
            ApiError::Timeout => "Timeout",
        }
    }
}

/// The number the server gave a client when it connected.
#[derive(Copy, Clone, Debug, PartialEq, Eq, Hash, Structural)]
pub struct ClientId {
    id: usize,
}

impl ClientId {
    pub closed spec fn value(&self) -> usize {
        self.id
    }

    pub fn new(id: usize) -> (r: Self)
        ensures
            r.value() == id,
    {
        Self { id }
    }

    pub fn get(&self) -> (r: usize)
        ensures
            r == self.value(),
    {
        self.id
    }
}

/// The number of windows a rate is kept over.
pub const RATE_WINDOWS: usize = 10;

/// A window is closed once this many milliseconds have passed since it opened.
pub const WINDOW_MILLIS: u64 = 1000;

/// The windows after `amount` is counted at time `now`: when the newest
/// window is at least a second old, the oldest is dropped and a new empty one
/// opens at `now`; then `amount` is added to every window.
pub open spec fn counted(w: Seq<(u64, u64)>, now: u64, amount: u64) -> Seq<(u64, u64)> {
    let shifted = if now >= w[0].0 && now - w[0].0 >= WINDOW_MILLIS {
        seq![(now, 0u64)] + w.take(RATE_WINDOWS - 1)
    } else {
        w
    };
    Seq::new(shifted.len(), |i: int| (shifted[i].0, (shifted[i].1 + amount) as u64))
}

/// Ten counting windows, newest first: each holds when it opened and how much
/// was counted since then.
pub struct RateStats {
    data: Vec<(u64, u64)>,
}

impl RateStats {
    /// The windows, newest first.
    pub closed spec fn windows(&self) -> Seq<(u64, u64)> {
        self.data@
    }

    pub open spec fn wf(&self) -> bool {
        self.windows().len() == RATE_WINDOWS
    }

    /// Whether `amount` can be added to every window without overflow.
    pub open spec fn fits(&self, amount: u64) -> bool {
        forall|i: int| 0 <= i < self.windows().len() ==> #[trigger] self.windows()[i].1 + amount <= u64::MAX
    }

    /// Ten empty windows, all opened at `now`.
    pub fn new(now: u64) -> (r: Self)
        ensures
            r.wf(),
            forall|i: int| 0 <= i < RATE_WINDOWS ==> #[trigger] r.windows()[i] == (now, 0u64),
    {
        let mut data: Vec<(u64, u64)> = Vec::new();
        let mut i: usize = 0;
        while i < RATE_WINDOWS
            invariant
                i <= RATE_WINDOWS,
                data@.len() == i,
                forall|j: int| 0 <= j < i ==> #[trigger] data@[j] == (now, 0u64),
            decreases RATE_WINDOWS - i,
        {
            data.push((now, 0));
            i = i + 1;
        }
        Self { data }
    }

    /// Whether `amount` can be counted without overflow.
    pub fn can_add(&self, amount: u64) -> (r: bool)
        requires
            self.wf(),
        ensures
            r == self.fits(amount),
    {
        let mut i: usize = 0;
        while i < self.data.len()
            invariant
                i <= self.data@.len(),
                forall|j: int| 0 <= j < i ==> #[trigger] self.windows()[j].1 + amount <= u64::MAX,
            decreases self.data@.len() - i,
        {
            if self.data[i].1 > u64::MAX - amount {
                assert(self.windows()[i as int].1 + amount > u64::MAX);
                return false;
            }
            i = i + 1;
        }
        true
    }

    /// Counts `amount` at time `now`.
    pub fn add(&mut self, now: u64, amount: u64)
        requires
            old(self).wf(),
            old(self).fits(amount),
        ensures
            final(self).wf(),
            final(self).windows() == counted(old(self).windows(), now, amount),
    {
        let ghost w0 = self.data@;
        let first = self.data[0].0;
        if now >= first && now - first >= WINDOW_MILLIS {
            let mut shifted: Vec<(u64, u64)> = Vec::new();
            shifted.push((now, 0));
            let mut i: usize = 0;
            while i < RATE_WINDOWS - 1
                invariant
                    i <= RATE_WINDOWS - 1,
                    self.data@ == w0,
                    w0.len() == RATE_WINDOWS,
                    shifted@ == seq![(now, 0u64)] + w0.take(i as int),
                decreases RATE_WINDOWS - 1 - i,
            {
                shifted.push(self.data[i]);
                proof {
                    assert(w0.take(i + 1) =~= w0.take(i as int).push(w0[i as int]));
                }
                i = i + 1;
            }
            self.data = shifted;
        }
        let ghost s0 = self.data@;
        assert(forall|j: int| 0 <= j < s0.len() ==> #[trigger] s0[j].1 + amount <= u64::MAX) by {
            assert forall|j: int| 0 <= j < s0.len() implies #[trigger] s0[j].1 + amount <= u64::MAX by {
                if s0 != w0 {
                    if j > 0 {
                        assert(s0[j] == w0[j - 1]);
                    }
                }
            }
        }
        let mut k: usize = 0;
        while k < self.data.len()
            invariant
                k <= self.data@.len(),
                self.data@.len() == s0.len(),
                forall|j: int| 0 <= j < s0.len() ==> #[trigger] s0[j].1 + amount <= u64::MAX,
                forall|j: int| 0 <= j < k ==> #[trigger] self.data@[j] == (s0[j].0, (s0[j].1 + amount) as u64),
                forall|j: int| k <= j < s0.len() ==> #[trigger] self.data@[j] == s0[j],
            decreases self.data@.len() - k,
        {
            let (t, c) = self.data[k];
            self.data.set(k, (t, c + amount));
            k = k + 1;
        }
        proof {
            assert(self.data@ =~= counted(w0, now, amount));
        }
    }

    /// The oldest window: when it opened and how much was counted since.
    pub fn oldest(&self) -> (r: (u64, u64))
        requires
            self.wf(),
        ensures
            r == self.windows()[RATE_WINDOWS - 1],
    {
        self.data[RATE_WINDOWS - 1]
    }
}

/// A solver client as the server sees it.
pub struct Client {
    id: ClientId,
    last_message: u64,
    claimed: HashMap<u64, BatchData>,
    step_counts: RateStats,
    data_sent: RateStats,
    data_recieved: RateStats,
}

impl Client {
    pub closed spec fn id_spec(&self) -> ClientId {
        self.id
    }

    /// When the client last claimed a batch, or when it connected.
    pub closed spec fn last_message_spec(&self) -> u64 {
        self.last_message
    }

    /// The batches the client holds, by batch number.
    pub closed spec fn claimed_map(&self) -> Map<u64, BatchData> {
        self.claimed@
    }

    pub closed spec fn steps_spec(&self) -> RateStats {
        self.step_counts
    }

    pub closed spec fn sent_spec(&self) -> RateStats {
        self.data_sent
    }

    pub closed spec fn recieved_spec(&self) -> RateStats {
        self.data_recieved
    }

    pub open spec fn wf(&self) -> bool {
        &&& self.steps_spec().wf()
        &&& self.sent_spec().wf()
        &&& self.recieved_spec().wf()
    }

    /// A client with number `id` that connected at `now` and holds nothing.
    pub fn new(id: usize, now: u64) -> (r: Self)
        ensures
            r.wf(),
            r.id_spec().value() == id,
            r.last_message_spec() == now,
            r.claimed_map() == Map::<u64, BatchData>::empty(),
            forall|i: int| 0 <= i < RATE_WINDOWS ==> #[trigger] r.steps_spec().windows()[i] == (now, 0u64),
            forall|i: int| 0 <= i < RATE_WINDOWS ==> #[trigger] r.sent_spec().windows()[i] == (now, 0u64),
            forall|i: int| 0 <= i < RATE_WINDOWS ==> #[trigger] r.recieved_spec().windows()[i] == (now, 0u64),
    {
        Self {
            id: ClientId::new(id),
            last_message: now,
            claimed: HashMap::new(),
            step_counts: RateStats::new(now),
            data_sent: RateStats::new(now),
            data_recieved: RateStats::new(now),
        }
    }

    pub fn get_last_updated(&self) -> (r: u64)
        ensures
            r == self.last_message_spec(),
    {
        self.last_message
    }

    pub fn get_id(&self) -> (r: ClientId)
        ensures
            r == self.id_spec(),
    {
        self.id
    }

    /// The number of batches the client holds.
    pub fn claimed_len(&self) -> (r: usize)
        ensures
            r == self.claimed_map().len(),
    {
        self.claimed.len()
    }

    /// The batches the client holds, by batch number.
    pub fn get_claimed(&self) -> (r: &HashMap<u64, BatchData>)
        ensures
            r@ == self.claimed_map(),
    {
        &self.claimed
    }

    /// Gives the client the batch `batch` at time `now`; a batch with the same
    /// number that it held before is replaced.
    pub fn claim_block(&mut self, batch: Batch, now: u64)
        ensures
            final(self).claimed_map() == old(self).claimed_map().insert(
                batch.id_spec().value(),
                batch.data_spec(),
            ),
            final(self).last_message_spec() == now,
            final(self).id_spec() == old(self).id_spec(),
            final(self).steps_spec() == old(self).steps_spec(),
            final(self).sent_spec() == old(self).sent_spec(),
            final(self).recieved_spec() == old(self).recieved_spec(),
    {
        let (id, data) = batch.split();
        self.claimed.insert(id.get(), data);
        self.last_message = now;
    }

    /// The step counts of the client.
    pub fn step_stats(&self) -> (r: &RateStats)
        ensures
            *r == self.steps_spec(),
    {
        &self.step_counts
    }

    /// The bytes sent to the client.
    pub fn sent_stats(&self) -> (r: &RateStats)
        ensures
            *r == self.sent_spec(),
    {
        &self.data_sent
    }

    /// The bytes received from the client.
    pub fn recieved_stats(&self) -> (r: &RateStats)
        ensures
            *r == self.recieved_spec(),
    {
        &self.data_recieved
    }

    /// Counts the steps of `stats` at time `now`.
    pub fn add_stats(&mut self, stats: &Stats, now: u64)
        requires
            old(self).wf(),
            old(self).steps_spec().fits(stats.steps),
        ensures
            final(self).wf(),
            final(self).steps_spec().windows() == counted(old(self).steps_spec().windows(), now, stats.steps),
            final(self).id_spec() == old(self).id_spec(),
            final(self).last_message_spec() == old(self).last_message_spec(),
            final(self).claimed_map() == old(self).claimed_map(),
            final(self).sent_spec() == old(self).sent_spec(),
            final(self).recieved_spec() == old(self).recieved_spec(),
    {
        self.step_counts.add(now, stats.steps);
    }

    /// Counts `amount` bytes received at time `now`.
    pub fn add_recieved_bytes(&mut self, amount: u64, now: u64)
        requires
            old(self).wf(),
            old(self).recieved_spec().fits(amount),
        ensures
            final(self).wf(),
            final(self).recieved_spec().windows() == counted(old(self).recieved_spec().windows(), now, amount),
            final(self).id_spec() == old(self).id_spec(),
            final(self).last_message_spec() == old(self).last_message_spec(),
            final(self).claimed_map() == old(self).claimed_map(),
            final(self).steps_spec() == old(self).steps_spec(),
            final(self).sent_spec() == old(self).sent_spec(),
    {
        self.data_recieved.add(now, amount);
    }

    /// Counts `amount` bytes sent at time `now`.
    pub fn add_sent_bytes(&mut self, amount: u64, now: u64)
        requires
            old(self).wf(),
            old(self).sent_spec().fits(amount),
        ensures
            final(self).wf(),
            final(self).sent_spec().windows() == counted(old(self).sent_spec().windows(), now, amount),
            final(self).id_spec() == old(self).id_spec(),
            final(self).last_message_spec() == old(self).last_message_spec(),
            final(self).claimed_map() == old(self).claimed_map(),
            final(self).steps_spec() == old(self).steps_spec(),
            final(self).recieved_spec() == old(self).recieved_spec(),
    {
        self.data_sent.add(now, amount);
    }
}

impl Client {
    /// Takes the batch with number `id` back from the client, if it holds it.
    pub fn take_claimed(&mut self, id: u64) -> (r: Option<BatchData>)
        ensures
            final(self).claimed_map() == old(self).claimed_map().remove(id),
            r matches Some(d) ==> old(self).claimed_map().contains_key(id) && d == old(self).claimed_map()[id],
            r is None ==> !old(self).claimed_map().contains_key(id),
            final(self).id_spec() == old(self).id_spec(),
            final(self).last_message_spec() == old(self).last_message_spec(),
            final(self).steps_spec() == old(self).steps_spec(),
            final(self).sent_spec() == old(self).sent_spec(),
            final(self).recieved_spec() == old(self).recieved_spec(),
    {
        self.claimed.remove(&id)
    }

    /// Takes back every batch the client holds, each once.
    pub fn take_all_claimed(&mut self) -> (r: Vec<Batch>)
        ensures
            final(self).claimed_map() == Map::<u64, BatchData>::empty(),
            r@.len() == old(self).claimed_map().len(),
            forall|i: int|
                0 <= i < r@.len() ==> old(self).claimed_map().contains_key(#[trigger] r@[i].id_spec().value())
                    && old(self).claimed_map()[r@[i].id_spec().value()] == r@[i].data_spec(),
            forall|i: int, j: int|
                0 <= i < j < r@.len() ==> #[trigger] r@[i].id_spec().value() != #[trigger] r@[j].id_spec().value(),
            final(self).id_spec() == old(self).id_spec(),
            final(self).last_message_spec() == old(self).last_message_spec(),
            final(self).steps_spec() == old(self).steps_spec(),
            final(self).sent_spec() == old(self).sent_spec(),
            final(self).recieved_spec() == old(self).recieved_spec(),
    {
        let ghost m0 = self.claimed@;
        let mut ids: Vec<u64> = Vec::new();
        for k in it: self.claimed.keys()
            invariant
                ids@ == it.seq().take(it.index() as int).unref(),
        {
            ids.push(*k);
            proof {
                assert(ids@ =~= it.seq().take(it.index() + 1).unref());
            }
        }
        proof {
            let rem = vstd::std_specs::hash::spec_keys_iter(&self.claimed).remaining();
            assert(ids@ =~= rem.unref());
            assert(ids@.to_set() == m0.dom());
            assert(ids@.no_duplicates());
            ids@.unique_seq_to_set();
        }
        let mut out: Vec<Batch> = Vec::new();
        let mut i: usize = 0;
        while i < ids.len()
            invariant
                i <= ids@.len(),
                ids@.to_set() == m0.dom(),
                ids@.no_duplicates(),
                out@.len() == i,
                self.claimed@ == m0.remove_keys(ids@.take(i as int).to_set()),
                forall|j: int| 0 <= j < i ==> #[trigger] out@[j].id_spec().value() == ids@[j] && out@[j].data_spec() == m0[ids@[j]],
                forall|j: int| 0 <= j < ids@.len() ==> m0.contains_key(#[trigger] ids@[j]),
                self.id == old(self).id,
                self.last_message == old(self).last_message,
                self.step_counts == old(self).step_counts,
                self.data_sent == old(self).data_sent,
                self.data_recieved == old(self).data_recieved,
            decreases ids@.len() - i,
        {
            let id = ids[i];
            let data = self.claimed.remove(&id);
            proof {
                assert(ids@.take(i + 1).to_set() =~= ids@.take(i as int).to_set().insert(id)) by {
                    assert(ids@.take(i + 1) =~= ids@.take(i as int).push(id));
                    ids@.take(i as int).lemma_push_to_set_commute(id);
                }
                assert(!ids@.take(i as int).to_set().contains(id)) by {
                    if ids@.take(i as int).to_set().contains(id) {
                        let j = choose|j: int| 0 <= j < i && ids@.take(i as int)[j] == id;
                        assert(ids@[j] == ids@[i as int]);
                    }
                }
            }
            match data {
                Some(d) => {
                    out.push(Batch::new(BatchId::new(id), d));
                },
                None => {
                    proof {
                        assert(false);
                    }
                },
            }
            proof {
                assert(self.claimed@ =~= m0.remove_keys(ids@.take(i + 1).to_set()));
            }
            i = i + 1;
        }
        proof {
            assert(ids@.take(ids@.len() as int) =~= ids@);
            assert(self.claimed@ =~= Map::<u64, BatchData>::empty());
        }
        out
    }
}

} // verus!
