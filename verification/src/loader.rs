//! The batched, deduplicating, cached key-to-value loader.
//!
//! The loader is an event-driven state machine.  A driver (the code that
//! owns the scheduler and the data source) feeds it three kinds of event and
//! carries out the actions it hands back:
//!
//! - [`KeyedLoader::load`]: one caller asks for a key.  A cached key is
//!   answered at once; otherwise the caller receives a ticket and waits.
//!   When the key completes the open batch, the batch closes on the spot and
//!   the reply carries the [`DispatchJob`] the driver must fetch.
//! - [`KeyedLoader::note_yield`]: the driver yielded control once.  After a
//!   configured number of yields an open batch closes even when it is not
//!   full, which bounds latency for sparse traffic.
//! - [`KeyedLoader::complete_dispatch`]: one dispatched batch's fetch
//!   finished.  The loader caches the per-key results (on success) and hands
//!   back one [`Resolution`] per waiting ticket.
//!
//! Keys are deduplicated per batch, a key is never carried by two
//! outstanding batches at once, and a cached key never reaches a batch
//! again, so one resolution pass fetches each distinct key at most once.

use vstd::prelude::*;
use vstd::pervasive::VecAdditionalExecFns;
use crate::record::Question;
use crate::value_map::{ValueMap, value_for};

verus! {

/// The default ceiling on the distinct keys one batch may accumulate
/// before it closes.
pub const DEFAULT_MAX_BATCH_SIZE: usize = 100;

/// The default number of yields an open batch survives before it closes.
pub const DEFAULT_YIELD_BUDGET: usize = 100;

/// Why a batch fetch failed.  The whole batch shares one outcome: a
/// transport, query or row-decode failure never yields partial results.
#[derive(Clone, Copy, PartialEq, Eq, Structural, Debug)]
pub enum FetchError {
    Connection,
    Query,
    Decode,
}

/// One suspended `load` call: the key it asked for and the ticket its
/// caller holds while waiting.
#[derive(Clone, Copy, PartialEq, Eq, Structural, Debug)]
pub struct PendingRequest {
    pub key: u128,
    pub ticket: u64,
}

/// A batch: the distinct keys accumulated since the last dispatch and the
/// requests waiting on them.  `id` is assigned when the batch closes;
/// `yields_seen` counts the driver's yields while the batch is open.
pub struct Batch {
    pub id: u64,
    pub keys: Vec<u128>,
    pub waiters: Vec<PendingRequest>,
    pub yields_seen: usize,
}

/// A closed batch the driver must now fetch: pass `keys` to the bulk query,
/// group the rows, and hand the outcome back under `batch_id`.
pub struct DispatchJob {
    pub batch_id: u64,
    pub keys: Vec<u128>,
}

/// The loader's answer to one `load` call.
pub enum LoadReply {
    /// The key was cached; here is its value, immediately.
    Ready(Vec<Question>),
    /// The caller waits under this ticket for a batch to resolve.
    Pending(u64),
    /// As `Pending`, and the key just filled the open batch: the driver
    /// must now fetch this job.
    PendingDispatch(u64, DispatchJob),
}

/// The outcome handed back for one waiting ticket when its batch resolves.
pub struct Resolution {
    pub ticket: u64,
    pub outcome: Result<Vec<Question>, FetchError>,
}

/// The batched, deduplicating, cached key-to-value loader.
pub struct KeyedLoader {
    /// Distinct-key ceiling per batch; reaching it closes the batch.
    pub max_batch_size: usize,
    /// Yields allowed while a batch stays open; reaching it closes the batch.
    pub yield_budget: usize,
    /// The next ticket to hand to a suspended caller.
    pub next_ticket: u64,
    /// The next id to stamp on a closing batch.
    pub next_batch_id: u64,
    /// Per-key results of completed fetches, for the loader's lifetime.
    pub cache: ValueMap,
    /// The batch currently accepting keys, if any.
    pub open_batch: Option<Batch>,
    /// Batches dispatched and not yet completed.
    pub in_flight: Vec<Batch>,
}

impl KeyedLoader {
    /// The keys of the open batch (empty when none is open).
    pub open spec fn open_keys(&self) -> Seq<u128> {
        match self.open_batch {
            Some(b) => b.keys@,
            None => Seq::<u128>::empty(),
        }
    }

    /// The waiters of the open batch (empty when none is open).
    pub open spec fn open_waiters(&self) -> Seq<PendingRequest> {
        match self.open_batch {
            Some(b) => b.waiters@,
            None => Seq::<PendingRequest>::empty(),
        }
    }

    /// The yields counted against the open batch (zero when none is open).
    pub open spec fn open_yields(&self) -> int {
        match self.open_batch {
            Some(b) => b.yields_seen as int,
            None => 0,
        }
    }

    /// Whether some dispatched, uncompleted batch carries `k`.
    pub open spec fn key_in_flight(&self, k: u128) -> bool {
        exists|i: int| 0 <= i < self.in_flight@.len() && #[trigger] self.in_flight@[i].keys@.contains(k)
    }

    /// Whether some dispatched, uncompleted batch has id `batch_id`.
    pub open spec fn has_flight(&self, batch_id: u64) -> bool {
        exists|i: int| 0 <= i < self.in_flight@.len() && #[trigger] self.in_flight@[i].id == batch_id
    }

    /// The position of the dispatched batch with id `batch_id`.
    pub open spec fn flight_index(&self, batch_id: u64) -> int {
        choose|i: int| 0 <= i < self.in_flight@.len() && #[trigger] self.in_flight@[i].id == batch_id
    }

    /// Whether some waiter of `b` asked for `k`.
    pub open spec fn key_has_waiter(b: Batch, k: u128) -> bool {
        exists|j: int| 0 <= j < b.waiters@.len() && (#[trigger] b.waiters@[j]).key == k
    }

    /// A batch's own shape: distinct keys, at least one of them, every
    /// waiter under one of the keys and every key with at least one waiter.
    pub open spec fn batch_wf(b: Batch) -> bool {
        &&& b.keys@.no_duplicates()
        &&& b.keys@.len() >= 1
        &&& forall|j: int| 0 <= j < b.waiters@.len() ==> b.keys@.contains(#[trigger] b.waiters@[j].key)
        &&& forall|i: int| 0 <= i < b.keys@.len() ==> Self::key_has_waiter(b, #[trigger] b.keys@[i])
    }

    /// A batch's tickets come from this loader's counter: all below the
    /// counter and strictly increasing in arrival order.
    pub open spec fn batch_tickets_wf(b: Batch, next_ticket: u64) -> bool {
        &&& forall|j: int| 0 <= j < b.waiters@.len() ==> #[trigger] b.waiters@[j].ticket < next_ticket
        &&& forall|j1: int, j2: int| 0 <= j1 < j2 < b.waiters@.len()
                ==> b.waiters@[j1].ticket < b.waiters@[j2].ticket
    }

    /// The loader's invariant.
    pub open spec fn wf(&self) -> bool {
        &&& self.max_batch_size >= 1
        &&& self.cache.wf()
        // the open batch, when there is one, is well formed, below the
        // distinct-key ceiling, within the yield budget, and none of its
        // keys is cached or in flight
        &&& (self.open_batch matches Some(b) ==> {
            &&& Self::batch_wf(b)
            &&& Self::batch_tickets_wf(b, self.next_ticket)
            &&& b.keys@.len() < self.max_batch_size
            &&& b.yields_seen <= self.yield_budget
            &&& forall|j: int| 0 <= j < b.keys@.len()
                    ==> !self.cache@.contains_key(#[trigger] b.keys@[j])
            &&& forall|j: int| 0 <= j < b.keys@.len() ==> !self.key_in_flight(#[trigger] b.keys@[j])
        })
        // every dispatched batch is well formed, within the ceiling, and
        // none of its keys is cached
        &&& (forall|i: int| 0 <= i < self.in_flight@.len() ==> Self::batch_wf(#[trigger] self.in_flight@[i]))
        &&& (forall|i: int| 0 <= i < self.in_flight@.len()
                ==> Self::batch_tickets_wf(#[trigger] self.in_flight@[i], self.next_ticket))
        &&& (forall|i: int| 0 <= i < self.in_flight@.len()
                ==> (#[trigger] self.in_flight@[i]).keys@.len() <= self.max_batch_size)
        &&& (forall|i: int, j: int| 0 <= i < self.in_flight@.len()
                && 0 <= j < self.in_flight@[i].keys@.len()
                ==> !self.cache@.contains_key(#[trigger] self.in_flight@[i].keys@[j]))
        // no key is carried by two outstanding batches
        &&& (forall|i1: int, i2: int, k: u128| 0 <= i1 < self.in_flight@.len()
                && 0 <= i2 < self.in_flight@.len() && i1 != i2
                && #[trigger] self.in_flight@[i1].keys@.contains(k)
                ==> !(#[trigger] self.in_flight@[i2].keys@.contains(k)))
        // dispatched batch ids come from this loader's counter, uniquely
        &&& (forall|i: int| 0 <= i < self.in_flight@.len()
                ==> (#[trigger] self.in_flight@[i]).id < self.next_batch_id)
        &&& (forall|i1: int, i2: int| 0 <= i1 < i2 < self.in_flight@.len()
                ==> self.in_flight@[i1].id != self.in_flight@[i2].id)
    }

    /// A fresh loader: empty cache, no batch open, nothing in flight.
    pub fn new(max_batch_size: usize, yield_budget: usize) -> (r: KeyedLoader)
        requires
            max_batch_size >= 1,
        ensures
            r.wf(),
            r.max_batch_size == max_batch_size,
            r.yield_budget == yield_budget,
            r.cache@ == Map::<u128, Seq<Question>>::empty(),
            r.open_batch is None,
            r.in_flight@.len() == 0,
            r.next_ticket == 0,
            r.next_batch_id == 0,
    {
        KeyedLoader {
            max_batch_size,
            yield_budget,
            next_ticket: 0,
            next_batch_id: 0,
            cache: ValueMap::new(),
            open_batch: None,
            in_flight: Vec::new(),
        }
    }

    /// Asks for one key.
    ///
    /// A cached key is answered immediately with its cached value and the
    /// loader is left untouched.  Any other key suspends the caller under a
    /// fresh ticket: the key joins the open batch (the batch it already sits
    /// in, when it was asked for before — a batch fetches each distinct key
    /// once), or the dispatched batch that is already fetching it.  A key
    /// that fills the open batch to `max_batch_size` closes it on the spot,
    /// and the reply carries the job the driver must fetch.
    pub fn load(&mut self, key: u128) -> (r: LoadReply)
        requires
            old(self).wf(),
            old(self).next_ticket < u64::MAX,
            old(self).next_batch_id < u64::MAX,
        ensures
            final(self).wf(),
            final(self).max_batch_size == old(self).max_batch_size,
            final(self).yield_budget == old(self).yield_budget,
            final(self).cache@ == old(self).cache@,
            // a cached key: its value, at once, and no state change at all
            old(self).cache@.contains_key(key) ==> {
                &&& r matches LoadReply::Ready(v) && v@ == old(self).cache@[key]
                &&& *final(self) == *old(self)
            },
            // any other key suspends the caller under the next ticket
            !old(self).cache@.contains_key(key) ==> final(self).next_ticket == old(self).next_ticket + 1,
            // a key already in the open batch: one more waiter, no new key
            (!old(self).cache@.contains_key(key) && old(self).open_keys().contains(key)) ==> {
                &&& r matches LoadReply::Pending(t) && t == old(self).next_ticket
                &&& final(self).open_batch matches Some(b)
                    && b.keys@ == old(self).open_keys()
                    && b.waiters@ == old(self).open_waiters().push(
                        (PendingRequest { key: key, ticket: old(self).next_ticket }))
                    && b.yields_seen as int == old(self).open_yields()
                &&& final(self).in_flight@ == old(self).in_flight@
                &&& final(self).next_batch_id == old(self).next_batch_id
            },
            // a key some dispatched batch is already fetching: the waiter
            // attaches to that batch; no batch gains a key
            (!old(self).cache@.contains_key(key) && !old(self).open_keys().contains(key)
                && old(self).key_in_flight(key)) ==> {
                &&& r matches LoadReply::Pending(t) && t == old(self).next_ticket
                &&& final(self).open_batch == old(self).open_batch
                &&& final(self).next_batch_id == old(self).next_batch_id
                &&& exists|i: int| #![auto] 0 <= i < old(self).in_flight@.len()
                    && old(self).in_flight@[i].keys@.contains(key)
                    && final(self).in_flight@ == old(self).in_flight@.update(i, final(self).in_flight@[i])
                    && final(self).in_flight@[i].id == old(self).in_flight@[i].id
                    && final(self).in_flight@[i].keys@ == old(self).in_flight@[i].keys@
                    && final(self).in_flight@[i].yields_seen == old(self).in_flight@[i].yields_seen
                    && final(self).in_flight@[i].waiters@ == old(self).in_flight@[i].waiters@.push(
                        (PendingRequest { key: key, ticket: old(self).next_ticket }))
            },
            // a new key joins the open batch (opening one when none is open)
            (!old(self).cache@.contains_key(key) && !old(self).open_keys().contains(key)
                && !old(self).key_in_flight(key)
                && old(self).open_keys().len() + 1 < old(self).max_batch_size) ==> {
                &&& r matches LoadReply::Pending(t) && t == old(self).next_ticket
                &&& final(self).open_batch matches Some(b)
                    && b.keys@ == old(self).open_keys().push(key)
                    && b.waiters@ == old(self).open_waiters().push(
                        (PendingRequest { key: key, ticket: old(self).next_ticket }))
                    && b.yields_seen as int == old(self).open_yields()
                &&& final(self).in_flight@ == old(self).in_flight@
                &&& final(self).next_batch_id == old(self).next_batch_id
            },
            // a new key that fills the open batch closes and dispatches it
            (!old(self).cache@.contains_key(key) && !old(self).open_keys().contains(key)
                && !old(self).key_in_flight(key)
                && old(self).open_keys().len() + 1 == old(self).max_batch_size) ==> {
                &&& r matches LoadReply::PendingDispatch(t, job)
                    && t == old(self).next_ticket
                    && job.batch_id == old(self).next_batch_id
                    && job.keys@ == old(self).open_keys().push(key)
                &&& final(self).open_batch is None
                &&& final(self).next_batch_id == old(self).next_batch_id + 1
                &&& final(self).in_flight@.len() == old(self).in_flight@.len() + 1
                &&& final(self).in_flight@.drop_last() == old(self).in_flight@
                &&& final(self).in_flight@.last().id == old(self).next_batch_id
                &&& final(self).in_flight@.last().keys@ == old(self).open_keys().push(key)
                &&& final(self).in_flight@.last().waiters@ == old(self).open_waiters().push(
                    (PendingRequest { key: key, ticket: old(self).next_ticket }))
            },
            // a dispatched job never repeats a key
            (r matches LoadReply::PendingDispatch(t, job) ==> job.keys@.no_duplicates()),
    {
        if let Some(v) = self.cache.get(key) {
            return LoadReply::Ready(clone_rows(v));
        }

        let t = self.next_ticket;
        self.next_ticket = t + 1;

        // Does the key already sit in the open batch?
        let ob = self.open_batch.take();
        match ob {
            Some(mut b) => {
                if contains_u128(&b.keys, key) {
                    let ghost b0 = b;
                    b.waiters.push(PendingRequest { key, ticket: t });
                    proof {
                        assert(old(self).open_batch == Some(b0));
                        assert(Self::batch_wf(b0));
                        assert(Self::batch_tickets_wf(b0, t));
                        assert forall|ii: int| 0 <= ii < b.keys@.len()
                            implies Self::key_has_waiter(b, #[trigger] b.keys@[ii]) by {
                            assert(Self::key_has_waiter(b0, b0.keys@[ii]));
                            let j = choose|j: int|
                                0 <= j < b0.waiters@.len() && (#[trigger] b0.waiters@[j]).key == b0.keys@[ii];
                            assert((b.waiters@[j]).key == b.keys@[ii]);
                        }
                    }
                    self.open_batch = Some(b);
                    return LoadReply::Pending(t);
                }
                self.open_batch = Some(b);
            }
            None => {}
        }

        // Is the key already being fetched by a dispatched batch?
        if let Some(i) = self.find_flight_with_key(key) {
            let ghost flights0 = self.in_flight@;
            let mut entry = Batch { id: 0, keys: Vec::new(), waiters: Vec::new(), yields_seen: 0 };
            self.in_flight.set_and_swap(i, &mut entry);
            entry.waiters.push(PendingRequest { key, ticket: t });
            self.in_flight.set_and_swap(i, &mut entry);
            proof {
                assert(flights0 == old(self).in_flight@);
                assert(self.in_flight@ =~= flights0.update(i as int, self.in_flight@[i as int]));
                let b0 = flights0[i as int];
                let b1 = self.in_flight@[i as int];
                assert(b1.keys@ == b0.keys@);
                assert(b1.id == b0.id);
                assert(b1.waiters@ == b0.waiters@.push(PendingRequest { key, ticket: t }));
                assert(Self::batch_wf(b0));
                assert(Self::batch_tickets_wf(b0, t));
                assert forall|ii: int| 0 <= ii < b1.keys@.len()
                    implies Self::key_has_waiter(b1, #[trigger] b1.keys@[ii]) by {
                    assert(Self::key_has_waiter(b0, b0.keys@[ii]));
                    let j = choose|j: int|
                        0 <= j < b0.waiters@.len() && (#[trigger] b0.waiters@[j]).key == b0.keys@[ii];
                    assert((b1.waiters@[j]).key == b1.keys@[ii]);
                }
                assert forall|x: int| 0 <= x < self.in_flight@.len()
                    implies (#[trigger] self.in_flight@[x]).keys@ == flights0[x].keys@
                        && self.in_flight@[x].id == flights0[x].id by {
                }
            }
            return LoadReply::Pending(t);
        }

        // A new key: extend the open batch, opening one when none is open.
        let mut b = match self.open_batch.take() {
            Some(b) => b,
            None => Batch { id: 0, keys: Vec::new(), waiters: Vec::new(), yields_seen: 0 },
        };
        let ghost b0 = b;
        proof {
            if old(self).open_batch is Some {
                assert(b0 == old(self).open_batch.unwrap());
                assert(Self::batch_wf(b0));
                assert(Self::batch_tickets_wf(b0, old(self).next_ticket));
            }
            assert(b0.keys@ == old(self).open_keys());
            assert(b0.waiters@ == old(self).open_waiters());
            assert(b0.keys@.no_duplicates());
            assert(forall|j: int| 0 <= j < b0.waiters@.len()
                ==> b0.keys@.contains(#[trigger] b0.waiters@[j].key));
            assert(forall|ii: int| 0 <= ii < b0.keys@.len()
                ==> Self::key_has_waiter(b0, #[trigger] b0.keys@[ii]));
            assert(forall|j: int| 0 <= j < b0.waiters@.len() ==> #[trigger] b0.waiters@[j].ticket < t);
            assert(forall|j1: int, j2: int| 0 <= j1 < j2 < b0.waiters@.len()
                ==> b0.waiters@[j1].ticket < b0.waiters@[j2].ticket);
            assert(forall|j: int| 0 <= j < b0.keys@.len()
                ==> !old(self).cache@.contains_key(#[trigger] b0.keys@[j]));
            assert(forall|j: int| 0 <= j < b0.keys@.len()
                ==> !old(self).key_in_flight(#[trigger] b0.keys@[j]));
            assert(b0.keys@.len() < old(self).max_batch_size);
        }
        b.keys.push(key);
        b.waiters.push(PendingRequest { key, ticket: t });
        proof {
            assert(b.keys@ == b0.keys@.push(key));
            assert(b.waiters@ == b0.waiters@.push(PendingRequest { key, ticket: t }));
            assert(!b0.keys@.contains(key));
            assert forall|i1: int, i2: int| 0 <= i1 < i2 < b.keys@.len()
                implies b.keys@[i1] != b.keys@[i2] by {
                if i2 == b.keys@.len() - 1 {
                    if b.keys@[i1] == key {
                        assert(b0.keys@[i1] == key);
                        assert(b0.keys@.contains(key));
                    }
                }
            }
            assert(b.keys@.no_duplicates());
            assert forall|j: int| 0 <= j < b.waiters@.len()
                implies b.keys@.contains(#[trigger] b.waiters@[j].key) by {
                if j < b0.waiters@.len() {
                    let idx = choose|x: int| 0 <= x < b0.keys@.len() && b0.keys@[x] == b0.waiters@[j].key;
                    assert(b.keys@[idx] == b.waiters@[j].key);
                } else {
                    assert(b.keys@[b.keys@.len() - 1] == key);
                }
            }
            assert forall|ii: int| 0 <= ii < b.keys@.len()
                implies Self::key_has_waiter(b, #[trigger] b.keys@[ii]) by {
                if ii < b0.keys@.len() {
                    assert(Self::key_has_waiter(b0, b0.keys@[ii]));
                    let j = choose|j: int|
                        0 <= j < b0.waiters@.len() && (#[trigger] b0.waiters@[j]).key == b0.keys@[ii];
                    assert((b.waiters@[j]).key == b.keys@[ii]);
                } else {
                    assert((b.waiters@[b.waiters@.len() - 1]).key == b.keys@[ii]);
                }
            }
            // none of the batch's keys is cached or already being fetched
            assert forall|j: int| 0 <= j < b.keys@.len()
                implies !old(self).cache@.contains_key(#[trigger] b.keys@[j])
                    && !old(self).key_in_flight(b.keys@[j]) by {
                if j == b.keys@.len() - 1 {
                    assert(b.keys@[j] == key);
                }
            }
        }
        if b.keys.len() == self.max_batch_size {
            let id = self.next_batch_id;
            self.next_batch_id = id + 1;
            b.id = id;
            let job_keys = clone_keys(&b.keys);
            self.in_flight.push(b);
            proof {
                assert(self.in_flight@.drop_last() =~= old(self).in_flight@);
            }
            LoadReply::PendingDispatch(t, DispatchJob { batch_id: id, keys: job_keys })
        } else {
            self.open_batch = Some(b);
            LoadReply::Pending(t)
        }
    }

    /// A batch with the same keys and the same waiters as a well-formed one
    /// is itself well formed, whatever its id or yield count.
    proof fn lemma_batch_same_shape(b0: Batch, b1: Batch)
        requires
            b1.keys@ == b0.keys@,
            b1.waiters@ == b0.waiters@,
            Self::batch_wf(b0),
        ensures
            Self::batch_wf(b1),
    {
        assert forall|ii: int| 0 <= ii < b1.keys@.len()
            implies Self::key_has_waiter(b1, #[trigger] b1.keys@[ii]) by {
            assert(Self::key_has_waiter(b0, b0.keys@[ii]));
            let j = choose|j: int|
                0 <= j < b0.waiters@.len() && (#[trigger] b0.waiters@[j]).key == b0.keys@[ii];
            assert((b1.waiters@[j]).key == b1.keys@[ii]);
        }
    }

    /// Records one cooperative yield of the driver.
    ///
    /// An open batch that has seen `yield_budget` yields closes even when it
    /// is not full, which bounds how long sparse traffic waits; the returned
    /// job must then be fetched.  With no open batch a yield changes nothing.
    pub fn note_yield(&mut self) -> (r: Option<DispatchJob>)
        requires
            old(self).wf(),
            old(self).next_batch_id < u64::MAX,
        ensures
            final(self).wf(),
            final(self).max_batch_size == old(self).max_batch_size,
            final(self).yield_budget == old(self).yield_budget,
            final(self).cache@ == old(self).cache@,
            final(self).next_ticket == old(self).next_ticket,
            old(self).open_batch is None ==> (r is None && *final(self) == *old(self)),
            // a batch still within its budget stays open, one yield older
            old(self).open_batch matches Some(b)
                ==> (b.yields_seen + 1 < old(self).yield_budget) ==> {
                &&& r is None
                &&& final(self).open_batch matches Some(b1)
                    && b1.keys@ == b.keys@
                    && b1.waiters@ == b.waiters@
                    && b1.yields_seen == b.yields_seen + 1
                &&& final(self).in_flight@ == old(self).in_flight@
                &&& final(self).next_batch_id == old(self).next_batch_id
            },
            // a batch whose budget is spent closes and dispatches
            old(self).open_batch matches Some(b)
                ==> (b.yields_seen + 1 >= old(self).yield_budget) ==> {
                &&& r matches Some(job)
                    && job.batch_id == old(self).next_batch_id
                    && job.keys@ == b.keys@
                    && job.keys@.no_duplicates()
                &&& final(self).open_batch is None
                &&& final(self).next_batch_id == old(self).next_batch_id + 1
                &&& final(self).in_flight@.len() == old(self).in_flight@.len() + 1
                &&& final(self).in_flight@.drop_last() == old(self).in_flight@
                &&& final(self).in_flight@.last().id == old(self).next_batch_id
                &&& final(self).in_flight@.last().keys@ == b.keys@
                &&& final(self).in_flight@.last().waiters@ == b.waiters@
            },
    {
        let ob = self.open_batch.take();
        match ob {
            None => None,
            Some(mut b) => {
                let ghost b0 = b;
                if b.yields_seen < self.yield_budget {
                    b.yields_seen = b.yields_seen + 1;
                }
                if b.yields_seen >= self.yield_budget {
                    let id = self.next_batch_id;
                    self.next_batch_id = id + 1;
                    b.id = id;
                    let job_keys = clone_keys(&b.keys);
                    self.in_flight.push(b);
                    proof {
                        assert(self.in_flight@.drop_last() =~= old(self).in_flight@);
                        assert(old(self).open_batch == Some(b0));
                        Self::lemma_batch_same_shape(b0, self.in_flight@.last());
                    }
                    Some(DispatchJob { batch_id: id, keys: job_keys })
                } else {
                    self.open_batch = Some(b);
                    proof {
                        assert(old(self).open_batch == Some(b0));
                        Self::lemma_batch_same_shape(b0, self.open_batch.unwrap());
                    }
                    None
                }
            }
        }
    }

    /// The position of some dispatched batch carrying `key`, if any.
    fn find_flight_with_key(&self, key: u128) -> (r: Option<usize>)
        ensures
            (match r {
                Some(i) => i < self.in_flight@.len() && self.in_flight@[i as int].keys@.contains(key),
                None => !self.key_in_flight(key),
            }),
    {
        let n = self.in_flight.len();
        for i in 0..n
            invariant
                n == self.in_flight@.len(),
                forall|j: int| 0 <= j < i ==> !(#[trigger] self.in_flight@[j].keys@.contains(key)),
        {
            if contains_u128(&self.in_flight[i].keys, key) {
                return Some(i);
            }
        }
        None
    }

    /// The dispatched batch with id `batch_id`.
    pub open spec fn flight_batch(&self, batch_id: u64) -> Batch {
        self.in_flight@[self.flight_index(batch_id)]
    }

    /// Hands a dispatched batch its fetch's outcome and resolves its waiters.
    ///
    /// On success every key of the batch is cached — a key the fetch
    /// returned no rows for is cached as an empty list — and every waiter
    /// receives the rows now cached under its key.  On failure the cache is
    /// left exactly as it was, so the keys stay retryable, and every waiter
    /// receives the same error.  Either way the batch is gone afterwards and
    /// the resolutions line up with the batch's waiters, in arrival order.
    pub fn complete_dispatch(&mut self, batch_id: u64, outcome: Result<&ValueMap, FetchError>)
        -> (res: Vec<Resolution>)
        requires
            old(self).wf(),
            old(self).has_flight(batch_id),
            (outcome matches Ok(m) ==> m.wf()),
        ensures
            final(self).wf(),
            final(self).max_batch_size == old(self).max_batch_size,
            final(self).yield_budget == old(self).yield_budget,
            final(self).next_ticket == old(self).next_ticket,
            final(self).next_batch_id == old(self).next_batch_id,
            final(self).open_batch == old(self).open_batch,
            final(self).in_flight@ == old(self).in_flight@.remove(old(self).flight_index(batch_id)),
            res@.len() == old(self).flight_batch(batch_id).waiters@.len(),
            forall|j: int| 0 <= j < res@.len() ==> (#[trigger] res@[j]).ticket
                == old(self).flight_batch(batch_id).waiters@[j].ticket,
            // success: every key of the batch is cached — absent keys as
            // empty lists — and each waiter gets the rows for its key
            outcome matches Ok(m) ==> {
                &&& final(self).cache@ == old(self).cache@.union_prefer_right(
                    Map::new(
                        |k: u128| old(self).flight_batch(batch_id).keys@.contains(k),
                        |k: u128| value_for(m@, k)))
                &&& forall|j: int| 0 <= j < res@.len() ==> ((#[trigger] res@[j]).outcome matches Ok(v)
                    && v@ == value_for(m@, old(self).flight_batch(batch_id).waiters@[j].key))
            },
            // failure: the cache is untouched — none of the batch's keys is
            // cached, so they stay retryable — and every waiter gets the
            // same error
            outcome matches Err(e) ==> {
                &&& final(self).cache@ == old(self).cache@
                &&& forall|j: int| 0 <= j < res@.len()
                    ==> (#[trigger] res@[j]).outcome == Err::<Vec<Question>, FetchError>(e)
                &&& forall|jj: int| 0 <= jj < old(self).flight_batch(batch_id).keys@.len()
                    ==> !final(self).cache@.contains_key(
                        #[trigger] old(self).flight_batch(batch_id).keys@[jj])
            },
    {
        let found = self.find_flight_index(batch_id);
        if let Some(idx) = found {
            let ghost idx0 = old(self).flight_index(batch_id);
            proof {
                assert(0 <= idx0 < old(self).in_flight@.len()
                    && old(self).in_flight@[idx0].id == batch_id);
                if idx as int != idx0 {
                    assert(old(self).in_flight@[idx as int].id
                        != old(self).in_flight@[idx0].id);
                }
                assert(idx as int == idx0);
            }
            let fb = self.in_flight.remove(idx);
            let ghost fl0 = old(self).in_flight@;
            let ghost fl1 = self.in_flight@;
            proof {
                assert(Self::batch_wf(fb));
                assert(old(self).flight_batch(batch_id) == fb);
                fl0.remove_ensures(idx as int);
                // the remaining dispatched batches keep their own invariants
                assert forall|x: int| 0 <= x < fl1.len() implies Self::batch_wf(#[trigger] fl1[x])
                    && Self::batch_tickets_wf(fl1[x], old(self).next_ticket)
                    && fl1[x].keys@.len() <= old(self).max_batch_size
                    && fl1[x].id < old(self).next_batch_id by {
                    if x < idx as int {
                        assert(fl1[x] == fl0[x]);
                    } else {
                        assert(fl1[x] == fl0[x + 1]);
                    }
                }
                assert forall|x1: int, x2: int| 0 <= x1 < x2 < fl1.len()
                    implies fl1[x1].id != fl1[x2].id by {
                    let y1: int = if x1 < idx as int { x1 } else { x1 + 1 };
                    let y2: int = if x2 < idx as int { x2 } else { x2 + 1 };
                    assert(fl1[x1] == fl0[y1]);
                    assert(fl1[x2] == fl0[y2]);
                }
                assert forall|x1: int, x2: int, k: u128| 0 <= x1 < fl1.len() && 0 <= x2 < fl1.len()
                    && x1 != x2 && #[trigger] fl1[x1].keys@.contains(k)
                    implies !(#[trigger] fl1[x2].keys@.contains(k)) by {
                    let y1: int = if x1 < idx as int { x1 } else { x1 + 1 };
                    let y2: int = if x2 < idx as int { x2 } else { x2 + 1 };
                    assert(fl1[x1] == fl0[y1]);
                    assert(fl1[x2] == fl0[y2]);
                }
                // a key of a remaining batch is not a key of the completed one
                assert forall|x: int, k: u128| 0 <= x < fl1.len() && #[trigger] fl1[x].keys@.contains(k)
                    implies !fb.keys@.contains(k) && !self.cache@.contains_key(k) by {
                    let y: int = if x < idx as int { x } else { x + 1 };
                    assert(fl1[x] == fl0[y]);
                    assert(y != idx as int);
                    let w = choose|w: int| 0 <= w < fl0[y].keys@.len() && fl0[y].keys@[w] == k;
                    assert(!old(self).cache@.contains_key(fl0[y].keys@[w]));
                }
                // the open batch's keys are in no remaining batch either
                if old(self).open_batch is Some {
                    let ob = old(self).open_batch.unwrap();
                    assert forall|j: int| 0 <= j < ob.keys@.len()
                        implies !self.key_in_flight(#[trigger] ob.keys@[j]) by {
                        if self.key_in_flight(ob.keys@[j]) {
                            let x = choose|x: int| 0 <= x < self.in_flight@.len()
                                && #[trigger] self.in_flight@[x].keys@.contains(ob.keys@[j]);
                            let y: int = if x < idx as int { x } else { x + 1 };
                            assert(fl1[x] == fl0[y]);
                            assert(old(self).in_flight@[y].keys@.contains(ob.keys@[j]));
                            assert(old(self).key_in_flight(ob.keys@[j]));
                            assert(!old(self).key_in_flight(ob.keys@[j]));
                        }
                    }
                }
            }
            match outcome {
                Err(e) => {
                    let ghost s1 = *self;
                    let n = fb.waiters.len();
                    let mut res: Vec<Resolution> = Vec::new();
                    for j in 0..n
                        invariant
                            *self == s1,
                            n == fb.waiters@.len(),
                            res@.len() == j,
                            forall|x: int| 0 <= x < j ==> (#[trigger] res@[x]).ticket == fb.waiters@[x].ticket
                                && res@[x].outcome == Err::<Vec<Question>, FetchError>(e),
                    {
                        res.push(Resolution { ticket: fb.waiters[j].ticket, outcome: Err(e) });
                    }
                    res
                }
                Ok(m) => {
                    // cache every key of the batch, fetched rows or empty
                    let kn = fb.keys.len();
                    let ghost cache0 = self.cache@;
                    for j in 0..kn
                        invariant
                            kn == fb.keys@.len(),
                            self.cache.wf(),
                            m.wf(),
                            self.max_batch_size == old(self).max_batch_size,
                            self.yield_budget == old(self).yield_budget,
                            self.next_ticket == old(self).next_ticket,
                            self.next_batch_id == old(self).next_batch_id,
                            self.open_batch == old(self).open_batch,
                            self.in_flight@ == fl1,
                            self.cache@ == cache0.union_prefer_right(
                                Map::new(
                                    |k: u128| fb.keys@.take(j as int).contains(k),
                                    |k: u128| value_for(m@, k))),
                    {
                        let key = fb.keys[j];
                        let rows = match m.get(key) {
                            Some(v) => clone_rows(v),
                            None => Vec::new(),
                        };
                        proof {
                            assert(rows@ == value_for(m@, key));
                        }
                        self.cache.insert(key, rows);
                        proof {
                            let t0 = fb.keys@.take(j as int);
                            let t1 = fb.keys@.take(j as int + 1);
                            assert(t1 =~= t0.push(fb.keys@[j as int]));
                            assert forall|k: u128| #[trigger] t1.contains(k)
                                <==> (t0.contains(k) || k == fb.keys@[j as int]) by {
                                if t1.contains(k) {
                                    let w = choose|w: int| 0 <= w < t1.len() && t1[w] == k;
                                    if w < j as int {
                                        assert(t0[w] == k);
                                        assert(t0.contains(k));
                                    } else {
                                        assert(k == fb.keys@[j as int]);
                                    }
                                }
                                if t0.contains(k) {
                                    let w = choose|w: int| 0 <= w < t0.len() && t0[w] == k;
                                    assert(t1[w] == k);
                                    assert(t1.contains(k));
                                }
                                if k == fb.keys@[j as int] {
                                    assert(t1[j as int] == k);
                                    assert(t1.contains(k));
                                }
                            }
                            assert(self.cache@ =~= cache0.union_prefer_right(
                                Map::new(
                                    |k: u128| t1.contains(k),
                                    |k: u128| value_for(m@, k))));
                        }
                    }
                    proof {
                        assert(fb.keys@.take(kn as int) =~= fb.keys@);
                        assert(self.cache@ =~= cache0.union_prefer_right(
                            Map::new(
                                |k: u128| fb.keys@.contains(k),
                                |k: u128| value_for(m@, k))));
                        // the cache now holds every key of the batch, and no
                        // key of a remaining or open batch
                        assert forall|k: u128| #[trigger] fb.keys@.contains(k)
                            implies self.cache@.contains_key(k)
                                && self.cache@[k] == value_for(m@, k) by {
                        }
                        assert forall|x: int, k: u128| 0 <= x < fl1.len()
                            && #[trigger] fl1[x].keys@.contains(k)
                            implies !self.cache@.contains_key(k) by {
                        }
                        if old(self).open_batch is Some {
                            let ob = old(self).open_batch.unwrap();
                            assert forall|j: int| 0 <= j < ob.keys@.len()
                                implies !self.cache@.contains_key(#[trigger] ob.keys@[j]) by {
                                assert(!cache0.contains_key(ob.keys@[j]));
                                if fb.keys@.contains(ob.keys@[j]) {
                                    assert(old(self).in_flight@[idx as int].keys@.contains(ob.keys@[j]));
                                    assert(old(self).key_in_flight(ob.keys@[j]));
                                    assert(!old(self).key_in_flight(ob.keys@[j]));
                                }
                            }
                        }
                    }
                    // resolve every waiter from the cache
                    let ghost s2 = *self;
                    let wn = fb.waiters.len();
                    let mut res: Vec<Resolution> = Vec::new();
                    for j in 0..wn
                        invariant
                            *self == s2,
                            wn == fb.waiters@.len(),
                            res@.len() == j,
                            self.cache.wf(),
                            forall|jj: int| 0 <= jj < fb.waiters@.len()
                                ==> fb.keys@.contains((#[trigger] fb.waiters@[jj]).key),
                            forall|k: u128| #[trigger] fb.keys@.contains(k)
                                ==> self.cache@.contains_key(k) && self.cache@[k] == value_for(m@, k),
                            forall|x: int| 0 <= x < j ==> (#[trigger] res@[x]).ticket == fb.waiters@[x].ticket
                                && (res@[x].outcome matches Ok(v)
                                    && v@ == value_for(m@, fb.waiters@[x].key)),
                    {
                        let w = fb.waiters[j];
                        let rows = match self.cache.get(w.key) {
                            Some(v) => clone_rows(v),
                            None => Vec::new(),
                        };
                        proof {
                            assert(fb.keys@.contains(fb.waiters@[j as int].key));
                            assert(rows@ == value_for(m@, w.key));
                        }
                        res.push(Resolution { ticket: w.ticket, outcome: Ok(rows) });
                    }
                    res
                }
            }
        } else {
            proof {
                assert(false);
            }
            Vec::new()
        }
    }

    /// The position of the dispatched batch with id `batch_id`.
    fn find_flight_index(&self, batch_id: u64) -> (r: Option<usize>)
        ensures
            (match r {
                Some(i) => i < self.in_flight@.len() && self.in_flight@[i as int].id == batch_id,
                None => !self.has_flight(batch_id),
            }),
    {
        let n = self.in_flight.len();
        for i in 0..n
            invariant
                n == self.in_flight@.len(),
                forall|j: int| 0 <= j < i ==> (#[trigger] self.in_flight@[j]).id != batch_id,
        {
            if self.in_flight[i].id == batch_id {
                return Some(i);
            }
        }
        None
    }

    /// Asks for several keys at once.
    ///
    /// The replies line up with the keys, position for position: the reply
    /// for `keys[i]` is `rs[i]`, whatever order the underlying batches are
    /// dispatched and resolved in.  A cached key is answered on the spot;
    /// the rest suspend their callers as single `load` calls would.
    pub fn load_many(&mut self, keys: &Vec<u128>) -> (rs: Vec<LoadReply>)
        requires
            old(self).wf(),
            old(self).next_ticket + keys@.len() < u64::MAX,
            old(self).next_batch_id + keys@.len() < u64::MAX,
        ensures
            final(self).wf(),
            final(self).max_batch_size == old(self).max_batch_size,
            final(self).yield_budget == old(self).yield_budget,
            final(self).cache@ == old(self).cache@,
            rs@.len() == keys@.len(),
            // the i-th reply answers the i-th key
            forall|i: int| 0 <= i < keys@.len() && old(self).cache@.contains_key(keys@[i])
                ==> ((#[trigger] rs@[i]) matches LoadReply::Ready(v)
                    && v@ == old(self).cache@[keys@[i]]),
            forall|i: int| 0 <= i < keys@.len() && !old(self).cache@.contains_key(keys@[i])
                ==> !((#[trigger] rs@[i]) is Ready),
    {
        let n = keys.len();
        let mut rs: Vec<LoadReply> = Vec::new();
        for i in 0..n
            invariant
                n == keys@.len(),
                self.wf(),
                rs@.len() == i,
                self.max_batch_size == old(self).max_batch_size,
                self.yield_budget == old(self).yield_budget,
                self.cache@ == old(self).cache@,
                self.next_ticket <= old(self).next_ticket + i,
                self.next_batch_id <= old(self).next_batch_id + i,
                old(self).next_ticket + n < u64::MAX,
                old(self).next_batch_id + n < u64::MAX,
                forall|x: int| 0 <= x < i && old(self).cache@.contains_key(keys@[x])
                    ==> ((#[trigger] rs@[x]) matches LoadReply::Ready(v)
                        && v@ == old(self).cache@[keys@[x]]),
                forall|x: int| 0 <= x < i && !old(self).cache@.contains_key(keys@[x])
                    ==> !((#[trigger] rs@[x]) is Ready),
        {
            let ghost pre = *self;
            let r = self.load(keys[i]);
            proof {
                if !pre.cache@.contains_key(keys@[i as int]) {
                    if !pre.open_keys().contains(keys@[i as int])
                        && !pre.key_in_flight(keys@[i as int]) {
                        assert(pre.open_keys().len() + 1 <= pre.max_batch_size);
                    }
                    assert(!(r is Ready));
                }
            }
            rs.push(r);
        }
        rs
    }

    /// Reads the cached values for `keys`, in the keys' own order.
    ///
    /// `Some` exactly when every key is cached; the i-th entry then holds
    /// the value cached for the i-th key, so once a pass's batches have all
    /// resolved, the values come back in the order the keys were given.
    pub fn collect_cached(&self, keys: &Vec<u128>) -> (r: Option<Vec<Vec<Question>>>)
        requires
            self.wf(),
        ensures
            (r is Some <==> forall|i: int| 0 <= i < keys@.len()
                ==> self.cache@.contains_key(#[trigger] keys@[i])),
            r matches Some(vs) ==> {
                &&& vs@.len() == keys@.len()
                &&& forall|i: int| 0 <= i < keys@.len()
                    ==> (#[trigger] vs@[i])@ == self.cache@[keys@[i]]
            },
    {
        let n = keys.len();
        let mut vs: Vec<Vec<Question>> = Vec::new();
        for i in 0..n
            invariant
                n == keys@.len(),
                self.wf(),
                vs@.len() == i,
                forall|x: int| 0 <= x < i ==> self.cache@.contains_key(#[trigger] keys@[x]),
                forall|x: int| 0 <= x < i ==> (#[trigger] vs@[x])@ == self.cache@[keys@[x]],
        {
            match self.cache.get(keys[i]) {
                Some(v) => {
                    vs.push(clone_rows(v));
                }
                None => {
                    return None;
                }
            }
        }
        Some(vs)
    }

    /// A key with a cached value sits in no open and no dispatched batch.
    ///
    /// So however many `load` calls ask for a cached key, and however they
    /// interleave, none can add it to a batch: no further fetch ever sees
    /// the key, and every such call returns the one cached value.
    pub proof fn lemma_cached_key_in_no_batch(&self, k: u128)
        requires
            self.wf(),
            self.cache@.contains_key(k),
        ensures
            !self.open_keys().contains(k),
            !self.key_in_flight(k),
    {
        if self.open_keys().contains(k) {
            let b = self.open_batch.unwrap();
            let j = choose|j: int| 0 <= j < b.keys@.len() && b.keys@[j] == k;
            assert(!self.cache@.contains_key(b.keys@[j]));
        }
        if self.key_in_flight(k) {
            let x = choose|x: int| 0 <= x < self.in_flight@.len()
                && #[trigger] self.in_flight@[x].keys@.contains(k);
            let w = choose|w: int| 0 <= w < self.in_flight@[x].keys@.len()
                && self.in_flight@[x].keys@[w] == k;
            assert(!self.cache@.contains_key(self.in_flight@[x].keys@[w]));
        }
    }

    /// No key is ever under fetch twice at once.
    ///
    /// The keys of one dispatched batch are pairwise distinct, and a key of
    /// one dispatched batch is in no other dispatched batch and not in the
    /// open batch: over one resolution pass, the fetches see each distinct
    /// key at most once however the `load` calls overlapped.
    pub proof fn lemma_no_key_fetched_twice(&self, i1: int, i2: int, k: u128)
        requires
            self.wf(),
            0 <= i1 < self.in_flight@.len(),
            0 <= i2 < self.in_flight@.len(),
            i1 != i2,
            self.in_flight@[i1].keys@.contains(k),
        ensures
            self.in_flight@[i1].keys@.no_duplicates(),
            !self.in_flight@[i2].keys@.contains(k),
            !self.open_keys().contains(k),
    {
        assert(Self::batch_wf(self.in_flight@[i1]));
        if self.open_keys().contains(k) {
            let b = self.open_batch.unwrap();
            let j = choose|j: int| 0 <= j < b.keys@.len() && b.keys@[j] == k;
            assert(!self.key_in_flight(b.keys@[j]));
            assert(self.key_in_flight(k));
        }
    }

    /// A loader with the default configuration.
    pub fn new_default() -> (r: KeyedLoader)
        ensures
            r.wf(),
            r.max_batch_size == DEFAULT_MAX_BATCH_SIZE,
            r.yield_budget == DEFAULT_YIELD_BUDGET,
            r.cache@ == Map::<u128, Seq<Question>>::empty(),
            r.open_batch is None,
            r.in_flight@.len() == 0,
    {
        Self::new(DEFAULT_MAX_BATCH_SIZE, DEFAULT_YIELD_BUDGET)
    }
}

/// Whether `x` occurs in `v`.
fn contains_u128(v: &Vec<u128>, x: u128) -> (r: bool)
    ensures
        r == v@.contains(x),
{
    let n = v.len();
    for i in 0..n
        invariant
            n == v@.len(),
            forall|j: int| 0 <= j < i ==> v@[j] != x,
    {
        if v[i] == x {
            return true;
        }
    }
    false
}

/// An element-for-element copy of a key list.
fn clone_keys(v: &Vec<u128>) -> (r: Vec<u128>)
    ensures
        r@ == v@,
{
    let n = v.len();
    let mut r = Vec::<u128>::new();
    for i in 0..n
        invariant
            n == v@.len(),
            r@ =~= v@.take(i as int),
    {
        r.push(v[i]);
        proof {
            assert(r@ =~= v@.take(i as int + 1));
        }
    }
    proof {
        assert(v@.take(n as int) =~= v@);
    }
    r
}

/// An element-for-element copy of a row list.
pub fn clone_rows(v: &Vec<Question>) -> (r: Vec<Question>)
    ensures
        r@ == v@,
{
    let n = v.len();
    let mut r = Vec::<Question>::new();
    for i in 0..n
        invariant
            n == v@.len(),
            r@ =~= v@.take(i as int),
    {
        r.push(v[i].clone());
        proof {
            assert(r@ =~= v@.take(i as int + 1));
        }
    }
    proof {
        assert(v@.take(n as int) =~= v@);
    }
    r
}

} // verus!
