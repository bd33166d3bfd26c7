//! The decisions of one worker's connection loop.
//!
//! A worker keeps a fixed set of keep-alive connections, each in a slot of a
//! slab under a small integer token. The caller owns the sockets and the
//! readiness loop; it reports each event here (bytes read, a failed read, a
//! request written, a connection closed) and this module keeps each slot's
//! parser and send time and the worker's counts.
use vstd::prelude::*;
use slab::Slab;
use crate::http_parser::{feed, initial_model, HTTParser, ParserModel, ParserState};
use crate::stats::WorkerStats;

verus! {

#[verifier::external_type_specification]
#[verifier::external_body]
#[verifier::reject_recursive_types(T)]
pub struct ExSlab<T>(Slab<T>);

/// The bookkeeping of one connection; its socket stays with the caller.
pub struct Slot {
    pub parser: HTTParser,
    /// When the last request was written, in microseconds of the worker's clock.
    pub request_sent_at: Option<u64>,
}

impl Slot {
    pub fn fresh() -> (r: Slot)
        ensures
            r.parser.wf(),
            r.parser@ == initial_model(),
            r.request_sent_at is None,
    {
        Slot { parser: HTTParser::new(), request_sent_at: None }
    }
}

/// The slots that a slab holds, by key.
pub uninterp spec fn slab_slots(s: Slab<Slot>) -> Map<usize, Slot>;

/// Relies on `Slab::new`: a slab with no entries.
#[verifier::external_body]
fn slab_new() -> (r: Slab<Slot>)
    ensures
        forall|k: usize| !(#[trigger] slab_slots(r).contains_key(k)),
{
    Slab::new()
}

/// Relies on `Slab::insert`: `v` is stored under a key that was vacant, and
/// that key is returned.
#[verifier::external_body]
fn slab_insert(s: &mut Slab<Slot>, v: Slot) -> (k: usize)
    ensures
        !slab_slots(*old(s)).contains_key(k),
        slab_slots(*final(s)) == slab_slots(*old(s)).insert(k, v),
{
    s.insert(v)
}

/// Relies on `Slab::get`: the entry under `k`, if there is one.
#[verifier::external_body]
fn slab_get(s: &Slab<Slot>, k: usize) -> (r: Option<&Slot>)
    ensures
        match r {
            Some(v) => slab_slots(*s).contains_key(k) && *v == slab_slots(*s)[k],
            None => !slab_slots(*s).contains_key(k),
        },
{
    s.get(k)
}

/// Relies on `Slab::get_mut`: the entry under `k`, if there is one, is
/// swapped for `v` and handed back.
#[verifier::external_body]
fn slab_replace(s: &mut Slab<Slot>, k: usize, v: Slot) -> (r: Option<Slot>)
    ensures
        match r {
            Some(o) => slab_slots(*old(s)).contains_key(k) && o == slab_slots(*old(s))[k]
                && slab_slots(*final(s)) == slab_slots(*old(s)).insert(k, v),
            None => !slab_slots(*old(s)).contains_key(k) && slab_slots(*final(s)) == slab_slots(
                *old(s),
            ),
        },
{
    match s.get_mut(k) {
        Some(slot) => Some(std::mem::replace(slot, v)),
        None => None,
    }
}

/// What one read on a connection came to.
#[derive(PartialEq, Eq, Debug, Clone, Copy, Structural)]
pub enum ReadOutcome {
    /// A response ended with this read: the bytes read and the status digit.
    Complete(usize, char),
    /// The read ended inside a response body.
    Partial,
    /// Nothing to read yet.
    Blocked,
    /// The read failed, or the parser lost track of the responses.
    Error,
}

/// The outcome of `n` bytes that left the parser in `m`.
pub open spec fn outcome_of(m: ParserModel, n: usize) -> ReadOutcome {
    match m.state {
        ParserState::Body => ReadOutcome::Partial,
        ParserState::Started => ReadOutcome::Complete(n, m.status),
        _ => ReadOutcome::Error,
    }
}

pub open spec fn sat_u32(x: int) -> u32 {
    if x > u32::MAX {
        u32::MAX
    } else {
        x as u32
    }
}

pub open spec fn sat_usize(x: int) -> usize {
    if x > usize::MAX {
        usize::MAX
    } else {
        x as usize
    }
}

pub open spec fn is_good_status(d: char) -> bool {
    d == '2' || d == '3'
}

/// The responses that the parsers of the slots under `tokens` have counted.
pub open spec fn pending_responses(slots: Map<usize, Slot>, tokens: Seq<usize>) -> int
    decreases tokens.len(),
{
    if tokens.len() == 0 {
        0
    } else {
        pending_responses(slots, tokens.drop_last()) + slots[tokens.last()].parser.responses_parsed
    }
}

proof fn lemma_pending_other_slot(slots: Map<usize, Slot>, tokens: Seq<usize>, k: usize, v: Slot)
    requires
        !tokens.contains(k),
    ensures
        pending_responses(slots.insert(k, v), tokens) == pending_responses(slots, tokens),
    decreases tokens.len(),
{
    if tokens.len() > 0 {
        let t = tokens.drop_last();
        assert(!t.contains(k)) by {
            if t.contains(k) {
                let i = choose|i: int| 0 <= i < t.len() && t[i] == k;
                assert(tokens[i] == k);
            }
        }
        assert(tokens.last() != k) by {
            assert(tokens[tokens.len() - 1] == k ==> tokens.contains(k));
        }
        lemma_pending_other_slot(slots, t, k, v);
    }
}

/// A response is counted once however its connection ends: when the slot
/// under `k` starts afresh, what its parser had counted leaves the responses
/// still pending in the slots, and `recycle` adds exactly that to the request
/// count.
pub proof fn lemma_recycle_moves_count(slots: Map<usize, Slot>, tokens: Seq<usize>, k: usize, fresh: Slot)
    requires
        forall|i: int, j: int| 0 <= i < j < tokens.len() ==> tokens[i] != tokens[j],
        tokens.contains(k),
        fresh.parser.responses_parsed == 0,
    ensures
        pending_responses(slots.insert(k, fresh), tokens) == pending_responses(slots, tokens)
            - slots[k].parser.responses_parsed,
    decreases tokens.len(),
{
    let t = tokens.drop_last();
    if tokens.last() == k {
        assert(!t.contains(k)) by {
            if t.contains(k) {
                let i = choose|i: int| 0 <= i < t.len() && t[i] == k;
                assert(tokens[i] == tokens[tokens.len() - 1]);
            }
        }
        lemma_pending_other_slot(slots, t, k, fresh);
    } else {
        assert(t.contains(k)) by {
            let i = choose|i: int| 0 <= i < tokens.len() && tokens[i] == k;
            assert(i < tokens.len() - 1);
            assert(t[i] == k);
        }
        lemma_recycle_moves_count(slots, t, k, fresh);
    }
}

fn add_u32(a: u32, b: usize) -> (r: u32)
    ensures
        r == sat_u32(a + b),
{
    let t: u128 = a as u128 + b as u128;
    if t > u32::MAX as u128 {
        u32::MAX
    } else {
        t as u32
    }
}

/// The slots and counts of one worker.
pub struct WorkerEngine {
    pub slots: Slab<Slot>,
    /// The keys of the slots, each once.
    pub tokens: Vec<usize>,
    pub request_count: u32,
    pub received_data: usize,
    pub bad_requests: u32,
    pub errors: u32,
    /// Microseconds from each request's write to its connection turning
    /// readable.
    pub latencies: Vec<u64>,
}

impl WorkerEngine {
    pub open spec fn slot_map(&self) -> Map<usize, Slot> {
        slab_slots(self.slots)
    }

    pub open spec fn wf(&self) -> bool {
        &&& forall|i: int, j: int|
            0 <= i < j < self.tokens@.len() ==> self.tokens@[i] != self.tokens@[j]
        &&& forall|k: usize| #[trigger]
            self.slot_map().contains_key(k) <==> self.tokens@.contains(k)
        &&& forall|k: usize| #[trigger]
            self.slot_map().contains_key(k) ==> self.slot_map()[k].parser.wf()
    }

    /// The counts other than the slots are those of `o`.
    pub open spec fn same_counts(&self, o: &WorkerEngine) -> bool {
        &&& self.request_count == o.request_count
        &&& self.received_data == o.received_data
        &&& self.bad_requests == o.bad_requests
        &&& self.errors == o.errors
        &&& self.latencies@ == o.latencies@
    }

    pub fn new() -> (r: WorkerEngine)
        ensures
            r.wf(),
            r.slot_map() == Map::<usize, Slot>::empty(),
            r.tokens@.len() == 0,
            r.request_count == 0,
            r.received_data == 0,
            r.bad_requests == 0,
            r.errors == 0,
            r.latencies@.len() == 0,
    {
        let r = WorkerEngine {
            slots: slab_new(),
            tokens: Vec::new(),
            request_count: 0,
            received_data: 0,
            bad_requests: 0,
            errors: 0,
            latencies: Vec::new(),
        };
        assert(r.slot_map() =~= Map::<usize, Slot>::empty());
        r
    }

    /// Adds a slot for a new connection and returns its token.
    pub fn open_slot(&mut self) -> (token: usize)
        requires
            old(self).wf(),
        ensures
            final(self).wf(),
            !old(self).slot_map().contains_key(token),
            final(self).slot_map().dom() == old(self).slot_map().dom().insert(token),
            final(self).slot_map()[token].parser@ == initial_model(),
            final(self).slot_map()[token].request_sent_at is None,
            forall|k: usize| k != token ==> old(self).slot_map().contains_key(k) ==>
                #[trigger] final(self).slot_map()[k] == old(self).slot_map()[k],
            final(self).tokens@ == old(self).tokens@.push(token),
            final(self).same_counts(old(self)),
    {
        let token = slab_insert(&mut self.slots, Slot::fresh());
        self.tokens.push(token);
        proof {
            assert forall|k: usize| #[trigger]
                self.slot_map().contains_key(k) <==> self.tokens@.contains(k) by {
                if k != token {
                    assert(self.tokens@.contains(k) ==> old(self).tokens@.contains(k)) by {
                        if self.tokens@.contains(k) {
                            let i = choose|i: int| 0 <= i < self.tokens@.len() && self.tokens@[i] == k;
                            assert(old(self).tokens@[i] == k);
                        }
                    }
                    assert(old(self).tokens@.contains(k) ==> self.tokens@.contains(k)) by {
                        if old(self).tokens@.contains(k) {
                            let i = choose|i: int| 0 <= i < old(self).tokens@.len() && old(self).tokens@[i] == k;
                            assert(self.tokens@[i] == k);
                        }
                    }
                } else {
                    assert(self.tokens@[self.tokens@.len() - 1] == k);
                }
            }
            assert(self.slot_map().dom() =~= old(self).slot_map().dom().insert(token));
        }
        token
    }

    /// Notes the time at which the connection under `token` turned readable:
    /// the time since its last request is kept as a latency.
    pub fn record_latency(&mut self, token: usize, now: u64)
        requires
            old(self).wf(),
        ensures
            final(self).wf(),
            final(self).slots == old(self).slots,
            final(self).tokens == old(self).tokens,
            final(self).request_count == old(self).request_count,
            final(self).received_data == old(self).received_data,
            final(self).bad_requests == old(self).bad_requests,
            final(self).errors == old(self).errors,
            final(self).latencies@ == if old(self).slot_map().contains_key(token) && old(
                self,
            ).slot_map()[token].request_sent_at is Some && old(self).slot_map()[token].request_sent_at.unwrap()
                <= now {
                old(self).latencies@.push(
                    (now - old(self).slot_map()[token].request_sent_at.unwrap()) as u64,
                )
            } else {
                old(self).latencies@
            },
    {
        match slab_get(&self.slots, token) {
            Some(slot) => match slot.request_sent_at {
                Some(t) => {
                    if t <= now {
                        self.latencies.push(now - t);
                    }
                },
                None => {},
            },
            None => {},
        }
    }

    /// Notes that a request was written on the connection under `token`.
    pub fn on_sent(&mut self, token: usize, now: u64)
        requires
            old(self).wf(),
        ensures
            final(self).wf(),
            final(self).tokens == old(self).tokens,
            final(self).same_counts(old(self)),
            old(self).slot_map().contains_key(token) ==> final(self).slot_map() == old(
                self,
            ).slot_map().insert(
                token,
                Slot { request_sent_at: Some(now), ..old(self).slot_map()[token] },
            ),
            !old(self).slot_map().contains_key(token) ==> final(self).slot_map() == old(
                self,
            ).slot_map(),
    {
        match slab_replace(&mut self.slots, token, Slot::fresh()) {
            Some(slot) => {
                let updated = Slot { parser: slot.parser, request_sent_at: Some(now) };
                let _ = slab_replace(&mut self.slots, token, updated);
                proof {
                    assert(self.slot_map() =~= old(self).slot_map().insert(token, updated));
                }
            },
            None => {},
        }
    }

    /// Feeds the bytes read on the connection under `token` to its parser and
    /// counts what came of them. A token with no slot, or a parser whose count
    /// could not grow by the length of `data`, gives `Error`.
    pub fn absorb(&mut self, token: usize, data: &[u8]) -> (r: ReadOutcome)
        requires
            old(self).wf(),
        ensures
            final(self).wf(),
            final(self).tokens == old(self).tokens,
            final(self).request_count == old(self).request_count,
            final(self).latencies == old(self).latencies,
            ({
                let s = old(self).slot_map()[token];
                if !old(self).slot_map().contains_key(token) {
                    &&& r == ReadOutcome::Error
                    &&& final(self).slot_map() == old(self).slot_map()
                    &&& final(self).received_data == old(self).received_data
                    &&& final(self).bad_requests == old(self).bad_requests
                    &&& final(self).errors == old(self).errors
                } else if s.parser.responses_parsed + data@.len() > usize::MAX {
                    &&& r == ReadOutcome::Error
                    &&& final(self).slot_map() == old(self).slot_map()
                    &&& final(self).received_data == old(self).received_data
                    &&& final(self).bad_requests == old(self).bad_requests
                    &&& final(self).errors == sat_u32(old(self).errors + 1)
                } else {
                    let m = feed(s.parser@, data@);
                    &&& r == outcome_of(m, data@.len() as usize)
                    &&& final(self).slot_map().dom() == old(self).slot_map().dom()
                    &&& final(self).slot_map()[token].parser@ == m
                    &&& final(self).slot_map()[token].request_sent_at == s.request_sent_at
                    &&& forall|k: usize| k != token ==> old(self).slot_map().contains_key(k) ==>
                        #[trigger] final(self).slot_map()[k] == old(self).slot_map()[k]
                    &&& final(self).received_data == match r {
                        ReadOutcome::Complete(n, _) => sat_usize(old(self).received_data + n),
                        _ => old(self).received_data,
                    }
                    &&& final(self).bad_requests == match r {
                        ReadOutcome::Complete(_, d) => if is_good_status(d) {
                            old(self).bad_requests
                        } else {
                            sat_u32(old(self).bad_requests + 1)
                        },
                        _ => old(self).bad_requests,
                    }
                    &&& final(self).errors == match r {
                        ReadOutcome::Error => sat_u32(old(self).errors + 1),
                        _ => old(self).errors,
                    }
                }
            }),
    {
        let slot = match slab_replace(&mut self.slots, token, Slot::fresh()) {
            Some(s) => s,
            None => {
                return ReadOutcome::Error;
            },
        };
        let Slot { mut parser, request_sent_at } = slot;
        if parser.responses_parsed > usize::MAX - data.len() {
            let _ = slab_replace(&mut self.slots, token, Slot { parser, request_sent_at });
            proof {
                assert(self.slot_map() =~= old(self).slot_map());
            }
            self.errors = self.errors.saturating_add(1);
            return ReadOutcome::Error;
        }
        parser.parse(data);
        let outcome = match parser.state {
            ParserState::Body => ReadOutcome::Partial,
            ParserState::Started => ReadOutcome::Complete(data.len(), parser.status_code_first_char),
            _ => ReadOutcome::Error,
        };
        let updated = Slot { parser, request_sent_at };
        let _ = slab_replace(&mut self.slots, token, updated);
        match outcome {
            ReadOutcome::Complete(n, d) => {
                self.received_data = self.received_data.saturating_add(n);
                if d != '2' && d != '3' {
                    self.bad_requests = self.bad_requests.saturating_add(1);
                }
            },
            ReadOutcome::Error => {
                self.errors = self.errors.saturating_add(1);
            },
            _ => {},
        }
        proof {
            assert(self.slot_map().dom() =~= old(self).slot_map().dom());
        }
        outcome
    }

    /// Counts a read that failed: one that would block is no error.
    pub fn on_read_error(&mut self, would_block: bool) -> (r: ReadOutcome)
        ensures
            final(self).slots == old(self).slots,
            final(self).tokens == old(self).tokens,
            final(self).request_count == old(self).request_count,
            final(self).received_data == old(self).received_data,
            final(self).bad_requests == old(self).bad_requests,
            final(self).latencies == old(self).latencies,
            would_block ==> r == ReadOutcome::Blocked && final(self).errors == old(self).errors,
            !would_block ==> r == ReadOutcome::Error && final(self).errors == sat_u32(
                old(self).errors + 1,
            ),
    {
        if would_block {
            ReadOutcome::Blocked
        } else {
            self.errors = self.errors.saturating_add(1);
            ReadOutcome::Error
        }
    }

    /// The connection under `token` has closed: the responses its parser
    /// counted are added to the request count, and the slot starts afresh for
    /// the connection that takes its place.
    pub fn recycle(&mut self, token: usize)
        requires
            old(self).wf(),
        ensures
            final(self).wf(),
            final(self).tokens == old(self).tokens,
            final(self).received_data == old(self).received_data,
            final(self).bad_requests == old(self).bad_requests,
            final(self).errors == old(self).errors,
            final(self).latencies == old(self).latencies,
            old(self).slot_map().contains_key(token) ==> {
                &&& final(self).request_count == sat_u32(
                    old(self).request_count + old(self).slot_map()[token].parser.responses_parsed,
                )
                &&& final(self).slot_map().dom() == old(self).slot_map().dom()
                &&& final(self).slot_map()[token].parser@ == initial_model()
                &&& final(self).slot_map()[token].request_sent_at is None
                &&& forall|k: usize| k != token ==> old(self).slot_map().contains_key(k) ==>
                    #[trigger] final(self).slot_map()[k] == old(self).slot_map()[k]
            },
            !old(self).slot_map().contains_key(token) ==> final(self).slot_map() == old(
                self,
            ).slot_map() && final(self).request_count == old(self).request_count,
    {
        match slab_replace(&mut self.slots, token, Slot::fresh()) {
            Some(slot) => {
                self.request_count = add_u32(self.request_count, slot.parser.responses_parsed);
                proof {
                    assert(self.slot_map().dom() =~= old(self).slot_map().dom());
                }
            },
            None => {},
        }
    }

    /// The worker's counts at the end of a run of `run_duration` seconds: the
    /// responses that the open connections counted join the request count.
    pub fn finish(&self, run_duration: usize) -> (r: WorkerStats)
        requires
            self.wf(),
        ensures
            r.run_duration == run_duration,
            r.request_count == sat_u32(
                self.request_count + pending_responses(self.slot_map(), self.tokens@),
            ),
            r.error_count == self.errors,
            r.bad_requests == self.bad_requests,
            r.received_data == self.received_data,
    {
        let n = self.tokens.len();
        let mut total: u128 = self.request_count as u128;
        let mut i: usize = 0;
        while i < n
            invariant
                n == self.tokens.len(),
                i <= n,
                self.wf(),
                total == self.request_count + pending_responses(
                    self.slot_map(),
                    self.tokens@.subrange(0, i as int),
                ),
                total <= 0xffff_ffff + i * 0xffff_ffff_ffff_ffff,
            decreases n - i,
        {
            let token = self.tokens[i];
            assert(self.tokens@.subrange(0, i + 1).drop_last() =~= self.tokens@.subrange(
                0,
                i as int,
            ));
            assert(self.tokens@.contains(token));
            match slab_get(&self.slots, token) {
                Some(slot) => {
                    total = total + slot.parser.responses_parsed as u128;
                },
                None => {},
            }
            i = i + 1;
        }
        assert(self.tokens@.subrange(0, n as int) =~= self.tokens@);
        let request_count = if total > u32::MAX as u128 {
            u32::MAX
        } else {
            total as u32
        };
        WorkerStats::new(
            run_duration,
            request_count,
            self.errors,
            self.bad_requests,
            self.received_data,
        )
    }
}

} // verus!
