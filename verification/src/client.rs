//! The query client's decision core: for a batch of server addresses, it
//! decides which request datagram to send next (under an explicit concurrency
//! cap), folds responses and timeouts into the record set (with a bounded
//! number of retries per address), and supports cancelling the whole batch.
//!
//! The caller performs the actual socket work: it sends each datagram this
//! core hands out, waits with a timeout, and reports each response or timeout
//! back. Every address yields exactly one final record: a server that never
//! answers is demoted to `Invalid` rather than dropped, so the batch always
//! completes with one record per input address.

use vstd::pervasive::VecAdditionalExecFns;
use vstd::prelude::*;

use crate::model::{PlayerCounts, Server, ServerAddress, Validity, spec_validity_for, validity_for};
use crate::net::{
    kind_from_byte, ownership_from_byte, region_from_byte, resp_build_id, resp_current_players,
    resp_map_chars, resp_max_players, resp_name_chars, resp_token, spec_encode_request,
    valid_response_bytes, ServerQueryRequest, ServerQueryResponse,
};

verus! {

/// Tunables of a query batch: the maximum number of exchanges in flight at
/// once, how many times one address is retried after a timeout, and how long
/// the driver waits for each response.
#[derive(Clone, Copy, Debug, PartialEq, Eq, Structural)]
pub struct QueryConfig {
    /// Upper bound on simultaneously in-flight exchanges; at least 1.
    pub max_concurrent: usize,
    /// Retries after the first attempt before an address is given up on.
    pub max_retries: u8,
    /// Per-attempt response timeout, for the driving loop.
    pub timeout_ms: u32,
}

/// Progress of one address within a batch.
#[derive(Clone, Copy, Debug, PartialEq, Eq, Structural)]
pub enum EntryState {
    /// Not currently in flight; `attempt` exchanges are spent.
    Waiting { attempt: u8 },
    /// A request with the given token is in flight.
    InFlight { attempt: u8, token: u32 },
    /// This address has its final record for this batch.
    Done,
}

/// A datagram the caller must send to the given address.
pub struct SendCommand {
    pub index: usize,
    pub addr: ServerAddress,
    pub datagram: Vec<u8>,
}

/// The correlation token of an attempt: distinct per address and attempt, so
/// a stale datagram from an earlier attempt is rejected.
pub open spec fn spec_token(index: int, attempt: int) -> u32 {
    (index * 256 + attempt) as u32
}

pub closed spec fn count_in_flight(s: Seq<EntryState>) -> int
    decreases s.len(),
{
    if s.len() == 0 {
        0
    } else {
        count_in_flight(s.drop_last()) + if s.last() is InFlight {
            1int
        } else {
            0int
        }
    }
}

pub closed spec fn count_done(s: Seq<EntryState>) -> int
    decreases s.len(),
{
    if s.len() == 0 {
        0
    } else {
        count_done(s.drop_last()) + if s.last() is Done {
            1int
        } else {
            0int
        }
    }
}

proof fn lemma_count_push(s: Seq<EntryState>, v: EntryState)
    ensures
        count_in_flight(s.push(v)) == count_in_flight(s) + if v is InFlight {
            1int
        } else {
            0int
        },
        count_done(s.push(v)) == count_done(s) + if v is Done {
            1int
        } else {
            0int
        },
{
    assert(s.push(v).drop_last() =~= s);
    assert(s.push(v).last() == v);
}

proof fn lemma_count_update(s: Seq<EntryState>, i: int, v: EntryState)
    requires
        0 <= i < s.len(),
    ensures
        count_in_flight(s.update(i, v)) == count_in_flight(s) - (if s[i] is InFlight {
            1int
        } else {
            0int
        }) + (if v is InFlight {
            1int
        } else {
            0int
        }),
        count_done(s.update(i, v)) == count_done(s) - (if s[i] is Done {
            1int
        } else {
            0int
        }) + (if v is Done {
            1int
        } else {
            0int
        }),
    decreases s.len(),
{
    if i == s.len() - 1 {
        assert(s.update(i, v).drop_last() =~= s.drop_last());
        assert(s.update(i, v).last() == v);
    } else {
        lemma_count_update(s.drop_last(), i, v);
        assert(s.update(i, v).drop_last() =~= s.drop_last().update(i, v));
        assert(s.update(i, v).last() == s.last());
    }
}

proof fn lemma_count_at(s: Seq<EntryState>, i: int)
    requires
        0 <= i < s.len(),
    ensures
        s[i] is InFlight ==> count_in_flight(s) >= 1,
        s[i] is Done ==> count_done(s) >= 1,
    decreases s.len(),
{
    lemma_count_bounds(s.drop_last());
    if i < s.len() - 1 {
        lemma_count_at(s.drop_last(), i);
        assert(s.drop_last()[i] == s[i]);
    }
}

proof fn lemma_count_bounds(s: Seq<EntryState>)
    ensures
        0 <= count_in_flight(s) <= s.len(),
        0 <= count_done(s) <= s.len(),
    decreases s.len(),
{
    if s.len() > 0 {
        lemma_count_bounds(s.drop_last());
    }
}

proof fn lemma_count_done_all(s: Seq<EntryState>)
    requires
        count_done(s) == s.len(),
    ensures
        forall|i: int| 0 <= i < s.len() ==> s[i] is Done,
    decreases s.len(),
{
    if s.len() > 0 {
        lemma_count_bounds(s.drop_last());
        lemma_count_done_all(s.drop_last());
        assert forall|i: int| 0 <= i < s.len() implies s[i] is Done by {
            if i < s.len() - 1 {
                assert(s.drop_last()[i] == s[i]);
            }
        }
    }
}

/// The record that folding well-formed response bytes into `prev` yields:
/// identity untouched, live fields from the datagram, validity judged
/// against the local build.
pub open spec fn spec_status_applied(
    prev: Server,
    b: Seq<u8>,
    local_build: u32,
    cur: Server,
) -> bool {
    &&& cur.id == prev.id
    &&& cur.addr == prev.addr
    &&& cur.name@ == resp_name_chars(b)
    &&& cur.map@ == resp_map_chars(b)
    &&& Some(cur.kind) == kind_from_byte(b[16])
    &&& Some(cur.ownership) == ownership_from_byte(b[17])
    &&& Some(cur.region) == region_from_byte(b[18])
    &&& cur.build_id == resp_build_id(b)
    &&& cur.password_protected == (b[19] == 1)
    &&& cur.players == Some(
        PlayerCounts { current: resp_current_players(b), max: resp_max_players(b) },
    )
    &&& cur.validity == spec_validity_for(resp_build_id(b), local_build)
}

/// The record of an address that was given up on: status fields stay as they
/// were, only the validity is demoted.
pub open spec fn spec_demoted(prev: Server) -> Server {
    Server { validity: Validity::Invalid, ..prev }
}

/// The concurrent query subsystem's decision core for one batch.
pub struct ServerQueryClient {
    records: Vec<Server>,
    states: Vec<EntryState>,
    config: QueryConfig,
    local_build: u32,
    in_flight: usize,
    done_count: usize,
    cancelled: bool,
    initial: Ghost<Seq<Server>>,
}

impl ServerQueryClient {
    pub closed spec fn spec_records(&self) -> Seq<Server> {
        self.records@
    }

    pub closed spec fn spec_states(&self) -> Seq<EntryState> {
        self.states@
    }

    pub closed spec fn spec_initial(&self) -> Seq<Server> {
        self.initial@
    }

    pub closed spec fn spec_cancelled(&self) -> bool {
        self.cancelled
    }

    pub closed spec fn spec_config(&self) -> QueryConfig {
        self.config
    }

    pub closed spec fn spec_local_build(&self) -> u32 {
        self.local_build
    }

    pub closed spec fn spec_in_flight(&self) -> int {
        self.in_flight as int
    }

    pub open spec fn len(&self) -> int {
        self.spec_records().len() as int
    }

    /// The token the client is willing to accept for this address now.
    pub open spec fn expecting(&self, i: int) -> Option<u32> {
        match self.spec_states()[i] {
            EntryState::InFlight { token, .. } => Some(token),
            _ => None,
        }
    }

    /// Identity fields never change across status updates.
    pub open spec fn identity_preserved(&self) -> bool {
        &&& self.spec_records().len() == self.spec_initial().len()
        &&& forall|i: int|
            0 <= i < self.len() ==> (#[trigger] self.spec_records()[i]).id
                == self.spec_initial()[i].id && self.spec_records()[i].addr
                == self.spec_initial()[i].addr
    }

    pub open spec fn wf(&self) -> bool {
        &&& self.spec_states().len() == self.spec_records().len()
        &&& self.identity_preserved()
        &&& self.spec_records().len() <= 65535
        &&& self.spec_config().max_concurrent >= 1
        &&& self.spec_in_flight() == count_in_flight(self.spec_states())
        &&& self.done_count_spec() == count_done(self.spec_states())
        &&& self.spec_in_flight() <= self.spec_config().max_concurrent
        &&& forall|i: int|
            0 <= i < self.len() ==> match #[trigger] self.spec_states()[i] {
                EntryState::Waiting { attempt } => attempt <= self.spec_config().max_retries,
                EntryState::InFlight { attempt, token } => attempt
                    <= self.spec_config().max_retries && token == spec_token(i, attempt as int),
                EntryState::Done => true,
            }
    }

    pub closed spec fn done_count_spec(&self) -> int {
        self.done_count as int
    }

    /// Every address has reached its final record for this batch.
    pub open spec fn complete(&self) -> bool {
        count_done(self.spec_states()) == self.len()
    }

    /// Starts a batch over the given records (fresh from the master list, or
    /// merged with favorites), judged against the local installation's build.
    pub fn new(records: Vec<Server>, local_build: u32, config: QueryConfig) -> (r: Self)
        requires
            config.max_concurrent >= 1,
            records@.len() <= 65535,
        ensures
            r.wf(),
            r.spec_records() == records@,
            r.spec_initial() == records@,
            !r.spec_cancelled(),
            r.spec_config() == config,
            r.spec_local_build() == local_build,
            forall|i: int|
                0 <= i < r.len() ==> #[trigger] r.spec_states()[i] == (EntryState::Waiting {
                    attempt: 0,
                }),
    {
        let n = records.len();
        let mut states: Vec<EntryState> = Vec::new();
        let mut i: usize = 0;
        while i < n
            invariant
                i <= n,
                states@.len() == i,
                count_in_flight(states@) == 0,
                count_done(states@) == 0,
                forall|j: int|
                    0 <= j < i ==> #[trigger] states@[j] == (EntryState::Waiting { attempt: 0 }),
            decreases n - i,
        {
            let ghost old_states = states@;
            states.push(EntryState::Waiting { attempt: 0 });
            proof {
                lemma_count_push(old_states, EntryState::Waiting { attempt: 0 });
            }
            i += 1;
        }
        ServerQueryClient {
            records,
            states,
            config,
            local_build,
            in_flight: 0,
            done_count: 0,
            cancelled: false,
            initial: Ghost(records@),
        }
    }

    pub fn is_cancelled(&self) -> (r: bool)
        ensures
            r == self.spec_cancelled(),
    {
        self.cancelled
    }

    pub fn is_complete(&self) -> (r: bool)
        requires
            self.wf(),
        ensures
            r == self.complete(),
    {
        proof {
            lemma_count_bounds(self.spec_states());
        }
        self.done_count == self.records.len()
    }

    /// Read access to the (partially updated) records of this batch.
    pub fn records(&self) -> (r: &Vec<Server>)
        ensures
            r@ == self.spec_records(),
    {
        &self.records
    }

    /// The finished batch's records: exactly one per input address.
    pub fn into_records(self) -> (r: Vec<Server>)
        ensures
            r@ == self.spec_records(),
    {
        self.records
    }

    /// Cancels the batch: from here on, no request is handed out and no
    /// record update is delivered or applied, whatever still arrives.
    pub fn cancel(&mut self)
        requires
            old(self).wf(),
        ensures
            final(self).wf(),
            final(self).spec_cancelled(),
            final(self).spec_records() == old(self).spec_records(),
            final(self).spec_states() == old(self).spec_states(),
            final(self).spec_initial() == old(self).spec_initial(),
            final(self).spec_config() == old(self).spec_config(),
            final(self).spec_local_build() == old(self).spec_local_build(),
    {
        self.cancelled = true;
    }

    /// Hands out the next request datagram, if the batch is live, the
    /// concurrency cap leaves room and some address is waiting: exactly then
    /// a command is returned.
    pub fn poll_send(&mut self) -> (cmd: Option<SendCommand>)
        requires
            old(self).wf(),
        ensures
            final(self).wf(),
            final(self).spec_records() == old(self).spec_records(),
            final(self).spec_initial() == old(self).spec_initial(),
            final(self).spec_cancelled() == old(self).spec_cancelled(),
            final(self).spec_config() == old(self).spec_config(),
            final(self).spec_local_build() == old(self).spec_local_build(),
            cmd is Some <==> (!old(self).spec_cancelled() && old(self).spec_in_flight()
                < old(self).spec_config().max_concurrent && (exists|i: int|
                0 <= i < old(self).len() && old(self).spec_states()[i] is Waiting)),
            cmd is None ==> final(self).spec_states() == old(self).spec_states(),
            cmd matches Some(c) ==> {
                &&& 0 <= c.index < old(self).len()
                &&& old(self).spec_states()[c.index as int] is Waiting
                &&& final(self).spec_states()[c.index as int] is InFlight
                &&& c.addr == old(self).spec_records()[c.index as int].addr
                &&& (final(self).expecting(c.index as int) matches Some(t) && c.datagram@
                    == spec_encode_request(t))
                &&& forall|j: int|
                    0 <= j < old(self).len() && j != c.index ==> final(self).spec_states()[j]
                        == old(self).spec_states()[j]
                &&& final(self).spec_in_flight() == old(self).spec_in_flight() + 1
            },
    {
        if self.cancelled {
            return None;
        }
        if self.in_flight >= self.config.max_concurrent {
            return None;
        }
        let n = self.records.len();
        let mut i: usize = 0;
        while i < n
            invariant
                i <= n,
                n == self.spec_states().len(),
                self.wf(),
                old(self).wf(),
                !self.spec_cancelled(),
                self.spec_in_flight() < self.spec_config().max_concurrent,
                self.spec_in_flight() == old(self).spec_in_flight(),
                self.spec_records() == old(self).spec_records(),
                self.spec_states() == old(self).spec_states(),
                self.spec_initial() == old(self).spec_initial(),
                self.spec_cancelled() == old(self).spec_cancelled(),
                self.spec_config() == old(self).spec_config(),
                self.spec_local_build() == old(self).spec_local_build(),
                forall|j: int| 0 <= j < i ==> !(#[trigger] self.spec_states()[j] is Waiting),
            decreases n - i,
        {
            let waiting_attempt: Option<u8> = match self.states[i] {
                EntryState::Waiting { attempt } => Some(attempt),
                _ => None,
            };
            if let Some(attempt) = waiting_attempt {
                proof {
                    assert(self.spec_records().len() <= 65535);
                    assert(i < 65535);
                }
                let token: u32 = (i as u32) * 256 + (attempt as u32);
                let ghost old_states = self.states@;
                self.states.set(i, EntryState::InFlight { attempt, token });
                self.in_flight = self.in_flight + 1;
                proof {
                    lemma_count_update(old_states, i as int, EntryState::InFlight { attempt, token });
                }
                let req = ServerQueryRequest { token };
                let datagram = req.encode();
                return Some(SendCommand { index: i, addr: self.records[i].addr, datagram });
            }
            i += 1;
        }
        None
    }

    /// Shared failure path for a timeout and for a malformed or mismatched
    /// response: spend the attempt, and when none is left, finish the
    /// address with its record demoted to `Invalid`.
    fn fail_attempt(&mut self, index: usize) -> (update: Option<usize>)
        requires
            old(self).wf(),
            0 <= index < old(self).len(),
            !old(self).spec_cancelled(),
            old(self).spec_states()[index as int] is InFlight,
        ensures
            final(self).wf(),
            final(self).spec_initial() == old(self).spec_initial(),
            final(self).spec_cancelled() == old(self).spec_cancelled(),
            final(self).spec_config() == old(self).spec_config(),
            final(self).spec_local_build() == old(self).spec_local_build(),
            forall|j: int|
                0 <= j < old(self).len() && j != index ==> (final(self).spec_states()[j]
                    == old(self).spec_states()[j] && final(self).spec_records()[j]
                    == old(self).spec_records()[j]),
            (old(self).spec_states()[index as int] matches EntryState::InFlight { attempt, .. } ==> {
                if attempt < old(self).spec_config().max_retries {
                    &&& update is None
                    &&& final(self).spec_states()[index as int] == (EntryState::Waiting {
                        attempt: (attempt + 1) as u8,
                    })
                    &&& final(self).spec_records() == old(self).spec_records()
                } else {
                    &&& update == Some(index)
                    &&& final(self).spec_states()[index as int] is Done
                    &&& final(self).spec_records()[index as int] == spec_demoted(
                        old(self).spec_records()[index as int],
                    )
                }
            }),
    {
        let attempt: u8 = match self.states[index] {
            EntryState::InFlight { attempt, .. } => attempt,
            _ => 0,
        };
        let ghost old_states = self.states@;
        proof {
            lemma_count_at(old_states, index as int);
            lemma_count_bounds(old_states);
        }
        if attempt < self.config.max_retries {
            self.states.set(index, EntryState::Waiting { attempt: attempt + 1 });
            self.in_flight = self.in_flight - 1;
            proof {
                lemma_count_update(
                    old_states,
                    index as int,
                    EntryState::Waiting { attempt: (attempt + 1) as u8 },
                );
                lemma_count_bounds(self.states@);
            }
            None
        } else {
            let prev = &self.records[index];
            let demoted = Server {
                id: prev.id,
                addr: prev.addr,
                name: prev.name.clone(),
                map: prev.map.clone(),
                kind: prev.kind,
                ownership: prev.ownership,
                region: prev.region,
                build_id: prev.build_id,
                password_protected: prev.password_protected,
                players: prev.players,
                validity: Validity::Invalid,
            };
            self.records.set(index, demoted);
            self.states.set(index, EntryState::Done);
            self.in_flight = self.in_flight - 1;
            self.done_count = self.done_count + 1;
            proof {
                lemma_count_update(old_states, index as int, EntryState::Done);
                lemma_count_bounds(self.states@);
            }
            Some(index)
        }
    }

    /// Reports that the current attempt for this address timed out.
    pub fn on_timeout(&mut self, index: usize) -> (update: Option<usize>)
        requires
            old(self).wf(),
            0 <= index < old(self).len(),
        ensures
            final(self).wf(),
            final(self).spec_initial() == old(self).spec_initial(),
            final(self).spec_cancelled() == old(self).spec_cancelled(),
            final(self).spec_config() == old(self).spec_config(),
            final(self).spec_local_build() == old(self).spec_local_build(),
            old(self).spec_cancelled() || !(old(self).spec_states()[index as int] is InFlight)
                ==> (update is None && final(self).spec_records() == old(self).spec_records()
                && final(self).spec_states() == old(self).spec_states()),
            forall|j: int|
                0 <= j < old(self).len() && j != index ==> (final(self).spec_states()[j]
                    == old(self).spec_states()[j] && final(self).spec_records()[j]
                    == old(self).spec_records()[j]),
            !old(self).spec_cancelled() ==> (old(self).spec_states()[index as int] matches
                EntryState::InFlight { attempt, .. } ==> {
                if attempt < old(self).spec_config().max_retries {
                    &&& update is None
                    &&& final(self).spec_states()[index as int] == (EntryState::Waiting {
                        attempt: (attempt + 1) as u8,
                    })
                    &&& final(self).spec_records() == old(self).spec_records()
                } else {
                    &&& update == Some(index)
                    &&& final(self).spec_states()[index as int] is Done
                    &&& final(self).spec_records()[index as int] == spec_demoted(
                        old(self).spec_records()[index as int],
                    )
                }
            }),
    {
        if self.cancelled {
            return None;
        }
        let in_flight: bool = match self.states[index] {
            EntryState::InFlight { .. } => true,
            _ => false,
        };
        if !in_flight {
            return None;
        }
        self.fail_attempt(index)
    }

    /// Folds a datagram that arrived for this address into the batch. A
    /// well-formed response that echoes the expected token finishes the
    /// address with its fresh record and delivers its index as the update; a
    /// malformed or mismatched datagram is treated exactly like a timeout.
    /// After cancellation nothing is applied and nothing is delivered.
    pub fn on_response(&mut self, index: usize, datagram: &[u8]) -> (update: Option<usize>)
        requires
            old(self).wf(),
            0 <= index < old(self).len(),
        ensures
            final(self).wf(),
            final(self).spec_initial() == old(self).spec_initial(),
            final(self).spec_cancelled() == old(self).spec_cancelled(),
            final(self).spec_config() == old(self).spec_config(),
            final(self).spec_local_build() == old(self).spec_local_build(),
            old(self).spec_cancelled() || old(self).expecting(index as int) is None ==> (update
                is None && final(self).spec_records() == old(self).spec_records()
                && final(self).spec_states() == old(self).spec_states()),
            forall|j: int|
                0 <= j < old(self).len() && j != index ==> (final(self).spec_states()[j]
                    == old(self).spec_states()[j] && final(self).spec_records()[j]
                    == old(self).spec_records()[j]),
            !old(self).spec_cancelled() ==> (old(self).expecting(index as int) matches Some(
                tok,
            ) ==> {
                if valid_response_bytes(datagram@) && resp_token(datagram@) == tok {
                    &&& update == Some(index)
                    &&& final(self).spec_states()[index as int] is Done
                    &&& spec_status_applied(
                        old(self).spec_records()[index as int],
                        datagram@,
                        old(self).spec_local_build(),
                        final(self).spec_records()[index as int],
                    )
                } else {
                    (old(self).spec_states()[index as int] matches EntryState::InFlight {
                        attempt,
                        ..
                    } ==> {
                        if attempt < old(self).spec_config().max_retries {
                            &&& update is None
                            &&& final(self).spec_states()[index as int]
                                == (EntryState::Waiting { attempt: (attempt + 1) as u8 })
                            &&& final(self).spec_records() == old(self).spec_records()
                        } else {
                            &&& update == Some(index)
                            &&& final(self).spec_states()[index as int] is Done
                            &&& final(self).spec_records()[index as int] == spec_demoted(
                                old(self).spec_records()[index as int],
                            )
                        }
                    })
                }
            }),
    {
        if self.cancelled {
            return None;
        }
        let expected: Option<u32> = match self.states[index] {
            EntryState::InFlight { token, .. } => Some(token),
            _ => None,
        };
        let tok = match expected {
            Some(t) => t,
            None => {
                return None;
            },
        };
        match ServerQueryResponse::decode(datagram) {
            Some(resp) => {
                if resp.token == tok {
                    let prev = &self.records[index];
                    let updated = Server {
                        id: prev.id,
                        addr: prev.addr,
                        name: resp.name,
                        map: resp.map,
                        kind: resp.kind,
                        ownership: resp.ownership,
                        region: resp.region,
                        build_id: resp.build_id,
                        password_protected: resp.password_protected,
                        players: Some(
                            PlayerCounts {
                                current: resp.current_players,
                                max: resp.max_players,
                            },
                        ),
                        validity: validity_for(resp.build_id, self.local_build),
                    };
                    let ghost old_states = self.states@;
                    proof {
                        lemma_count_at(old_states, index as int);
                        lemma_count_bounds(old_states);
                    }
                    self.records.set(index, updated);
                    self.states.set(index, EntryState::Done);
                    self.in_flight = self.in_flight - 1;
                    self.done_count = self.done_count + 1;
                    proof {
                        lemma_count_update(old_states, index as int, EntryState::Done);
                        lemma_count_bounds(self.states@);
                    }
                    Some(index)
                } else {
                    self.fail_attempt(index)
                }
            },
            None => self.fail_attempt(index),
        }
    }
}

/// Query batch completeness: once a batch reports complete, it holds exactly
/// one record per input address, with every identity preserved; addresses
/// that failed have been demoted along the way rather than dropped.
pub proof fn lemma_batch_completeness(c: &ServerQueryClient)
    requires
        c.wf(),
        c.complete(),
    ensures
        c.spec_records().len() == c.spec_initial().len(),
        forall|i: int|
            0 <= i < c.len() ==> (#[trigger] c.spec_records()[i]).id == c.spec_initial()[i].id
                && c.spec_records()[i].addr == c.spec_initial()[i].addr,
        forall|i: int| 0 <= i < c.len() ==> c.spec_states()[i] is Done,
{
    lemma_count_done_all(c.spec_states());
}

} // verus!
