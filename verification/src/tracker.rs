//! The command correlation tracker: maps outstanding request ids to
//! the entity and purpose that issued them, resolves them against the
//! responses the view observed, and detects timeouts.

use vstd::prelude::*;
use crate::data::{CommandPayload, ResponseOutcome};
use crate::idmap::IdMap;
use crate::view::{ReplicatedView, ViewModel};

verus! {

/// One outstanding request.
#[derive(Clone, Copy, Debug, PartialEq, Eq, Structural)]
pub struct InFlight {
    /// The entity on whose behalf the request was issued.
    pub entity: i64,
    /// What the request was for.
    pub purpose: CommandPayload,
    /// The tick in which it was issued.
    pub issued_tick: u64,
}

/// Outcome of resolving an in-flight request.
#[derive(Clone, Copy, Debug, PartialEq, Eq, Structural)]
pub enum Outcome {
    /// The responder applied the command.
    Success,
    /// The responder refused the command; the issuing behaviour falls
    /// back to its idle state.
    ApplicationError,
    /// No response within the window; the issuing behaviour
    /// re-issues the request.
    Timeout,
}

/// The response the view observed for a request id, reduced to what
/// resolution needs: the entity it came from and its outcome class.
/// A transport-level status that is neither success nor an explicit
/// refusal surfaces as an application error: the issuing behaviour
/// decides whether to retry or abandon.
pub open spec fn response_for(m: ViewModel, request_id: i64) -> Option<(i64, Outcome)> {
    if m.snap.responses.dom().contains(request_id) {
        Some(
            (
                m.snap.responses[request_id].0,
                match m.snap.responses[request_id].1 {
                    ResponseOutcome::Success => Outcome::Success,
                    ResponseOutcome::ApplicationError(_) => Outcome::ApplicationError,
                    ResponseOutcome::Other => Outcome::ApplicationError,
                },
            ),
        )
    } else {
        None
    }
}

/// What resolving `request_id` returns, given the tracked entries, the
/// response the view holds (if any), the current tick and the window.
pub open spec fn resolve_result(
    t: Map<i64, InFlight>,
    entity: i64,
    request_id: i64,
    resp: Option<(i64, Outcome)>,
    now_tick: u64,
    timeout_ticks: u64,
) -> Option<Outcome> {
    if !t.dom().contains(request_id) {
        None
    } else {
        match resp {
            Some((e, o)) => {
                if e == entity {
                    Some(o)
                } else if now_tick > t[request_id].issued_tick + timeout_ticks {
                    Some(Outcome::Timeout)
                } else {
                    None
                }
            },
            None => {
                if now_tick > t[request_id].issued_tick + timeout_ticks {
                    Some(Outcome::Timeout)
                } else {
                    None
                }
            },
        }
    }
}

/// The entries left after resolving `request_id`: resolution removes
/// the entry exactly when it returns an outcome.
pub open spec fn resolve_remaining(
    t: Map<i64, InFlight>,
    entity: i64,
    request_id: i64,
    resp: Option<(i64, Outcome)>,
    now_tick: u64,
    timeout_ticks: u64,
) -> Map<i64, InFlight> {
    if resolve_result(t, entity, request_id, resp, now_tick, timeout_ticks) is Some {
        t.remove(request_id)
    } else {
        t
    }
}

/// The in-flight request set of one worker process.
pub struct Tracker {
    in_flight: IdMap<InFlight>,
    next_id: i64,
    timeout_ticks: u64,
}

impl Tracker {
    /// The tracked entries by request id.
    pub closed spec fn view(self) -> Map<i64, InFlight> {
        self.in_flight@
    }

    /// The id the next issued request will get.
    pub closed spec fn next_id_spec(self) -> int {
        self.next_id as int
    }

    /// The timeout window, in ticks.
    pub closed spec fn timeout_spec(self) -> u64 {
        self.timeout_ticks
    }

    /// Distinct keys, and every tracked id below the next fresh id.
    pub closed spec fn wf(self) -> bool {
        &&& self.in_flight.wf()
        &&& self.next_id >= 1
        &&& forall|k: i64| #[trigger] self@.dom().contains(k) ==> 1 <= k
        &&& self.next_id_spec() < i64::MAX ==> forall|k: i64|
            #[trigger] self@.dom().contains(k) ==> k < self.next_id_spec()
    }

    /// An empty tracker with the given timeout window.
    pub fn new(timeout_ticks: u64) -> (r: Tracker)
        ensures
            r.wf(),
            r@ == Map::<i64, InFlight>::empty(),
            r.timeout_spec() == timeout_ticks,
    {
        Tracker { in_flight: IdMap::new(), next_id: 1, timeout_ticks }
    }

    /// The id counter stays within the signed 64-bit range.
    pub proof fn lemma_next_id_range(self)
        requires
            self.wf(),
        ensures
            1 <= self.next_id_spec() <= i64::MAX,
    {
    }

    /// Whether a fresh id can still be minted.  The id space runs out
    /// only after the largest signed 64-bit count of requests, a
    /// machine limit no process reaches.
    pub fn has_capacity(&self) -> (r: bool)
        ensures
            r == (self.next_id_spec() < i64::MAX),
    {
        self.next_id < i64::MAX
    }

    /// Record an in-flight entry for the entity and purpose and return
    /// the fresh id to send externally.
    pub fn issue(&mut self, entity: i64, purpose: CommandPayload, now_tick: u64) -> (id: i64)
        requires
            old(self).wf(),
            old(self).next_id_spec() < i64::MAX,
        ensures
            final(self).wf(),
            !old(self)@.dom().contains(id),
            final(self)@ == old(self)@.insert(
                id,
                InFlight { entity, purpose, issued_tick: now_tick },
            ),
            final(self).timeout_spec() == old(self).timeout_spec(),
            final(self).next_id_spec() == old(self).next_id_spec() + 1,
    {
        let id = self.next_id;
        self.next_id = self.next_id + 1;
        self.in_flight.insert(id, InFlight { entity, purpose, issued_tick: now_tick });
        proof {
            assert forall|k: i64| #[trigger] self@.dom().contains(k) implies 1 <= k by {
                if k != id {
                    assert(old(self)@.dom().contains(k));
                }
            }
            if self.next_id_spec() < i64::MAX {
                assert forall|k: i64| #[trigger] self@.dom().contains(k) implies k
                    < self.next_id_spec() by {
                    if k != id {
                        assert(old(self)@.dom().contains(k));
                    }
                }
            }
        }
        id
    }

    /// The id of the in-flight request this entity issued for this
    /// purpose, if one is outstanding.
    pub fn lookup(&self, entity: i64, purpose: CommandPayload) -> (r: Option<i64>)
        requires
            self.wf(),
        ensures
            match r {
                Some(id) => self@.dom().contains(id) && self@[id].entity == entity
                    && self@[id].purpose == purpose,
                None => forall|id: i64|
                    self@.dom().contains(id) ==> !((#[trigger] self@[id]).entity == entity
                        && self@[id].purpose == purpose),
            },
    {
        let n = self.in_flight.len();
        let mut i: usize = 0;
        while i < n
            invariant
                self.wf(),
                n == self.in_flight.entries_seq().len(),
                i <= n,
                forall|j: int|
                    0 <= j < i ==> !((#[trigger] self.in_flight.entries_seq()[j]).1.entity
                        == entity && self.in_flight.entries_seq()[j].1.purpose == purpose),
            decreases n - i,
        {
            let entry = self.in_flight.entry_at(i);
            if entry.1.entity == entity && matches!((entry.1.purpose, purpose),
                (CommandPayload::TryChop, CommandPayload::TryChop)
                | (CommandPayload::SetOnFire, CommandPayload::SetOnFire)
                | (CommandPayload::ClearFire, CommandPayload::ClearFire)
                | (CommandPayload::Deposit, CommandPayload::Deposit)) {
                return Some(entry.0);
            }
            i = i + 1;
        }
        proof {
            self.in_flight.lemma_dom();
            assert forall|id: i64| self@.dom().contains(id) implies !((
            #[trigger] self@[id]).entity == entity && self@[id].purpose == purpose) by {
                let j = crate::idmap::key_index(self.in_flight.entries_seq(), id);
                self.in_flight.lemma_entry(j);
            }
        }
        return None;
    }

    /// Resolve an in-flight request against the responses the view
    /// observed this tick.  Returns the outcome and removes the entry,
    /// or `None` while the request stays unresolved inside its window.
    /// An id that is not tracked — never issued here, or already
    /// resolved — yields `None`.
    pub fn resolve(
        &mut self,
        entity: i64,
        request_id: i64,
        view: &ReplicatedView,
        now_tick: u64,
    ) -> (r: Option<Outcome>)
        requires
            old(self).wf(),
            view.wf(),
        ensures
            final(self).wf(),
            r == resolve_result(
                old(self)@,
                entity,
                request_id,
                response_for(view@, request_id),
                now_tick,
                old(self).timeout_spec(),
            ),
            final(self)@ == resolve_remaining(
                old(self)@,
                entity,
                request_id,
                response_for(view@, request_id),
                now_tick,
                old(self).timeout_spec(),
            ),
            final(self).timeout_spec() == old(self).timeout_spec(),
            final(self).next_id_spec() == old(self).next_id_spec(),
    {
        let entry: InFlight = match self.in_flight.get(request_id) {
            Some(e) => *e,
            None => {
                return None;
            },
        };
        match view.get_command_response(entity, request_id) {
            Some(outcome) => {
                self.in_flight.remove(request_id);
                match outcome {
                    ResponseOutcome::Success => Some(Outcome::Success),
                    ResponseOutcome::ApplicationError(_) => Some(Outcome::ApplicationError),
                    ResponseOutcome::Other => Some(Outcome::ApplicationError),
                }
            },
            None => {
                if now_tick > entry.issued_tick && now_tick - entry.issued_tick
                    > self.timeout_ticks {
                    self.in_flight.remove(request_id);
                    Some(Outcome::Timeout)
                } else {
                    None
                }
            },
        }
    }
}

/// Issuing a request and then resolving it against a matching response
/// yields exactly that response's outcome, and the entry is gone.
pub proof fn lemma_issue_then_resolve(
    t: Map<i64, InFlight>,
    id: i64,
    entry: InFlight,
    entity: i64,
    outcome: Outcome,
    now_tick: u64,
    timeout_ticks: u64,
)
    ensures
        resolve_result(
            t.insert(id, entry),
            entity,
            id,
            Some((entity, outcome)),
            now_tick,
            timeout_ticks,
        ) == Some(outcome),
        !resolve_remaining(
            t.insert(id, entry),
            entity,
            id,
            Some((entity, outcome)),
            now_tick,
            timeout_ticks,
        ).dom().contains(id),
{
}

/// Resolving an id a second time yields `None`: the first resolution
/// removed the entry.
pub proof fn lemma_resolve_twice(
    t: Map<i64, InFlight>,
    entity: i64,
    id: i64,
    resp: Option<(i64, Outcome)>,
    resp2: Option<(i64, Outcome)>,
    now_tick: u64,
    now_tick2: u64,
    timeout_ticks: u64,
)
    requires
        resolve_result(t, entity, id, resp, now_tick, timeout_ticks) is Some,
    ensures
        resolve_result(
            resolve_remaining(t, entity, id, resp, now_tick, timeout_ticks),
            entity,
            id,
            resp2,
            now_tick2,
            timeout_ticks,
        ) is None,
{
}

/// Resolving an id that was never issued yields `None`.
pub proof fn lemma_resolve_unissued(
    t: Map<i64, InFlight>,
    entity: i64,
    id: i64,
    resp: Option<(i64, Outcome)>,
    now_tick: u64,
    timeout_ticks: u64,
)
    requires
        !t.dom().contains(id),
    ensures
        resolve_result(t, entity, id, resp, now_tick, timeout_ticks) is None,
        resolve_remaining(t, entity, id, resp, now_tick, timeout_ticks) == t,
{
}

} // verus!
