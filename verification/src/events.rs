//! Inbound events: buffered, deduplicated, and handed to one consumer.
//!
//! Claiming is the delicate part. In both directions, a wait looking for a
//! buffered event and an event looking for a waiter, the winner is selected and
//! marked in one step: two runs that wait on one key never consume one message,
//! and one message never resumes two runs.

use vstd::prelude::*;

use crate::domain::{
    bad_instant, keys_of, no_instant, parse_json, phase_from, phase_of, phase_str, phase_word,
    reading, CorrelationKey, IdModel, Phase, StoredId,
};
use crate::error::{Refusal, StoreError};
use crate::events_laws::{
    law_buffering_agrees, law_claiming_agrees, law_delivering_agrees, law_erasing_agrees,
    law_handing_over_agrees, law_matching_agrees, law_subscribing_agrees, law_sweeping_agrees,
    law_unsubscribing_agrees,
};
use crate::table::{chosen, every, listed, page, Pick, Stamp, Table};
use crate::text::{copied, join4, said, same};

verus! {

// ── What is stored ──────────────────────────────────────────────────────────

/// A message from outside. Its identity is the pair of `source` and `id`: an id
/// is unique only within one producer.
#[derive(Debug)]
pub struct InboundEvent {
    pub source: String,
    pub id: String,
    pub kind: String,
    pub correlation: Vec<CorrelationKey>,
    /// The payload, as JSON text.
    pub payload: String,
}

/// What an [`InboundEvent`] says.
#[verifier::ext_equal]
pub struct EventModel {
    pub key: (Seq<char>, Seq<char>),
    pub kind: Seq<char>,
    pub correlation: Seq<(Seq<char>, Seq<char>)>,
    pub payload: Seq<char>,
}

impl View for InboundEvent {
    type V = EventModel;

    open spec fn view(&self) -> EventModel {
        EventModel {
            key: (self.source@, self.id@),
            kind: self.kind@,
            correlation: keys_of(self.correlation@),
            payload: self.payload@,
        }
    }
}

/// An event as it is stored under its identity.
#[derive(Debug)]
pub struct EventRow {
    pub kind: String,
    pub payload: String,
    pub received_at: i64,
    pub claimed_by: String,
    pub claimed_at: i64,
    pub has_claim: bool,
    pub dead: bool,
    pub reason: String,
    /// What is wrong with its arrival, where it is no instant.
    pub received_fault: Option<String>,
}

/// What an [`EventRow`] says.
pub struct EventRowModel {
    pub kind: Seq<char>,
    pub payload: Seq<char>,
    pub received_at: i64,
    pub claimed_by: Seq<char>,
    pub claimed_at: i64,
    pub has_claim: bool,
    pub dead: bool,
    pub reason: Seq<char>,
    pub received_fault: Option<Seq<char>>,
}

impl View for EventRow {
    type V = EventRowModel;

    open spec fn view(&self) -> EventRowModel {
        EventRowModel {
            kind: self.kind@,
            payload: self.payload@,
            received_at: self.received_at,
            claimed_by: self.claimed_by@,
            claimed_at: self.claimed_at,
            has_claim: self.has_claim,
            dead: self.dead,
            reason: self.reason@,
            received_fault: said(self.received_fault),
        }
    }
}

/// A wait of a run at one of its effects.
#[derive(Debug)]
pub struct Subscription {
    pub run: String,
    pub case: Option<String>,
    pub effect: String,
    pub step: u32,
    pub phase: Phase,
    pub kind: String,
    pub correlation: Vec<CorrelationKey>,
}

/// What a [`Subscription`] says.
#[verifier::ext_equal]
pub struct WaitModel {
    pub run: Seq<char>,
    pub case: Option<Seq<char>>,
    pub effect: Seq<char>,
    pub step: u32,
    pub phase: Phase,
    pub kind: Seq<char>,
    pub correlation: Seq<(Seq<char>, Seq<char>)>,
}

impl View for Subscription {
    type V = WaitModel;

    open spec fn view(&self) -> WaitModel {
        WaitModel {
            run: self.run@,
            case: match self.case {
                Some(c) => Some(c@),
                None => None,
            },
            effect: self.effect@,
            step: self.step,
            phase: self.phase,
            kind: self.kind@,
            correlation: keys_of(self.correlation@),
        }
    }
}

/// A wait as it is stored, once for each key it waits on.
#[derive(Debug)]
pub struct SubRow {
    pub case: Option<StoredId>,
    pub step: u32,
    pub phase: String,
    pub kind: String,
    pub created_at: i64,
    /// What is wrong with the run id the row is under, where it is none.
    pub run_fault: Option<String>,
    /// What is wrong with the effect key the row is under, where it is none.
    pub effect_fault: Option<String>,
}

/// What a [`SubRow`] says.
pub struct SubModel {
    pub case: Option<IdModel>,
    pub step: u32,
    pub phase: Seq<char>,
    pub kind: Seq<char>,
    pub created_at: i64,
    pub run_fault: Option<Seq<char>>,
    pub effect_fault: Option<Seq<char>>,
}

/// What an optional text says.
pub open spec fn fault_of(f: Option<String>) -> Option<Seq<char>> {
    match f {
        Some(f) => Some(f@),
        None => None,
    }
}

impl View for SubRow {
    type V = SubModel;

    open spec fn view(&self) -> SubModel {
        SubModel {
            case: match self.case {
                Some(c) => Some(c@),
                None => None,
            },
            step: self.step,
            phase: self.phase@,
            kind: self.kind@,
            created_at: self.created_at,
            run_fault: fault_of(self.run_fault),
            effect_fault: fault_of(self.effect_fault),
        }
    }
}

/// An event handed to a run.
#[derive(Debug)]
pub struct BufferedEvent {
    pub event: InboundEvent,
    pub received_at: i64,
}

impl View for BufferedEvent {
    type V = (EventModel, i64);

    open spec fn view(&self) -> (EventModel, i64) {
        (self.event@, self.received_at)
    }
}

/// A retired event.
#[derive(Debug)]
pub struct DeadLetter {
    pub event: InboundEvent,
    pub received_at: i64,
    pub reason: String,
}

impl View for DeadLetter {
    type V = (EventModel, i64, Seq<char>);

    open spec fn view(&self) -> (EventModel, i64, Seq<char>) {
        (self.event@, self.received_at, self.reason@)
    }
}

/// A retired event as it is stored.
#[derive(Debug)]
pub struct RetiredEvent {
    pub event: InboundEvent,
    pub received_at: i64,
    /// What is wrong with its arrival, where it is no instant.
    pub received_fault: Option<String>,
    pub reason: String,
}

impl View for RetiredEvent {
    type V = (EventModel, (i64, Option<Seq<char>>), Seq<char>);

    open spec fn view(&self) -> (EventModel, (i64, Option<Seq<char>>), Seq<char>) {
        (self.event@, (self.received_at, said(self.received_fault)), self.reason@)
    }
}

/// What became of a message sent to one run.
#[derive(Debug)]
pub enum TargetedDelivery {
    /// The run waits for it, and has it.
    Matched(Subscription),
    /// The message is already here, and not for this run's wait.
    Duplicate,
    /// The run does not wait for it, and nothing was written.
    NotWaiting,
}

/// What a [`TargetedDelivery`] says.
pub enum DeliveryModel {
    Matched(WaitModel),
    Duplicate,
    NotWaiting,
}

impl View for TargetedDelivery {
    type V = DeliveryModel;

    open spec fn view(&self) -> DeliveryModel {
        match self {
            TargetedDelivery::Matched(s) => DeliveryModel::Matched(s@),
            TargetedDelivery::Duplicate => DeliveryModel::Duplicate,
            TargetedDelivery::NotWaiting => DeliveryModel::NotWaiting,
        }
    }
}

// ── The tables ──────────────────────────────────────────────────────────────

/// A pair of texts: an event's identity, a correlation key, or a run and its
/// effect.
pub type Pair = (Seq<char>, Seq<char>);

/// A tenant's event.
pub type EventKey = (Seq<char>, Pair);

/// One correlation key of an event.
pub type CorrKey = (Seq<char>, (Pair, Pair));

/// An event under one of its keys, by arrival.
pub type ByKey = (Seq<char>, (Pair, (i64, Pair)));

/// A wait on one key.
pub type SubKey = (Seq<char>, (Pair, Pair));

/// A wait under the kind and key it waits for, by registration.
pub type SubByKey = (Seq<char>, (Seq<char>, (Pair, (i64, Pair))));

/// A wait on one key, by registration.
pub type SubByTime = (Seq<char>, (i64, (Pair, Pair)));

/// An event by arrival.
pub type ByTime = (Seq<char>, (i64, Pair));

/// An event that a run holds.
pub type Held = (Seq<char>, (Seq<char>, Pair));

/// What the event tables hold.
#[verifier::ext_equal]
pub struct EventState {
    pub events: Map<EventKey, EventRowModel>,
    pub corr: Map<CorrKey, ()>,
    pub by_key: Map<ByKey, ()>,
    pub subs: Map<SubKey, SubModel>,
    pub subs_by_key: Map<SubByKey, ()>,
    pub subs_by_time: Map<SubByTime, ()>,
    /// Unclaimed and not retired.
    pub live: Map<ByTime, ()>,
    /// Retired.
    pub dead: Map<ByTime, ()>,
    /// Claimed, and the payload not shed.
    pub claimed: Map<Held, ()>,
}

/// The inbound events of a plane and the waits for them.
pub struct EventBook {
    pub events: Table<(String, (String, String)), EventRow>,
    pub corr: Table<(String, ((String, String), (String, String))), ()>,
    pub by_key: Table<(String, ((String, String), (i64, (String, String)))), ()>,
    pub subs: Table<(String, ((String, String), (String, String))), SubRow>,
    pub subs_by_key: Table<(String, (String, ((String, String), (i64, (String, String))))), ()>,
    pub subs_by_time: Table<(String, (i64, ((String, String), (String, String)))), ()>,
    pub live: Table<(String, (i64, (String, String))), ()>,
    pub dead: Table<(String, (i64, (String, String))), ()>,
    pub claimed: Table<(String, (String, (String, String))), ()>,
}

impl View for EventBook {
    type V = EventState;

    open spec fn view(&self) -> EventState {
        EventState {
            events: self.events@,
            corr: self.corr@,
            by_key: self.by_key@,
            subs: self.subs@,
            subs_by_key: self.subs_by_key@,
            subs_by_time: self.subs_by_time@,
            live: self.live@,
            dead: self.dead@,
            claimed: self.claimed@,
        }
    }
}

/// Tables with no events and no waits.
pub open spec fn no_events() -> EventState {
    EventState {
        events: Map::empty(),
        corr: Map::empty(),
        by_key: Map::empty(),
        subs: Map::empty(),
        subs_by_key: Map::empty(),
        subs_by_time: Map::empty(),
        live: Map::empty(),
        dead: Map::empty(),
        claimed: Map::empty(),
    }
}

impl EventState {
    /// An event is on the live list exactly while it is unclaimed and not
    /// retired, under the instant it arrived.
    pub open spec fn live_agrees(self) -> bool {
        forall|k: ByTime| #[trigger]
            self.live.contains_key(k) <==> {
                &&& self.events.contains_key((k.0, k.1.1))
                &&& self.events[(k.0, k.1.1)].received_at == k.1.0
                &&& !self.events[(k.0, k.1.1)].has_claim
                &&& !self.events[(k.0, k.1.1)].dead
            }
    }

    /// An event is on the dead list exactly once it is retired.
    pub open spec fn dead_agrees(self) -> bool {
        forall|k: ByTime| #[trigger]
            self.dead.contains_key(k) <==> {
                &&& self.events.contains_key((k.0, k.1.1))
                &&& self.events[(k.0, k.1.1)].received_at == k.1.0
                &&& self.events[(k.0, k.1.1)].dead
            }
    }

    /// What a run holds is claimed by it and by nobody else, and not retired; and
    /// a claimed event that still has its payload is among what its run holds.
    pub open spec fn claims_agree(self) -> bool {
        &&& forall|k: Held| #[trigger]
            self.claimed.contains_key(k) ==> {
                &&& self.events.contains_key((k.0, k.1.1))
                &&& self.events[(k.0, k.1.1)].has_claim
                &&& self.events[(k.0, k.1.1)].claimed_by == k.1.0
                &&& !self.events[(k.0, k.1.1)].dead
            }
        &&& forall|k: EventKey| #[trigger]
            self.events.contains_key(k) && self.events[k].has_claim && self.events[k].payload
                != "null"@ ==> self.claimed.contains_key((k.0, (self.events[k].claimed_by, k.1)))
    }

    /// No event is both claimed and retired.
    pub open spec fn fates_differ(self) -> bool {
        forall|k: EventKey| #[trigger]
            self.events.contains_key(k) ==> !(self.events[k].has_claim && self.events[k].dead)
    }

    /// The match path has an event under exactly its keys and its arrival.
    pub open spec fn keys_agree(self) -> bool {
        &&& forall|k: ByKey| #[trigger]
            self.by_key.contains_key(k) <==> {
                &&& self.corr.contains_key((k.0, (k.1.1.1, k.1.0)))
                &&& self.events.contains_key((k.0, k.1.1.1))
                &&& self.events[(k.0, k.1.1.1)].received_at == k.1.1.0
            }
        &&& forall|k: CorrKey| #[trigger]
            self.corr.contains_key(k) ==> self.events.contains_key((k.0, k.1.0))
    }

    /// Both wait indexes have exactly the waits there are.
    pub open spec fn waits_agree(self) -> bool {
        &&& forall|k: SubByKey| #[trigger]
            self.subs_by_key.contains_key(k) <==> {
                let s = (k.0, (k.1.1.1.1, k.1.1.0));
                &&& self.subs.contains_key(s)
                &&& self.subs[s].kind == k.1.0
                &&& self.subs[s].created_at == k.1.1.1.0
            }
        &&& forall|k: SubByTime| #[trigger]
            self.subs_by_time.contains_key(k) <==> {
                let s = (k.0, k.1.1);
                &&& self.subs.contains_key(s)
                &&& self.subs[s].created_at == k.1.0
            }
    }

    /// The tables agree with each other.
    pub open spec fn wf(self) -> bool {
        &&& self.live_agrees()
        &&& self.dead_agrees()
        &&& self.claims_agree()
        &&& self.fates_differ()
        &&& self.keys_agree()
        &&& self.waits_agree()
    }
}

// ── What the operations do ──────────────────────────────────────────────────

/// The row of an event that has just arrived.
pub open spec fn fresh_row(ev: EventModel, at: i64) -> EventRowModel {
    EventRowModel {
        kind: ev.kind,
        payload: ev.payload,
        received_at: at,
        claimed_by: Seq::empty(),
        claimed_at: 0,
        has_claim: false,
        dead: false,
        reason: Seq::empty(),
        received_fault: None,
    }
}

/// A row, claimed for a run.
pub open spec fn claimed_row(row: EventRowModel, run: Seq<char>, at: i64) -> EventRowModel {
    EventRowModel {
        kind: row.kind,
        payload: row.payload,
        received_at: row.received_at,
        claimed_by: run,
        claimed_at: at,
        has_claim: true,
        dead: false,
        reason: Seq::empty(),
        received_fault: row.received_fault,
    }
}

/// A row, retired.
pub open spec fn dead_row(row: EventRowModel, reason: Seq<char>) -> EventRowModel {
    EventRowModel {
        kind: row.kind,
        payload: row.payload,
        received_at: row.received_at,
        claimed_by: Seq::empty(),
        claimed_at: 0,
        has_claim: false,
        dead: true,
        reason,
        received_fault: row.received_fault,
    }
}

/// A row without its content. Everything else of it stays: its identity
/// deduplicates a replay, and its claim and its retirement are still accounted
/// for.
pub open spec fn stripped(row: EventRowModel) -> EventRowModel {
    EventRowModel { payload: "null"@, ..row }
}

/// The correlation rows with an event's first `n` keys in them.
pub open spec fn corr_with(
    m: Map<CorrKey, ()>,
    t: Seq<char>,
    ev: Pair,
    keys: Seq<Pair>,
    n: int,
) -> Map<CorrKey, ()>
    decreases n,
{
    if n <= 0 {
        m
    } else {
        corr_with(m, t, ev, keys, n - 1).insert((t, (ev, keys[n - 1])), ())
    }
}

/// The match path with an event under its first `n` keys.
pub open spec fn by_key_with(
    m: Map<ByKey, ()>,
    t: Seq<char>,
    ev: Pair,
    keys: Seq<Pair>,
    at: i64,
    n: int,
) -> Map<ByKey, ()>
    decreases n,
{
    if n <= 0 {
        m
    } else {
        by_key_with(m, t, ev, keys, at, n - 1).insert((t, (keys[n - 1], (at, ev))), ())
    }
}

/// The tables after an event that was not here was buffered.
pub open spec fn buffered(st: EventState, t: Seq<char>, ev: EventModel, at: i64) -> EventState {
    EventState {
        events: st.events.insert((t, ev.key), fresh_row(ev, at)),
        live: st.live.insert((t, (at, ev.key)), ()),
        corr: corr_with(st.corr, t, ev.key, ev.correlation, ev.correlation.len() as int),
        by_key: by_key_with(
            st.by_key,
            t,
            ev.key,
            ev.correlation,
            at,
            ev.correlation.len() as int,
        ),
        ..st
    }
}

/// Whether an event is not here yet.
pub open spec fn is_new(st: EventState, t: Seq<char>, ev: Pair) -> bool {
    !st.events.contains_key((t, ev))
}

/// The row of a wait.
pub open spec fn sub_row(w: WaitModel, at: i64) -> SubModel {
    SubModel {
        case: match w.case {
            Some(c) => Some(crate::domain::good_id(c)),
            None => None,
        },
        step: w.step,
        phase: phase_word(w.phase),
        kind: w.kind,
        created_at: at,
        run_fault: None,
        effect_fault: None,
    }
}

/// The tables after a wait was registered on its first `n` keys. A key that it
/// already waits on keeps its row.
pub open spec fn subscribed(st: EventState, t: Seq<char>, w: WaitModel, at: i64, n: int) -> EventState
    decreases n,
{
    if n <= 0 {
        st
    } else {
        let before = subscribed(st, t, w, at, n - 1);
        let wait = (w.run, w.effect);
        let key = w.correlation[n - 1];
        if before.subs.contains_key((t, (wait, key))) {
            before
        } else {
            EventState {
                subs: before.subs.insert((t, (wait, key)), sub_row(w, at)),
                subs_by_key: before.subs_by_key.insert((t, (w.kind, (key, (at, wait)))), ()),
                subs_by_time: before.subs_by_time.insert((t, (at, (wait, key))), ()),
                ..before
            }
        }
    }
}

/// The tables after an event was claimed for a run.
pub open spec fn claimed(st: EventState, t: Seq<char>, ev: Pair, run: Seq<char>, at: i64) -> EventState {
    let row = st.events[(t, ev)];
    EventState {
        events: st.events.insert((t, ev), claimed_row(row, run, at)),
        live: st.live.remove((t, (row.received_at, ev))),
        claimed: st.claimed.insert((t, (run, ev)), ()),
        ..st
    }
}

/// The tables after a wait was retired from every key it waits on.
pub open spec fn retired(st: EventState, t: Seq<char>, wait: Pair) -> EventState {
    EventState {
        subs: Map::new(
            |k: SubKey| st.subs.contains_key(k) && !(k.0 == t && k.1.0 == wait),
            |k: SubKey| st.subs[k],
        ),
        subs_by_key: Map::new(
            |k: SubByKey|
                st.subs_by_key.contains_key(k) && !(k.0 == t && k.1.1.1.1 == wait
                    && st.subs.contains_key((t, (wait, k.1.1.0))) && st.subs[(
                    t,
                    (wait, k.1.1.0),
                )].kind == k.1.0 && st.subs[(t, (wait, k.1.1.0))].created_at == k.1.1.1.0),
            |k: SubByKey| (),
        ),
        subs_by_time: Map::new(
            |k: SubByTime|
                st.subs_by_time.contains_key(k) && !(k.0 == t && k.1.1.0 == wait
                    && st.subs.contains_key((t, (wait, k.1.1.1))) && st.subs[(
                    t,
                    (wait, k.1.1.1),
                )].created_at == k.1.0),
            |k: SubByTime| (),
        ),
        ..st
    }
}

/// The tables after a run shed the payload of everything it holds.
pub open spec fn shed(st: EventState, t: Seq<char>, run: Seq<char>) -> EventState {
    EventState {
        events: Map::new(
            |k: EventKey| st.events.contains_key(k),
            |k: EventKey|
                if k.0 == t && st.claimed.contains_key((t, (run, k.1))) {
                    stripped(st.events[k])
                } else {
                    st.events[k]
                },
        ),
        claimed: Map::new(
            |k: Held| st.claimed.contains_key(k) && !(k.0 == t && k.1.0 == run),
            |k: Held| (),
        ),
        ..st
    }
}

/// The tables after a run's wait ended: the wait is gone from every index, and
/// the run sheds what it holds.
pub open spec fn unsubscribed(st: EventState, t: Seq<char>, wait: Pair) -> EventState {
    shed(retired(st, t, wait), t, wait.0)
}

/// The tables after an event's content was erased.
pub open spec fn erased(st: EventState, t: Seq<char>, ev: Pair) -> EventState {
    if st.events.contains_key((t, ev)) {
        EventState { events: st.events.insert((t, ev), stripped(st.events[(t, ev)])), ..st }
    } else {
        st
    }
}

/// Whether an event is due to be retired: on the live list since no later than
/// the cutoff, and here.
pub open spec fn doomed(st: EventState, t: Seq<char>, cutoff: i64) -> spec_fn((ByTime, ())) -> bool {
    |e: (ByTime, ())| e.0.0 == t && e.0.1.0 <= cutoff && st.events.contains_key((t, e.0.1.1))
}

/// How many events are due to be retired.
pub open spec fn swept_count(st: EventState, t: Seq<char>, cutoff: i64) -> nat {
    chosen::<(String, (i64, (String, String))), ()>(st.live, doomed(st, t, cutoff)).len()
}

/// Whether this event is among those that are due to be retired.
pub open spec fn is_doomed(st: EventState, t: Seq<char>, cutoff: i64, ev: Pair) -> bool {
    exists|at: i64| at <= cutoff && #[trigger] st.live.contains_key((t, (at, ev)))
}

/// Whether an event is among the first `n` of these.
spec fn retired_by(rows: Seq<(ByTime, ())>, t: Seq<char>, n: int, k: EventKey) -> bool {
    exists|j: int| 0 <= j < n && k == (t, (#[trigger] rows[j]).0.1.1)
}

/// The tables after everything unclaimed since no later than the cutoff was
/// retired.
pub open spec fn swept(st: EventState, t: Seq<char>, cutoff: i64, reason: Seq<char>) -> EventState {
    EventState {
        events: Map::new(
            |k: EventKey| st.events.contains_key(k),
            |k: EventKey|
                if k.0 == t && is_doomed(st, t, cutoff, k.1) {
                    dead_row(st.events[k], reason)
                } else {
                    st.events[k]
                },
        ),
        live: Map::new(
            |k: ByTime| st.live.contains_key(k) && !doomed(st, t, cutoff)((k, ())),
            |k: ByTime| (),
        ),
        dead: Map::new(
            |k: ByTime|
                st.dead.contains_key(k) || (k.0 == t && st.events.contains_key((t, k.1.1))
                    && is_doomed(st, t, cutoff, k.1.1) && k.1.0 == st.events[(
                    t,
                    k.1.1,
                )].received_at),
            |k: ByTime| (),
        ),
        ..st
    }
}

// ── Who waits ───────────────────────────────────────────────────────────────

/// When each wait for a kind of event on any of these keys began. A wait is
/// listed once for each of the keys that it waits on.
pub open spec fn waits_for(st: EventState, t: Seq<char>, kind: Seq<char>, keys: Seq<Pair>) -> spec_fn(
    (SubByKey, ()),
) -> Option<i64> {
    |e: (SubByKey, ())|
        if e.0.0 == t && e.0.1.0 == kind && keys.contains(e.0.1.1.0) && st.subs.contains_key(
            (t, (e.0.1.1.1.1, e.0.1.1.0)),
        ) {
            Some(e.0.1.1.1.0)
        } else {
            None
        }
}

/// The wait that an event goes to, and the key it was found on: the oldest that
/// waits for its kind on any of its keys. Among waits of one instant the first
/// in the index goes.
pub open spec fn oldest_waiter(st: EventState, t: Seq<char>, kind: Seq<char>, keys: Seq<Pair>) -> Option<
    (Pair, Pair),
> {
    let rows = listed::<(String, (String, ((String, String), (i64, (String, String))))), ()>(
        st.subs_by_key,
        waits_for(st, t, kind, keys),
    );
    if rows.len() == 0 {
        None
    } else {
        Some((rows[0].0.1.1.1.1.1, rows[0].0.1.1.1.0))
    }
}

/// An event that a run may take on one key: of the right kind, not retired, and
/// unclaimed, or claimed by this very run. The last is how a run gets back what
/// was claimed for it before it crashed.
pub open spec fn takeable(
    st: EventState,
    t: Seq<char>,
    run: Seq<char>,
    kind: Seq<char>,
    key: Pair,
) -> spec_fn((ByKey, ())) -> bool {
    |e: (ByKey, ())|
        e.0.0 == t && e.0.1.0 == key && st.events.contains_key((t, e.0.1.1.1)) && {
            let row = st.events[(t, e.0.1.1.1)];
            row.kind == kind && (!row.has_claim || row.claimed_by == run) && !row.dead
        }
}

/// The oldest event that a run may take on one key.
pub open spec fn event_on(
    st: EventState,
    t: Seq<char>,
    run: Seq<char>,
    kind: Seq<char>,
    key: Pair,
) -> Option<Pair> {
    let rows = chosen::<(String, ((String, String), (i64, (String, String)))), ()>(
        st.by_key,
        takeable(st, t, run, kind, key),
    );
    if rows.len() == 0 {
        None
    } else {
        Some(rows[0].0.1.1.1)
    }
}

/// The oldest event that a run may take on the first of the first `n` keys that
/// has one.
pub open spec fn event_among(
    st: EventState,
    t: Seq<char>,
    run: Seq<char>,
    kind: Seq<char>,
    keys: Seq<Pair>,
    n: int,
) -> Option<Pair>
    decreases n,
{
    if n <= 0 {
        None
    } else {
        match event_among(st, t, run, kind, keys, n - 1) {
            Some(ev) => Some(ev),
            None => event_on(st, t, run, kind, keys[n - 1]),
        }
    }
}

/// The event that a wait takes.
pub open spec fn oldest_event(st: EventState, t: Seq<char>, w: WaitModel) -> Option<Pair> {
    event_among(st, t, w.run, w.kind, w.correlation, w.correlation.len() as int)
}

/// The keys of an event.
pub open spec fn of_event(t: Seq<char>, ev: Pair) -> spec_fn((CorrKey, ())) -> bool {
    |e: (CorrKey, ())| e.0.0 == t && e.0.1.0 == ev
}

/// The keys of an event, in order.
pub open spec fn correlation_of(st: EventState, t: Seq<char>, ev: Pair) -> Seq<Pair> {
    let rows = chosen::<(String, ((String, String), (String, String))), ()>(
        st.corr,
        of_event(t, ev),
    );
    Seq::new(rows.len(), |i: int| rows[i].0.1.1)
}

/// The rows of a wait.
pub open spec fn of_wait(t: Seq<char>, wait: Pair) -> spec_fn((SubKey, SubModel)) -> bool {
    |e: (SubKey, SubModel)| e.0.0 == t && e.0.1.0 == wait
}

/// The keys that a wait waits on, in order.
pub open spec fn waited_keys(st: EventState, t: Seq<char>, wait: Pair) -> Seq<Pair> {
    let rows = chosen::<(String, ((String, String), (String, String))), SubModel>(
        st.subs,
        of_wait(t, wait),
    );
    Seq::new(rows.len(), |i: int| rows[i].0.1.1)
}

pub open spec fn bad_id_text(what: Seq<char>, id: Seq<char>, fault: Seq<char>) -> Seq<char> {
    what + id + "': "@ + fault
}

/// How a wait reads back from a row of it: an id that is none is damage, the
/// run's first, the case's next and the effect's last.
pub open spec fn wait_read(wait: Pair, row: SubModel, kind: Seq<char>, keys: Seq<Pair>) -> Result<
    WaitModel,
    Refusal,
> {
    match row.run_fault {
        Some(f) => Err(
            Refusal::Corrupt { seq: 0, detail: bad_id_text("bad run id '"@, wait.0, f) },
        ),
        None => match row.case {
            Some(IdModel { text, fault: Some(f) }) => Err(
                Refusal::Corrupt { seq: 0, detail: bad_id_text("bad case id '"@, text, f) },
            ),
            _ => match row.effect_fault {
                Some(f) => Err(
                    Refusal::Corrupt {
                        seq: 0,
                        detail: bad_id_text("bad effect key '"@, wait.1, f),
                    },
                ),
                None => Ok(
                    WaitModel {
                        run: wait.0,
                        case: match row.case {
                            Some(id) => Some(id.text),
                            None => None,
                        },
                        effect: wait.1,
                        step: row.step,
                        phase: phase_of(row.phase),
                        kind,
                        correlation: keys,
                    },
                ),
            },
        },
    }
}

/// Whether a run may have an event: it is here, it is not retired, and nobody
/// else has it.
pub open spec fn free_for(st: EventState, t: Seq<char>, ev: Pair, run: Seq<char>) -> bool {
    &&& st.events.contains_key((t, ev))
    &&& !st.events[(t, ev)].dead
    &&& !st.events[(t, ev)].has_claim || st.events[(t, ev)].claimed_by == run
}

/// Whether an event can still be claimed for somebody.
pub open spec fn claimable(st: EventState, t: Seq<char>, ev: Pair) -> bool {
    &&& st.events.contains_key((t, ev))
    &&& !st.events[(t, ev)].has_claim
    &&& !st.events[(t, ev)].dead
}

/// What handing an event over answers, given what its payload parsed to. A
/// payload that does not parse comes first, and an arrival that is no instant
/// next.
pub open spec fn take_answer(
    st: EventState,
    t: Seq<char>,
    ev: Pair,
    parsed: Result<Seq<char>, Seq<char>>,
) -> Result<(EventModel, i64), Refusal> {
    match parsed {
        Err(fault) => Err(Refusal::Backend(fault)),
        Ok(payload) => match st.events[(t, ev)].received_fault {
            Some(fault) => Err(bad_instant(st.events[(t, ev)].received_at, fault)),
            None => Ok(
                (
                    EventModel {
                        key: ev,
                        kind: st.events[(t, ev)].kind,
                        correlation: correlation_of(st, t, ev),
                        payload,
                    },
                    st.events[(t, ev)].received_at,
                ),
            ),
        },
    }
}

/// What an event's payload parses to.
pub open spec fn json_read_of(st: EventState, t: Seq<char>, ev: Pair) -> Result<
    Seq<char>,
    Seq<char>,
> {
    crate::domain::json_read(st.events[(t, ev)].payload)
}

/// What a wait that looks for an event is answered.
pub open spec fn claim_answer(st: EventState, t: Seq<char>, w: WaitModel) -> Result<
    Option<(EventModel, i64)>,
    Refusal,
> {
    match oldest_event(st, t, w) {
        None => Ok(None),
        Some(ev) => match take_answer(st, t, ev, json_read_of(st, t, ev)) {
            Ok(e) => Ok(Some(e)),
            Err(e) => Err(e),
        },
    }
}

/// The tables after it: the event it was handed is claimed for its run.
pub open spec fn claimed_for(st: EventState, t: Seq<char>, w: WaitModel, at: i64) -> EventState {
    match claim_answer(st, t, w) {
        Ok(Some(e)) => claimed(st, t, e.0.key, w.run, at),
        _ => st,
    }
}

/// An event that was found stays found.
proof fn lemma_event_stays(
    st: EventState,
    t: Seq<char>,
    run: Seq<char>,
    kind: Seq<char>,
    keys: Seq<Pair>,
    n: int,
    m: int,
)
    requires
        n <= m,
        event_among(st, t, run, kind, keys, n) is Some,
    ensures
        event_among(st, t, run, kind, keys, m) == event_among(st, t, run, kind, keys, n),
    decreases m - n,
{
    if n < m {
        lemma_event_stays(st, t, run, kind, keys, n, m - 1);
    }
}

/// What looking for the waiter of an event answers.
pub open spec fn match_answer(st: EventState, t: Seq<char>, ev: EventModel) -> Result<
    Option<WaitModel>,
    Refusal,
> {
    match oldest_waiter(st, t, ev.kind, ev.correlation) {
        Some((wait, key)) if claimable(st, t, ev.key) => match wait_read(
            wait,
            st.subs[(t, (wait, key))],
            ev.kind,
            waited_keys(st, t, wait),
        ) {
            Ok(w) => Ok(Some(w)),
            Err(e) => Err(e),
        },
        _ => Ok(None),
    }
}

/// The tables after it: the event is claimed for the waiter, and the wait it
/// satisfied is retired with it, so that no second event goes to it.
pub open spec fn matched(st: EventState, t: Seq<char>, ev: EventModel, at: i64) -> EventState {
    match match_answer(st, t, ev) {
        Ok(Some(w)) => retired(claimed(st, t, ev.key, w.run, at), t, (w.run, w.effect)),
        _ => st,
    }
}

/// A wait of a run that an event satisfies.
pub open spec fn wait_for(t: Seq<char>, run: Seq<char>, kind: Seq<char>, keys: Seq<Pair>) -> spec_fn(
    (SubKey, SubModel),
) -> bool {
    |e: (SubKey, SubModel)|
        e.0.0 == t && e.0.1.0.0 == run && e.1.kind == kind && keys.contains(e.0.1.1)
}

/// The first wait of a run that an event satisfies, with the key it waits on.
pub open spec fn selected(st: EventState, t: Seq<char>, run: Seq<char>, ev: EventModel) -> Option<
    (Pair, Pair),
> {
    let rows = chosen::<(String, ((String, String), (String, String))), SubModel>(
        st.subs,
        wait_for(t, run, ev.kind, ev.correlation),
    );
    if rows.len() == 0 {
        None
    } else {
        Some(rows[0].0.1)
    }
}

/// How the wait of a run that is known to be one reads back.
pub open spec fn target_read(wait: Pair, row: SubModel, kind: Seq<char>, keys: Seq<Pair>) -> Result<
    WaitModel,
    Refusal,
> {
    wait_read(wait, SubModel { run_fault: None, ..row }, kind, keys)
}

/// What delivering an event to one run answers.
pub open spec fn deliver_answer(st: EventState, t: Seq<char>, run: Seq<char>, ev: EventModel) -> Result<
    DeliveryModel,
    Refusal,
> {
    match selected(st, t, run, ev) {
        None => if st.events.contains_key((t, ev.key)) {
            Ok(DeliveryModel::Duplicate)
        } else {
            Ok(DeliveryModel::NotWaiting)
        },
        Some((wait, key)) => match target_read(
            wait,
            st.subs[(t, (wait, key))],
            ev.kind,
            waited_keys(st, t, wait),
        ) {
            Err(e) => Err(e),
            Ok(w) => if st.events.contains_key((t, ev.key)) && !(st.events[(t, ev.key)].has_claim
                && st.events[(t, ev.key)].claimed_by == run) {
                Ok(DeliveryModel::Duplicate)
            } else {
                Ok(DeliveryModel::Matched(w))
            },
        },
    }
}

/// The tables after an event that was not here was written as a run's own.
pub open spec fn handed_over(st: EventState, t: Seq<char>, run: Seq<char>, ev: EventModel, at: i64) -> EventState {
    EventState {
        events: st.events.insert((t, ev.key), claimed_row(fresh_row(ev, at), run, at)),
        corr: corr_with(st.corr, t, ev.key, ev.correlation, ev.correlation.len() as int),
        by_key: by_key_with(
            st.by_key,
            t,
            ev.key,
            ev.correlation,
            at,
            ev.correlation.len() as int,
        ),
        claimed: st.claimed.insert((t, (run, ev.key)), ()),
        ..st
    }
}

/// The tables after it. An event that is new is written as this run's own; one
/// that is here stays as it is, and so does the wait.
pub open spec fn delivered(st: EventState, t: Seq<char>, run: Seq<char>, ev: EventModel, at: i64) -> EventState {
    if deliver_answer(st, t, run, ev) matches Ok(DeliveryModel::Matched(_))
        && !st.events.contains_key((t, ev.key)) {
        handed_over(st, t, run, ev, at)
    } else {
        st
    }
}

/// A retired event that is here.
pub open spec fn retired_here(st: EventState, t: Seq<char>) -> spec_fn((ByTime, ())) -> bool {
    |e: (ByTime, ())| e.0.0 == t && st.events.contains_key((t, e.0.1.1))
}

/// What a list of retired events says.
pub open spec fn letters_of(v: Seq<DeadLetter>) -> Seq<(EventModel, i64, Seq<char>)> {
    Seq::new(v.len(), |i: int| v[i]@)
}

/// What a list of stored ones says.
pub open spec fn stored_of(v: Seq<RetiredEvent>) -> Seq<
    (EventModel, (i64, Option<Seq<char>>), Seq<char>),
> {
    Seq::new(v.len(), |i: int| v[i]@)
}

/// A retired event, with its payload as it is stored. One that says no reason
/// was unclaimed.
pub open spec fn letter(st: EventState, t: Seq<char>, ev: Pair) -> (
    EventModel,
    (i64, Option<Seq<char>>),
    Seq<char>,
) {
    let row = st.events[(t, ev)];
    (
        EventModel {
            key: ev,
            kind: row.kind,
            correlation: correlation_of(st, t, ev),
            payload: row.payload,
        },
        (row.received_at, row.received_fault),
        if row.reason == ""@ {
            "unclaimed"@
        } else {
            row.reason
        },
    )
}

/// The retired events, newest first and no more than `limit` of them.
pub open spec fn retired_letters(st: EventState, t: Seq<char>, limit: usize) -> Seq<
    (EventModel, (i64, Option<Seq<char>>), Seq<char>),
> {
    let rows = chosen::<(String, (i64, (String, String))), ()>(st.dead, retired_here(st, t));
    Seq::new(
        page(rows.len(), limit) as nat,
        |i: int| letter(st, t, rows[rows.len() - 1 - i].0.1.1),
    )
}

/// How a retired event reads, given what its payload parsed to. A payload that
/// does not parse comes first, and an arrival that is no instant next.
pub open spec fn letter_read(
    d: (EventModel, (i64, Option<Seq<char>>), Seq<char>),
    parsed: Result<Seq<char>, Seq<char>>,
) -> Result<(EventModel, i64, Seq<char>), Refusal> {
    match parsed {
        Err(fault) => Err(Refusal::Backend(fault)),
        Ok(payload) => match d.1.1 {
            Some(fault) => Err(bad_instant(d.1.0, fault)),
            None => Ok((EventModel { payload, ..d.0 }, d.1.0, d.2)),
        },
    }
}

/// How the first `n` retired events read, up to the first that does not.
pub open spec fn letters_read(
    all: Seq<(EventModel, (i64, Option<Seq<char>>), Seq<char>)>,
    n: int,
) -> Result<
    Seq<(EventModel, i64, Seq<char>)>,
    Refusal,
>
    decreases n,
{
    if n <= 0 {
        Ok(Seq::empty())
    } else {
        match letters_read(all, n - 1) {
            Err(e) => Err(e),
            Ok(out) => match letter_read(
                all[n - 1],
                crate::domain::json_read(all[n - 1].0.payload),
            ) {
                Err(e) => Err(e),
                Ok(d) => Ok(out.push(d)),
            },
        }
    }
}

proof fn lemma_letters_refused(
    all: Seq<(EventModel, (i64, Option<Seq<char>>), Seq<char>)>,
    n: int,
    m: int,
)
    requires
        n <= m,
        letters_read(all, n) is Err,
    ensures
        letters_read(all, m) == letters_read(all, n),
    decreases m - n,
{
    if n < m {
        lemma_letters_refused(all, n, m - 1);
    }
}

/// Reads a retired event, given what its payload parsed to.
pub fn read_letter(d: &RetiredEvent, parsed: Result<String, String>) -> (r: Result<
    DeadLetter,
    StoreError,
>)
    ensures
        letter_read(d@, reading(parsed)) == match r {
            Ok(l) => Ok::<(EventModel, i64, Seq<char>), Refusal>(l@),
            Err(e) => Err::<(EventModel, i64, Seq<char>), Refusal>(e@),
        },
{
    match parsed {
        Err(fault) => Err(StoreError::Backend(fault)),
        Ok(payload) => {
            if let Some(fault) = &d.received_fault {
                return Err(no_instant(d.received_at, fault));
            }
            Ok(
                DeadLetter {
                    event: InboundEvent {
                        source: d.event.source.clone(),
                        id: d.event.id.clone(),
                        kind: d.event.kind.clone(),
                        correlation: crate::domain::twin_keys(&d.event.correlation),
                        payload,
                    },
                    received_at: d.received_at,
                    reason: d.reason.clone(),
                },
            )
        },
    }
}

/// A wait that is there.
pub open spec fn registered(st: EventState, t: Seq<char>) -> spec_fn((SubByTime, ())) -> bool {
    |e: (SubByTime, ())| e.0.0 == t && st.subs.contains_key((t, e.0.1.1))
}

/// The waits, by registration.
pub open spec fn wait_rows(st: EventState, t: Seq<char>) -> Seq<(SubByTime, ())> {
    chosen::<(String, (i64, ((String, String), (String, String)))), ()>(
        st.subs_by_time,
        registered(st, t),
    )
}

/// What a list of waits says.
pub open spec fn waits_of(v: Seq<Subscription>) -> Seq<WaitModel> {
    Seq::new(v.len(), |i: int| v[i]@)
}

/// How the first `n` waits read, up to the first that does not.
pub open spec fn waits_read(st: EventState, t: Seq<char>, rows: Seq<(SubByTime, ())>, n: int) -> Result<
    Seq<WaitModel>,
    Refusal,
>
    decreases n,
{
    if n <= 0 {
        Ok(Seq::empty())
    } else {
        match waits_read(st, t, rows, n - 1) {
            Err(e) => Err(e),
            Ok(out) => {
                let (wait, key) = rows[n - 1].0.1.1;
                let row = st.subs[(t, (wait, key))];
                match wait_read(wait, row, row.kind, seq![key]) {
                    Err(e) => Err(e),
                    Ok(w) => Ok(out.push(w)),
                }
            },
        }
    }
}

proof fn lemma_waits_refused(st: EventState, t: Seq<char>, rows: Seq<(SubByTime, ())>, n: int, m: int)
    requires
        n <= m,
        waits_read(st, t, rows, n) is Err,
    ensures
        waits_read(st, t, rows, m) == waits_read(st, t, rows, n),
    decreases m - n,
{
    if n < m {
        lemma_waits_refused(st, t, rows, n, m - 1);
    }
}

// ── The choices ─────────────────────────────────────────────────────────────

struct OfEvent<'a> {
    tenant: &'a str,
    source: &'a str,
    id: &'a str,
}

impl<'a> Pick<(String, ((String, String), (String, String))), ()> for OfEvent<'a> {
    closed spec fn picks(&self, k: CorrKey, r: ()) -> bool {
        k.0 == self.tenant@ && k.1.0 == (self.source@, self.id@)
    }

    fn test(&self, k: &(String, ((String, String), (String, String))), r: &()) -> (b: bool) {
        same(&k.0, self.tenant) && same(&k.1.0.0, self.source) && same(&k.1.0.1, self.id)
    }
}

struct OfWait<'a> {
    tenant: &'a str,
    run: &'a str,
    effect: &'a str,
}

impl<'a> Pick<(String, ((String, String), (String, String))), SubRow> for OfWait<'a> {
    closed spec fn picks(&self, k: SubKey, r: SubModel) -> bool {
        k.0 == self.tenant@ && k.1.0 == (self.run@, self.effect@)
    }

    fn test(&self, k: &(String, ((String, String), (String, String))), r: &SubRow) -> (b: bool) {
        same(&k.0, self.tenant) && same(&k.1.0.0, self.run) && same(&k.1.0.1, self.effect)
    }
}

/// The entry by kind and key of a wait's row.
struct IndexedByKey<'a> {
    tenant: &'a str,
    run: &'a str,
    effect: &'a str,
    subs: &'a Table<(String, ((String, String), (String, String))), SubRow>,
}

impl<'a> Pick<
    (String, (String, ((String, String), (i64, (String, String))))),
    (),
> for IndexedByKey<'a> {
    closed spec fn picks(&self, k: SubByKey, r: ()) -> bool {
        let s = (self.tenant@, ((self.run@, self.effect@), k.1.1.0));
        k.0 == self.tenant@ && k.1.1.1.1 == (self.run@, self.effect@) && self.subs@.contains_key(s)
            && self.subs@[s].kind == k.1.0 && self.subs@[s].created_at == k.1.1.1.0
    }

    fn test(
        &self,
        k: &(String, (String, ((String, String), (i64, (String, String))))),
        r: &(),
    ) -> (b: bool) {
        if !(same(&k.0, self.tenant) && same(&k.1.1.1.1.0, self.run) && same(
            &k.1.1.1.1.1,
            self.effect,
        )) {
            return false;
        }
        let s = (
            self.tenant.to_owned(),
            (
                (self.run.to_owned(), self.effect.to_owned()),
                (k.1.1.0.0.clone(), k.1.1.0.1.clone()),
            ),
        );
        match self.subs.get(&s) {
            Some(row) => same(&row.kind, &k.1.0) && row.created_at == k.1.1.1.0,
            None => false,
        }
    }
}

/// The entry by time of a wait's row.
struct IndexedByTime<'a> {
    tenant: &'a str,
    run: &'a str,
    effect: &'a str,
    subs: &'a Table<(String, ((String, String), (String, String))), SubRow>,
}

impl<'a> Pick<(String, (i64, ((String, String), (String, String)))), ()> for IndexedByTime<'a> {
    closed spec fn picks(&self, k: SubByTime, r: ()) -> bool {
        let s = (self.tenant@, ((self.run@, self.effect@), k.1.1.1));
        k.0 == self.tenant@ && k.1.1.0 == (self.run@, self.effect@) && self.subs@.contains_key(s)
            && self.subs@[s].created_at == k.1.0
    }

    fn test(&self, k: &(String, (i64, ((String, String), (String, String)))), r: &()) -> (b: bool) {
        if !(same(&k.0, self.tenant) && same(&k.1.1.0.0, self.run) && same(
            &k.1.1.0.1,
            self.effect,
        )) {
            return false;
        }
        let s = (
            self.tenant.to_owned(),
            (
                (self.run.to_owned(), self.effect.to_owned()),
                (k.1.1.1.0.clone(), k.1.1.1.1.clone()),
            ),
        );
        match self.subs.get(&s) {
            Some(row) => row.created_at == k.1.0,
            None => false,
        }
    }
}

struct WaitsFor<'a> {
    tenant: &'a str,
    kind: &'a str,
    keys: &'a Vec<CorrelationKey>,
    subs: &'a Table<(String, ((String, String), (String, String))), SubRow>,
}

impl<'a> Stamp<
    (String, (String, ((String, String), (i64, (String, String))))),
    (),
> for WaitsFor<'a> {
    closed spec fn stamp(&self, k: SubByKey, r: ()) -> Option<i64> {
        if k.0 == self.tenant@ && k.1.0 == self.kind@ && keys_of(self.keys@).contains(k.1.1.0)
            && self.subs@.contains_key((self.tenant@, (k.1.1.1.1, k.1.1.0))) {
            Some(k.1.1.1.0)
        } else {
            None
        }
    }

    fn instant(
        &self,
        k: &(String, (String, ((String, String), (i64, (String, String))))),
        r: &(),
    ) -> (at: Option<i64>) {
        if same(&k.0, self.tenant) && same(&k.1.0, self.kind) && among(
            self.keys,
            &k.1.1.0.0,
            &k.1.1.0.1,
        ) && self.subs.contains(
            &(
                self.tenant.to_owned(),
                (
                    (k.1.1.1.1.0.clone(), k.1.1.1.1.1.clone()),
                    (k.1.1.0.0.clone(), k.1.1.0.1.clone()),
                ),
            ),
        ) {
            Some(k.1.1.1.0)
        } else {
            None
        }
    }
}

struct Takeable<'a> {
    tenant: &'a str,
    run: &'a str,
    kind: &'a str,
    key: &'a CorrelationKey,
    events: &'a Table<(String, (String, String)), EventRow>,
}

impl<'a> Pick<(String, ((String, String), (i64, (String, String)))), ()> for Takeable<'a> {
    closed spec fn picks(&self, k: ByKey, r: ()) -> bool {
        let e = (self.tenant@, k.1.1.1);
        k.0 == self.tenant@ && k.1.0 == self.key@ && self.events@.contains_key(e)
            && self.events@[e].kind == self.kind@ && (!self.events@[e].has_claim
            || self.events@[e].claimed_by == self.run@) && !self.events@[e].dead
    }

    fn test(&self, k: &(String, ((String, String), (i64, (String, String)))), r: &()) -> (b: bool) {
        if !(same(&k.0, self.tenant) && same(&k.1.0.0, &self.key.namespace) && same(
            &k.1.0.1,
            &self.key.value,
        )) {
            return false;
        }
        let e = (self.tenant.to_owned(), (k.1.1.1.0.clone(), k.1.1.1.1.clone()));
        match self.events.get(&e) {
            Some(row) => same(&row.kind, self.kind) && (!row.has_claim || same(
                &row.claimed_by,
                self.run,
            )) && !row.dead,
            None => false,
        }
    }
}

/// Whether a key is among some.
fn among(keys: &Vec<CorrelationKey>, namespace: &str, value: &str) -> (b: bool)
    ensures
        b == keys_of(keys@).contains((namespace@, value@)),
{
    let mut i: usize = 0;
    while i < keys.len()
        invariant
            i <= keys@.len(),
            forall|j: int| 0 <= j < i ==> (#[trigger] keys@[j])@ != (namespace@, value@),
        decreases keys@.len() - i,
    {
        if same(&keys[i].namespace, namespace) && same(&keys[i].value, value) {
            assert(keys_of(keys@)[i as int] == (namespace@, value@));
            return true;
        }
        i = i + 1;
    }
    proof {
        if keys_of(keys@).contains((namespace@, value@)) {
            let j = choose|j: int|
                0 <= j < keys_of(keys@).len() && #[trigger] keys_of(keys@)[j] == (
                    namespace@,
                    value@,
                );
            assert(keys@[j]@ == (namespace@, value@));
        }
    }
    false
}

struct WaitFor<'a> {
    tenant: &'a str,
    run: &'a str,
    kind: &'a str,
    keys: &'a Vec<CorrelationKey>,
}

impl<'a> Pick<(String, ((String, String), (String, String))), SubRow> for WaitFor<'a> {
    closed spec fn picks(&self, k: SubKey, r: SubModel) -> bool {
        k.0 == self.tenant@ && k.1.0.0 == self.run@ && r.kind == self.kind@ && keys_of(
            self.keys@,
        ).contains(k.1.1)
    }

    fn test(&self, k: &(String, ((String, String), (String, String))), r: &SubRow) -> (b: bool) {
        same(&k.0, self.tenant) && same(&k.1.0.0, self.run) && same(&r.kind, self.kind) && among(
            self.keys,
            &k.1.1.0,
            &k.1.1.1,
        )
    }
}

/// The events that a run holds.
struct HeldBy<'a> {
    tenant: &'a str,
    run: &'a str,
}

pub open spec fn held_by(t: Seq<char>, run: Seq<char>) -> spec_fn((Held, ())) -> bool {
    |e: (Held, ())| e.0.0 == t && e.0.1.0 == run
}

impl<'a> Pick<(String, (String, (String, String))), ()> for HeldBy<'a> {
    closed spec fn picks(&self, k: Held, r: ()) -> bool {
        k.0 == self.tenant@ && k.1.0 == self.run@
    }

    fn test(&self, k: &(String, (String, (String, String))), r: &()) -> (b: bool) {
        same(&k.0, self.tenant) && same(&k.1.0, self.run)
    }
}

struct Doomed<'a> {
    tenant: &'a str,
    cutoff: i64,
    events: &'a Table<(String, (String, String)), EventRow>,
}

impl<'a> Pick<(String, (i64, (String, String))), ()> for Doomed<'a> {
    closed spec fn picks(&self, k: ByTime, r: ()) -> bool {
        k.0 == self.tenant@ && k.1.0 <= self.cutoff && self.events@.contains_key(
            (self.tenant@, k.1.1),
        )
    }

    fn test(&self, k: &(String, (i64, (String, String))), r: &()) -> (b: bool) {
        same(&k.0, self.tenant) && k.1.0 <= self.cutoff && self.events.contains(
            &(self.tenant.to_owned(), (k.1.1.0.clone(), k.1.1.1.clone())),
        )
    }
}

struct RetiredHere<'a> {
    tenant: &'a str,
    events: &'a Table<(String, (String, String)), EventRow>,
}

impl<'a> Pick<(String, (i64, (String, String))), ()> for RetiredHere<'a> {
    closed spec fn picks(&self, k: ByTime, r: ()) -> bool {
        k.0 == self.tenant@ && self.events@.contains_key((self.tenant@, k.1.1))
    }

    fn test(&self, k: &(String, (i64, (String, String))), r: &()) -> (b: bool) {
        same(&k.0, self.tenant) && self.events.contains(
            &(self.tenant.to_owned(), (k.1.1.0.clone(), k.1.1.1.clone())),
        )
    }
}

struct Registered<'a> {
    tenant: &'a str,
    subs: &'a Table<(String, ((String, String), (String, String))), SubRow>,
}

impl<'a> Pick<(String, (i64, ((String, String), (String, String)))), ()> for Registered<'a> {
    closed spec fn picks(&self, k: SubByTime, r: ()) -> bool {
        k.0 == self.tenant@ && self.subs@.contains_key((self.tenant@, k.1.1))
    }

    fn test(&self, k: &(String, (i64, ((String, String), (String, String)))), r: &()) -> (b: bool) {
        same(&k.0, self.tenant) && self.subs.contains(
            &(
                self.tenant.to_owned(),
                (
                    (k.1.1.0.0.clone(), k.1.1.0.1.clone()),
                    (k.1.1.1.0.clone(), k.1.1.1.1.clone()),
                ),
            ),
        )
    }
}

// ── The operations ──────────────────────────────────────────────────────────

/// Reads a wait back from a row of it.
fn wait_from(run: &str, effect: &str, row: &SubRow, kind: &str, keys: Vec<CorrelationKey>) -> (r: Result<
    Subscription,
    StoreError,
>)
    ensures
        match r {
            Ok(w) => wait_read((run@, effect@), row@, kind@, keys_of(keys@)) == Ok::<
                WaitModel,
                Refusal,
            >(w@),
            Err(e) => wait_read((run@, effect@), row@, kind@, keys_of(keys@)) == Err::<
                WaitModel,
                Refusal,
            >(e@),
        },
{
    if let Some(f) = &row.run_fault {
        return Err(StoreError::Corrupt { seq: 0, detail: join4("bad run id '", run, "': ", f) });
    }
    let case = match &row.case {
        Some(id) => {
            if let Some(f) = &id.fault {
                return Err(
                    StoreError::Corrupt {
                        seq: 0,
                        detail: join4("bad case id '", &id.text, "': ", f),
                    },
                );
            }
            Some(id.text.clone())
        },
        None => None,
    };
    if let Some(f) = &row.effect_fault {
        return Err(
            StoreError::Corrupt { seq: 0, detail: join4("bad effect key '", effect, "': ", f) },
        );
    }
    Ok(
        Subscription {
            run: run.to_owned(),
            case,
            effect: effect.to_owned(),
            step: row.step,
            phase: phase_from(&row.phase),
            kind: kind.to_owned(),
            correlation: keys,
        },
    )
}

impl EventBook {
    /// Tables with no events and no waits.
    pub fn new() -> (b: EventBook)
        ensures
            b@ == no_events(),
            b@.wf(),
    {
        EventBook {
            events: Table::new(),
            corr: Table::new(),
            by_key: Table::new(),
            subs: Table::new(),
            subs_by_key: Table::new(),
            subs_by_time: Table::new(),
            live: Table::new(),
            dead: Table::new(),
            claimed: Table::new(),
        }
    }

    /// Makes an event findable by its keys.
    fn index_correlation(&mut self, tenant: &str, event: &InboundEvent, at: i64)
        ensures
            final(self)@ == (EventState {
                corr: corr_with(
                    old(self)@.corr,
                    tenant@,
                    event@.key,
                    event@.correlation,
                    event@.correlation.len() as int,
                ),
                by_key: by_key_with(
                    old(self)@.by_key,
                    tenant@,
                    event@.key,
                    event@.correlation,
                    at,
                    event@.correlation.len() as int,
                ),
                ..old(self)@
            }),
    {
        let mut i: usize = 0;
        let ghost before = self@;
        while i < event.correlation.len()
            invariant
                i <= event.correlation@.len(),
                before == old(self)@,
                self@ == (EventState {
                    corr: corr_with(
                        before.corr,
                        tenant@,
                        event@.key,
                        event@.correlation,
                        i as int,
                    ),
                    by_key: by_key_with(
                        before.by_key,
                        tenant@,
                        event@.key,
                        event@.correlation,
                        at,
                        i as int,
                    ),
                    ..before
                }),
            decreases event.correlation@.len() - i,
        {
            let k = &event.correlation[i];
            assert(event@.correlation[i as int] == k@);
            self.corr.insert(
                (
                    tenant.to_owned(),
                    (
                        (event.source.clone(), event.id.clone()),
                        (k.namespace.clone(), k.value.clone()),
                    ),
                ),
                (),
            );
            self.by_key.insert(
                (
                    tenant.to_owned(),
                    (
                        (k.namespace.clone(), k.value.clone()),
                        (at, (event.source.clone(), event.id.clone())),
                    ),
                ),
                (),
            );
            i = i + 1;
        }
    }

    /// Files an event, unless it is here already. Says whether it was new.
    pub fn buffer(&mut self, tenant: &str, event: &InboundEvent, at: i64) -> (fresh: bool)
        ensures
            fresh == is_new(old(self)@, tenant@, event@.key),
            final(self)@ == if fresh {
                buffered(old(self)@, tenant@, event@, at)
            } else {
                old(self)@
            },
            old(self)@.wf() ==> final(self)@.wf(),
    {
        proof {
            if self@.wf() && !self@.events.contains_key((tenant@, event@.key)) {
                law_buffering_agrees(self@, tenant@, event@, at);
            }
        }
        let key = (tenant.to_owned(), (event.source.clone(), event.id.clone()));
        if self.events.contains(&key) {
            return false;
        }
        let row = EventRow {
            kind: event.kind.clone(),
            payload: event.payload.clone(),
            received_at: at,
            claimed_by: String::new(),
            claimed_at: 0,
            has_claim: false,
            dead: false,
            reason: String::new(),
            received_fault: None,
        };
        assert(row.reason@ =~= Seq::<char>::empty());
        assert(row@ == fresh_row(event@, at));
        self.events.insert(key, row);
        self.live.insert(
            (tenant.to_owned(), (at, (event.source.clone(), event.id.clone()))),
            (),
        );
        self.index_correlation(tenant, event, at);
        true
    }

    /// Registers a wait on each of its keys. A key it already waits on keeps its
    /// place in line.
    pub fn subscribe(&mut self, tenant: &str, sub: &Subscription, at: i64)
        ensures
            final(self)@ == subscribed(
                old(self)@,
                tenant@,
                sub@,
                at,
                sub@.correlation.len() as int,
            ),
            old(self)@.wf() ==> final(self)@.wf(),
    {
        proof {
            if self@.wf() {
                law_subscribing_agrees(self@, tenant@, sub@, at, sub@.correlation.len() as int);
            }
        }
        let mut i: usize = 0;
        let ghost before = self@;
        while i < sub.correlation.len()
            invariant
                i <= sub.correlation@.len(),
                before == old(self)@,
                self@ == subscribed(before, tenant@, sub@, at, i as int),
            decreases sub.correlation@.len() - i,
        {
            let k = &sub.correlation[i];
            assert(sub@.correlation[i as int] == k@);
            let key = (
                tenant.to_owned(),
                ((sub.run.clone(), sub.effect.clone()), (k.namespace.clone(), k.value.clone())),
            );
            if !self.subs.contains(&key) {
                let row = SubRow {
                    case: match &sub.case {
                        Some(c) => Some(StoredId { text: c.clone(), fault: None }),
                        None => None,
                    },
                    step: sub.step,
                    phase: phase_str(sub.phase).to_owned(),
                    kind: sub.kind.clone(),
                    created_at: at,
                    run_fault: None,
                    effect_fault: None,
                };
                assert(row@ == sub_row(sub@, at));
                self.subs.insert(key, row);
                self.subs_by_key.insert(
                    (
                        tenant.to_owned(),
                        (
                            sub.kind.clone(),
                            (
                                (k.namespace.clone(), k.value.clone()),
                                (at, (sub.run.clone(), sub.effect.clone())),
                            ),
                        ),
                    ),
                    (),
                );
                self.subs_by_time.insert(
                    (
                        tenant.to_owned(),
                        (
                            at,
                            (
                                (sub.run.clone(), sub.effect.clone()),
                                (k.namespace.clone(), k.value.clone()),
                            ),
                        ),
                    ),
                    (),
                );
            }
            i = i + 1;
        }
    }

    /// The keys of an event, in order.
    pub(crate) fn load_correlation(&self, tenant: &str, source: &str, id: &str) -> (out: Vec<CorrelationKey>)
        ensures
            keys_of(out@) == correlation_of(self@, tenant@, (source@, id@)),
    {
        let keys = self.corr.select(
            &OfEvent { tenant, source, id },
            usize::MAX,
            Ghost(of_event(tenant@, (source@, id@))),
        );
        let ghost want = correlation_of(self@, tenant@, (source@, id@));
        let mut out: Vec<CorrelationKey> = Vec::new();
        let mut i: usize = 0;
        while i < keys.len()
            invariant
                i <= keys@.len(),
                keys@.len() == want.len(),
                out@.len() == i,
                forall|j: int| 0 <= j < keys@.len() ==> (#[trigger] keys@[j])@.1.1 == want[j],
                forall|j: int| 0 <= j < i ==> (#[trigger] out@[j])@ == want[j],
            decreases keys@.len() - i,
        {
            assert(keys@[i as int]@.1.1 == want[i as int]);
            out.push(CorrelationKey::new(keys[i].1.1.0.clone(), keys[i].1.1.1.clone()));
            i = i + 1;
        }
        assert(keys_of(out@) =~= want);
        out
    }

    /// The keys that a wait waits on, in order.
    fn load_wait(&self, tenant: &str, run: &str, effect: &str) -> (out: Vec<CorrelationKey>)
        ensures
            keys_of(out@) == waited_keys(self@, tenant@, (run@, effect@)),
    {
        let keys = self.subs.select(
            &OfWait { tenant, run, effect },
            usize::MAX,
            Ghost(of_wait(tenant@, (run@, effect@))),
        );
        let ghost want = waited_keys(self@, tenant@, (run@, effect@));
        let mut out: Vec<CorrelationKey> = Vec::new();
        let mut i: usize = 0;
        while i < keys.len()
            invariant
                i <= keys@.len(),
                keys@.len() == want.len(),
                out@.len() == i,
                forall|j: int| 0 <= j < keys@.len() ==> (#[trigger] keys@[j])@.1.1 == want[j],
                forall|j: int| 0 <= j < i ==> (#[trigger] out@[j])@ == want[j],
            decreases keys@.len() - i,
        {
            assert(keys@[i as int]@.1.1 == want[i as int]);
            out.push(CorrelationKey::new(keys[i].1.1.0.clone(), keys[i].1.1.1.clone()));
            i = i + 1;
        }
        assert(keys_of(out@) =~= want);
        out
    }

    /// Erases an event's content, and says whether there was such an event.
    pub fn erase_payload(&mut self, tenant: &str, source: &str, id: &str) -> (existed: bool)
        ensures
            existed == old(self)@.events.contains_key((tenant@, (source@, id@))),
            final(self)@ == erased(old(self)@, tenant@, (source@, id@)),
            old(self)@.wf() ==> final(self)@.wf(),
    {
        proof {
            if self@.wf() {
                law_erasing_agrees(self@, tenant@, (source@, id@));
            }
        }
        let key = (tenant.to_owned(), (source.to_owned(), id.to_owned()));
        let row = match self.events.get(&key) {
            None => {
                return false;
            },
            Some(row) => EventRow {
                kind: row.kind.clone(),
                payload: "null".to_owned(),
                received_at: row.received_at,
                claimed_by: row.claimed_by.clone(),
                claimed_at: row.claimed_at,
                has_claim: row.has_claim,
                dead: row.dead,
                reason: row.reason.clone(),
                received_fault: copied(&row.received_fault),
            },
        };
        assert(row@ == stripped(self@.events[key@]));
        self.events.insert(key, row);
        true
    }

    /// Claims an event for a run.
    pub(crate) fn claim_row(&mut self, tenant: &str, source: &str, id: &str, run: &str, at: i64)
        requires
            old(self)@.events.contains_key((tenant@, (source@, id@))),
        ensures
            final(self)@ == claimed(old(self)@, tenant@, (source@, id@), run@, at),
    {
        let key = (tenant.to_owned(), (source.to_owned(), id.to_owned()));
        let row = match self.events.get(&key) {
            None => {
                return ;
            },
            Some(row) => EventRow {
                kind: row.kind.clone(),
                payload: row.payload.clone(),
                received_at: row.received_at,
                claimed_by: run.to_owned(),
                claimed_at: at,
                has_claim: true,
                dead: false,
                reason: String::new(),
                received_fault: copied(&row.received_fault),
            },
        };
        assert(row.reason@ =~= Seq::<char>::empty());
        assert(row@ == claimed_row(self@.events[key@], run@, at));
        let received_at: i64 = row.received_at;
        self.events.insert(key, row);
        let _ = self.live.remove(
            &(tenant.to_owned(), (received_at, (source.to_owned(), id.to_owned()))),
        );
        self.claimed.insert(
            (tenant.to_owned(), (run.to_owned(), (source.to_owned(), id.to_owned()))),
            (),
        );
    }

    /// Retires a wait from every key it waits on.
    pub(crate) fn retire(&mut self, tenant: &str, run: &str, effect: &str)
        ensures
            final(self)@ == retired(old(self)@, tenant@, (run@, effect@)),
    {
        let ghost before = self@;
        self.subs_by_key.drop_where(&IndexedByKey { tenant, run, effect, subs: &self.subs });
        self.subs_by_time.drop_where(&IndexedByTime { tenant, run, effect, subs: &self.subs });
        self.subs.drop_where(&OfWait { tenant, run, effect });
        proof {
            let want = retired(before, tenant@, (run@, effect@));
            assert(self@.subs =~= want.subs);
            assert(self@.subs_by_key =~= want.subs_by_key);
            assert(self@.subs_by_time =~= want.subs_by_time);
        }
    }

    /// The oldest wait for a kind of event on any of its keys.
    pub(crate) fn oldest_waiter(&self, tenant: &str, kind: &str, keys: &Vec<CorrelationKey>) -> (r: Option<
        ((String, String), CorrelationKey),
    >)
        ensures
            match r {
                Some((wait, key)) => oldest_waiter(self@, tenant@, kind@, keys_of(keys@)) == Some(
                    (wait@, key@),
                ) && self@.subs.contains_key((tenant@, (wait@, key@))),
                None => oldest_waiter(self@, tenant@, kind@, keys_of(keys@)) is None,
            },
    {
        let ghost f = waits_for(self@, tenant@, kind@, keys_of(keys@));
        let found = self.subs_by_key.list(
            &WaitsFor { tenant, kind, keys, subs: &self.subs },
            1,
            Ghost(f),
        );
        let ghost rows = listed::<
            (String, (String, ((String, String), (i64, (String, String))))),
            (),
        >(self@.subs_by_key, f);
        if found.len() == 0 {
            return None;
        }
        assert(found@[0]@ == rows[0].0.1);
        let k = &found[0].1.1;
        Some(
            (
                (k.1.1.0.clone(), k.1.1.1.clone()),
                CorrelationKey::new(k.0.0.clone(), k.0.1.clone()),
            ),
        )
    }

    /// The oldest event that a wait may take, on the first of its keys that has
    /// one.
    pub fn find_event(&self, tenant: &str, sub: &Subscription) -> (r: Option<(String, String)>)
        ensures
            match r {
                Some(ev) => oldest_event(self@, tenant@, sub@) == Some(ev@) && free_for(
                    self@,
                    tenant@,
                    ev@,
                    sub@.run,
                ),
                None => oldest_event(self@, tenant@, sub@) is None,
            },
    {
        let ghost ks = sub@.correlation;
        let mut i: usize = 0;
        while i < sub.correlation.len()
            invariant
                i <= sub.correlation@.len(),
                ks == sub@.correlation,
                event_among(self@, tenant@, sub@.run, sub@.kind, ks, i as int) is None,
            decreases sub.correlation@.len() - i,
        {
            let key = &sub.correlation[i];
            assert(ks[i as int] == key@);
            let ghost f = takeable(self@, tenant@, sub@.run, sub@.kind, key@);
            let found = self.by_key.select(
                &Takeable { tenant, run: &sub.run, kind: &sub.kind, key, events: &self.events },
                1,
                Ghost(f),
            );
            let ghost rows = chosen::<(String, ((String, String), (i64, (String, String)))), ()>(
                self@.by_key,
                f,
            );
            if found.len() > 0 {
                assert(found@[0]@ == rows[0].0);
                proof {
                    crate::table::lemma_chosen::<
                        (String, ((String, String), (i64, (String, String)))),
                        (),
                    >(self@.by_key, f);
                    assert(f(rows[0]));
                    assert(event_among(self@, tenant@, sub@.run, sub@.kind, ks, i + 1) == event_on(
                        self@,
                        tenant@,
                        sub@.run,
                        sub@.kind,
                        key@,
                    ));
                    lemma_event_stays(
                        self@,
                        tenant@,
                        sub@.run,
                        sub@.kind,
                        ks,
                        i + 1,
                        ks.len() as int,
                    );
                }
                let e = &found[0].1.1.1;
                return Some((e.0.clone(), e.1.clone()));
            }
            i = i + 1;
        }
        None
    }

    /// Takes a found event for a run, given what its payload parsed to. An
    /// event that does not read stays where it is.
    pub fn take_event(
        &mut self,
        tenant: &str,
        event: (String, String),
        run: &str,
        at: i64,
        parsed: Result<String, String>,
    ) -> (r: Result<BufferedEvent, StoreError>)
        requires
            old(self)@.events.contains_key((tenant@, event@)),
        ensures
            take_answer(old(self)@, tenant@, event@, reading(parsed)) == match r {
                Ok(e) => Ok::<(EventModel, i64), Refusal>(e@),
                Err(e) => Err::<(EventModel, i64), Refusal>(e@),
            },
            final(self)@ == if r is Ok {
                claimed(old(self)@, tenant@, event@, run@, at)
            } else {
                old(self)@
            },
            old(self)@.wf() && free_for(old(self)@, tenant@, event@, run@) ==> final(self)@.wf(),
    {
        proof {
            if self@.wf() && free_for(self@, tenant@, event@, run@) {
                law_claiming_agrees(self@, tenant@, event@, run@, at);
            }
        }
        let (source, id) = event;
        let payload = match parsed {
            Err(fault) => {
                return Err(StoreError::Backend(fault));
            },
            Ok(payload) => payload,
        };
        let key = (tenant.to_owned(), (source.clone(), id.clone()));
        let (kind, received_at) = match self.events.get(&key) {
            Some(row) => {
                if let Some(fault) = &row.received_fault {
                    return Err(no_instant(row.received_at, fault));
                }
                (row.kind.clone(), row.received_at)
            },
            None => (String::new(), 0),
        };
        let correlation = self.load_correlation(tenant, &source, &id);
        self.claim_row(tenant, &source, &id, run, at);
        Ok(BufferedEvent { event: InboundEvent { source, id, kind, correlation, payload }, received_at })
    }

    /// Hands a wait the oldest event that it may take, and claims it for the
    /// waiting run.
    pub fn claim_for(&mut self, tenant: &str, sub: &Subscription, at: i64) -> (r: Result<
        Option<BufferedEvent>,
        StoreError,
    >)
        ensures
            claim_answer(old(self)@, tenant@, sub@) == match r {
                Ok(Some(e)) => Ok::<Option<(EventModel, i64)>, Refusal>(Some(e@)),
                Ok(None) => Ok::<Option<(EventModel, i64)>, Refusal>(None),
                Err(e) => Err::<Option<(EventModel, i64)>, Refusal>(e@),
            },
            final(self)@ == claimed_for(old(self)@, tenant@, sub@, at),
            old(self)@.wf() ==> final(self)@.wf(),
    {
        let event = match self.find_event(tenant, sub) {
            None => {
                return Ok(None);
            },
            Some(event) => event,
        };
        let parsed = match self.events.get(
            &(tenant.to_owned(), (event.0.clone(), event.1.clone())),
        ) {
            Some(row) => parse_json(&row.payload),
            None => Err(String::new()),
        };
        match self.take_event(tenant, event, &sub.run, at, parsed) {
            Ok(e) => Ok(Some(e)),
            Err(e) => Err(e),
        }
    }

    /// Finds the oldest wait that an event satisfies, claims the event for it and
    /// retires the wait.
    pub fn match_waiter(&mut self, tenant: &str, event: &InboundEvent, at: i64) -> (r: Result<
        Option<Subscription>,
        StoreError,
    >)
        ensures
            match_answer(old(self)@, tenant@, event@) == match r {
                Ok(Some(w)) => Ok::<Option<WaitModel>, Refusal>(Some(w@)),
                Ok(None) => Ok::<Option<WaitModel>, Refusal>(None),
                Err(e) => Err::<Option<WaitModel>, Refusal>(e@),
            },
            final(self)@ == matched(old(self)@, tenant@, event@, at),
            old(self)@.wf() ==> final(self)@.wf(),
    {
        proof {
            if self@.wf() {
                law_matching_agrees(self@, tenant@, event@, at);
            }
        }
        let ((run, effect), key) = match self.oldest_waiter(
            tenant,
            &event.kind,
            &event.correlation,
        ) {
            None => {
                return Ok(None);
            },
            Some(found) => found,
        };
        let claimable = match self.events.get(
            &(tenant.to_owned(), (event.source.clone(), event.id.clone())),
        ) {
            Some(row) => !row.has_claim && !row.dead,
            None => false,
        };
        if !claimable {
            return Ok(None);
        }
        let keys = self.load_wait(tenant, &run, &effect);
        let at_row = (
            tenant.to_owned(),
            ((run.clone(), effect.clone()), (key.namespace.clone(), key.value.clone())),
        );
        let read = match self.subs.get(&at_row) {
            Some(row) => wait_from(&run, &effect, row, &event.kind, keys),
            None => {
                return Ok(None);
            },
        };
        match read {
            Err(e) => Err(e),
            Ok(w) => {
                self.claim_row(tenant, &event.source, &event.id, &run, at);
                self.retire(tenant, &run, &effect);
                Ok(Some(w))
            },
        }
    }

    /// Writes an event that is not here as a run's own.
    pub(crate) fn hand_over(&mut self, tenant: &str, target: &str, event: &InboundEvent, at: i64)
        ensures
            final(self)@ == handed_over(old(self)@, tenant@, target@, event@, at),
            old(self)@.wf() && !old(self)@.events.contains_key((tenant@, event@.key))
                ==> final(self)@.wf(),
    {
        proof {
            if self@.wf() && !self@.events.contains_key((tenant@, event@.key)) {
                law_handing_over_agrees(self@, tenant@, target@, event@, at);
            }
        }
        let row = EventRow {
            kind: event.kind.clone(),
            payload: event.payload.clone(),
            received_at: at,
            claimed_by: target.to_owned(),
            claimed_at: at,
            has_claim: true,
            dead: false,
            reason: String::new(),
            received_fault: None,
        };
        assert(row.reason@ =~= Seq::<char>::empty());
        assert(row@ == claimed_row(fresh_row(event@, at), target@, at));
        self.events.insert((tenant.to_owned(), (event.source.clone(), event.id.clone())), row);
        self.index_correlation(tenant, event, at);
        self.claimed.insert(
            (
                tenant.to_owned(),
                (target.to_owned(), (event.source.clone(), event.id.clone())),
            ),
            (),
        );
    }

    /// Delivers an event to one run, if the run waits for it.
    pub fn deliver_to(&mut self, tenant: &str, target: &str, event: &InboundEvent, at: i64) -> (r:
        Result<TargetedDelivery, StoreError>)
        ensures
            deliver_answer(old(self)@, tenant@, target@, event@) == match r {
                Ok(d) => Ok::<DeliveryModel, Refusal>(d@),
                Err(e) => Err::<DeliveryModel, Refusal>(e@),
            },
            final(self)@ == delivered(old(self)@, tenant@, target@, event@, at),
            old(self)@.wf() ==> final(self)@.wf(),
    {
        proof {
            if self@.wf() {
                law_delivering_agrees(self@, tenant@, target@, event@, at);
            }
        }
        let key = (tenant.to_owned(), (event.source.clone(), event.id.clone()));
        // Whether the event is here, and if so, whether it is this run's.
        let existing = match self.events.get(&key) {
            Some(row) => Some(row.has_claim && same(&row.claimed_by, target)),
            None => None,
        };
        let ghost f = wait_for(tenant@, target@, event@.kind, event@.correlation);
        let found = self.subs.select(
            &WaitFor { tenant, run: target, kind: &event.kind, keys: &event.correlation },
            1,
            Ghost(f),
        );
        let ghost rows = chosen::<(String, ((String, String), (String, String))), SubModel>(
            self@.subs,
            f,
        );
        if found.len() == 0 {
            return match existing {
                Some(_) => Ok(TargetedDelivery::Duplicate),
                None => Ok(TargetedDelivery::NotWaiting),
            };
        }
        assert(found@[0]@ == rows[0].0);
        proof {
            crate::table::lemma_chosen::<
                (String, ((String, String), (String, String))),
                SubModel,
            >(self@.subs, f);
            assert(f(rows[0]));
        }
        let effect = found[0].1.0.1.clone();
        let keys = self.load_wait(tenant, target, &effect);
        let read = match self.subs.get(&found[0]) {
            Some(row) => {
                let known = SubRow {
                    case: match &row.case {
                        Some(c) => Some(c.twin()),
                        None => None,
                    },
                    step: row.step,
                    phase: row.phase.clone(),
                    kind: row.kind.clone(),
                    created_at: row.created_at,
                    run_fault: None,
                    effect_fault: match &row.effect_fault {
                        Some(f) => Some(f.clone()),
                        None => None,
                    },
                };
                assert(known@ == SubModel { run_fault: None, ..row@ });
                wait_from(target, &effect, &known, &event.kind, keys)
            },
            None => {
                return Ok(TargetedDelivery::NotWaiting);
            },
        };
        let w = match read {
            Err(e) => {
                return Err(e);
            },
            Ok(w) => w,
        };
        match existing {
            Some(ours) => if ours {
                Ok(TargetedDelivery::Matched(w))
            } else {
                Ok(TargetedDelivery::Duplicate)
            },
            None => {
                self.hand_over(tenant, target, event, at);
                Ok(TargetedDelivery::Matched(w))
            },
        }
    }

    /// Ends a run's wait. The wait is gone from every index, and the run sheds
    /// the payload of everything it holds: that a run ends its wait says that
    /// what was delivered to it is in its journal.
    pub fn unsubscribe(&mut self, tenant: &str, run: &str, effect: &str)
        ensures
            final(self)@ == unsubscribed(old(self)@, tenant@, (run@, effect@)),
            old(self)@.wf() ==> final(self)@.wf(),
    {
        proof {
            if self@.wf() {
                law_unsubscribing_agrees(self@, tenant@, (run@, effect@));
            }
        }
        self.retire(tenant, run, effect);
        let ghost st = self@;
        let held = self.claimed.select(
            &HeldBy { tenant, run },
            usize::MAX,
            Ghost(held_by(tenant@, run@)),
        );
        let ghost rows = chosen::<(String, (String, (String, String))), ()>(
            st.claimed,
            held_by(tenant@, run@),
        );
        proof {
            crate::table::lemma_chosen::<(String, (String, (String, String))), ()>(
                st.claimed,
                held_by(tenant@, run@),
            );
            assert forall|j: int| 0 <= j < rows.len() implies st.claimed.contains_key(
                (#[trigger] rows[j]).0,
            ) && rows[j].0.0 == tenant@ && rows[j].0.1.0 == run@ by {
                assert(held_by(tenant@, run@)(rows[j]));
            }
        }
        let mut i: usize = 0;
        while i < held.len()
            invariant
                i <= held@.len(),
                held@.len() == rows.len(),
                rows == chosen::<(String, (String, (String, String))), ()>(
                    st.claimed,
                    held_by(tenant@, run@),
                ),
                forall|j: int| 0 <= j < held@.len() ==> (#[trigger] held@[j])@ == rows[j].0,
                forall|j: int|
                    0 <= j < rows.len() ==> st.claimed.contains_key((#[trigger] rows[j]).0)
                        && rows[j].0.0 == tenant@ && rows[j].0.1.0 == run@,
                self@ == (EventState { events: self@.events, ..st }),
                forall|k: EventKey| #[trigger]
                    self@.events.contains_key(k) <==> st.events.contains_key(k),
                forall|k: EventKey| #[trigger]
                    st.events.contains_key(k) ==> self@.events[k] == (if exists|j: int|
                        0 <= j < i && k == (tenant@, (#[trigger] rows[j]).0.1.1) {
                        stripped(st.events[k])
                    } else {
                        st.events[k]
                    }),
            decreases held@.len() - i,
        {
            let ghost before = self@;
            let ev = &held[i].1.1;
            assert(held@[i as int]@ == rows[i as int].0);
            let _ = self.erase_payload(tenant, &ev.0, &ev.1);
            proof {
                let gone = (tenant@, rows[i as int].0.1.1);
                assert forall|k: EventKey| #[trigger] st.events.contains_key(k) implies self@.events[k]
                    == (if exists|j: int|
                    0 <= j < i + 1 && k == (tenant@, (#[trigger] rows[j]).0.1.1) {
                    stripped(st.events[k])
                } else {
                    st.events[k]
                }) by {
                    assert(before.events.contains_key(k));
                    if k == gone {
                        assert(0 <= i < i + 1 && k == (tenant@, rows[i as int].0.1.1));
                    } else {
                        if exists|j: int|
                            0 <= j < i && k == (tenant@, (#[trigger] rows[j]).0.1.1) {
                            let j = choose|j: int|
                                0 <= j < i && k == (tenant@, (#[trigger] rows[j]).0.1.1);
                            assert(0 <= j < i + 1 && k == (tenant@, rows[j].0.1.1));
                        }
                    }
                }
                assert forall|k: EventKey| #[trigger]
                    self@.events.contains_key(k) <==> st.events.contains_key(k) by {
                    assert(before.events.contains_key(k) <==> st.events.contains_key(k));
                }
            }
            i = i + 1;
        }
        self.claimed.drop_where(&HeldBy { tenant, run });
        proof {
            let want = shed(st, tenant@, run@);
            assert forall|k: EventKey| #[trigger]
                want.events.contains_key(k) implies self@.events.contains_key(k)
                && self@.events[k] == want.events[k] by {
                assert(st.events.contains_key(k));
                if k.0 == tenant@ && st.claimed.contains_key((tenant@, (run@, k.1))) {
                    let h: Held = (tenant@, (run@, k.1));
                    assert(st.claimed.contains_key(h) && held_by(tenant@, run@)(
                        (h, st.claimed[h]),
                    ));
                    assert(crate::table::has_key(rows, h));
                    let j = choose|j: int| 0 <= j < rows.len() && (#[trigger] rows[j]).0 == h;
                    assert(k == (tenant@, rows[j].0.1.1));
                } else {
                    assert forall|j: int| 0 <= j < i implies k != (
                        tenant@,
                        (#[trigger] rows[j]).0.1.1,
                    ) by {
                        assert(held@[j]@ == rows[j].0);
                        assert(st.claimed.contains_key(rows[j].0));
                    }
                }
            }
            assert(self@.events =~= want.events);
            assert(self@.claimed =~= want.claimed);
        }
    }

    /// Retires everything unclaimed that arrived no later than `older_than`, and
    /// says how many that was.
    pub fn sweep_unclaimed(&mut self, tenant: &str, older_than: i64, reason: &str) -> (n: usize)
        ensures
            n == swept_count(old(self)@, tenant@, older_than),
            final(self)@ == swept(old(self)@, tenant@, older_than, reason@),
            old(self)@.wf() ==> final(self)@.wf(),
    {
        proof {
            if self@.wf() {
                law_sweeping_agrees(self@, tenant@, older_than, reason@);
            }
        }
        let ghost st = self@;
        let ghost f = doomed(st, tenant@, older_than);
        let found = self.live.select(
            &Doomed { tenant, cutoff: older_than, events: &self.events },
            usize::MAX,
            Ghost(f),
        );
        let ghost rows = chosen::<(String, (i64, (String, String))), ()>(st.live, f);
        proof {
            crate::table::lemma_chosen::<(String, (i64, (String, String))), ()>(st.live, f);
        }
        let mut i: usize = 0;
        while i < found.len()
            invariant
                i <= found@.len(),
                found@.len() == rows.len(),
                f == doomed(st, tenant@, older_than),
                forall|j: int|
                    0 <= j < found@.len() ==> (#[trigger] found@[j])@ == rows[j].0
                        && st.live.contains_key(rows[j].0) && f(rows[j]),
                self@ == (EventState { events: self@.events, dead: self@.dead, ..st }),
                forall|k: EventKey| #[trigger]
                    self@.events.contains_key(k) <==> st.events.contains_key(k),
                forall|k: EventKey| #[trigger]
                    st.events.contains_key(k) ==> self@.events[k] == (if retired_by(
                        rows,
                        tenant@,
                        i as int,
                        k,
                    ) {
                        dead_row(st.events[k], reason@)
                    } else {
                        st.events[k]
                    }),
                forall|k: ByTime| #[trigger]
                    self@.dead.contains_key(k) <==> (st.dead.contains_key(k) || (retired_by(
                        rows,
                        tenant@,
                        i as int,
                        (k.0, k.1.1),
                    ) && k.1.0 == st.events[(tenant@, k.1.1)].received_at)),
            decreases found@.len() - i,
        {
            let ghost before = self@;
            let ev = &found[i].1.1;
            let ghost gone: EventKey = (tenant@, ev@);
            assert(found@[i as int]@ == rows[i as int].0);
            assert(f(rows[i as int]));
            let key = (tenant.to_owned(), (ev.0.clone(), ev.1.clone()));
            let row = match self.events.get(&key) {
                Some(row) => EventRow {
                    kind: row.kind.clone(),
                    payload: row.payload.clone(),
                    received_at: row.received_at,
                    claimed_by: String::new(),
                    claimed_at: 0,
                    has_claim: false,
                    dead: true,
                    reason: reason.to_owned(),
                    received_fault: copied(&row.received_fault),
                },
                None => {
                    return 0;
                },
            };
            assert(row.claimed_by@ =~= Seq::<char>::empty());
            assert(row@ == dead_row(st.events[gone], reason@));
            let received_at: i64 = row.received_at;
            self.events.insert(key, row);
            self.dead.insert((tenant.to_owned(), (received_at, (ev.0.clone(), ev.1.clone()))), ());
            proof {
                assert forall|k: EventKey| retired_by(rows, tenant@, i + 1, k) <==> (
                #[trigger] retired_by(rows, tenant@, i as int, k) || k == gone) by {
                    if retired_by(rows, tenant@, i + 1, k) {
                        let j = choose|j: int|
                            0 <= j < i + 1 && k == (tenant@, (#[trigger] rows[j]).0.1.1);
                        if j < i {
                            assert(retired_by(rows, tenant@, i as int, k));
                        }
                    }
                    if retired_by(rows, tenant@, i as int, k) {
                        let j = choose|j: int|
                            0 <= j < i && k == (tenant@, (#[trigger] rows[j]).0.1.1);
                        assert(0 <= j < i + 1 && k == (tenant@, rows[j].0.1.1));
                    }
                    if k == gone {
                        assert(0 <= i < i + 1 && k == (tenant@, rows[i as int].0.1.1));
                    }
                }
                assert forall|k: EventKey| #[trigger] st.events.contains_key(k) implies self@.events[k]
                    == (if retired_by(rows, tenant@, i + 1, k) {
                    dead_row(st.events[k], reason@)
                } else {
                    st.events[k]
                }) by {
                    let _there = retired_by(rows, tenant@, i as int, k);
                    assert(before.events.contains_key(k));
                }
                assert forall|k: EventKey| #[trigger]
                    self@.events.contains_key(k) <==> st.events.contains_key(k) by {
                    assert(before.events.contains_key(k) <==> st.events.contains_key(k));
                }
                assert forall|k: ByTime| #[trigger]
                    self@.dead.contains_key(k) <==> (st.dead.contains_key(k) || (retired_by(
                        rows,
                        tenant@,
                        i + 1,
                        (k.0, k.1.1),
                    ) && k.1.0 == st.events[(tenant@, k.1.1)].received_at)) by {
                    let _there = before.dead.contains_key(k);
                    let _there = retired_by(rows, tenant@, i as int, (k.0, k.1.1));
                }
            }
            i = i + 1;
        }
        self.live.drop_where(&Doomed { tenant, cutoff: older_than, events: &self.events });
        proof {
            let want = swept(st, tenant@, older_than, reason@);
            assert forall|k: EventKey| st.events.contains_key(k) implies #[trigger] retired_by(
                rows,
                tenant@,
                i as int,
                k,
            ) == (k.0 == tenant@ && is_doomed(st, tenant@, older_than, k.1)) by {
                if retired_by(rows, tenant@, i as int, k) {
                    let j = choose|j: int|
                        0 <= j < i && k == (tenant@, (#[trigger] rows[j]).0.1.1);
                    assert(f(rows[j]));
                    assert(found@[j]@ == rows[j].0);
                    assert(st.live.contains_key((tenant@, (rows[j].0.1.0, k.1))));
                }
                if k.0 == tenant@ && is_doomed(st, tenant@, older_than, k.1) {
                    let at = choose|at: i64|
                        at <= older_than && #[trigger] st.live.contains_key((tenant@, (at, k.1)));
                    let b: ByTime = (tenant@, (at, k.1));
                    assert(st.live.contains_key(b) && f((b, st.live[b])));
                    assert(crate::table::has_key(rows, b));
                    let j = choose|j: int| 0 <= j < rows.len() && (#[trigger] rows[j]).0 == b;
                    assert(k == (tenant@, rows[j].0.1.1));
                }
            }
            assert(self@.events =~= want.events);
            assert forall|k: ByTime| #[trigger]
                self@.live.contains_key(k) == want.live.contains_key(k) by {}
            assert(self@.live =~= want.live);
            assert forall|k: ByTime| #[trigger]
                self@.dead.contains_key(k) == want.dead.contains_key(k) by {
                if retired_by(rows, tenant@, i as int, (k.0, k.1.1)) {
                    let j = choose|j: int|
                        0 <= j < i && (k.0, k.1.1) == (tenant@, (#[trigger] rows[j]).0.1.1);
                    assert(f(rows[j]));
                    assert(st.events.contains_key((tenant@, k.1.1)));
                }
                if k.0 == tenant@ && st.events.contains_key((tenant@, k.1.1)) {
                    let _there = retired_by(rows, tenant@, i as int, (tenant@, k.1.1));
                }
            }
            assert(self@.dead =~= want.dead);
        }
        i
    }

    /// The retired events, newest first and no more than `limit` of them, with
    /// their payloads as they are stored.
    pub fn retired_events(&self, tenant: &str, limit: usize) -> (out: Vec<RetiredEvent>)
        ensures
            stored_of(out@) == retired_letters(self@, tenant@, limit),
    {
        let ghost f = retired_here(self@, tenant@);
        let keys = self.dead.select(
            &RetiredHere { tenant, events: &self.events },
            usize::MAX,
            Ghost(f),
        );
        let ghost rows = chosen::<(String, (i64, (String, String))), ()>(self@.dead, f);
        proof {
            crate::table::lemma_chosen::<(String, (i64, (String, String))), ()>(self@.dead, f);
            assert forall|j: int| 0 <= j < rows.len() implies (#[trigger] rows[j]).0.0 == tenant@
                && self@.events.contains_key((tenant@, rows[j].0.1.1)) by {
                assert(f(rows[j]));
            }
        }
        let mut out: Vec<RetiredEvent> = Vec::new();
        while out.len() < keys.len() && out.len() < limit
            invariant
                keys@.len() == rows.len(),
                out@.len() <= rows.len(),
                out@.len() <= limit,
                forall|j: int| 0 <= j < keys@.len() ==> (#[trigger] keys@[j])@ == rows[j].0,
                forall|j: int|
                    0 <= j < rows.len() ==> (#[trigger] rows[j]).0.0 == tenant@
                        && self@.events.contains_key((tenant@, rows[j].0.1.1)),
                forall|j: int|
                    0 <= j < out@.len() ==> (#[trigger] out@[j])@ == letter(
                        self@,
                        tenant@,
                        rows[rows.len() - 1 - j].0.1.1,
                    ),
            decreases rows.len() - out@.len(),
        {
            let i = out.len();
            let at: usize = keys.len() - 1 - i;
            assert(keys@[at as int]@ == rows[rows.len() - 1 - i].0);
            let ev = &keys[at].1.1;
            let correlation = self.load_correlation(tenant, &ev.0, &ev.1);
            match self.events.get(&(tenant.to_owned(), (ev.0.clone(), ev.1.clone()))) {
                Some(row) => {
                    let reason = if same(&row.reason, "") {
                        "unclaimed".to_owned()
                    } else {
                        row.reason.clone()
                    };
                    out.push(
                        RetiredEvent {
                            event: InboundEvent {
                                source: ev.0.clone(),
                                id: ev.1.clone(),
                                kind: row.kind.clone(),
                                correlation,
                                payload: row.payload.clone(),
                            },
                            received_at: row.received_at,
                            received_fault: copied(&row.received_fault),
                            reason,
                        },
                    );
                },
                None => {
                    return out;
                },
            }
        }
        assert(stored_of(out@) =~= retired_letters(self@, tenant@, limit));
        out
    }

    /// The retired events, newest first and no more than `limit` of them.
    pub fn dead_letters(&self, tenant: &str, limit: usize) -> (r: Result<
        Vec<DeadLetter>,
        StoreError,
    >)
        ensures
            letters_read(
                retired_letters(self@, tenant@, limit),
                retired_letters(self@, tenant@, limit).len() as int,
            ) == match r {
                Ok(out) => Ok::<Seq<(EventModel, i64, Seq<char>)>, Refusal>(letters_of(out@)),
                Err(e) => Err::<Seq<(EventModel, i64, Seq<char>)>, Refusal>(e@),
            },
    {
        let stored = self.retired_events(tenant, limit);
        let ghost all = retired_letters(self@, tenant@, limit);
        let mut out: Vec<DeadLetter> = Vec::new();
        let mut i: usize = 0;
        assert(letters_of(out@) =~= Seq::<(EventModel, i64, Seq<char>)>::empty());
        while i < stored.len()
            invariant
                i <= stored@.len(),
                all == stored_of(stored@),
                all == retired_letters(self@, tenant@, limit),
                letters_read(all, i as int) == Ok::<Seq<(EventModel, i64, Seq<char>)>, Refusal>(
                    letters_of(out@),
                ),
            decreases stored@.len() - i,
        {
            let d = &stored[i];
            assert(all[i as int] == d@);
            let parsed = parse_json(&d.event.payload);
            match read_letter(d, parsed) {
                Ok(letter) => {
                    let ghost so_far = letters_of(out@);
                    let ghost last = letter@;
                    out.push(letter);
                    assert(letters_of(out@) =~= so_far.push(last));
                },
                Err(e) => {
                    proof {
                        lemma_letters_refused(all, i + 1, all.len() as int);
                    }
                    return Err(e);
                },
            }
            i = i + 1;
        }
        Ok(out)
    }

    /// The waits, in the order they were registered and no more than `limit` of
    /// them, one for each key waited on.
    pub fn waiting(&self, tenant: &str, limit: usize) -> (r: Result<Vec<Subscription>, StoreError>)
        ensures
            ({
                let rows = wait_rows(self@, tenant@);
                waits_read(self@, tenant@, rows, page(rows.len(), limit))
                    == match r {
                    Ok(out) => Ok::<Seq<WaitModel>, Refusal>(waits_of(out@)),
                    Err(e) => Err::<Seq<WaitModel>, Refusal>(e@),
                }
            }),
    {
        let ghost f = registered(self@, tenant@);
        let keys = self.subs_by_time.select(
            &Registered { tenant, subs: &self.subs },
            limit,
            Ghost(f),
        );
        let ghost rows = wait_rows(self@, tenant@);
        proof {
            crate::table::lemma_chosen::<
                (String, (i64, ((String, String), (String, String)))),
                (),
            >(self@.subs_by_time, f);
            assert forall|j: int| 0 <= j < rows.len() implies (#[trigger] rows[j]).0.0 == tenant@
                && self@.subs.contains_key((tenant@, rows[j].0.1.1)) by {
                assert(f(rows[j]));
            }
        }
        let mut out: Vec<Subscription> = Vec::new();
        let mut i: usize = 0;
        assert(waits_of(out@) =~= Seq::<WaitModel>::empty());
        while i < keys.len()
            invariant
                i <= keys@.len(),
                keys@.len() == page(rows.len(), limit),
                rows == wait_rows(self@, tenant@),
                forall|j: int| 0 <= j < keys@.len() ==> (#[trigger] keys@[j])@ == rows[j].0,
                forall|j: int|
                    0 <= j < rows.len() ==> (#[trigger] rows[j]).0.0 == tenant@
                        && self@.subs.contains_key((tenant@, rows[j].0.1.1)),
                waits_read(self@, tenant@, rows, i as int) == Ok::<Seq<WaitModel>, Refusal>(
                    waits_of(out@),
                ),
            decreases keys@.len() - i,
        {
            assert(keys@[i as int]@ == rows[i as int].0);
            let wait = &keys[i].1.1.0;
            let key = &keys[i].1.1.1;
            let at_row = (
                tenant.to_owned(),
                ((wait.0.clone(), wait.1.clone()), (key.0.clone(), key.1.clone())),
            );
            let mut one: Vec<CorrelationKey> = Vec::new();
            one.push(CorrelationKey::new(key.0.clone(), key.1.clone()));
            assert(keys_of(one@) =~= seq![key@]);
            let read = match self.subs.get(&at_row) {
                Some(row) => wait_from(&wait.0, &wait.1, row, &row.kind, one),
                None => {
                    return Ok(out);
                },
            };
            match read {
                Ok(w) => {
                    let ghost so_far = waits_of(out@);
                    let ghost last = w@;
                    out.push(w);
                    assert(waits_of(out@) =~= so_far.push(last));
                },
                Err(e) => {
                    proof {
                        lemma_waits_refused(self@, tenant@, rows, i + 1, keys@.len() as int);
                    }
                    return Err(e);
                },
            }
            i = i + 1;
        }
        Ok(out)
    }
}

// ── Checking tables that come from outside ──────────────────────────────────

/// Whether an event row stands in the lists it should, and in no other.
spec fn event_right(st: EventState) -> spec_fn((EventKey, EventRowModel)) -> bool {
    |e: (EventKey, EventRowModel)|
        {
            &&& !(e.1.has_claim && e.1.dead)
            &&& !e.1.has_claim && !e.1.dead ==> st.live.contains_key(
                (e.0.0, (e.1.received_at, e.0.1)),
            )
            &&& e.1.dead ==> st.dead.contains_key((e.0.0, (e.1.received_at, e.0.1)))
            &&& e.1.has_claim && e.1.payload != "null"@ ==> st.claimed.contains_key(
                (e.0.0, (e.1.claimed_by, e.0.1)),
            )
        }
}

/// Whether a row of the live list is rightly there.
spec fn live_right(st: EventState) -> spec_fn((ByTime, ())) -> bool {
    |e: (ByTime, ())|
        {
            let k = (e.0.0, e.0.1.1);
            &&& st.events.contains_key(k)
            &&& st.events[k].received_at == e.0.1.0
            &&& !st.events[k].has_claim
            &&& !st.events[k].dead
        }
}

/// Whether a row of the dead list is rightly there.
spec fn dead_right(st: EventState) -> spec_fn((ByTime, ())) -> bool {
    |e: (ByTime, ())|
        {
            let k = (e.0.0, e.0.1.1);
            &&& st.events.contains_key(k)
            &&& st.events[k].received_at == e.0.1.0
            &&& st.events[k].dead
        }
}

/// Whether a row of what a run holds is rightly there.
spec fn held_right(st: EventState) -> spec_fn((Held, ())) -> bool {
    |e: (Held, ())|
        {
            let k = (e.0.0, e.0.1.1);
            &&& st.events.contains_key(k)
            &&& st.events[k].has_claim
            &&& st.events[k].claimed_by == e.0.1.0
            &&& !st.events[k].dead
        }
}

/// Whether a row of the match path is rightly there.
spec fn by_key_right(st: EventState) -> spec_fn((ByKey, ())) -> bool {
    |e: (ByKey, ())|
        {
            let k = (e.0.0, e.0.1.1.1);
            &&& st.corr.contains_key((e.0.0, (e.0.1.1.1, e.0.1.0)))
            &&& st.events.contains_key(k)
            &&& st.events[k].received_at == e.0.1.1.0
        }
}

/// Whether a correlation row has its event and its place on the match path.
spec fn corr_right(st: EventState) -> spec_fn((CorrKey, ())) -> bool {
    |e: (CorrKey, ())|
        {
            let k = (e.0.0, e.0.1.0);
            &&& st.events.contains_key(k)
            &&& st.by_key.contains_key((e.0.0, (e.0.1.1, (st.events[k].received_at, e.0.1.0))))
        }
}

/// Whether a wait stands in both of its indexes.
spec fn sub_right(st: EventState) -> spec_fn((SubKey, SubModel)) -> bool {
    |e: (SubKey, SubModel)|
        {
            &&& st.subs_by_key.contains_key(
                (e.0.0, (e.1.kind, (e.0.1.1, (e.1.created_at, e.0.1.0)))),
            )
            &&& st.subs_by_time.contains_key((e.0.0, (e.1.created_at, e.0.1)))
        }
}

/// Whether a row of the index of waits by key is rightly there.
spec fn sub_by_key_right(st: EventState) -> spec_fn((SubByKey, ())) -> bool {
    |e: (SubByKey, ())|
        {
            let k = (e.0.0, (e.0.1.1.1.1, e.0.1.1.0));
            &&& st.subs.contains_key(k)
            &&& st.subs[k].kind == e.0.1.0
            &&& st.subs[k].created_at == e.0.1.1.1.0
        }
}

/// Whether a row of the index of waits by time is rightly there.
spec fn sub_by_time_right(st: EventState) -> spec_fn((SubByTime, ())) -> bool {
    |e: (SubByTime, ())|
        {
            let k = (e.0.0, e.0.1.1);
            &&& st.subs.contains_key(k)
            &&& st.subs[k].created_at == e.0.1.0
        }
}

/// The rows of the events' own tables that are as they should be.
struct Right<'a> {
    book: &'a EventBook,
}

/// The rows of the dead list that are as they should be.
struct RightlyDead<'a> {
    book: &'a EventBook,
}

fn pair(p: &(String, String)) -> (q: (String, String))
    ensures
        q@ == p@,
{
    (p.0.clone(), p.1.clone())
}

impl<'a> Pick<(String, (String, String)), EventRow> for Right<'a> {
    closed spec fn picks(&self, k: EventKey, r: EventRowModel) -> bool {
        event_right(self.book@)((k, r))
    }

    fn test(&self, k: &(String, (String, String)), r: &EventRow) -> (b: bool) {
        let at = (k.0.clone(), (r.received_at, pair(&k.1)));
        assert(at@ == (k@.0, (r.received_at, k@.1)));
        let ours = (k.0.clone(), (r.claimed_by.clone(), pair(&k.1)));
        assert(ours@ == (k@.0, (r@.claimed_by, k@.1)));
        !(r.has_claim && r.dead) && (r.has_claim || r.dead || self.book.live.contains(&at)) && (
        !r.dead || self.book.dead.contains(&at)) && (!r.has_claim || same(&r.payload, "null")
            || self.book.claimed.contains(&ours))
    }
}

impl<'a> Pick<(String, (i64, (String, String))), ()> for Right<'a> {
    closed spec fn picks(&self, k: ByTime, r: ()) -> bool {
        live_right(self.book@)((k, r))
    }

    fn test(&self, k: &(String, (i64, (String, String))), r: &()) -> (b: bool) {
        match self.book.events.get(&(k.0.clone(), pair(&k.1.1))) {
            Some(row) => row.received_at == k.1.0 && !row.has_claim && !row.dead,
            None => false,
        }
    }
}

impl<'a> Pick<(String, (i64, (String, String))), ()> for RightlyDead<'a> {
    closed spec fn picks(&self, k: ByTime, r: ()) -> bool {
        dead_right(self.book@)((k, r))
    }

    fn test(&self, k: &(String, (i64, (String, String))), r: &()) -> (b: bool) {
        match self.book.events.get(&(k.0.clone(), pair(&k.1.1))) {
            Some(row) => row.received_at == k.1.0 && row.dead,
            None => false,
        }
    }
}

impl<'a> Pick<(String, (String, (String, String))), ()> for Right<'a> {
    closed spec fn picks(&self, k: Held, r: ()) -> bool {
        held_right(self.book@)((k, r))
    }

    fn test(&self, k: &(String, (String, (String, String))), r: &()) -> (b: bool) {
        match self.book.events.get(&(k.0.clone(), pair(&k.1.1))) {
            Some(row) => row.has_claim && same(&row.claimed_by, &k.1.0) && !row.dead,
            None => false,
        }
    }
}

impl<'a> Pick<(String, ((String, String), (i64, (String, String)))), ()> for Right<'a> {
    closed spec fn picks(&self, k: ByKey, r: ()) -> bool {
        by_key_right(self.book@)((k, r))
    }

    fn test(&self, k: &(String, ((String, String), (i64, (String, String)))), r: &()) -> (b: bool) {
        match self.book.events.get(&(k.0.clone(), pair(&k.1.1.1))) {
            Some(row) => row.received_at == k.1.1.0 && self.book.corr.contains(
                &(k.0.clone(), (pair(&k.1.1.1), pair(&k.1.0))),
            ),
            None => false,
        }
    }
}

impl<'a> Pick<(String, ((String, String), (String, String))), ()> for Right<'a> {
    closed spec fn picks(&self, k: CorrKey, r: ()) -> bool {
        corr_right(self.book@)((k, r))
    }

    fn test(&self, k: &(String, ((String, String), (String, String))), r: &()) -> (b: bool) {
        match self.book.events.get(&(k.0.clone(), pair(&k.1.0))) {
            Some(row) => self.book.by_key.contains(
                &(k.0.clone(), (pair(&k.1.1), (row.received_at, pair(&k.1.0)))),
            ),
            None => false,
        }
    }
}

impl<'a> Pick<(String, ((String, String), (String, String))), SubRow> for Right<'a> {
    closed spec fn picks(&self, k: SubKey, r: SubModel) -> bool {
        sub_right(self.book@)((k, r))
    }

    fn test(&self, k: &(String, ((String, String), (String, String))), r: &SubRow) -> (b: bool) {
        self.book.subs_by_key.contains(
            &(
                k.0.clone(),
                (r.kind.clone(), (pair(&k.1.1), (r.created_at, pair(&k.1.0)))),
            ),
        ) && self.book.subs_by_time.contains(
            &(k.0.clone(), (r.created_at, (pair(&k.1.0), pair(&k.1.1)))),
        )
    }
}

impl<'a> Pick<
    (String, (String, ((String, String), (i64, (String, String))))),
    (),
> for Right<'a> {
    closed spec fn picks(&self, k: SubByKey, r: ()) -> bool {
        sub_by_key_right(self.book@)((k, r))
    }

    fn test(
        &self,
        k: &(String, (String, ((String, String), (i64, (String, String))))),
        r: &(),
    ) -> (b: bool) {
        match self.book.subs.get(&(k.0.clone(), (pair(&k.1.1.1.1), pair(&k.1.1.0)))) {
            Some(row) => same(&row.kind, &k.1.0) && row.created_at == k.1.1.1.0,
            None => false,
        }
    }
}

impl<'a> Pick<(String, (i64, ((String, String), (String, String)))), ()> for Right<'a> {
    closed spec fn picks(&self, k: SubByTime, r: ()) -> bool {
        sub_by_time_right(self.book@)((k, r))
    }

    fn test(&self, k: &(String, (i64, ((String, String), (String, String)))), r: &()) -> (b: bool) {
        match self.book.subs.get(&(k.0.clone(), (pair(&k.1.1.0), pair(&k.1.1.1)))) {
            Some(row) => row.created_at == k.1.0,
            None => false,
        }
    }
}

proof fn lemma_events_checked(st: EventState)
    ensures
        st.live_agrees() && st.dead_agrees() && st.claims_agree() && st.fates_differ() <==> {
            &&& every(st.events, event_right(st))
            &&& every(st.live, live_right(st))
            &&& every(st.dead, dead_right(st))
            &&& every(st.claimed, held_right(st))
        },
{
    if st.live_agrees() && st.dead_agrees() && st.claims_agree() && st.fates_differ() {
        assert forall|k: EventKey| #[trigger] st.events.dom().contains(k) implies event_right(st)(
            (k, st.events[k]),
        ) by {
            assert(st.events.contains_key(k));
            let at: ByTime = (k.0, (st.events[k].received_at, k.1));
            let _there = st.live.contains_key(at);
            let _there = st.dead.contains_key(at);
        }
        assert forall|k: ByTime| #[trigger] st.live.dom().contains(k) implies live_right(st)(
            (k, st.live[k]),
        ) by {
            assert(st.live.contains_key(k));
        }
        assert forall|k: ByTime| #[trigger] st.dead.dom().contains(k) implies dead_right(st)(
            (k, st.dead[k]),
        ) by {
            assert(st.dead.contains_key(k));
        }
        assert forall|k: Held| #[trigger] st.claimed.dom().contains(k) implies held_right(st)(
            (k, st.claimed[k]),
        ) by {
            assert(st.claimed.contains_key(k));
        }
    }
    if every(st.events, event_right(st)) && every(st.live, live_right(st)) && every(
        st.dead,
        dead_right(st),
    ) && every(st.claimed, held_right(st)) {
        assert forall|k: EventKey| #[trigger] st.events.contains_key(k) implies event_right(st)(
            (k, st.events[k]),
        ) by {
            assert(st.events.dom().contains(k));
        }
        assert forall|k: ByTime| #[trigger] st.live.contains_key(k) implies live_right(st)(
            (k, st.live[k]),
        ) by {
            assert(st.live.dom().contains(k));
        }
        assert forall|k: ByTime| #[trigger] st.dead.contains_key(k) implies dead_right(st)(
            (k, st.dead[k]),
        ) by {
            assert(st.dead.dom().contains(k));
        }
        assert forall|k: Held| #[trigger] st.claimed.contains_key(k) implies held_right(st)(
            (k, st.claimed[k]),
        ) by {
            assert(st.claimed.dom().contains(k));
        }
        assert forall|k: ByTime| #[trigger] st.live.contains_key(k) <==> {
            &&& st.events.contains_key((k.0, k.1.1))
            &&& st.events[(k.0, k.1.1)].received_at == k.1.0
            &&& !st.events[(k.0, k.1.1)].has_claim
            &&& !st.events[(k.0, k.1.1)].dead
        } by {
            let _there = st.events.contains_key((k.0, k.1.1));
        }
        assert forall|k: ByTime| #[trigger] st.dead.contains_key(k) <==> {
            &&& st.events.contains_key((k.0, k.1.1))
            &&& st.events[(k.0, k.1.1)].received_at == k.1.0
            &&& st.events[(k.0, k.1.1)].dead
        } by {
            let _there = st.events.contains_key((k.0, k.1.1));
        }
    }
}

proof fn lemma_keys_checked(st: EventState)
    ensures
        st.keys_agree() <==> every(st.by_key, by_key_right(st)) && every(st.corr, corr_right(st)),
{
    if st.keys_agree() {
        assert forall|k: ByKey| #[trigger] st.by_key.dom().contains(k) implies by_key_right(st)(
            (k, st.by_key[k]),
        ) by {
            assert(st.by_key.contains_key(k));
        }
        assert forall|k: CorrKey| #[trigger] st.corr.dom().contains(k) implies corr_right(st)(
            (k, st.corr[k]),
        ) by {
            assert(st.corr.contains_key(k));
            let at: ByKey = (k.0, (k.1.1, (st.events[(k.0, k.1.0)].received_at, k.1.0)));
            let _there = st.by_key.contains_key(at);
            assert(k == (at.0, (at.1.1.1, at.1.0)));
        }
    }
    if every(st.by_key, by_key_right(st)) && every(st.corr, corr_right(st)) {
        assert forall|k: CorrKey| #[trigger] st.corr.contains_key(k) implies corr_right(st)(
            (k, st.corr[k]),
        ) by {
            assert(st.corr.dom().contains(k));
        }
        assert forall|k: ByKey| #[trigger] st.by_key.contains_key(k) <==> {
            &&& st.corr.contains_key((k.0, (k.1.1.1, k.1.0)))
            &&& st.events.contains_key((k.0, k.1.1.1))
            &&& st.events[(k.0, k.1.1.1)].received_at == k.1.1.0
        } by {
            if st.by_key.contains_key(k) {
                assert(st.by_key.dom().contains(k));
            }
            let _there = st.corr.contains_key((k.0, (k.1.1.1, k.1.0)));
        }
    }
}

proof fn lemma_waits_checked(st: EventState)
    ensures
        st.waits_agree() <==> {
            &&& every(st.subs, sub_right(st))
            &&& every(st.subs_by_key, sub_by_key_right(st))
            &&& every(st.subs_by_time, sub_by_time_right(st))
        },
{
    if st.waits_agree() {
        assert forall|k: SubKey| #[trigger] st.subs.dom().contains(k) implies sub_right(st)(
            (k, st.subs[k]),
        ) by {
            let r = st.subs[k];
            let a: SubByKey = (k.0, (r.kind, (k.1.1, (r.created_at, k.1.0))));
            let b: SubByTime = (k.0, (r.created_at, k.1));
            assert(k == (a.0, (a.1.1.1.1, a.1.1.0)));
            assert(k == (b.0, b.1.1));
            let _there = st.subs_by_key.contains_key(a);
            let _there = st.subs_by_time.contains_key(b);
        }
        assert forall|k: SubByKey| #[trigger] st.subs_by_key.dom().contains(k) implies
            sub_by_key_right(st)((k, st.subs_by_key[k])) by {
            assert(st.subs_by_key.contains_key(k));
        }
        assert forall|k: SubByTime| #[trigger] st.subs_by_time.dom().contains(k) implies
            sub_by_time_right(st)((k, st.subs_by_time[k])) by {
            assert(st.subs_by_time.contains_key(k));
        }
    }
    if every(st.subs, sub_right(st)) && every(st.subs_by_key, sub_by_key_right(st)) && every(
        st.subs_by_time,
        sub_by_time_right(st),
    ) {
        assert forall|k: SubByKey| #[trigger] st.subs_by_key.contains_key(k) <==> {
            let s = (k.0, (k.1.1.1.1, k.1.1.0));
            &&& st.subs.contains_key(s)
            &&& st.subs[s].kind == k.1.0
            &&& st.subs[s].created_at == k.1.1.1.0
        } by {
            let s = (k.0, (k.1.1.1.1, k.1.1.0));
            if st.subs_by_key.contains_key(k) {
                assert(st.subs_by_key.dom().contains(k));
            }
            if st.subs.contains_key(s) {
                assert(st.subs.dom().contains(s));
                assert(sub_right(st)((s, st.subs[s])));
            }
        }
        assert forall|k: SubByTime| #[trigger] st.subs_by_time.contains_key(k) <==> {
            let s = (k.0, k.1.1);
            &&& st.subs.contains_key(s)
            &&& st.subs[s].created_at == k.1.0
        } by {
            let s = (k.0, k.1.1);
            if st.subs_by_time.contains_key(k) {
                assert(st.subs_by_time.dom().contains(k));
            }
            if st.subs.contains_key(s) {
                assert(st.subs.dom().contains(s));
                assert(sub_right(st)((s, st.subs[s])));
            }
        }
    }
}

impl EventBook {
    /// Whether the tables agree with each other. Tables that were read from
    /// outside are checked before anything is asked of them.
    pub fn check(&self) -> (b: bool)
        ensures
            b == self@.wf(),
    {
        let right = Right { book: self };
        let dead = RightlyDead { book: self };
        proof {
            lemma_events_checked(self@);
            lemma_keys_checked(self@);
            lemma_waits_checked(self@);
        }
        let ghost st = self@;
        let a = self.events.all(&right, Ghost(event_right(st)));
        let b = self.live.all(&right, Ghost(live_right(st)));
        let c = self.dead.all(&dead, Ghost(dead_right(st)));
        let d = self.claimed.all(&right, Ghost(held_right(st)));
        let e = self.by_key.all(&right, Ghost(by_key_right(st)));
        let f = self.corr.all(&right, Ghost(corr_right(st)));
        let g = self.subs.all(&right, Ghost(sub_right(st)));
        let h = self.subs_by_key.all(&right, Ghost(sub_by_key_right(st)));
        let i = self.subs_by_time.all(&right, Ghost(sub_by_time_right(st)));
        a && b && c && d && e && f && g && h && i
    }
}

} // verus!
