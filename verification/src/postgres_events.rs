//! Events in a shared database: what it answers where its answer is not the one
//! that a single node's tables give.
//!
//! A run's waits are looked at in the order they were registered, and an event's
//! keys in the order the event names them. A wait that ended leaves the payload
//! of what its run holds where it is.

use vstd::prelude::*;

use crate::domain::{
    keys_of, parse_json, phase_from, phase_of, reading, CorrelationKey, IdModel, StoredId,
};
use crate::error::{Refusal, StoreError};
use crate::events::{
    claimable, claimed, correlation_of, free_for, handed_over, json_read_of, letters_of,
    oldest_event, oldest_waiter, registered, retired, retired_here, wait_rows, waits_of, ByTime,
    BufferedEvent, DeadLetter, DeliveryModel, EventBook, EventModel, EventRow, EventRowModel,
    EventState, InboundEvent, Pair, SubByTime, SubKey, SubModel, SubRow, Subscription,
    TargetedDelivery, WaitModel,
};
use crate::events_laws::{law_claiming_agrees, law_retiring_agrees};
use crate::table::{chosen, listed, page, Pick, Stamp, Table};
use crate::text::same;
use crate::timers::{bad, corrupt, step_of};

verus! {

/// A wait of the run on one key.
#[derive(Debug)]
pub struct WaitRow {
    pub effect: StoredId,
    pub case: Option<StoredId>,
    pub step: i64,
    pub phase: String,
    pub key: CorrelationKey,
}

/// What a [`WaitRow`] says.
pub struct WaitRowModel {
    pub effect: IdModel,
    pub case: Option<IdModel>,
    pub step: i64,
    pub phase: Seq<char>,
    pub key: (Seq<char>, Seq<char>),
}

impl View for WaitRow {
    type V = WaitRowModel;

    open spec fn view(&self) -> WaitRowModel {
        WaitRowModel {
            effect: self.effect@,
            case: match self.case {
                Some(c) => Some(c@),
                None => None,
            },
            step: self.step,
            phase: self.phase@,
            key: self.key@,
        }
    }
}

/// What a list of waits says.
pub open spec fn rows_of(v: Seq<WaitRow>) -> Seq<WaitRowModel> {
    Seq::new(v.len(), |i: int| v[i]@)
}

/// Whether the wait at `i` is the first that the event satisfies.
pub open spec fn first_match(
    rows: Seq<WaitRowModel>,
    keys: Seq<(Seq<char>, Seq<char>)>,
    i: int,
) -> bool {
    &&& 0 <= i < rows.len()
    &&& keys.contains(rows[i].key)
    &&& forall|j: int| 0 <= j < i ==> !keys.contains((#[trigger] rows[j]).key)
}

/// The keys that the first `n` rows have a wait of this effect on, in order.
pub open spec fn keys_at(rows: Seq<WaitRowModel>, effect: Seq<char>, n: int) -> Seq<
    (Seq<char>, Seq<char>),
>
    decreases n,
{
    if n <= 0 {
        Seq::empty()
    } else if rows[n - 1].effect.text == effect {
        keys_at(rows, effect, n - 1).push(rows[n - 1].key)
    } else {
        keys_at(rows, effect, n - 1)
    }
}

/// How the wait at `i` reads: a case id that is none is damage, and so is an
/// effect key.
pub open spec fn wait_at(
    rows: Seq<WaitRowModel>,
    target: Seq<char>,
    kind: Seq<char>,
    i: int,
) -> Result<WaitModel, Refusal> {
    match rows[i].case {
        Some(IdModel { text: _, fault: Some(f) }) => Err(bad("bad case id"@, f)),
        _ => match rows[i].effect.fault {
            Some(f) => Err(bad("bad effect key"@, f)),
            None => Ok(
                WaitModel {
                    run: target,
                    case: match rows[i].case {
                        Some(c) => Some(c.text),
                        None => None,
                    },
                    effect: rows[i].effect.text,
                    step: step_of(rows[i].step),
                    phase: phase_of(rows[i].phase),
                    kind,
                    correlation: keys_at(rows, rows[i].effect.text, rows.len() as int),
                },
            ),
        },
    }
}

/// What delivering to the wait at `i` comes to, given whether the event is here
/// and who has claimed it.
pub open spec fn delivery_at(
    rows: Seq<WaitRowModel>,
    target: Seq<char>,
    kind: Seq<char>,
    existing: Option<Option<Seq<char>>>,
    i: int,
) -> Result<DeliveryModel, Refusal> {
    match wait_at(rows, target, kind, i) {
        Err(e) => Err(e),
        Ok(w) => match existing {
            Some(claim) if claim != Some(target) => Ok(DeliveryModel::Duplicate),
            _ => Ok(DeliveryModel::Matched(w)),
        },
    }
}

/// Who has claimed an event that is here.
pub open spec fn claim_of(existing: Option<Option<String>>) -> Option<Option<Seq<char>>> {
    match existing {
        Some(Some(run)) => Some(Some(run@)),
        Some(None) => Some(None),
        None => None,
    }
}

/// Whether a key is among some.
fn among(keys: &Vec<CorrelationKey>, key: &CorrelationKey) -> (b: bool)
    ensures
        b == keys_of(keys@).contains(key@),
{
    let mut i: usize = 0;
    while i < keys.len()
        invariant
            i <= keys@.len(),
            forall|j: int| 0 <= j < i ==> (#[trigger] keys@[j])@ != key@,
        decreases keys@.len() - i,
    {
        if same(&keys[i].namespace, &key.namespace) && same(&keys[i].value, &key.value) {
            assert(keys_of(keys@)[i as int] == key@);
            return true;
        }
        i = i + 1;
    }
    proof {
        if keys_of(keys@).contains(key@) {
            let j = choose|j: int| 0 <= j < keys_of(keys@).len() && #[trigger] keys_of(keys@)[j] == key@;
            assert(keys@[j]@ == key@);
        }
    }
    false
}

/// The keys that the run waits on at one effect.
fn keys_for(rows: &Vec<WaitRow>, effect: &str) -> (out: Vec<CorrelationKey>)
    ensures
        keys_of(out@) == keys_at(rows_of(rows@), effect@, rows@.len() as int),
{
    let ghost r = rows_of(rows@);
    let mut out: Vec<CorrelationKey> = Vec::new();
    let mut i: usize = 0;
    assert(keys_of(out@) =~= Seq::<(Seq<char>, Seq<char>)>::empty());
    while i < rows.len()
        invariant
            i <= rows@.len(),
            r == rows_of(rows@),
            keys_of(out@) == keys_at(r, effect@, i as int),
        decreases rows@.len() - i,
    {
        assert(r[i as int] == rows@[i as int]@);
        if same(&rows[i].effect.text, effect) {
            let ghost so_far = keys_of(out@);
            out.push(rows[i].key.twin());
            assert(keys_of(out@) =~= so_far.push(r[i as int].key));
        }
        i = i + 1;
    }
    out
}

/// Decides what delivering an event to one run comes to. `rows` are the run's
/// waits for this kind of event; `existing` says whether the event is here and
/// who has claimed it. Where it is not here and the run is matched, the caller
/// writes it as this run's own.
pub fn decide_delivery(
    rows: &Vec<WaitRow>,
    existing: Option<Option<String>>,
    target: &str,
    kind: &str,
    keys: &Vec<CorrelationKey>,
) -> (r: Result<TargetedDelivery, StoreError>)
    ensures
        match r {
            Ok(TargetedDelivery::NotWaiting) => forall|i: int|
                0 <= i < rows@.len() ==> !keys_of(keys@).contains(
                    (#[trigger] rows_of(rows@)[i]).key,
                ),
            Ok(d) => exists|i: int| #[trigger]
                first_match(rows_of(rows@), keys_of(keys@), i) && delivery_at(
                    rows_of(rows@),
                    target@,
                    kind@,
                    claim_of(existing),
                    i,
                ) == Ok::<DeliveryModel, Refusal>(d@),
            Err(e) => exists|i: int| #[trigger]
                first_match(rows_of(rows@), keys_of(keys@), i) && delivery_at(
                    rows_of(rows@),
                    target@,
                    kind@,
                    claim_of(existing),
                    i,
                ) == Err::<DeliveryModel, Refusal>(e@),
        },
{
    let ghost r = rows_of(rows@);
    let ghost ks = keys_of(keys@);
    let mut i: usize = 0;
    while i < rows.len()
        invariant
            i <= rows@.len(),
            r == rows_of(rows@),
            ks == keys_of(keys@),
            forall|j: int| 0 <= j < i ==> !ks.contains((#[trigger] r[j]).key),
        decreases rows@.len() - i,
    {
        let row = &rows[i];
        assert(r[i as int] == row@);
        if among(keys, &row.key) {
            assert(first_match(r, ks, i as int));
            let case = match &row.case {
                Some(c) => {
                    if let Some(f) = &c.fault {
                        return Err(corrupt("bad case id", f));
                    }
                    Some(c.text.clone())
                },
                None => None,
            };
            if let Some(f) = &row.effect.fault {
                return Err(corrupt("bad effect key", f));
            }
            let ours = match &existing {
                None => true,
                Some(None) => false,
                Some(Some(run)) => same(run, target),
            };
            if !ours {
                return Ok(TargetedDelivery::Duplicate);
            }
            let step: u32 = if 0 <= row.step && row.step <= u32::MAX as i64 {
                row.step as u32
            } else {
                0
            };
            return Ok(
                TargetedDelivery::Matched(
                    Subscription {
                        run: target.to_owned(),
                        case,
                        effect: row.effect.text.clone(),
                        step,
                        phase: phase_from(&row.phase),
                        kind: kind.to_owned(),
                        correlation: keys_for(rows, &row.effect.text),
                    },
                ),
            );
        }
        i = i + 1;
    }
    Ok(TargetedDelivery::NotWaiting)
}

/// An event that another run has claimed is delivered to nobody else, and one
/// that this run has claimed is delivered to it again.
pub proof fn law_shared_delivery_has_one_consumer(
    rows: Seq<WaitRowModel>,
    target: Seq<char>,
    kind: Seq<char>,
    claim: Option<Seq<char>>,
    i: int,
)
    requires
        wait_at(rows, target, kind, i) is Ok,
    ensures
        delivery_at(rows, target, kind, Some(claim), i) is Ok,
        delivery_at(rows, target, kind, Some(claim), i)->Ok_0 is Matched <==> claim == Some(target),
{
}

// ── Delivering to one run ───────────────────────────────────────────────────

/// When each wait of a run for a kind of event was registered.
pub open spec fn waits_of_run(t: Seq<char>, run: Seq<char>, kind: Seq<char>) -> spec_fn(
    (SubKey, SubModel),
) -> Option<i64> {
    |e: (SubKey, SubModel)|
        if e.0.0 == t && e.0.1.0.0 == run && e.1.kind == kind {
            Some(e.1.created_at)
        } else {
            None
        }
}

/// A wait on one key, as it is read.
pub open spec fn wait_row(k: SubKey, row: SubModel) -> WaitRowModel {
    WaitRowModel {
        effect: IdModel { text: k.1.0.1, fault: row.effect_fault },
        case: row.case,
        step: row.step as i64,
        phase: row.phase,
        key: k.1.1,
    }
}

/// A run's waits for a kind of event, in the order they were registered.
pub open spec fn run_waits(st: EventState, t: Seq<char>, run: Seq<char>, kind: Seq<char>) -> Seq<
    WaitRowModel,
> {
    let rows = listed::<(String, ((String, String), (String, String))), SubModel>(
        st.subs,
        waits_of_run(t, run, kind),
    );
    Seq::new(rows.len(), |i: int| wait_row(rows[i].0.1, st.subs[rows[i].0.1]))
}

/// Whether an event is here, and who has claimed it.
pub open spec fn claim_here(st: EventState, t: Seq<char>, ev: Pair) -> Option<Option<Seq<char>>> {
    if !st.events.contains_key((t, ev)) {
        None
    } else if st.events[(t, ev)].has_claim {
        Some(Some(st.events[(t, ev)].claimed_by))
    } else {
        Some(None)
    }
}

/// What delivering an event to one run comes to: nothing where none of its waits
/// is on a key of the event, and otherwise what the first that is comes to.
pub open spec fn shared_delivery(
    st: EventState,
    t: Seq<char>,
    run: Seq<char>,
    ev: EventModel,
    answer: Result<DeliveryModel, Refusal>,
) -> bool {
    let rows = run_waits(st, t, run, ev.kind);
    if answer == Ok::<DeliveryModel, Refusal>(DeliveryModel::NotWaiting) {
        forall|i: int|
            0 <= i < rows.len() ==> !ev.correlation.contains((#[trigger] rows[i]).key)
    } else {
        exists|i: int| #[trigger]
            first_match(rows, ev.correlation, i) && delivery_at(
                rows,
                run,
                ev.kind,
                claim_here(st, t, ev.key),
                i,
            ) == answer
    }
}

struct WaitsOfRun<'a> {
    tenant: &'a str,
    run: &'a str,
    kind: &'a str,
}

impl<'a> Stamp<(String, ((String, String), (String, String))), SubRow> for WaitsOfRun<'a> {
    closed spec fn stamp(&self, k: SubKey, r: SubModel) -> Option<i64> {
        if k.0 == self.tenant@ && k.1.0.0 == self.run@ && r.kind == self.kind@ {
            Some(r.created_at)
        } else {
            None
        }
    }

    fn instant(&self, k: &(String, ((String, String), (String, String))), r: &SubRow) -> (at: Option<
        i64,
    >) {
        if same(&k.0, self.tenant) && same(&k.1.0.0, self.run) && same(&r.kind, self.kind) {
            Some(r.created_at)
        } else {
            None
        }
    }
}

/// A run's waits for a kind of event.
fn load_waits(book: &EventBook, tenant: &str, run: &str, kind: &str) -> (out: Vec<WaitRow>)
    ensures
        rows_of(out@) == run_waits(book@, tenant@, run@, kind@),
{
    let ghost f = waits_of_run(tenant@, run@, kind@);
    let ghost rows = listed::<(String, ((String, String), (String, String))), SubModel>(
        book@.subs,
        f,
    );
    let keys = book.subs.list(&WaitsOfRun { tenant, run, kind }, usize::MAX, Ghost(f));
    let mut out: Vec<WaitRow> = Vec::new();
    let mut i: usize = 0;
    while i < keys.len()
        invariant
            i <= keys@.len(),
            keys@.len() == rows.len(),
            out@.len() == i,
            forall|j: int|
                0 <= j < keys@.len() ==> (#[trigger] keys@[j])@ == rows[j].0.1
                    && book@.subs.contains_key(rows[j].0.1),
            forall|j: int|
                0 <= j < i ==> (#[trigger] out@[j])@ == wait_row(
                    rows[j].0.1,
                    book@.subs[rows[j].0.1],
                ),
        decreases keys@.len() - i,
    {
        let k = &keys[i];
        assert(keys@[i as int]@ == rows[i as int].0.1);
        match book.subs.get(k) {
            Some(row) => {
                let case = match &row.case {
                    Some(id) => Some(id.twin()),
                    None => None,
                };
                out.push(
                    WaitRow {
                        effect: StoredId {
                            text: k.1.0.1.clone(),
                            fault: crate::text::copied(&row.effect_fault),
                        },
                        case,
                        step: row.step as i64,
                        phase: row.phase.clone(),
                        key: CorrelationKey::new(k.1.1.0.clone(), k.1.1.1.clone()),
                    },
                );
                assert(out@[i as int]@ == wait_row(rows[i as int].0.1, row@));
            },
            None => {
                return out;
            },
        }
        i = i + 1;
    }
    assert(rows_of(out@) =~= run_waits(book@, tenant@, run@, kind@));
    out
}

/// Delivers an event to one run, if the run waits for it. An event that is new is
/// written as the run's own; one that is here stays as it is, and so does the
/// wait.
pub fn deliver_shared(
    book: &mut EventBook,
    tenant: &str,
    target: &str,
    event: &InboundEvent,
    at: i64,
) -> (r: Result<TargetedDelivery, StoreError>)
    ensures
        shared_delivery(
            old(book)@,
            tenant@,
            target@,
            event@,
            match r {
                Ok(d) => Ok::<DeliveryModel, Refusal>(d@),
                Err(e) => Err::<DeliveryModel, Refusal>(e@),
            },
        ),
        final(book)@ == if r matches Ok(TargetedDelivery::Matched(_))
            && !old(book)@.events.contains_key((tenant@, event@.key)) {
            handed_over(old(book)@, tenant@, target@, event@, at)
        } else {
            old(book)@
        },
        old(book)@.wf() ==> final(book)@.wf(),
{
    let rows = load_waits(book, tenant, target, &event.kind);
    let existing = match book.events.get(
        &(tenant.to_owned(), (event.source.clone(), event.id.clone())),
    ) {
        None => None,
        Some(row) => Some(
            if row.has_claim {
                Some(row.claimed_by.clone())
            } else {
                None
            },
        ),
    };
    let here = existing.is_some();
    assert(claim_of(existing) == claim_here(book@, tenant@, event@.key));
    let answer = decide_delivery(&rows, existing, target, &event.kind, &event.correlation);
    assert(rows@.len() == rows_of(rows@).len());
    proof {
        if !(answer matches Ok(TargetedDelivery::NotWaiting)) {
            let i = choose|i: int| #[trigger]
                first_match(rows_of(rows@), event@.correlation, i) && delivery_at(
                    rows_of(rows@),
                    target@,
                    event@.kind,
                    claim_here(book@, tenant@, event@.key),
                    i,
                ) == match answer {
                    Ok(d) => Ok::<DeliveryModel, Refusal>(d@),
                    Err(e) => Err::<DeliveryModel, Refusal>(e@),
                };
            assert(first_match(rows_of(rows@), event@.correlation, i));
        }
    }
    if let Ok(TargetedDelivery::Matched(_)) = &answer {
        if !here {
            book.hand_over(tenant, target, event, at);
        }
    }
    answer
}

// ── Waits ───────────────────────────────────────────────────────────────────

/// How a wait reads back from a row of it: an id that is none is damage, the
/// run's first, the case's next and the effect's last.
pub open spec fn shared_wait(wait: Pair, row: SubModel, kind: Seq<char>, keys: Seq<Pair>) -> Result<
    WaitModel,
    Refusal,
> {
    match row.run_fault {
        Some(f) => Err(bad("bad run id"@, f)),
        None => match row.case {
            Some(IdModel { text: _, fault: Some(f) }) => Err(bad("bad case id"@, f)),
            _ => match row.effect_fault {
                Some(f) => Err(bad("bad effect key"@, f)),
                None => Ok(
                    WaitModel {
                        run: wait.0,
                        case: match row.case {
                            Some(id) => Some(id.text),
                            None => None,
                        },
                        effect: wait.1,
                        step: row.step,
                        phase: phase_of(row.phase),
                        kind,
                        correlation: keys,
                    },
                ),
            },
        },
    }
}

/// Reads a wait back from a row of it.
fn read_wait(run: &str, effect: &str, row: &SubRow, kind: &str, keys: Vec<CorrelationKey>) -> (r: Result<
    Subscription,
    StoreError,
>)
    ensures
        shared_wait((run@, effect@), row@, kind@, keys_of(keys@)) == match r {
            Ok(w) => Ok::<WaitModel, Refusal>(w@),
            Err(e) => Err::<WaitModel, Refusal>(e@),
        },
{
    if let Some(f) = &row.run_fault {
        return Err(corrupt("bad run id", f));
    }
    let case = match &row.case {
        Some(id) => {
            if let Some(f) = &id.fault {
                return Err(corrupt("bad case id", f));
            }
            Some(id.text.clone())
        },
        None => None,
    };
    if let Some(f) = &row.effect_fault {
        return Err(corrupt("bad effect key", f));
    }
    Ok(
        Subscription {
            run: run.to_owned(),
            case,
            effect: effect.to_owned(),
            step: row.step,
            phase: phase_from(&row.phase),
            kind: kind.to_owned(),
            correlation: keys,
        },
    )
}

/// The oldest wait for a kind of event on the first of the first `n` keys that
/// has one, and that key.
pub open spec fn first_waiter(st: EventState, t: Seq<char>, kind: Seq<char>, keys: Seq<Pair>, n: int) -> Option<
    (Pair, Pair),
>
    decreases n,
{
    if n <= 0 {
        None
    } else {
        match first_waiter(st, t, kind, keys, n - 1) {
            Some(found) => Some(found),
            None => oldest_waiter(st, t, kind, seq![keys[n - 1]]),
        }
    }
}

proof fn lemma_waiter_stays(
    st: EventState,
    t: Seq<char>,
    kind: Seq<char>,
    keys: Seq<Pair>,
    n: int,
    m: int,
)
    requires
        n <= m,
        first_waiter(st, t, kind, keys, n) is Some,
    ensures
        first_waiter(st, t, kind, keys, m) == first_waiter(st, t, kind, keys, n),
    decreases m - n,
{
    if n < m {
        lemma_waiter_stays(st, t, kind, keys, n, m - 1);
    }
}

fn find_waiter(book: &EventBook, tenant: &str, kind: &str, keys: &Vec<CorrelationKey>) -> (r: Option<
    ((String, String), CorrelationKey),
>)
    ensures
        match r {
            Some((wait, key)) => first_waiter(
                book@,
                tenant@,
                kind@,
                keys_of(keys@),
                keys@.len() as int,
            ) == Some((wait@, key@)) && book@.subs.contains_key((tenant@, (wait@, key@))),
            None => first_waiter(book@, tenant@, kind@, keys_of(keys@), keys@.len() as int) is None,
        },
{
    let ghost ks = keys_of(keys@);
    let mut i: usize = 0;
    while i < keys.len()
        invariant
            i <= keys@.len(),
            ks == keys_of(keys@),
            first_waiter(book@, tenant@, kind@, ks, i as int) is None,
        decreases keys@.len() - i,
    {
        let mut one: Vec<CorrelationKey> = Vec::new();
        one.push(keys[i].twin());
        assert(keys_of(one@) =~= seq![ks[i as int]]);
        if let Some(found) = book.oldest_waiter(tenant, kind, &one) {
            proof {
                lemma_waiter_stays(book@, tenant@, kind@, ks, i + 1, ks.len() as int);
            }
            return Some(found);
        }
        i = i + 1;
    }
    None
}

/// The wait that an event goes to: where it can still be claimed, the oldest on
/// the first of its keys that has one.
pub open spec fn shared_waiter(st: EventState, t: Seq<char>, ev: EventModel) -> Option<(Pair, Pair)> {
    if claimable(st, t, ev.key) {
        first_waiter(st, t, ev.kind, ev.correlation, ev.correlation.len() as int)
    } else {
        None
    }
}

/// What looking for the waiter of an event answers: the wait, with the keys of
/// the event.
pub open spec fn shared_match_answer(st: EventState, t: Seq<char>, ev: EventModel) -> Result<
    Option<WaitModel>,
    Refusal,
> {
    match shared_waiter(st, t, ev) {
        None => Ok(None),
        Some((wait, key)) => match shared_wait(
            wait,
            st.subs[(t, (wait, key))],
            ev.kind,
            ev.correlation,
        ) {
            Ok(w) => Ok(Some(w)),
            Err(e) => Err(e),
        },
    }
}

/// The tables after it: the event is claimed for the waiter and the wait is
/// retired, also where the wait does not read.
pub open spec fn shared_matched(st: EventState, t: Seq<char>, ev: EventModel, at: i64) -> EventState {
    match shared_waiter(st, t, ev) {
        None => st,
        Some((wait, _)) => retired(claimed(st, t, ev.key, wait.0, at), t, wait),
    }
}

/// Finds the wait that an event satisfies, claims the event for it and retires
/// the wait.
pub fn match_shared(book: &mut EventBook, tenant: &str, event: &InboundEvent, at: i64) -> (r: Result<
    Option<Subscription>,
    StoreError,
>)
    ensures
        shared_match_answer(old(book)@, tenant@, event@) == match r {
            Ok(Some(w)) => Ok::<Option<WaitModel>, Refusal>(Some(w@)),
            Ok(None) => Ok::<Option<WaitModel>, Refusal>(None),
            Err(e) => Err::<Option<WaitModel>, Refusal>(e@),
        },
        final(book)@ == shared_matched(old(book)@, tenant@, event@, at),
        old(book)@.wf() ==> final(book)@.wf(),
{
    let ((run, effect), key) = match find_waiter(book, tenant, &event.kind, &event.correlation) {
        None => {
            return Ok(None);
        },
        Some(found) => found,
    };
    let free = match book.events.get(
        &(tenant.to_owned(), (event.source.clone(), event.id.clone())),
    ) {
        Some(row) => !row.has_claim && !row.dead,
        None => false,
    };
    if !free {
        return Ok(None);
    }
    proof {
        if book@.wf() {
            law_claiming_agrees(book@, tenant@, event@.key, run@, at);
            law_retiring_agrees(
                claimed(book@, tenant@, event@.key, run@, at),
                tenant@,
                (run@, effect@),
            );
        }
    }
    let read = match book.subs.get(
        &(
            tenant.to_owned(),
            ((run.clone(), effect.clone()), (key.namespace.clone(), key.value.clone())),
        ),
    ) {
        Some(row) => read_wait(
            &run,
            &effect,
            row,
            &event.kind,
            crate::domain::twin_keys(&event.correlation),
        ),
        None => {
            return Ok(None);
        },
    };
    book.claim_row(tenant, &event.source, &event.id, &run, at);
    book.retire(tenant, &run, &effect);
    match read {
        Ok(w) => Ok(Some(w)),
        Err(e) => Err(e),
    }
}

/// Ends a run's wait. What the run holds keeps its payload.
pub fn unsubscribe_shared(book: &mut EventBook, tenant: &str, run: &str, effect: &str)
    ensures
        final(book)@ == retired(old(book)@, tenant@, (run@, effect@)),
        old(book)@.wf() ==> final(book)@.wf(),
{
    proof {
        if book@.wf() {
            law_retiring_agrees(book@, tenant@, (run@, effect@));
        }
    }
    book.retire(tenant, run, effect);
}

/// How the first `n` waits read, up to the first that does not.
pub open spec fn shared_waits_read(
    st: EventState,
    t: Seq<char>,
    rows: Seq<(SubByTime, ())>,
    n: int,
) -> Result<Seq<WaitModel>, Refusal>
    decreases n,
{
    if n <= 0 {
        Ok(Seq::empty())
    } else {
        match shared_waits_read(st, t, rows, n - 1) {
            Err(e) => Err(e),
            Ok(out) => {
                let (wait, key) = rows[n - 1].0.1.1;
                let row = st.subs[(t, (wait, key))];
                match shared_wait(wait, row, row.kind, seq![key]) {
                    Err(e) => Err(e),
                    Ok(w) => Ok(out.push(w)),
                }
            },
        }
    }
}

proof fn lemma_shared_waits_refused(
    st: EventState,
    t: Seq<char>,
    rows: Seq<(SubByTime, ())>,
    n: int,
    m: int,
)
    requires
        n <= m,
        shared_waits_read(st, t, rows, n) is Err,
    ensures
        shared_waits_read(st, t, rows, m) == shared_waits_read(st, t, rows, n),
    decreases m - n,
{
    if n < m {
        lemma_shared_waits_refused(st, t, rows, n, m - 1);
    }
}

struct WaitsHere<'a> {
    tenant: &'a str,
    subs: &'a Table<(String, ((String, String), (String, String))), SubRow>,
}

impl<'a> Pick<(String, (i64, ((String, String), (String, String)))), ()> for WaitsHere<'a> {
    closed spec fn picks(&self, k: SubByTime, r: ()) -> bool {
        k.0 == self.tenant@ && self.subs@.contains_key((self.tenant@, k.1.1))
    }

    fn test(&self, k: &(String, (i64, ((String, String), (String, String)))), r: &()) -> (b: bool) {
        same(&k.0, self.tenant) && self.subs.contains(
            &(
                self.tenant.to_owned(),
                (
                    (k.1.1.0.0.clone(), k.1.1.0.1.clone()),
                    (k.1.1.1.0.clone(), k.1.1.1.1.clone()),
                ),
            ),
        )
    }
}

/// The waits, in the order they were registered and no more than `limit` of
/// them, one for each key waited on.
pub fn waiting_shared(book: &EventBook, tenant: &str, limit: usize) -> (r: Result<
    Vec<Subscription>,
    StoreError,
>)
    ensures
        shared_waits_read(
            book@,
            tenant@,
            wait_rows(book@, tenant@),
            page(wait_rows(book@, tenant@).len(), limit),
        ) == match r {
            Ok(out) => Ok::<Seq<WaitModel>, Refusal>(waits_of(out@)),
            Err(e) => Err::<Seq<WaitModel>, Refusal>(e@),
        },
{
    let ghost f = registered(book@, tenant@);
    let keys = book.subs_by_time.select(
        &WaitsHere { tenant, subs: &book.subs },
        limit,
        Ghost(f),
    );
    let ghost rows = wait_rows(book@, tenant@);
    proof {
        crate::table::lemma_chosen::<
            (String, (i64, ((String, String), (String, String)))),
            (),
        >(book@.subs_by_time, f);
        assert forall|j: int| 0 <= j < rows.len() implies book@.subs.contains_key(
            (tenant@, (#[trigger] rows[j]).0.1.1),
        ) by {
            assert(f(rows[j]));
        }
    }
    let mut out: Vec<Subscription> = Vec::new();
    let mut i: usize = 0;
    assert(waits_of(out@) =~= Seq::<WaitModel>::empty());
    while i < keys.len()
        invariant
            i <= keys@.len(),
            keys@.len() == page(rows.len(), limit),
            forall|j: int| 0 <= j < keys@.len() ==> (#[trigger] keys@[j])@ == rows[j].0,
            forall|j: int|
                0 <= j < rows.len() ==> book@.subs.contains_key(
                    (tenant@, (#[trigger] rows[j]).0.1.1),
                ),
            rows == wait_rows(book@, tenant@),
            shared_waits_read(book@, tenant@, rows, i as int) == Ok::<Seq<WaitModel>, Refusal>(
                waits_of(out@),
            ),
        decreases keys@.len() - i,
    {
        assert(keys@[i as int]@ == rows[i as int].0);
        let wait = &keys[i].1.1.0;
        let key = &keys[i].1.1.1;
        let mut one: Vec<CorrelationKey> = Vec::new();
        one.push(CorrelationKey::new(key.0.clone(), key.1.clone()));
        assert(keys_of(one@) =~= seq![key@]);
        let read = match book.subs.get(
            &(
                tenant.to_owned(),
                ((wait.0.clone(), wait.1.clone()), (key.0.clone(), key.1.clone())),
            ),
        ) {
            Some(row) => read_wait(&wait.0, &wait.1, row, &row.kind, one),
            None => {
                return Ok(out);
            },
        };
        match read {
            Err(e) => {
                proof {
                    lemma_shared_waits_refused(
                        book@,
                        tenant@,
                        rows,
                        i + 1,
                        page(rows.len(), limit),
                    );
                }
                return Err(e);
            },
            Ok(w) => {
                let ghost so_far = waits_of(out@);
                let ghost last = w@;
                out.push(w);
                assert(waits_of(out@) =~= so_far.push(last));
            },
        }
        i = i + 1;
    }
    Ok(out)
}

// ── Taking a buffered event ─────────────────────────────────────────────────

/// How an event that was taken reads, given what its payload parsed to. A
/// payload that does not parse comes first, and an arrival that is no instant
/// next.
pub open spec fn shared_event_read(
    st: EventState,
    t: Seq<char>,
    ev: Pair,
    parsed: Result<Seq<char>, Seq<char>>,
) -> Result<(EventModel, i64), Refusal> {
    match parsed {
        Err(fault) => Err(Refusal::Backend(fault)),
        Ok(payload) => match st.events[(t, ev)].received_fault {
            Some(fault) => Err(bad("unrepresentable received_at"@, fault)),
            None => Ok(
                (
                    EventModel {
                        key: ev,
                        kind: st.events[(t, ev)].kind,
                        correlation: correlation_of(st, t, ev),
                        payload,
                    },
                    st.events[(t, ev)].received_at,
                ),
            ),
        },
    }
}

/// Takes a found event for a run, given what its payload parsed to. An event that
/// does not read is the run's all the same.
pub fn take_shared(
    book: &mut EventBook,
    tenant: &str,
    event: (String, String),
    run: &str,
    at: i64,
    parsed: Result<String, String>,
) -> (r: Result<BufferedEvent, StoreError>)
    requires
        old(book)@.events.contains_key((tenant@, event@)),
    ensures
        shared_event_read(old(book)@, tenant@, event@, reading(parsed)) == match r {
            Ok(e) => Ok::<(EventModel, i64), Refusal>(e@),
            Err(e) => Err::<(EventModel, i64), Refusal>(e@),
        },
        final(book)@ == claimed(old(book)@, tenant@, event@, run@, at),
        old(book)@.wf() && free_for(old(book)@, tenant@, event@, run@) ==> final(book)@.wf(),
{
    proof {
        if book@.wf() && free_for(book@, tenant@, event@, run@) {
            law_claiming_agrees(book@, tenant@, event@, run@, at);
        }
    }
    let (source, id) = event;
    let (kind, received_at, fault) = match book.events.get(
        &(tenant.to_owned(), (source.clone(), id.clone())),
    ) {
        Some(row) => (
            row.kind.clone(),
            row.received_at,
            crate::text::copied(&row.received_fault),
        ),
        None => (String::new(), 0, None),
    };
    let correlation = book.load_correlation(tenant, &source, &id);
    book.claim_row(tenant, &source, &id, run, at);
    match parsed {
        Err(f) => Err(StoreError::Backend(f)),
        Ok(payload) => match fault {
            Some(f) => Err(corrupt("unrepresentable received_at", &f)),
            None => Ok(
                BufferedEvent {
                    event: InboundEvent { source, id, kind, correlation, payload },
                    received_at,
                },
            ),
        },
    }
}

/// What a wait that looks for an event is answered.
pub open spec fn shared_claim_answer(st: EventState, t: Seq<char>, w: WaitModel) -> Result<
    Option<(EventModel, i64)>,
    Refusal,
> {
    match oldest_event(st, t, w) {
        None => Ok(None),
        Some(ev) => match shared_event_read(st, t, ev, json_read_of(st, t, ev)) {
            Ok(e) => Ok(Some(e)),
            Err(e) => Err(e),
        },
    }
}

/// The tables after it: the event that was found is claimed for the run, also
/// where it does not read.
pub open spec fn shared_claimed(st: EventState, t: Seq<char>, w: WaitModel, at: i64) -> EventState {
    match oldest_event(st, t, w) {
        None => st,
        Some(ev) => claimed(st, t, ev, w.run, at),
    }
}

/// Hands a wait the oldest event that it may take, and claims it for the waiting
/// run.
pub fn claim_for_shared(book: &mut EventBook, tenant: &str, sub: &Subscription, at: i64) -> (r: Result<
    Option<BufferedEvent>,
    StoreError,
>)
    ensures
        shared_claim_answer(old(book)@, tenant@, sub@) == match r {
            Ok(Some(e)) => Ok::<Option<(EventModel, i64)>, Refusal>(Some(e@)),
            Ok(None) => Ok::<Option<(EventModel, i64)>, Refusal>(None),
            Err(e) => Err::<Option<(EventModel, i64)>, Refusal>(e@),
        },
        final(book)@ == shared_claimed(old(book)@, tenant@, sub@, at),
        old(book)@.wf() ==> final(book)@.wf(),
{
    let event = match book.find_event(tenant, sub) {
        None => {
            return Ok(None);
        },
        Some(event) => event,
    };
    let parsed = match book.events.get(
        &(tenant.to_owned(), (event.0.clone(), event.1.clone())),
    ) {
        Some(row) => parse_json(&row.payload),
        None => Err(String::new()),
    };
    match take_shared(book, tenant, event, &sub.run, at, parsed) {
        Ok(e) => Ok(Some(e)),
        Err(e) => Err(e),
    }
}

// ── Retired events ──────────────────────────────────────────────────────────

/// How a retired event reads, given what its payload parsed to. It comes without
/// its keys, and with its reason as it is stored.
pub open spec fn shared_letter(
    ev: Pair,
    row: EventRowModel,
    parsed: Result<Seq<char>, Seq<char>>,
) -> Result<(EventModel, i64, Seq<char>), Refusal> {
    match parsed {
        Err(fault) => Err(Refusal::Backend(fault)),
        Ok(payload) => match row.received_fault {
            Some(fault) => Err(bad("unrepresentable received_at"@, fault)),
            None => Ok(
                (
                    EventModel { key: ev, kind: row.kind, correlation: Seq::empty(), payload },
                    row.received_at,
                    row.reason,
                ),
            ),
        },
    }
}

/// Reads a retired event, given what its payload parsed to.
pub fn read_letter_shared(source: &str, id: &str, row: &EventRow, parsed: Result<String, String>) -> (r:
    Result<DeadLetter, StoreError>)
    ensures
        shared_letter((source@, id@), row@, reading(parsed)) == match r {
            Ok(l) => Ok::<(EventModel, i64, Seq<char>), Refusal>(l@),
            Err(e) => Err::<(EventModel, i64, Seq<char>), Refusal>(e@),
        },
{
    match parsed {
        Err(f) => Err(StoreError::Backend(f)),
        Ok(payload) => {
            if let Some(f) = &row.received_fault {
                return Err(corrupt("unrepresentable received_at", f));
            }
            let correlation: Vec<CorrelationKey> = Vec::new();
            assert(keys_of(correlation@) =~= Seq::<Pair>::empty());
            Ok(
                DeadLetter {
                    event: InboundEvent {
                        source: source.to_owned(),
                        id: id.to_owned(),
                        kind: row.kind.clone(),
                        correlation,
                        payload,
                    },
                    received_at: row.received_at,
                    reason: row.reason.clone(),
                },
            )
        },
    }
}

/// How the first `n` retired events read, newest first and up to the first that
/// does not.
pub open spec fn shared_letters_read(
    st: EventState,
    t: Seq<char>,
    rows: Seq<(ByTime, ())>,
    n: int,
) -> Result<Seq<(EventModel, i64, Seq<char>)>, Refusal>
    decreases n,
{
    if n <= 0 {
        Ok(Seq::empty())
    } else {
        match shared_letters_read(st, t, rows, n - 1) {
            Err(e) => Err(e),
            Ok(out) => {
                let ev = rows[rows.len() - n].0.1.1;
                match shared_letter(ev, st.events[(t, ev)], json_read_of(st, t, ev)) {
                    Err(e) => Err(e),
                    Ok(l) => Ok(out.push(l)),
                }
            },
        }
    }
}

proof fn lemma_shared_letters_refused(
    st: EventState,
    t: Seq<char>,
    rows: Seq<(ByTime, ())>,
    n: int,
    m: int,
)
    requires
        n <= m,
        shared_letters_read(st, t, rows, n) is Err,
    ensures
        shared_letters_read(st, t, rows, m) == shared_letters_read(st, t, rows, n),
    decreases m - n,
{
    if n < m {
        lemma_shared_letters_refused(st, t, rows, n, m - 1);
    }
}

/// The retired events by arrival.
pub open spec fn dead_rows(st: EventState, t: Seq<char>) -> Seq<(ByTime, ())> {
    chosen::<(String, (i64, (String, String))), ()>(st.dead, retired_here(st, t))
}

struct DeadHere<'a> {
    tenant: &'a str,
    events: &'a Table<(String, (String, String)), EventRow>,
}

impl<'a> Pick<(String, (i64, (String, String))), ()> for DeadHere<'a> {
    closed spec fn picks(&self, k: ByTime, r: ()) -> bool {
        k.0 == self.tenant@ && self.events@.contains_key((self.tenant@, k.1.1))
    }

    fn test(&self, k: &(String, (i64, (String, String))), r: &()) -> (b: bool) {
        same(&k.0, self.tenant) && self.events.contains(
            &(self.tenant.to_owned(), (k.1.1.0.clone(), k.1.1.1.clone())),
        )
    }
}

/// The retired events, newest first and no more than `limit` of them.
pub fn dead_letters_shared(book: &EventBook, tenant: &str, limit: usize) -> (r: Result<
    Vec<DeadLetter>,
    StoreError,
>)
    ensures
        shared_letters_read(
            book@,
            tenant@,
            dead_rows(book@, tenant@),
            page(dead_rows(book@, tenant@).len(), limit),
        ) == match r {
            Ok(out) => Ok::<Seq<(EventModel, i64, Seq<char>)>, Refusal>(letters_of(out@)),
            Err(e) => Err::<Seq<(EventModel, i64, Seq<char>)>, Refusal>(e@),
        },
{
    let ghost f = retired_here(book@, tenant@);
    let keys = book.dead.select(&DeadHere { tenant, events: &book.events }, usize::MAX, Ghost(f));
    let ghost rows = dead_rows(book@, tenant@);
    proof {
        crate::table::lemma_chosen::<(String, (i64, (String, String))), ()>(book@.dead, f);
        assert forall|j: int| 0 <= j < rows.len() implies book@.events.contains_key(
            (tenant@, (#[trigger] rows[j]).0.1.1),
        ) by {
            assert(f(rows[j]));
        }
    }
    let mut out: Vec<DeadLetter> = Vec::new();
    assert(letters_of(out@) =~= Seq::<(EventModel, i64, Seq<char>)>::empty());
    let mut i: usize = 0;
    while i < keys.len() && i < limit
        invariant
            keys@.len() == rows.len(),
            i <= page(rows.len(), limit),
            rows == dead_rows(book@, tenant@),
            forall|j: int| 0 <= j < keys@.len() ==> (#[trigger] keys@[j])@ == rows[j].0,
            forall|j: int|
                0 <= j < rows.len() ==> book@.events.contains_key(
                    (tenant@, (#[trigger] rows[j]).0.1.1),
                ),
            shared_letters_read(book@, tenant@, rows, i as int) == Ok::<
                Seq<(EventModel, i64, Seq<char>)>,
                Refusal,
            >(letters_of(out@)),
        decreases rows.len() - i,
    {
        let at: usize = keys.len() - 1 - i;
        assert(keys@[at as int]@ == rows[rows.len() - (i + 1)].0);
        let ev = &keys[at].1.1;
        let read = match book.events.get(&(tenant.to_owned(), (ev.0.clone(), ev.1.clone()))) {
            Some(row) => read_letter_shared(&ev.0, &ev.1, row, parse_json(&row.payload)),
            None => {
                return Ok(out);
            },
        };
        match read {
            Err(e) => {
                proof {
                    lemma_shared_letters_refused(
                        book@,
                        tenant@,
                        rows,
                        i + 1,
                        page(rows.len(), limit),
                    );
                }
                return Err(e);
            },
            Ok(l) => {
                let ghost so_far = letters_of(out@);
                let ghost last = l@;
                out.push(l);
                assert(letters_of(out@) =~= so_far.push(last));
            },
        }
        i = i + 1;
    }
    Ok(out)
}

// ── Laws ────────────────────────────────────────────────────────────────────

/// A matched event goes to one waiter: once matched, neither the event nor the
/// wait is matched again.
pub proof fn law_shared_match_is_one(
    st: EventState,
    t: Seq<char>,
    ev: EventModel,
    at: i64,
    wait: Pair,
    on: Pair,
)
    requires
        shared_waiter(st, t, ev) == Some((wait, on)),
    ensures
        shared_match_answer(shared_matched(st, t, ev, at), t, ev) == Ok::<
            Option<WaitModel>,
            Refusal,
        >(None),
        forall|key: Pair|
            !(#[trigger] shared_matched(st, t, ev, at).subs.contains_key((t, (wait, key)))),
{
}

/// Ending a wait leaves every event as it is.
pub proof fn law_shared_wait_ends_alone(st: EventState, t: Seq<char>, wait: Pair)
    ensures
        retired(st, t, wait).events == st.events,
        retired(st, t, wait).claimed == st.claimed,
        forall|k: SubKey| #[trigger]
            retired(st, t, wait).subs.contains_key(k) <==> st.subs.contains_key(k) && !(k.0 == t
                && k.1.0 == wait),
{
}

} // verus!
