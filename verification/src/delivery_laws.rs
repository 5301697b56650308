//! What taking, matching and delivering events gives, said of the tables.

use vstd::prelude::*;

use crate::domain::{phase_of, phase_word};
use crate::error::Refusal;
use crate::events::{
    buffered, claim_answer, claimed, claimed_for, correlation_of, deliver_answer, delivered, doomed,
    event_among, event_on, is_new, json_read_of, letter_read, letters_read, match_answer, matched,
    of_event, of_wait, oldest_event, oldest_waiter, registered, retired, retired_here,
    retired_letters, selected, subscribed, swept, swept_count, takeable, unsubscribed, wait_for,
    wait_read, wait_rows, waited_keys, waits_read, ByKey, ByTime, CorrKey, DeliveryModel, EventKey,
    EventModel, EventState, Pair, SubByTime, SubKey, SubModel, WaitModel,
};
use crate::events_laws::{
    law_oldest_waiter_is_woken, law_woken_waits, lemma_corr_with, lemma_doomed,
};
use crate::table::{chosen, has_key, lemma_chosen, lemma_chosen_counted, page, Key};

verus! {

// ── Buffering ───────────────────────────────────────────────────────────────

/// An event that is new is kept as it came, unclaimed, under each of its keys and
/// no other; a second copy is no new event. No other event, no wait and no claim
/// is touched.
pub proof fn law_buffered_as_it_came(
    st: EventState,
    t: Seq<char>,
    ev: EventModel,
    at: i64,
    k: EventKey,
    key: Pair,
)
    requires
        st.wf(),
        is_new(st, t, ev.key),
    ensures
        ({
            let after = buffered(st, t, ev, at);
            let row = after.events[(t, ev.key)];
            &&& !st.events.contains_key((t, ev.key))
            &&& !is_new(after, t, ev.key)
            &&& row.kind == ev.kind
            &&& row.payload == ev.payload
            &&& row.received_at == at
            &&& !row.has_claim
            &&& !row.dead
            &&& after.corr.contains_key((t, (ev.key, key))) <==> ev.correlation.contains(key)
            &&& k != (t, ev.key) ==> after.events.contains_key(k) == st.events.contains_key(k)
            &&& st.events.contains_key(k) ==> after.events[k] == st.events[k]
            &&& k != (t, ev.key) ==> after.corr.contains_key((k.0, (k.1, key)))
                == st.corr.contains_key((k.0, (k.1, key)))
            &&& after.subs == st.subs
            &&& after.claimed == st.claimed
        }),
{
    let n = ev.correlation.len() as int;
    lemma_corr_with(st.corr, t, ev.key, ev.correlation, n);
    assert(ev.correlation.take(n) =~= ev.correlation);
    if st.corr.contains_key((t, (ev.key, key))) {
        assert(st.events.contains_key((t, ev.key)));
    }
}

// ── Waiting ─────────────────────────────────────────────────────────────────

proof fn lemma_subscribed(
    st: EventState,
    t: Seq<char>,
    w: WaitModel,
    at: i64,
    n: int,
    k: SubKey,
)
    requires
        0 <= n <= w.correlation.len(),
    ensures
        ({
            let after = subscribed(st, t, w, at, n);
            let own = k.0 == t && k.1.0 == (w.run, w.effect) && w.correlation.take(n).contains(
                k.1.1,
            );
            &&& after.events == st.events
            &&& after.corr == st.corr
            &&& after.claimed == st.claimed
            &&& after.live == st.live
            &&& after.dead == st.dead
            &&& after.subs.contains_key(k) <==> st.subs.contains_key(k) || own
            &&& st.subs.contains_key(k) ==> after.subs[k] == st.subs[k]
            &&& own && !st.subs.contains_key(k) ==> after.subs[k] == crate::events::sub_row(w, at)
        }),
    decreases n,
{
    if n > 0 {
        lemma_subscribed(st, t, w, at, n - 1, k);
        assert(w.correlation.take(n) =~= w.correlation.take(n - 1).push(w.correlation[n - 1]));
        let a = w.correlation.take(n - 1);
        let x = w.correlation[n - 1];
        assert(a.push(x).contains(k.1.1) <==> a.contains(k.1.1) || k.1.1 == x) by {
            if a.contains(k.1.1) {
                let i = choose|i: int| 0 <= i < a.len() && a[i] == k.1.1;
                assert(a.push(x)[i] == k.1.1);
            }
            if k.1.1 == x {
                assert(a.push(x)[a.len() as int] == x);
            }
            if a.push(x).contains(k.1.1) && k.1.1 != x {
                let i = choose|i: int| 0 <= i < a.push(x).len() && a.push(x)[i] == k.1.1;
                assert(a[i] == k.1.1);
            }
        }
    } else {
        assert(w.correlation.take(0) =~= Seq::<Pair>::empty());
    }
}

/// A run waits on each key that it named, and on no other, for the kind that it
/// named; a key that it waits on already keeps when that began. No other wait and
/// no event is touched.
pub proof fn law_subscribed_on_its_keys(
    st: EventState,
    t: Seq<char>,
    w: WaitModel,
    at: i64,
    k: SubKey,
)
    ensures
        ({
            let after = subscribed(st, t, w, at, w.correlation.len() as int);
            let own = k.0 == t && k.1.0 == (w.run, w.effect) && w.correlation.contains(k.1.1);
            &&& after.subs.contains_key(k) <==> st.subs.contains_key(k) || own
            &&& st.subs.contains_key(k) ==> after.subs[k] == st.subs[k]
            &&& own && !st.subs.contains_key(k) ==> {
                let row = after.subs[k];
                &&& row.kind == w.kind
                &&& row.step == w.step
                &&& row.phase == phase_word(w.phase)
                &&& row.created_at == at
                &&& row.case is Some <==> w.case is Some
                &&& row.case is Some ==> row.case->0.text == w.case->0
                &&& row.run_fault is None
                &&& row.effect_fault is None
            }
            &&& after.events == st.events
            &&& after.corr == st.corr
            &&& after.claimed == st.claimed
        }),
{
    let n = w.correlation.len() as int;
    lemma_subscribed(st, t, w, at, n, k);
    assert(w.correlation.take(n) =~= w.correlation);
}

/// A wait that ended is gone from every key, and no other wait is; no event changes
/// but those its run had, which lose their payload.
pub proof fn law_ended_wait_is_gone(
    st: EventState,
    t: Seq<char>,
    wait: Pair,
    k: SubKey,
    e: EventKey,
)
    requires
        st.wf(),
    ensures
        ({
            let after = unsubscribed(st, t, wait);
            &&& after.subs.contains_key(k) <==> st.subs.contains_key(k) && !(k.0 == t && k.1.0
                == wait)
            &&& after.subs.contains_key(k) ==> after.subs[k] == st.subs[k]
            &&& after.events.contains_key(e) == st.events.contains_key(e)
            &&& st.events.contains_key(e) && !(e.0 == t && st.events[e].has_claim
                && st.events[e].claimed_by == wait.0) ==> after.events[e] == st.events[e]
            &&& st.events.contains_key(e) && e.0 == t && st.events[e].has_claim
                && st.events[e].claimed_by == wait.0 ==> after.events[e].payload == "null"@
                && after.events[e].kind == st.events[e].kind && after.events[e].received_at
                == st.events[e].received_at && after.events[e].has_claim
                && after.events[e].claimed_by == wait.0 && after.events[e].dead
                == st.events[e].dead
        }),
{
    let mid = retired(st, t, wait);
    assert(mid.claimed == st.claimed && mid.events == st.events);
    if st.events.contains_key(e) && e.0 == t {
        if st.claimed.contains_key((t, (wait.0, e.1))) {
            assert(st.events.contains_key((t, e.1)));
        }
    }
}

/// How a wait reads from its row: what it waits as is what was registered.
pub proof fn law_wait_reads_as_registered(
    wait: Pair,
    row: SubModel,
    kind: Seq<char>,
    keys: Seq<Pair>,
)
    ensures
        wait_read(wait, row, kind, keys) is Ok <==> row.run_fault is None && (row.case is Some
            ==> row.case->0.fault is None) && row.effect_fault is None,
        wait_read(wait, row, kind, keys) matches Ok(w) ==> {
            &&& w.run == wait.0
            &&& w.effect == wait.1
            &&& w.case is Some <==> row.case is Some
            &&& row.case is Some ==> w.case == Some(row.case->0.text)
            &&& w.step == row.step
            &&& w.phase == phase_of(row.phase)
            &&& w.kind == kind
            &&& w.correlation == keys
        },
{
}

// ── Delivering to one run ───────────────────────────────────────────────────

/// Whether a run waits for a kind of event on one of some keys.
pub open spec fn run_waits_for(
    st: EventState,
    t: Seq<char>,
    run: Seq<char>,
    kind: Seq<char>,
    keys: Seq<Pair>,
    k: SubKey,
) -> bool {
    &&& st.subs.contains_key(k)
    &&& k.0 == t
    &&& k.1.0.0 == run
    &&& st.subs[k].kind == kind
    &&& keys.contains(k.1.1)
}

/// Whether a wait that is answered is the one that is registered on this key, for
/// this kind of event.
pub open spec fn is_the_wait(
    st: EventState,
    t: Seq<char>,
    ev: EventModel,
    w: WaitModel,
    on: Pair,
) -> bool {
    let k = (t, ((w.run, w.effect), on));
    &&& run_waits_for(st, t, w.run, ev.kind, ev.correlation, k)
    &&& st.subs[k].step == w.step
    &&& w.case is Some <==> st.subs[k].case is Some
    &&& w.case is Some ==> st.subs[k].case->0.text == w.case->0
    &&& w.phase == phase_of(st.subs[k].phase)
}

proof fn lemma_selected(st: EventState, t: Seq<char>, run: Seq<char>, ev: EventModel)
    requires
        st.subs.dom().finite(),
    ensures
        selected(st, t, run, ev) matches Some(found) ==> run_waits_for(
            st,
            t,
            run,
            ev.kind,
            ev.correlation,
            (t, found),
        ),
        selected(st, t, run, ev) is None ==> forall|k: SubKey|
            !#[trigger] run_waits_for(st, t, run, ev.kind, ev.correlation, k),
{
    let f = wait_for(t, run, ev.kind, ev.correlation);
    let rows = chosen::<(String, ((String, String), (String, String))), SubModel>(st.subs, f);
    lemma_chosen::<(String, ((String, String), (String, String))), SubModel>(st.subs, f);
    if rows.len() > 0 {
        assert(f(rows[0]) && st.subs.contains_key(rows[0].0) && st.subs[rows[0].0] == rows[0].1);
        assert(rows[0].0 == (t, rows[0].0.1));
    } else {
        assert forall|k: SubKey| !#[trigger] run_waits_for(
            st,
            t,
            run,
            ev.kind,
            ev.correlation,
            k,
        ) by {
            if run_waits_for(st, t, run, ev.kind, ev.correlation, k) {
                assert(st.subs.contains_key(k) && f((k, st.subs[k])));
                assert(has_key(rows, k));
            }
        }
    }
}

/// A delivery that is matched answers a wait: the run has one at that effect for
/// this kind of event, on one of the event's keys, and it is what is answered. The
/// event was not here, or this run had it already.
pub proof fn law_delivery_answers_a_wait(
    st: EventState,
    t: Seq<char>,
    run: Seq<char>,
    ev: EventModel,
    w: WaitModel,
)
    requires
        st.subs.dom().finite(),
        deliver_answer(st, t, run, ev) == Ok::<DeliveryModel, Refusal>(DeliveryModel::Matched(w)),
    ensures
        w.run == run,
        w.kind == ev.kind,
        exists|on: Pair| #[trigger] is_the_wait(st, t, ev, w, on),
        forall|key: Pair| #[trigger]
            w.correlation.contains(key) <==> st.subs.contains_key((t, ((run, w.effect), key))),
        st.events.contains_key((t, ev.key)) ==> st.events[(t, ev.key)].has_claim && st.events[(
            t,
            ev.key,
        )].claimed_by == run,
{
    lemma_selected(st, t, run, ev);
    let found = selected(st, t, run, ev)->0;
    let k = (t, found);
    assert(found == ((run, w.effect), found.1));
    assert(is_the_wait(st, t, ev, w, found.1));
    assert forall|key: Pair| #[trigger]
        w.correlation.contains(key) <==> st.subs.contains_key((t, ((run, w.effect), key))) by {
        lemma_waited_keys(st, t, (run, w.effect), key);
    }
}

proof fn lemma_waited_keys(st: EventState, t: Seq<char>, wait: Pair, key: Pair)
    requires
        st.subs.dom().finite(),
    ensures
        waited_keys(st, t, wait).contains(key) <==> st.subs.contains_key((t, (wait, key))),
{
    let f = of_wait(t, wait);
    let rows = chosen::<(String, ((String, String), (String, String))), SubModel>(st.subs, f);
    lemma_chosen::<(String, ((String, String), (String, String))), SubModel>(st.subs, f);
    let keys = waited_keys(st, t, wait);
    if keys.contains(key) {
        let i = choose|i: int| 0 <= i < keys.len() && keys[i] == key;
        assert(f(rows[i]) && st.subs.contains_key(rows[i].0));
        assert(rows[i].0 == (t, (wait, key)));
    }
    let k = (t, (wait, key));
    if st.subs.contains_key(k) {
        assert(f((k, st.subs[k])));
        assert(has_key(rows, k));
        let i = choose|i: int| 0 <= i < rows.len() && (#[trigger] rows[i]).0 == k;
        assert(keys[i] == key);
    }
}

/// A run that does not wait for the event is not given it: where no wait of the run
/// is for this kind on one of the event's keys, nothing is matched and nothing
/// changes, and an event that is not here is told so. Where the run does wait, it
/// is never told that it does not.
pub proof fn law_delivery_needs_a_wait(
    st: EventState,
    t: Seq<char>,
    run: Seq<char>,
    ev: EventModel,
    at: i64,
)
    requires
        st.subs.dom().finite(),
    ensures
        (forall|k: SubKey| !#[trigger] run_waits_for(st, t, run, ev.kind, ev.correlation, k)) ==> {
            &&& delivered(st, t, run, ev, at) == st
            &&& !st.events.contains_key((t, ev.key)) ==> deliver_answer(st, t, run, ev) == Ok::<
                DeliveryModel,
                Refusal,
            >(DeliveryModel::NotWaiting)
            &&& st.events.contains_key((t, ev.key)) ==> deliver_answer(st, t, run, ev) == Ok::<
                DeliveryModel,
                Refusal,
            >(DeliveryModel::Duplicate)
        },
        (exists|k: SubKey| #[trigger] run_waits_for(st, t, run, ev.kind, ev.correlation, k)) ==> {
            &&& deliver_answer(st, t, run, ev) != Ok::<DeliveryModel, Refusal>(
                DeliveryModel::NotWaiting,
            )
            &&& deliver_answer(st, t, run, ev) == Ok::<DeliveryModel, Refusal>(
                DeliveryModel::Duplicate,
            ) ==> st.events.contains_key((t, ev.key)) && !(st.events[(t, ev.key)].has_claim
                && st.events[(t, ev.key)].claimed_by == run)
        },
{
    lemma_selected(st, t, run, ev);
    if let Some(found) = selected(st, t, run, ev) {
        assert(run_waits_for(st, t, run, ev.kind, ev.correlation, (t, found)));
    }
}

/// An event that is delivered is kept as the run's own, as it came; nothing else
/// changes, and the wait stays until the run ends it.
pub proof fn law_delivered_is_the_runs_own(
    st: EventState,
    t: Seq<char>,
    run: Seq<char>,
    ev: EventModel,
    at: i64,
    k: EventKey,
    key: Pair,
)
    requires
        st.wf(),
    ensures
        ({
            let after = delivered(st, t, run, ev, at);
            let fresh = deliver_answer(st, t, run, ev) matches Ok(DeliveryModel::Matched(_))
                && !st.events.contains_key((t, ev.key));
            &&& !fresh ==> after == st
            &&& fresh ==> {
                let row = after.events[(t, ev.key)];
                &&& after.events.contains_key((t, ev.key))
                &&& row.kind == ev.kind
                &&& row.payload == ev.payload
                &&& row.received_at == at
                &&& row.has_claim
                &&& row.claimed_by == run
                &&& row.claimed_at == at
                &&& !row.dead
                &&& after.corr.contains_key((t, (ev.key, key))) <==> ev.correlation.contains(key)
            }
            &&& k != (t, ev.key) ==> after.events.contains_key(k) == st.events.contains_key(k)
            &&& st.events.contains_key(k) ==> after.events[k] == st.events[k]
            &&& after.subs == st.subs
        }),
{
    let n = ev.correlation.len() as int;
    lemma_corr_with(st.corr, t, ev.key, ev.correlation, n);
    assert(ev.correlation.take(n) =~= ev.correlation);
    if st.corr.contains_key((t, (ev.key, key))) {
        assert(st.events.contains_key((t, ev.key)));
    }
}

// ── Matching with the oldest waiter ─────────────────────────────────────────

/// A match joins an event that nobody has with a wait for it: the event is here,
/// unclaimed and not retired; the wait is for its kind, on one of its keys; and no
/// other wait for it began earlier. Where such a wait and such an event are there,
/// they are joined.
pub proof fn law_match_joins_event_and_wait(
    st: EventState,
    t: Seq<char>,
    ev: EventModel,
    other: Pair,
    key: Pair,
)
    requires
        st.wf(),
        st.subs.dom().finite(),
        st.subs_by_key.dom().finite(),
    ensures
        match_answer(st, t, ev) matches Ok(Some(w)) ==> {
            &&& st.events.contains_key((t, ev.key))
            &&& !st.events[(t, ev.key)].has_claim
            &&& !st.events[(t, ev.key)].dead
            &&& w.kind == ev.kind
            &&& exists|on: Pair| #[trigger]
                is_the_wait(st, t, ev, w, on) && (st.subs.contains_key((t, (other, key)))
                    && st.subs[(t, (other, key))].kind == ev.kind && ev.correlation.contains(key)
                    ==> st.subs[(t, ((w.run, w.effect), on))].created_at <= st.subs[(
                    t,
                    (other, key),
                )].created_at)
            &&& w.correlation.contains(key) <==> st.subs.contains_key(
                (t, ((w.run, w.effect), key)),
            )
        },
        match_answer(st, t, ev) == Ok::<Option<WaitModel>, Refusal>(None) ==> !{
            &&& st.events.contains_key((t, ev.key))
            &&& !st.events[(t, ev.key)].has_claim
            &&& !st.events[(t, ev.key)].dead
            &&& st.subs.contains_key((t, (other, key)))
            &&& st.subs[(t, (other, key))].kind == ev.kind
            &&& ev.correlation.contains(key)
        },
{
    if st.subs.contains_key((t, (other, key))) && st.subs[(t, (other, key))].kind == ev.kind
        && ev.correlation.contains(key) {
        law_oldest_waiter_is_woken(st, t, ev.kind, ev.correlation, other, key);
    }
    if let Some(found) = oldest_waiter(st, t, ev.kind, ev.correlation) {
        law_woken_waits(st, t, ev.kind, ev.correlation, found);
        if let Ok(Some(w)) = match_answer(st, t, ev) {
            let k = (t, ((w.run, w.effect), found.1));
            assert(k == (t, found));
            assert(is_the_wait(st, t, ev, w, found.1));
            lemma_waited_keys(st, t, (w.run, w.effect), key);
        }
    }
}

/// What a match leaves: the event is the run's own from that instant, the wait is
/// gone from every key, and every other event and wait is as it was. Without a
/// match nothing changes.
pub proof fn law_match_takes_event_and_wait(
    st: EventState,
    t: Seq<char>,
    ev: EventModel,
    at: i64,
    k: SubKey,
    e: EventKey,
)
    ensures
        ({
            let after = matched(st, t, ev, at);
            match match_answer(st, t, ev) {
                Ok(Some(w)) => {
                    let row = after.events[(t, ev.key)];
                    &&& row.has_claim
                    &&& row.claimed_by == w.run
                    &&& row.claimed_at == at
                    &&& row.kind == st.events[(t, ev.key)].kind
                    &&& row.payload == st.events[(t, ev.key)].payload
                    &&& row.received_at == st.events[(t, ev.key)].received_at
                    &&& after.subs.contains_key(k) <==> st.subs.contains_key(k) && !(k.0 == t
                        && k.1.0 == (w.run, w.effect))
                    &&& after.subs.contains_key(k) ==> after.subs[k] == st.subs[k]
                    &&& e != (t, ev.key) ==> after.events.contains_key(e)
                        == st.events.contains_key(e)
                    &&& e != (t, ev.key) && st.events.contains_key(e) ==> after.events[e]
                        == st.events[e]
                    &&& after.corr == st.corr
                },
                _ => after == st,
            }
        }),
{
}

// ── Taking a buffered event ─────────────────────────────────────────────────

/// Whether a run may take an event on a key.
pub open spec fn may_take(
    st: EventState,
    t: Seq<char>,
    run: Seq<char>,
    kind: Seq<char>,
    ev: Pair,
    key: Pair,
) -> bool {
    &&& st.events.contains_key((t, ev))
    &&& st.events[(t, ev)].kind == kind
    &&& !st.events[(t, ev)].dead
    &&& !st.events[(t, ev)].has_claim || st.events[(t, ev)].claimed_by == run
    &&& st.corr.contains_key((t, (ev, key)))
}

proof fn lemma_event_on(
    st: EventState,
    t: Seq<char>,
    run: Seq<char>,
    kind: Seq<char>,
    key: Pair,
    other: Pair,
)
    requires
        st.wf(),
        st.by_key.dom().finite(),
    ensures
        event_on(st, t, run, kind, key) matches Some(ev) ==> may_take(st, t, run, kind, ev, key),
        may_take(st, t, run, kind, other, key) ==> {
            &&& event_on(st, t, run, kind, key) matches Some(ev)
            &&& st.events[(t, ev)].received_at <= st.events[(t, other)].received_at
        },
{
    let f = takeable(st, t, run, kind, key);
    let rows = chosen::<(String, ((String, String), (i64, (String, String)))), ()>(st.by_key, f);
    lemma_chosen::<(String, ((String, String), (i64, (String, String)))), ()>(st.by_key, f);
    if rows.len() > 0 {
        assert(f(rows[0]) && st.by_key.contains_key(rows[0].0));
    }
    if may_take(st, t, run, kind, other, key) {
        let k: ByKey = (t, (key, (st.events[(t, other)].received_at, other)));
        assert(st.by_key.contains_key(k) && f((k, st.by_key[k])));
        assert(has_key(rows, k));
        let j = choose|j: int| 0 <= j < rows.len() && (#[trigger] rows[j]).0 == k;
        if j > 0 {
            assert(<(String, ((String, String), (i64, (String, String)))) as Key>::precedes(
                rows[0].0,
                rows[j].0,
            ));
            <String as Key>::lemma_irreflexive(t);
            <(String, String) as Key>::lemma_irreflexive(key);
        }
    }
}

proof fn lemma_event_among(
    st: EventState,
    t: Seq<char>,
    run: Seq<char>,
    kind: Seq<char>,
    keys: Seq<Pair>,
    n: int,
)
    requires
        st.wf(),
        st.by_key.dom().finite(),
        0 <= n <= keys.len(),
    ensures
        event_among(st, t, run, kind, keys, n) matches Some(ev) ==> exists|i: int|
            0 <= i < n && #[trigger] may_take(st, t, run, kind, ev, keys[i]) && (forall|
                j: int,
                e: Pair,
            |
                0 <= j < i ==> !#[trigger] may_take(st, t, run, kind, e, keys[j])) && forall|
                e: Pair,
            | #[trigger]
                may_take(st, t, run, kind, e, keys[i]) ==> st.events[(t, ev)].received_at
                    <= st.events[(t, e)].received_at,
        event_among(st, t, run, kind, keys, n) is None ==> forall|j: int, e: Pair|
            0 <= j < n ==> !#[trigger] may_take(st, t, run, kind, e, keys[j]),
    decreases n,
{
    if n > 0 {
        lemma_event_among(st, t, run, kind, keys, n - 1);
        let key = keys[n - 1];
        assert forall|e: Pair| #[trigger] may_take(st, t, run, kind, e, key) implies event_on(
            st,
            t,
            run,
            kind,
            key,
        ) is Some && st.events[(t, event_on(st, t, run, kind, key)->0)].received_at <= st.events[(
            t,
            e,
        )].received_at by {
            lemma_event_on(st, t, run, kind, key, e);
        }
        if event_among(st, t, run, kind, keys, n - 1) is None {
            if let Some(ev) = event_on(st, t, run, kind, key) {
                lemma_event_on(st, t, run, kind, key, ev);
                assert(may_take(st, t, run, kind, ev, keys[n - 1]));
            }
        }
    }
}

/// A wait takes the oldest event that it may on the first of its keys that has one:
/// of its kind, on that key, not retired, and unclaimed or its run's own. It is told
/// that there is none only where there is none on any of its keys.
pub proof fn law_wait_takes_the_oldest(st: EventState, t: Seq<char>, w: WaitModel)
    requires
        st.wf(),
        st.by_key.dom().finite(),
    ensures
        oldest_event(st, t, w) matches Some(ev) ==> exists|i: int|
            0 <= i < w.correlation.len() && #[trigger] may_take(
                st,
                t,
                w.run,
                w.kind,
                ev,
                w.correlation[i],
            ) && (forall|j: int, e: Pair|
                0 <= j < i ==> !#[trigger] may_take(st, t, w.run, w.kind, e, w.correlation[j]))
                && forall|e: Pair| #[trigger]
                may_take(st, t, w.run, w.kind, e, w.correlation[i]) ==> st.events[(
                    t,
                    ev,
                )].received_at <= st.events[(t, e)].received_at,
        oldest_event(st, t, w) is None ==> forall|j: int, e: Pair|
            0 <= j < w.correlation.len() ==> !#[trigger] may_take(
                st,
                t,
                w.run,
                w.kind,
                e,
                w.correlation[j],
            ),
{
    lemma_event_among(st, t, w.run, w.kind, w.correlation, w.correlation.len() as int);
}

/// What a wait is handed is the event as it is kept, with its keys and its arrival,
/// and it is the run's own from then on; every other event and every wait is as it
/// was. What does not read is not taken.
pub proof fn law_taken_as_it_is_kept(
    st: EventState,
    t: Seq<char>,
    w: WaitModel,
    at: i64,
    k: EventKey,
    key: Pair,
)
    requires
        st.corr.dom().finite(),
    ensures
        oldest_event(st, t, w) is None ==> claim_answer(st, t, w) == Ok::<
            Option<(EventModel, i64)>,
            Refusal,
        >(None),
        claim_answer(st, t, w) == Ok::<Option<(EventModel, i64)>, Refusal>(None) ==> oldest_event(
            st,
            t,
            w,
        ) is None,
        claim_answer(st, t, w) matches Ok(Some(got)) ==> {
            let after = claimed_for(st, t, w, at);
            let was = st.events[(t, got.0.key)];
            let now = after.events[(t, got.0.key)];
            &&& oldest_event(st, t, w) == Some(got.0.key)
            &&& got.0.kind == was.kind
            &&& json_read_of(st, t, got.0.key) == Ok::<Seq<char>, Seq<char>>(got.0.payload)
            &&& got.1 == was.received_at
            &&& got.0.correlation.contains(key) <==> st.corr.contains_key((t, (got.0.key, key)))
            &&& now.has_claim
            &&& now.claimed_by == w.run
            &&& now.claimed_at == at
            &&& now.payload == was.payload
            &&& now.kind == was.kind
            &&& now.received_at == was.received_at
            &&& k != (t, got.0.key) ==> after.events.contains_key(k) == st.events.contains_key(k)
            &&& k != (t, got.0.key) && st.events.contains_key(k) ==> after.events[k]
                == st.events[k]
            &&& after.subs == st.subs
            &&& after.corr == st.corr
        },
        !(claim_answer(st, t, w) matches Ok(Some(_))) ==> claimed_for(st, t, w, at) == st,
{
    if let Ok(Some(got)) = claim_answer(st, t, w) {
        lemma_keys_of_event(st, t, got.0.key, key);
    }
}

pub proof fn lemma_keys_of_event(st: EventState, t: Seq<char>, ev: Pair, key: Pair)
    requires
        st.corr.dom().finite(),
    ensures
        correlation_of(st, t, ev).contains(key) <==> st.corr.contains_key((t, (ev, key))),
{
    let f = of_event(t, ev);
    let rows = chosen::<(String, ((String, String), (String, String))), ()>(st.corr, f);
    lemma_chosen::<(String, ((String, String), (String, String))), ()>(st.corr, f);
    let keys = correlation_of(st, t, ev);
    if keys.contains(key) {
        let i = choose|i: int| 0 <= i < keys.len() && keys[i] == key;
        assert(f(rows[i]) && st.corr.contains_key(rows[i].0));
        assert(rows[i].0 == (t, (ev, key)));
    }
    let k: CorrKey = (t, (ev, key));
    if st.corr.contains_key(k) {
        assert(f((k, st.corr[k])));
        assert(has_key(rows, k));
        let i = choose|i: int| 0 <= i < rows.len() && (#[trigger] rows[i]).0 == k;
        assert(keys[i] == key);
    }
}

// ── Retiring ────────────────────────────────────────────────────────────────

/// A sweep retires exactly the events that nobody claimed and that arrived no later
/// than the cutoff, for the reason given; each keeps what it is otherwise. Every
/// other event and every wait is as it was, and as many are counted as were retired.
pub proof fn law_sweep_retires_the_unclaimed(
    st: EventState,
    t: Seq<char>,
    cutoff: i64,
    reason: Seq<char>,
    k: EventKey,
)
    requires
        st.wf(),
        st.live.dom().finite(),
    ensures
        ({
            let after = swept(st, t, cutoff, reason);
            let falls = k.0 == t && !st.events[k].has_claim && !st.events[k].dead
                && st.events[k].received_at <= cutoff;
            &&& after.events.contains_key(k) == st.events.contains_key(k)
            &&& st.events.contains_key(k) && falls ==> after.events[k].dead
                && after.events[k].reason == reason && !after.events[k].has_claim
                && after.events[k].kind == st.events[k].kind && after.events[k].payload
                == st.events[k].payload && after.events[k].received_at == st.events[k].received_at
            &&& st.events.contains_key(k) && !falls ==> after.events[k] == st.events[k]
            &&& after.subs == st.subs
            &&& after.corr == st.corr
        }),
        swept_count(st, t, cutoff) == Set::new(
            |e: EventKey|
                st.events.contains_key(e) && e.0 == t && !st.events[e].has_claim
                    && !st.events[e].dead && st.events[e].received_at <= cutoff,
        ).len(),
{
    lemma_doomed(st, t, cutoff, k.1);
    let f = doomed(st, t, cutoff);
    lemma_chosen_counted::<(String, (i64, (String, String))), ()>(st.live, f);
    let a = Set::new(|x: ByTime| st.live.contains_key(x) && f((x, st.live[x])));
    let b = Set::new(
        |e: EventKey|
            st.events.contains_key(e) && e.0 == t && !st.events[e].has_claim && !st.events[e].dead
                && st.events[e].received_at <= cutoff,
    );
    let g = |x: ByTime| (x.0, x.1.1);
    assert forall|e: EventKey| #[trigger] a.map(g).contains(e) <==> b.contains(e) by {
        if a.map(g).contains(e) {
            let x = choose|x: ByTime| a.contains(x) && g(x) == e;
            assert(st.live.contains_key(x));
        }
        if b.contains(e) {
            let x: ByTime = (t, (st.events[e].received_at, e.1));
            assert(st.live.contains_key(x));
            assert(a.contains(x) && g(x) == e);
        }
    }
    assert(a.map(g) =~= b);
    assert forall|x: ByTime, y: ByTime|
        a.contains(x) && a.contains(y) && #[trigger] g(x) == #[trigger] g(y) implies x == y by {
        assert(st.live.contains_key(x) && st.live.contains_key(y));
    }
    vstd::set_lib::lemma_map_size(a, b, g);
}

/// The retired events are given newest first, each once and as it is kept: one that
/// says no reason as unclaimed. There are no more of them than were asked for.
pub proof fn law_retired_events_are_given(
    st: EventState,
    t: Seq<char>,
    limit: usize,
    i: int,
    j: int,
    key: Pair,
)
    requires
        st.wf(),
        st.dead.dom().finite(),
        st.corr.dom().finite(),
        0 <= i < retired_letters(st, t, limit).len(),
    ensures
        ({
            let all = retired_letters(st, t, limit);
            let x = all[i];
            let row = st.events[(t, x.0.key)];
            &&& all.len() <= limit
            &&& st.events.contains_key((t, x.0.key))
            &&& row.dead
            &&& x.0.kind == row.kind
            &&& x.0.payload == row.payload
            &&& x.0.correlation.contains(key) <==> st.corr.contains_key((t, (x.0.key, key)))
            &&& x.1.0 == row.received_at
            &&& x.2 == if row.reason == ""@ {
                "unclaimed"@
            } else {
                row.reason
            }
            &&& i < j < all.len() ==> all[i].1.0 >= all[j].1.0
            &&& i < j < all.len() ==> all[i].0.key != all[j].0.key
        }),
{
    lemma_letters(st, t, limit);
    let all = retired_letters(st, t, limit);
    let rows = chosen::<(String, (i64, (String, String))), ()>(st.dead, retired_here(st, t));
    let a = rows.len() - 1 - i;
    assert(st.dead.contains_key(rows[a].0));
    lemma_keys_of_event(st, t, all[i].0.key, key);
    if i < j < all.len() {
        let b = rows.len() - 1 - j;
        assert(st.dead.contains_key(rows[b].0));
        assert(<(String, (i64, (String, String))) as Key>::precedes(rows[b].0, rows[a].0));
        <String as Key>::lemma_irreflexive(t);
        <(String, String) as Key>::lemma_irreflexive(rows[a].0.1.1);
    }
}

/// A retired event that is not among those given was left out for want of room, and
/// those given arrived no earlier.
pub proof fn law_no_retired_event_is_left_out(
    st: EventState,
    t: Seq<char>,
    limit: usize,
    ev: Pair,
    i: int,
)
    requires
        st.wf(),
        st.dead.dom().finite(),
        st.events.contains_key((t, ev)),
        st.events[(t, ev)].dead,
        forall|j: int|
            0 <= j < retired_letters(st, t, limit).len() ==> (#[trigger] retired_letters(
                st,
                t,
                limit,
            )[j]).0.key != ev,
    ensures
        retired_letters(st, t, limit).len() == limit,
        0 <= i < limit ==> retired_letters(st, t, limit)[i].1.0 >= st.events[(t, ev)].received_at,
{
    lemma_letters(st, t, limit);
    let f = retired_here(st, t);
    let rows = chosen::<(String, (i64, (String, String))), ()>(st.dead, f);
    lemma_chosen::<(String, (i64, (String, String))), ()>(st.dead, f);
    let k: ByTime = (t, (st.events[(t, ev)].received_at, ev));
    assert(st.dead.contains_key(k) && f((k, st.dead[k])));
    assert(has_key(rows, k));
    let p = choose|p: int| 0 <= p < rows.len() && (#[trigger] rows[p]).0 == k;
    let at = rows.len() - 1 - p;
    if at < retired_letters(st, t, limit).len() {
        assert(retired_letters(st, t, limit)[at].0.key == ev);
    }
    if 0 <= i < limit {
        let a = rows.len() - 1 - i;
        assert(st.dead.contains_key(rows[a].0));
        assert(<(String, (i64, (String, String))) as Key>::precedes(rows[p].0, rows[a].0));
        <String as Key>::lemma_irreflexive(t);
    }
}

proof fn lemma_letters(st: EventState, t: Seq<char>, limit: usize)
    requires
        st.dead.dom().finite(),
    ensures
        ({
            let f = retired_here(st, t);
            let rows = chosen::<(String, (i64, (String, String))), ()>(st.dead, f);
            &&& crate::table::in_order::<(String, (i64, (String, String))), ()>(rows)
            &&& retired_letters(st, t, limit).len() == page(rows.len(), limit)
            &&& forall|i: int|
                0 <= i < rows.len() ==> st.dead.contains_key((#[trigger] rows[i]).0)
                    && rows[i].0.0 == t
        }),
{
    let f = retired_here(st, t);
    let rows = chosen::<(String, (i64, (String, String))), ()>(st.dead, f);
    lemma_chosen::<(String, (i64, (String, String))), ()>(st.dead, f);
    assert forall|i: int| 0 <= i < rows.len() implies st.dead.contains_key((#[trigger] rows[i]).0)
        && rows[i].0.0 == t by {
        assert(f(rows[i]));
    }
}

/// How a retired event reads: its payload as it parsed, the rest as it is kept.
pub proof fn law_letter_reads_as_kept(
    d: (EventModel, (i64, Option<Seq<char>>), Seq<char>),
    parsed: Result<Seq<char>, Seq<char>>,
)
    ensures
        letter_read(d, parsed) is Ok <==> parsed is Ok && d.1.1 is None,
        letter_read(d, parsed) matches Ok(l) ==> {
            &&& l.0.key == d.0.key
            &&& l.0.kind == d.0.kind
            &&& l.0.correlation == d.0.correlation
            &&& parsed == Ok::<Seq<char>, Seq<char>>(l.0.payload)
            &&& l.1 == d.1.0
            &&& l.2 == d.2
        },
{
}

/// The retired events are read one by one, in the order they are given.
pub proof fn law_letters_are_read_in_turn(
    all: Seq<(EventModel, (i64, Option<Seq<char>>), Seq<char>)>,
    n: int,
    i: int,
)
    requires
        0 <= n <= all.len(),
        letters_read(all, n) is Ok,
    ensures
        letters_read(all, n)->Ok_0.len() == n,
        0 <= i < n ==> letter_read(all[i], crate::domain::json_read(all[i].0.payload)) == Ok::<
            (EventModel, i64, Seq<char>),
            Refusal,
        >(letters_read(all, n)->Ok_0[i]),
    decreases n,
{
    if n > 0 {
        law_letters_are_read_in_turn(all, n - 1, i);
    }
}

// ── The list of waits ───────────────────────────────────────────────────────

proof fn lemma_each_wait(
    st: EventState,
    t: Seq<char>,
    rows: Seq<(SubByTime, ())>,
    n: int,
)
    requires
        0 <= n <= rows.len(),
        waits_read(st, t, rows, n) is Ok,
    ensures
        waits_read(st, t, rows, n)->Ok_0.len() == n,
        forall|i: int|
            0 <= i < n ==> wait_read(
                (#[trigger] rows[i]).0.1.1.0,
                st.subs[(t, rows[i].0.1.1)],
                st.subs[(t, rows[i].0.1.1)].kind,
                seq![rows[i].0.1.1.1],
            ) == Ok::<WaitModel, Refusal>(waits_read(st, t, rows, n)->Ok_0[i]),
    decreases n,
{
    if n > 0 {
        lemma_each_wait(st, t, rows, n - 1);
        let before = waits_read(st, t, rows, n - 1)->Ok_0;
        let after = waits_read(st, t, rows, n)->Ok_0;
        assert forall|i: int| 0 <= i < n implies wait_read(
            (#[trigger] rows[i]).0.1.1.0,
            st.subs[(t, rows[i].0.1.1)],
            st.subs[(t, rows[i].0.1.1)].kind,
            seq![rows[i].0.1.1.1],
        ) == Ok::<WaitModel, Refusal>(after[i]) by {
            if i < n - 1 {
                assert(after[i] == before[i]);
            }
        }
    }
}

/// The list of waits has each wait of the tenant once for each key it waits on, in
/// the order they began, and nothing else; what is left out for want of room began
/// no earlier.
pub proof fn law_waits_are_listed(
    st: EventState,
    t: Seq<char>,
    limit: usize,
    out: Seq<WaitModel>,
    k: SubKey,
    i: int,
    j: int,
)
    requires
        st.wf(),
        st.subs_by_time.dom().finite(),
        waits_read(st, t, wait_rows(st, t), page(wait_rows(st, t).len(), limit)) == Ok::<
            Seq<WaitModel>,
            Refusal,
        >(out),
    ensures
        out.len() <= limit,
        0 <= i < out.len() ==> {
            let w = out[i];
            &&& w.correlation.len() == 1
            &&& st.subs.contains_key((t, ((w.run, w.effect), w.correlation[0])))
            &&& st.subs[(t, ((w.run, w.effect), w.correlation[0]))].kind == w.kind
            &&& st.subs[(t, ((w.run, w.effect), w.correlation[0]))].step == w.step
        },
        0 <= i < j < out.len() ==> st.subs[(
            t,
            ((out[i].run, out[i].effect), out[i].correlation[0]),
        )].created_at <= st.subs[(t, ((out[j].run, out[j].effect), out[j].correlation[0]))].created_at,
        st.subs.contains_key(k) && k.0 == t && !(exists|p: int|
            0 <= p < out.len() && (#[trigger] out[p]).run == k.1.0.0 && out[p].effect == k.1.0.1
                && out[p].correlation == seq![k.1.1]) ==> out.len() == limit && (0 <= i < limit
            ==> st.subs[(t, ((out[i].run, out[i].effect), out[i].correlation[0]))].created_at
            <= st.subs[k].created_at),
{
    let f = registered(st, t);
    let rows = wait_rows(st, t);
    let n = page(rows.len(), limit);
    lemma_chosen::<(String, (i64, ((String, String), (String, String)))), ()>(
        st.subs_by_time,
        f,
    );
    lemma_each_wait(st, t, rows, n);
    if 0 <= i < out.len() {
        assert(f(rows[i]) && st.subs_by_time.contains_key(rows[i].0));
    }
    if 0 <= i < j < out.len() {
        assert(f(rows[j]) && st.subs_by_time.contains_key(rows[j].0));
        assert(<(String, (i64, ((String, String), (String, String)))) as Key>::precedes(
            rows[i].0,
            rows[j].0,
        ));
        <String as Key>::lemma_irreflexive(t);
    }
    if st.subs.contains_key(k) && k.0 == t {
        let x: SubByTime = (t, (st.subs[k].created_at, k.1));
        assert(st.subs_by_time.contains_key(x) && f((x, st.subs_by_time[x])));
        assert(has_key(rows, x));
        let p = choose|p: int| 0 <= p < rows.len() && (#[trigger] rows[p]).0 == x;
        if p < n {
            assert(out[p].correlation == seq![k.1.1]);
            assert(out[p].run == k.1.0.0 && out[p].effect == k.1.0.1);
        } else if 0 <= i < out.len() {
            assert(<(String, (i64, ((String, String), (String, String)))) as Key>::precedes(
                rows[i].0,
                rows[p].0,
            ));
            <String as Key>::lemma_irreflexive(t);
        }
    }
}

} // verus!
