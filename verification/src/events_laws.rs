//! What holds of inbound events across operations.

use vstd::prelude::*;

use crate::error::Refusal;
use crate::events::{
    buffered, by_key_with, claim_answer, claimable, claimed, claimed_for, corr_with, correlation_of,
    deliver_answer, delivered, erased, event_among, event_on, handed_over, is_doomed, match_answer,
    matched, of_event, oldest_event, oldest_waiter, retired, shed, subscribed, swept, takeable,
    unsubscribed, waits_for, ByKey, ByTime, CorrKey, DeliveryModel, EventKey, EventModel, EventRowModel,
    EventState, Held, Pair, SubByKey, SubByTime, SubKey, WaitModel,
};
use crate::table::{
    chosen, has_key, lemma_chosen, lemma_chosen_alike, lemma_listed, listed, Key,
};

verus! {

// ── The tables agree ────────────────────────────────────────────────────────

pub proof fn lemma_corr_with(m: Map<CorrKey, ()>, t: Seq<char>, ev: Pair, keys: Seq<Pair>, n: int)
    requires
        0 <= n <= keys.len(),
    ensures
        forall|k: CorrKey| #[trigger]
            corr_with(m, t, ev, keys, n).contains_key(k) <==> m.contains_key(k) || (k.0 == t
                && k.1.0 == ev && keys.take(n).contains(k.1.1)),
    decreases n,
{
    if n > 0 {
        lemma_corr_with(m, t, ev, keys, n - 1);
        lemma_take_step(keys, n);
        let before = corr_with(m, t, ev, keys, n - 1);
        assert forall|k: CorrKey| #[trigger]
            corr_with(m, t, ev, keys, n).contains_key(k) <==> m.contains_key(k) || (k.0 == t
                && k.1.0 == ev && keys.take(n).contains(k.1.1)) by {
            let _there = before.contains_key(k);
            let _there = keys.take(n).contains(k.1.1);
            assert(k == (k.0, (k.1.0, k.1.1)));
        }
    }
    if n == 0 {
        assert(keys.take(n) =~= Seq::<Pair>::empty());
    }
}

pub proof fn lemma_by_key_with(
    m: Map<ByKey, ()>,
    t: Seq<char>,
    ev: Pair,
    keys: Seq<Pair>,
    at: i64,
    n: int,
)
    requires
        0 <= n <= keys.len(),
    ensures
        forall|k: ByKey| #[trigger]
            by_key_with(m, t, ev, keys, at, n).contains_key(k) <==> m.contains_key(k) || (k.0 == t
                && k.1.1 == (at, ev) && keys.take(n).contains(k.1.0)),
    decreases n,
{
    if n > 0 {
        lemma_by_key_with(m, t, ev, keys, at, n - 1);
        lemma_take_step(keys, n);
        let before = by_key_with(m, t, ev, keys, at, n - 1);
        assert forall|k: ByKey| #[trigger]
            by_key_with(m, t, ev, keys, at, n).contains_key(k) <==> m.contains_key(k) || (k.0 == t
                && k.1.1 == (at, ev) && keys.take(n).contains(k.1.0)) by {
            let _there = before.contains_key(k);
            let _there = keys.take(n).contains(k.1.0);
            assert(k == (k.0, (k.1.0, k.1.1)));
        }
    }
    if n == 0 {
        assert(keys.take(n) =~= Seq::<Pair>::empty());
    }
}

proof fn lemma_take_step(keys: Seq<Pair>, n: int)
    requires
        0 < n <= keys.len(),
    ensures
        forall|k: Pair| #[trigger]
            keys.take(n).contains(k) <==> keys.take(n - 1).contains(k) || k == keys[n - 1],
{
    let a = keys.take(n - 1);
    let b = keys.take(n);
    assert(b =~= a.push(keys[n - 1]));
    assert forall|k: Pair| #[trigger] b.contains(k) <==> a.contains(k) || k == keys[n - 1] by {
        if a.contains(k) {
            let i = choose|i: int| 0 <= i < a.len() && a[i] == k;
            assert(b[i] == k);
        }
        if k == keys[n - 1] {
            assert(b[n - 1] == k);
        }
        if b.contains(k) {
            let i = choose|i: int| 0 <= i < b.len() && b[i] == k;
            if i < n - 1 {
                assert(a[i] == k);
            }
        }
    }
}

/// Empty tables agree.
pub proof fn law_no_events_agree()
    ensures
        crate::events::no_events().wf(),
{
}

/// Buffering keeps the tables in agreement.
pub proof fn law_buffering_agrees(st: EventState, t: Seq<char>, ev: EventModel, at: i64)
    requires
        st.wf(),
        !st.events.contains_key((t, ev.key)),
    ensures
        buffered(st, t, ev, at).wf(),
{
    let after = buffered(st, t, ev, at);
    let n = ev.correlation.len() as int;
    lemma_corr_with(st.corr, t, ev.key, ev.correlation, n);
    lemma_by_key_with(st.by_key, t, ev.key, ev.correlation, at, n);
    assert(ev.correlation.take(n) =~= ev.correlation);
}

/// Registering a wait keeps the tables in agreement.
pub proof fn law_subscribing_agrees(st: EventState, t: Seq<char>, w: WaitModel, at: i64, n: int)
    requires
        st.wf(),
        0 <= n <= w.correlation.len(),
    ensures
        subscribed(st, t, w, at, n).wf(),
    decreases n,
{
    if n > 0 {
        law_subscribing_agrees(st, t, w, at, n - 1);
        let before = subscribed(st, t, w, at, n - 1);
        let after = subscribed(st, t, w, at, n);
        assert(after.waits_agree());
    }
}

/// Claiming an event that nobody else has keeps the tables in agreement.
pub proof fn law_claiming_agrees(st: EventState, t: Seq<char>, ev: Pair, run: Seq<char>, at: i64)
    requires
        st.wf(),
        st.events.contains_key((t, ev)),
        !st.events[(t, ev)].dead,
        !st.events[(t, ev)].has_claim || st.events[(t, ev)].claimed_by == run,
    ensures
        claimed(st, t, ev, run, at).wf(),
{
}

/// Retiring a wait keeps the tables in agreement.
pub proof fn law_retiring_agrees(st: EventState, t: Seq<char>, wait: Pair)
    requires
        st.wf(),
    ensures
        retired(st, t, wait).wf(),
{
    let after = retired(st, t, wait);
    assert forall|k: SubByKey| #[trigger] after.subs_by_key.contains_key(k) <==> {
        let s = (k.0, (k.1.1.1.1, k.1.1.0));
        &&& after.subs.contains_key(s)
        &&& after.subs[s].kind == k.1.0
        &&& after.subs[s].created_at == k.1.1.1.0
    } by {
        let _there = st.subs_by_key.contains_key(k);
    }
    assert forall|k: SubByTime| #[trigger] after.subs_by_time.contains_key(k) <==> {
        let s = (k.0, k.1.1);
        &&& after.subs.contains_key(s)
        &&& after.subs[s].created_at == k.1.0
    } by {
        let _there = st.subs_by_time.contains_key(k);
    }
}

/// Shedding keeps the tables in agreement.
proof fn lemma_shedding_agrees(st: EventState, t: Seq<char>, run: Seq<char>)
    requires
        st.wf(),
    ensures
        shed(st, t, run).wf(),
{
    let after = shed(st, t, run);
    assert forall|k: EventKey| #[trigger] after.events.contains_key(k) implies {
        &&& after.events[k].received_at == st.events[k].received_at
        &&& after.events[k].has_claim == st.events[k].has_claim
        &&& after.events[k].claimed_by == st.events[k].claimed_by
        &&& after.events[k].dead == st.events[k].dead
    } by {}
    assert forall|k: Held| #[trigger] after.claimed.contains_key(k) implies st.claimed.contains_key(
        k,
    ) by {}
    assert forall|k: ByTime| #[trigger] after.live.contains_key(k) <==> {
        &&& after.events.contains_key((k.0, k.1.1))
        &&& after.events[(k.0, k.1.1)].received_at == k.1.0
        &&& !after.events[(k.0, k.1.1)].has_claim
        &&& !after.events[(k.0, k.1.1)].dead
    } by {
        let _there = st.live.contains_key(k);
    }
    assert forall|k: ByTime| #[trigger] after.dead.contains_key(k) <==> {
        &&& after.events.contains_key((k.0, k.1.1))
        &&& after.events[(k.0, k.1.1)].received_at == k.1.0
        &&& after.events[(k.0, k.1.1)].dead
    } by {
        let _there = st.dead.contains_key(k);
    }
    assert forall|k: ByKey| #[trigger] after.by_key.contains_key(k) <==> {
        &&& after.corr.contains_key((k.0, (k.1.1.1, k.1.0)))
        &&& after.events.contains_key((k.0, k.1.1.1))
        &&& after.events[(k.0, k.1.1.1)].received_at == k.1.1.0
    } by {
        let _there = st.by_key.contains_key(k);
    }
}

/// Ending a wait keeps the tables in agreement.
pub proof fn law_unsubscribing_agrees(st: EventState, t: Seq<char>, wait: Pair)
    requires
        st.wf(),
    ensures
        unsubscribed(st, t, wait).wf(),
{
    law_retiring_agrees(st, t, wait);
    lemma_shedding_agrees(retired(st, t, wait), t, wait.0);
}

/// Erasing content keeps the tables in agreement.
pub proof fn law_erasing_agrees(st: EventState, t: Seq<char>, ev: Pair)
    requires
        st.wf(),
    ensures
        erased(st, t, ev).wf(),
{
}

/// What is about to be retired is unclaimed and not retired, and there.
pub proof fn lemma_doomed(st: EventState, t: Seq<char>, cutoff: i64, ev: Pair)
    requires
        st.wf(),
    ensures
        is_doomed(st, t, cutoff, ev) <==> {
            &&& claimable(st, t, ev)
            &&& st.events[(t, ev)].received_at <= cutoff
        },
{
    if is_doomed(st, t, cutoff, ev) {
        let at = choose|at: i64| at <= cutoff && #[trigger] st.live.contains_key((t, (at, ev)));
        assert(st.live.contains_key((t, (at, ev))));
    }
    if claimable(st, t, ev) && st.events[(t, ev)].received_at <= cutoff {
        let at = st.events[(t, ev)].received_at;
        assert(st.live.contains_key((t, (at, ev))));
    }
}

/// A sweep retires exactly what was unclaimed and old enough: an event that a
/// run has, or that is retired already, or that arrived after the cutoff, or
/// that is another tenant's, is left as it is.
pub proof fn law_sweep_spares_the_rest(
    st: EventState,
    t: Seq<char>,
    cutoff: i64,
    reason: Seq<char>,
    k: EventKey,
)
    requires
        st.wf(),
        st.events.contains_key(k),
    ensures
        swept(st, t, cutoff, reason).events.contains_key(k),
        swept(st, t, cutoff, reason).events[k] == if k.0 == t && claimable(st, t, k.1)
            && st.events[k].received_at <= cutoff {
            crate::events::dead_row(st.events[k], reason)
        } else {
            st.events[k]
        },
{
    lemma_doomed(st, t, cutoff, k.1);
}

/// A sweep keeps the tables in agreement.
pub proof fn law_sweeping_agrees(st: EventState, t: Seq<char>, cutoff: i64, reason: Seq<char>)
    requires
        st.wf(),
    ensures
        swept(st, t, cutoff, reason).wf(),
{
    let after = swept(st, t, cutoff, reason);
    assert forall|k: EventKey| #[trigger] after.events.contains_key(k) implies {
        &&& st.events.contains_key(k)
        &&& after.events[k].received_at == st.events[k].received_at
        &&& after.events[k].dead == (st.events[k].dead || (k.0 == t && claimable(st, t, k.1)
            && st.events[k].received_at <= cutoff))
        &&& after.events[k].has_claim == st.events[k].has_claim
        &&& st.events[k].has_claim ==> after.events[k].claimed_by == st.events[k].claimed_by
    } by {
        law_sweep_spares_the_rest(st, t, cutoff, reason, k);
    }
    assert forall|k: ByTime| #[trigger] after.live.contains_key(k) <==> {
        &&& after.events.contains_key((k.0, k.1.1))
        &&& after.events[(k.0, k.1.1)].received_at == k.1.0
        &&& !after.events[(k.0, k.1.1)].has_claim
        &&& !after.events[(k.0, k.1.1)].dead
    } by {
        let _there = st.live.contains_key(k);
        let _there = after.events.contains_key((k.0, k.1.1));
    }
    assert forall|k: ByTime| #[trigger] after.dead.contains_key(k) <==> {
        &&& after.events.contains_key((k.0, k.1.1))
        &&& after.events[(k.0, k.1.1)].received_at == k.1.0
        &&& after.events[(k.0, k.1.1)].dead
    } by {
        let _there = st.dead.contains_key(k);
        let _there = after.events.contains_key((k.0, k.1.1));
        lemma_doomed(st, t, cutoff, k.1.1);
    }
    assert forall|k: Held| #[trigger] after.claimed.contains_key(k) implies {
        &&& after.events.contains_key((k.0, k.1.1))
        &&& after.events[(k.0, k.1.1)].has_claim
        &&& after.events[(k.0, k.1.1)].claimed_by == k.1.0
        &&& !after.events[(k.0, k.1.1)].dead
    } by {
        assert(st.claimed.contains_key(k));
        assert(after.events.contains_key((k.0, k.1.1)));
    }
    assert forall|k: ByKey| #[trigger] after.by_key.contains_key(k) <==> {
        &&& after.corr.contains_key((k.0, (k.1.1.1, k.1.0)))
        &&& after.events.contains_key((k.0, k.1.1.1))
        &&& after.events[(k.0, k.1.1.1)].received_at == k.1.1.0
    } by {
        let _there = st.by_key.contains_key(k);
        let _there = after.events.contains_key((k.0, k.1.1.1));
    }
}

/// An event that was found for a wait may be taken by it.
pub proof fn lemma_found_event(
    st: EventState,
    t: Seq<char>,
    run: Seq<char>,
    kind: Seq<char>,
    keys: Seq<Pair>,
    n: int,
    ev: Pair,
)
    requires
        st.by_key.dom().finite(),
        0 <= n <= keys.len(),
        event_among(st, t, run, kind, keys, n) == Some(ev),
    ensures
        st.events.contains_key((t, ev)),
        st.events[(t, ev)].kind == kind,
        !st.events[(t, ev)].dead,
        !st.events[(t, ev)].has_claim || st.events[(t, ev)].claimed_by == run,
    decreases n,
{
    match event_among(st, t, run, kind, keys, n - 1) {
        Some(_) => {
            lemma_found_event(st, t, run, kind, keys, n - 1, ev);
        },
        None => {
            let f = takeable(st, t, run, kind, keys[n - 1]);
            let rows = chosen::<(String, ((String, String), (i64, (String, String)))), ()>(
                st.by_key,
                f,
            );
            lemma_chosen::<(String, ((String, String), (i64, (String, String)))), ()>(
                st.by_key,
                f,
            );
            assert(f(rows[0]));
        },
    }
}

/// A wait that takes an event keeps the tables in agreement.
pub proof fn law_taking_agrees(st: EventState, t: Seq<char>, w: WaitModel, at: i64)
    requires
        st.wf(),
        st.by_key.dom().finite(),
    ensures
        claimed_for(st, t, w, at).wf(),
{
    match claim_answer(st, t, w) {
        Ok(Some(e)) => {
            let ev = oldest_event(st, t, w)->0;
            lemma_found_event(
                st,
                t,
                w.run,
                w.kind,
                w.correlation,
                w.correlation.len() as int,
                ev,
            );
            law_claiming_agrees(st, t, ev, w.run, at);
        },
        _ => {},
    }
}

/// Matching an event with its waiter keeps the tables in agreement.
pub proof fn law_matching_agrees(st: EventState, t: Seq<char>, ev: EventModel, at: i64)
    requires
        st.wf(),
    ensures
        matched(st, t, ev, at).wf(),
{
    match match_answer(st, t, ev) {
        Ok(Some(w)) => {
            law_claiming_agrees(st, t, ev.key, w.run, at);
            law_retiring_agrees(claimed(st, t, ev.key, w.run, at), t, (w.run, w.effect));
        },
        _ => {},
    }
}

/// Writing an event that is not here as a run's own keeps the tables in
/// agreement.
pub proof fn law_handing_over_agrees(
    st: EventState,
    t: Seq<char>,
    run: Seq<char>,
    ev: EventModel,
    at: i64,
)
    requires
        st.wf(),
        !st.events.contains_key((t, ev.key)),
    ensures
        handed_over(st, t, run, ev, at).wf(),
{
    let n = ev.correlation.len() as int;
    lemma_corr_with(st.corr, t, ev.key, ev.correlation, n);
    lemma_by_key_with(st.by_key, t, ev.key, ev.correlation, at, n);
    assert(ev.correlation.take(n) =~= ev.correlation);
}

/// Delivering an event to one run keeps the tables in agreement.
pub proof fn law_delivering_agrees(
    st: EventState,
    t: Seq<char>,
    run: Seq<char>,
    ev: EventModel,
    at: i64,
)
    requires
        st.wf(),
    ensures
        delivered(st, t, run, ev, at).wf(),
{
    if !st.events.contains_key((t, ev.key)) {
        law_handing_over_agrees(st, t, run, ev, at);
    }
}

// ── One consumer ────────────────────────────────────────────────────────────

/// A message that one run has claimed goes to no other: no other run's wait
/// takes it, no waiter is matched with it, and a delivery of it to another run
/// gives that run nothing.
pub proof fn law_one_consumer(
    st: EventState,
    t: Seq<char>,
    ev: EventModel,
    other: WaitModel,
)
    requires
        st.by_key.dom().finite(),
        st.events.contains_key((t, ev.key)),
        st.events[(t, ev.key)].has_claim,
        st.events[(t, ev.key)].claimed_by != other.run,
    ensures
        oldest_event(st, t, other) != Some(ev.key),
        match_answer(st, t, ev) == Ok::<Option<WaitModel>, Refusal>(None),
        !(deliver_answer(st, t, other.run, ev) matches Ok(DeliveryModel::Matched(_))),
{
    if oldest_event(st, t, other) == Some(ev.key) {
        lemma_found_event(
            st,
            t,
            other.run,
            other.kind,
            other.correlation,
            other.correlation.len() as int,
            ev.key,
        );
    }
}

/// A claim is for one run: whoever takes, is matched with or is delivered an
/// event has it, and it is on nobody's list of what is still to be had.
pub proof fn law_claimed_is_taken(st: EventState, t: Seq<char>, ev: Pair, run: Seq<char>, at: i64)
    requires
        st.wf(),
        st.events.contains_key((t, ev)),
    ensures
        ({
            let after = claimed(st, t, ev, run, at);
            &&& after.events[(t, ev)].has_claim
            &&& after.events[(t, ev)].claimed_by == run
            &&& !claimable(after, t, ev)
            &&& forall|when: i64| !#[trigger] after.live.contains_key((t, (when, ev)))
        }),
{
    let after = claimed(st, t, ev, run, at);
    assert forall|when: i64| !#[trigger] after.live.contains_key((t, (when, ev))) by {
        let _there = st.live.contains_key((t, (when, ev)));
    }
}

/// A retired message is delivered to nobody.
pub proof fn law_dead_letters_stay_dead(st: EventState, t: Seq<char>, ev: EventModel, w: WaitModel)
    requires
        st.by_key.dom().finite(),
        st.wf(),
        st.events.contains_key((t, ev.key)),
        st.events[(t, ev.key)].dead,
    ensures
        oldest_event(st, t, w) != Some(ev.key),
        match_answer(st, t, ev) == Ok::<Option<WaitModel>, Refusal>(None),
        !(deliver_answer(st, t, w.run, ev) matches Ok(DeliveryModel::Matched(_))),
{
    if oldest_event(st, t, w) == Some(ev.key) {
        lemma_found_event(
            st,
            t,
            w.run,
            w.kind,
            w.correlation,
            w.correlation.len() as int,
            ev.key,
        );
    }
}

/// A wait finds something on a key under which there is an event that it may
/// take.
pub proof fn lemma_event_is_found(
    st: EventState,
    t: Seq<char>,
    run: Seq<char>,
    kind: Seq<char>,
    keys: Seq<Pair>,
    i: int,
    n: int,
    k: ByKey,
)
    requires
        st.by_key.dom().finite(),
        0 <= i < n <= keys.len(),
        st.by_key.contains_key(k),
        takeable(st, t, run, kind, keys[i])((k, ())),
    ensures
        event_among(st, t, run, kind, keys, n) is Some,
    decreases n,
{
    if i < n - 1 {
        lemma_event_is_found(st, t, run, kind, keys, i, n - 1, k);
    } else {
        let f = takeable(st, t, run, kind, keys[i]);
        lemma_chosen::<(String, ((String, String), (i64, (String, String)))), ()>(st.by_key, f);
        assert(st.by_key.contains_key(k) && f((k, st.by_key[k])));
        assert(has_key(
            chosen::<(String, ((String, String), (i64, (String, String)))), ()>(st.by_key, f),
            k,
        ));
    }
}

/// What a claim leaves as it was: which events a run may take, seen by the run
/// that has the claim.
proof fn lemma_claim_keeps_choice(
    st: EventState,
    t: Seq<char>,
    ev: Pair,
    run: Seq<char>,
    at: i64,
    kind: Seq<char>,
    keys: Seq<Pair>,
    n: int,
)
    requires
        st.events.contains_key((t, ev)),
        !st.events[(t, ev)].dead,
        !st.events[(t, ev)].has_claim || st.events[(t, ev)].claimed_by == run,
    ensures
        event_among(claimed(st, t, ev, run, at), t, run, kind, keys, n) == event_among(
            st,
            t,
            run,
            kind,
            keys,
            n,
        ),
    decreases n,
{
    if n > 0 {
        lemma_claim_keeps_choice(st, t, ev, run, at, kind, keys, n - 1);
        let after = claimed(st, t, ev, run, at);
        assert(takeable(after, t, run, kind, keys[n - 1]) =~= takeable(
            st,
            t,
            run,
            kind,
            keys[n - 1],
        ));
    }
}

/// A run gets back what was claimed for it: a wait that took an event and asks
/// again, having crashed before it saw the event, is given the same event with
/// the same answer, and the event is claimed for its run as it was.
pub proof fn law_own_claim_is_recovered(
    st: EventState,
    t: Seq<char>,
    w: WaitModel,
    at: i64,
    later: i64,
)
    requires
        st.wf(),
        st.by_key.dom().finite(),
        claim_answer(st, t, w) matches Ok(Some(_)),
    ensures
        ({
            let after = claimed_for(st, t, w, at);
            let ev = oldest_event(st, t, w)->0;
            &&& claim_answer(after, t, w) == claim_answer(st, t, w)
            &&& oldest_event(after, t, w) == Some(ev)
            &&& claimed_for(after, t, w, later).events[(t, ev)] == (EventRowModel {
                claimed_at: later,
                ..after.events[(t, ev)]
            })
            &&& after.events[(t, ev)].has_claim
            &&& after.events[(t, ev)].claimed_by == w.run
        }),
{
    let ev = oldest_event(st, t, w)->0;
    let n = w.correlation.len() as int;
    lemma_found_event(st, t, w.run, w.kind, w.correlation, n, ev);
    lemma_claim_keeps_choice(st, t, ev, w.run, at, w.kind, w.correlation, n);
}

/// An event that a wait may take is of its kind, on one of its keys, not retired,
/// and unclaimed or its run's own.
pub proof fn law_taken_was_free(st: EventState, t: Seq<char>, w: WaitModel, ev: Pair)
    requires
        st.wf(),
        st.by_key.dom().finite(),
        oldest_event(st, t, w) == Some(ev),
    ensures
        exists|i: int|
            0 <= i < w.correlation.len() && st.corr.contains_key(
                (t, (ev, #[trigger] w.correlation[i])),
            ),
        st.events.contains_key((t, ev)),
        st.events[(t, ev)].kind == w.kind,
        !st.events[(t, ev)].dead,
        !st.events[(t, ev)].has_claim || st.events[(t, ev)].claimed_by == w.run,
{
    lemma_found_event(st, t, w.run, w.kind, w.correlation, w.correlation.len() as int, ev);
    lemma_found_on_a_key(st, t, w.run, w.kind, w.correlation, w.correlation.len() as int, ev);
}

proof fn lemma_found_on_a_key(
    st: EventState,
    t: Seq<char>,
    run: Seq<char>,
    kind: Seq<char>,
    keys: Seq<Pair>,
    n: int,
    ev: Pair,
)
    requires
        st.wf(),
        st.by_key.dom().finite(),
        0 <= n <= keys.len(),
        event_among(st, t, run, kind, keys, n) == Some(ev),
    ensures
        exists|i: int| 0 <= i < n && st.corr.contains_key((t, (ev, #[trigger] keys[i]))),
    decreases n,
{
    match event_among(st, t, run, kind, keys, n - 1) {
        Some(_) => {
            lemma_found_on_a_key(st, t, run, kind, keys, n - 1, ev);
            let i = choose|i: int|
                0 <= i < n - 1 && st.corr.contains_key((t, (ev, #[trigger] keys[i])));
            assert(0 <= i < n && st.corr.contains_key((t, (ev, keys[i]))));
        },
        None => {
            let f = takeable(st, t, run, kind, keys[n - 1]);
            lemma_chosen::<(String, ((String, String), (i64, (String, String)))), ()>(st.by_key, f);
            let rows = chosen::<(String, ((String, String), (i64, (String, String)))), ()>(st.by_key, f);
            let k = rows[0].0;
            assert(f(rows[0]));
            assert(st.by_key.contains_key(k));
            assert(st.corr.contains_key((k.0, (k.1.1.1, k.1.0))));
            assert(st.corr.contains_key((t, (ev, keys[n - 1]))));
        },
    }
}

/// Whether an event is a run's.
pub open spec fn held(st: EventState, t: Seq<char>, ev: Pair, run: Seq<char>) -> bool {
    &&& st.events.contains_key((t, ev))
    &&& st.events[(t, ev)].has_claim
    &&& st.events[(t, ev)].claimed_by == run
    &&& !st.events[(t, ev)].dead
}

/// A claim stands: whatever happens to the tables, what a run has stays its own.
/// Nothing that arrives, waits, is claimed, matched, delivered, ended, erased or
/// swept takes it away.
pub proof fn law_claim_stands(
    st: EventState,
    t: Seq<char>,
    ev: Pair,
    run: Seq<char>,
    u: Seq<char>,
    other: EventModel,
    w: WaitModel,
    target: Seq<char>,
    wait: Pair,
    at: i64,
    cutoff: i64,
    reason: Seq<char>,
)
    requires
        st.wf(),
        st.by_key.dom().finite(),
        held(st, t, ev, run),
    ensures
        !st.events.contains_key((u, other.key)) ==> held(buffered(st, u, other, at), t, ev, run),
        held(subscribed(st, u, w, at, w.correlation.len() as int), t, ev, run),
        held(claimed_for(st, u, w, at), t, ev, run),
        held(matched(st, u, other, at), t, ev, run),
        held(delivered(st, u, target, other, at), t, ev, run),
        held(unsubscribed(st, u, wait), t, ev, run),
        held(erased(st, u, wait), t, ev, run),
        held(swept(st, u, cutoff, reason), t, ev, run),
{
    lemma_subscribing_leaves_events(st, u, w, at, w.correlation.len() as int);
    if let Ok(Some(_)) = claim_answer(st, u, w) {
        law_taken_was_free(st, u, w, oldest_event(st, u, w)->0);
    }
    law_sweep_spares_the_rest(st, u, cutoff, reason, (t, ev));
}

proof fn lemma_subscribing_leaves_events(
    st: EventState,
    t: Seq<char>,
    w: WaitModel,
    at: i64,
    n: int,
)
    ensures
        subscribed(st, t, w, at, n).events == st.events,
    decreases n,
{
    if n > 0 {
        lemma_subscribing_leaves_events(st, t, w, at, n - 1);
    }
}

/// Whether a run may take the event at a place on the match path.
pub open spec fn may_take(
    st: EventState,
    t: Seq<char>,
    run: Seq<char>,
    kind: Seq<char>,
    k: ByKey,
) -> bool {
    takeable(st, t, run, kind, k.1.0)((k, ()))
}

/// Where a run can take nothing new, and what it was given is still there, it is
/// given that again.
proof fn lemma_choice_survives(
    st: EventState,
    st2: EventState,
    t: Seq<char>,
    run: Seq<char>,
    kind: Seq<char>,
    keys: Seq<Pair>,
    n: int,
    ev: Pair,
)
    requires
        0 <= n <= keys.len(),
        st.by_key.dom().finite(),
        st2.by_key.dom().finite(),
        forall|k: ByKey|
            #[trigger] st2.by_key.contains_key(k) && keys.contains(k.1.0) && may_take(
                st2,
                t,
                run,
                kind,
                k,
            ) ==> st.by_key.contains_key(k) && may_take(st, t, run, kind, k),
        forall|k: ByKey|
            #[trigger] st.by_key.contains_key(k) && k.1.1.1 == ev && may_take(st, t, run, kind, k)
                ==> st2.by_key.contains_key(k) && may_take(st2, t, run, kind, k),
    ensures
        event_among(st, t, run, kind, keys, n) is None ==> event_among(
            st2,
            t,
            run,
            kind,
            keys,
            n,
        ) is None,
        event_among(st, t, run, kind, keys, n) == Some(ev) ==> event_among(
            st2,
            t,
            run,
            kind,
            keys,
            n,
        ) == Some(ev),
    decreases n,
{
    if n > 0 {
        lemma_choice_survives(st, st2, t, run, kind, keys, n - 1, ev);
        let key = keys[n - 1];
        assert(keys.contains(key));
        let f = takeable(st, t, run, kind, key);
        let g = takeable(st2, t, run, kind, key);
        lemma_chosen::<(String, ((String, String), (i64, (String, String)))), ()>(st.by_key, f);
        lemma_chosen::<(String, ((String, String), (i64, (String, String)))), ()>(st2.by_key, g);
        let a = chosen::<(String, ((String, String), (i64, (String, String)))), ()>(st.by_key, f);
        let b = chosen::<(String, ((String, String), (i64, (String, String)))), ()>(st2.by_key, g);
        assert forall|j: int| 0 <= j < b.len() implies has_key(a, (#[trigger] b[j]).0) by {
            let k = b[j].0;
            assert(st2.by_key.contains_key(k) && g(b[j]));
            assert(b[j] == (k, ()));
            assert(may_take(st2, t, run, kind, k));
            assert(st.by_key.contains_key(k) && may_take(st, t, run, kind, k));
            assert(st.by_key[k] == ());
            assert(f((k, st.by_key[k])));
        }
        if a.len() == 0 && b.len() > 0 {
            assert(has_key(a, b[0].0));
        }
        if a.len() > 0 && a[0].0.1.1.1 == ev {
            let k = a[0].0;
            assert(st.by_key.contains_key(k) && f(a[0]));
            assert(a[0] == (k, ()));
            assert(may_take(st, t, run, kind, k));
            assert(st2.by_key.contains_key(k) && may_take(st2, t, run, kind, k));
            assert(st2.by_key[k] == ());
            assert(g((k, st2.by_key[k])));
            assert(has_key(b, k));
            let i = choose|i: int| 0 <= i < b.len() && (#[trigger] b[i]).0 == k;
            if i > 0 {
                assert(<(String, ((String, String), (i64, (String, String)))) as Key>::precedes(b[0].0, b[i].0));
                assert(has_key(a, b[0].0));
                let j = choose|j: int| 0 <= j < a.len() && (#[trigger] a[j]).0 == b[0].0;
                if j > 0 {
                    assert(<(String, ((String, String), (i64, (String, String)))) as Key>::precedes(a[0].0, a[j].0));
                    <(String, ((String, String), (i64, (String, String)))) as Key>::lemma_transitive(a[0].0, a[j].0, b[i].0);
                }
                <(String, ((String, String), (i64, (String, String)))) as Key>::lemma_irreflexive(k);
            }
        }
    }
}

/// Where a wait can take nothing new, and its event stands as it was, the wait is
/// answered as it was.
proof fn lemma_answer_survives(st: EventState, st2: EventState, t: Seq<char>, w: WaitModel, ev: Pair)
    requires
        st.by_key.dom().finite(),
        st2.by_key.dom().finite(),
        st.corr.dom().finite(),
        st2.corr.dom().finite(),
        oldest_event(st, t, w) == Some(ev),
        st2.events.contains_key((t, ev)),
        !st2.events[(t, ev)].dead,
        st2.events[(t, ev)].has_claim ==> st2.events[(t, ev)].claimed_by == w.run,
        st2.events[(t, ev)].kind == st.events[(t, ev)].kind,
        st2.events[(t, ev)].payload == st.events[(t, ev)].payload,
        st2.events[(t, ev)].received_at == st.events[(t, ev)].received_at,
        st2.events[(t, ev)].received_fault == st.events[(t, ev)].received_fault,
        forall|k: ByKey|
            #[trigger] st2.by_key.contains_key(k) && w.correlation.contains(k.1.0) && may_take(
                st2,
                t,
                w.run,
                w.kind,
                k,
            ) ==> st.by_key.contains_key(k) && may_take(st, t, w.run, w.kind, k),
        forall|k: ByKey| #[trigger] st.by_key.contains_key(k) ==> st2.by_key.contains_key(k),
        forall|c: CorrKey|
            c.0 == t && c.1.0 == ev ==> (#[trigger] st2.corr.contains_key(c)
                <==> st.corr.contains_key(c)),
    ensures
        oldest_event(st2, t, w) == Some(ev),
        claim_answer(st2, t, w) == claim_answer(st, t, w),
{
    let n = w.correlation.len() as int;
    lemma_found_event(st, t, w.run, w.kind, w.correlation, n, ev);
    lemma_choice_survives(st, st2, t, w.run, w.kind, w.correlation, n, ev);
    let f = of_event(t, ev);
    assert forall|c: CorrKey|
        (#[trigger] st.corr.contains_key(c) && f((c, st.corr[c]))) implies st2.corr.contains_key(c)
        && f((c, st2.corr[c])) && st2.corr[c] == st.corr[c] by {
        let _there = st2.corr.contains_key(c);
    }
    lemma_chosen_alike::<(String, ((String, String), (String, String))), ()>(
        st.corr,
        st2.corr,
        f,
        f,
    );
    assert(correlation_of(st2, t, ev) =~= correlation_of(st, t, ev));
}

proof fn lemma_paths_stay_finite(
    st: EventState,
    t: Seq<char>,
    ev: Pair,
    keys: Seq<Pair>,
    at: i64,
    n: int,
)
    requires
        st.by_key.dom().finite(),
        st.corr.dom().finite(),
    ensures
        by_key_with(st.by_key, t, ev, keys, at, n).dom().finite(),
        corr_with(st.corr, t, ev, keys, n).dom().finite(),
    decreases n,
{
    if n > 0 {
        lemma_paths_stay_finite(st, t, ev, keys, at, n - 1);
    }
}

/// Until its run ends the wait, a wait that took an event is given it again,
/// with the same answer, whatever happens in between: other waits come, take,
/// are matched and end, events are delivered to other runs, arrive for others,
/// are erased and swept. Only an event that the wait could take as well, and
/// that comes before its own on the match path, is given first.
pub proof fn law_own_claim_outlasts_the_rest(
    st: EventState,
    t: Seq<char>,
    w: WaitModel,
    ev: Pair,
    u: Seq<char>,
    other: EventModel,
    x: WaitModel,
    target: Seq<char>,
    wait: Pair,
    at: i64,
    cutoff: i64,
    reason: Seq<char>,
)
    requires
        st.wf(),
        st.by_key.dom().finite(),
        st.corr.dom().finite(),
        oldest_event(st, t, w) == Some(ev),
        held(st, t, ev, w.run),
    ensures
        claim_answer(subscribed(st, u, x, at, x.correlation.len() as int), t, w) == claim_answer(
            st,
            t,
            w,
        ),
        claim_answer(claimed_for(st, u, x, at), t, w) == claim_answer(st, t, w),
        claim_answer(matched(st, u, other, at), t, w) == claim_answer(st, t, w),
        u != t || target != w.run ==> claim_answer(delivered(st, u, target, other, at), t, w)
            == claim_answer(st, t, w),
        u != t || wait.0 != w.run ==> claim_answer(unsubscribed(st, u, wait), t, w)
            == claim_answer(st, t, w),
        u != t || wait != ev ==> claim_answer(erased(st, u, wait), t, w) == claim_answer(st, t, w),
        claim_answer(swept(st, u, cutoff, reason), t, w) == claim_answer(st, t, w),
        !st.events.contains_key((u, other.key)) && (u != t || other.kind != w.kind
            || forall|i: int|
            0 <= i < other.correlation.len() ==> !w.correlation.contains(
                #[trigger] other.correlation[i],
            )) ==> claim_answer(buffered(st, u, other, at), t, w) == claim_answer(st, t, w),
{
    lemma_subscribing_leaves_the_path(st, u, x, at, x.correlation.len() as int);
    lemma_answer_survives(st, subscribed(st, u, x, at, x.correlation.len() as int), t, w, ev);
    if let Ok(Some(_)) = claim_answer(st, u, x) {
        law_taken_was_free(st, u, x, oldest_event(st, u, x)->0);
    }
    lemma_answer_survives(st, claimed_for(st, u, x, at), t, w, ev);
    lemma_answer_survives(st, matched(st, u, other, at), t, w, ev);
    lemma_answer_survives_ending(st, t, w, ev, u, wait);
    if u != t || wait != ev {
        lemma_answer_survives(st, erased(st, u, wait), t, w, ev);
    }
    law_sweep_spares_the_rest(st, u, cutoff, reason, (t, ev));
    lemma_answer_survives(st, swept(st, u, cutoff, reason), t, w, ev);
    let n = other.correlation.len() as int;
    lemma_paths_stay_finite(st, u, other.key, other.correlation, at, n);
    lemma_by_key_with(st.by_key, u, other.key, other.correlation, at, n);
    lemma_corr_with(st.corr, u, other.key, other.correlation, n);
    if u != t || target != w.run {
        lemma_answer_survives(st, delivered(st, u, target, other, at), t, w, ev);
    }
    if !st.events.contains_key((u, other.key)) && (u != t || other.kind != w.kind || forall|i: int|
        0 <= i < other.correlation.len() ==> !w.correlation.contains(
            #[trigger] other.correlation[i],
        )) {
        let st2 = buffered(st, u, other, at);
        assert forall|k: ByKey|
            #[trigger] st2.by_key.contains_key(k) && w.correlation.contains(k.1.0) && may_take(
                st2,
                t,
                w.run,
                w.kind,
                k,
            ) implies st.by_key.contains_key(k) && may_take(st, t, w.run, w.kind, k) by {
            if !st.by_key.contains_key(k) {
                let i = choose|i: int|
                    0 <= i < n && other.correlation.take(n)[i] == k.1.0;
                assert(other.correlation[i] == k.1.0);
            } else if u == t && k.1.1.1 == other.key {
                assert(st.corr.contains_key((k.0, (k.1.1.1, k.1.0))));
                assert(st.events.contains_key((k.0, k.1.1.1)));
            }
        }
        lemma_answer_survives(st, st2, t, w, ev);
    }
}

proof fn lemma_answer_survives_ending(
    st: EventState,
    t: Seq<char>,
    w: WaitModel,
    ev: Pair,
    u: Seq<char>,
    wait: Pair,
)
    requires
        st.wf(),
        st.by_key.dom().finite(),
        st.corr.dom().finite(),
        oldest_event(st, t, w) == Some(ev),
        held(st, t, ev, w.run),
    ensures
        u != t || wait.0 != w.run ==> claim_answer(unsubscribed(st, u, wait), t, w)
            == claim_answer(st, t, w),
{
    if u != t || wait.0 != w.run {
        let st2 = unsubscribed(st, u, wait);
        assert(st2.events[(t, ev)] == st.events[(t, ev)]) by {
            if u == t && st.claimed.contains_key((t, (wait.0, ev))) {
                let h: Held = (t, (wait.0, ev));
                assert(st.claimed.contains_key(h));
            }
        }
        lemma_answer_survives(st, st2, t, w, ev);
    }
}

proof fn lemma_subscribing_leaves_the_path(
    st: EventState,
    t: Seq<char>,
    w: WaitModel,
    at: i64,
    n: int,
)
    ensures
        subscribed(st, t, w, at, n).events == st.events,
        subscribed(st, t, w, at, n).by_key == st.by_key,
        subscribed(st, t, w, at, n).corr == st.corr,
    decreases n,
{
    if n > 0 {
        lemma_subscribing_leaves_the_path(st, t, w, at, n - 1);
    }
}

/// Ending a wait leaves no content behind: of no event that the run claimed is
/// there a payload left.
pub proof fn law_ended_wait_leaves_no_content(st: EventState, t: Seq<char>, wait: Pair, ev: Pair)
    requires
        st.wf(),
        unsubscribed(st, t, wait).events.contains_key((t, ev)),
        unsubscribed(st, t, wait).events[(t, ev)].has_claim,
        unsubscribed(st, t, wait).events[(t, ev)].claimed_by == wait.0,
    ensures
        unsubscribed(st, t, wait).events[(t, ev)].payload == "null"@,
{
    assert(st.events.contains_key((t, ev)));
}

/// A message that is here and that a wait may take is not passed over: the wait
/// finds something.
pub proof fn law_buffered_event_is_found(
    st: EventState,
    t: Seq<char>,
    w: WaitModel,
    ev: Pair,
    key: Pair,
)
    requires
        st.wf(),
        st.by_key.dom().finite(),
        claimable(st, t, ev),
        st.events[(t, ev)].kind == w.kind,
        st.corr.contains_key((t, (ev, key))),
        w.correlation.contains(key),
    ensures
        oldest_event(st, t, w) is Some,
{
    let k: ByKey = (t, (key, (st.events[(t, ev)].received_at, ev)));
    assert(st.by_key.contains_key(k));
    let i = choose|i: int| 0 <= i < w.correlation.len() && w.correlation[i] == key;
    assert(takeable(st, t, w.run, w.kind, w.correlation[i])((k, ())));
    lemma_event_is_found(st, t, w.run, w.kind, w.correlation, i, w.correlation.len() as int, k);
}

/// On one key the oldest goes first: whatever else a run could take under that
/// key arrived no earlier than what it is given.
pub proof fn law_oldest_event_first(
    st: EventState,
    t: Seq<char>,
    run: Seq<char>,
    kind: Seq<char>,
    key: Pair,
    ev: Pair,
    k: ByKey,
)
    requires
        st.wf(),
        st.by_key.dom().finite(),
        event_on(st, t, run, kind, key) == Some(ev),
        st.by_key.contains_key(k),
        takeable(st, t, run, kind, key)((k, ())),
    ensures
        st.events[(t, ev)].received_at <= st.events[(t, k.1.1.1)].received_at,
{
    let f = takeable(st, t, run, kind, key);
    let rows = chosen::<(String, ((String, String), (i64, (String, String)))), ()>(st.by_key, f);
    lemma_chosen::<(String, ((String, String), (i64, (String, String)))), ()>(st.by_key, f);
    assert(st.by_key.contains_key(k) && f((k, st.by_key[k])));
    assert(has_key(rows, k));
    let j = choose|j: int| 0 <= j < rows.len() && (#[trigger] rows[j]).0 == k;
    assert(f(rows[0]));
    assert(st.by_key.contains_key(rows[0].0));
    if j > 0 {
        assert(<(String, ((String, String), (i64, (String, String)))) as crate::table::Key>::precedes(
            rows[0].0,
            rows[j].0,
        ));
        <String as crate::table::Key>::lemma_irreflexive(t);
        <(String, String) as crate::table::Key>::lemma_irreflexive(key);
    }
}

/// The oldest goes first: an event wakes a wait of its kind on one of its keys,
/// no wait of its kind on any of its keys began before that one, and of those
/// that began with it the first in the index is woken. Nobody is woken exactly
/// where nobody waits.
pub proof fn law_oldest_waiter_is_woken(
    st: EventState,
    t: Seq<char>,
    kind: Seq<char>,
    keys: Seq<Pair>,
    wait: Pair,
    key: Pair,
)
    requires
        st.wf(),
        st.subs_by_key.dom().finite(),
        st.subs.contains_key((t, (wait, key))),
        st.subs[(t, (wait, key))].kind == kind,
        keys.contains(key),
    ensures
        oldest_waiter(st, t, kind, keys) matches Some(found) && {
            let row = st.subs[(t, found)];
            &&& st.subs.contains_key((t, found))
            &&& row.kind == kind
            &&& keys.contains(found.1)
            &&& row.created_at <= st.subs[(t, (wait, key))].created_at
            &&& row.created_at == st.subs[(t, (wait, key))].created_at && found != (wait, key)
                ==> <((String, String), (String, String)) as crate::table::Key>::precedes(
                (found.1, found.0),
                (key, wait),
            )
        },
{
    let f = waits_for(st, t, kind, keys);
    let rows = listed::<(String, (String, ((String, String), (i64, (String, String))))), ()>(
        st.subs_by_key,
        f,
    );
    lemma_listed::<(String, (String, ((String, String), (i64, (String, String))))), ()>(
        st.subs_by_key,
        f,
    );
    let at = st.subs[(t, (wait, key))].created_at;
    let k: SubByKey = (t, (kind, (key, (at, wait))));
    assert(st.subs_by_key.contains_key(k));
    assert(f((k, st.subs_by_key[k])) == Some(at));
    assert(has_key(rows, (at, k)));
    let j = choose|j: int| 0 <= j < rows.len() && (#[trigger] rows[j]).0 == (at, k);
    let first = rows[0].0.1;
    assert(st.subs_by_key.contains_key(first) && f((first, st.subs_by_key[first])) == Some(
        rows[0].0.0,
    ));
    let found = (first.1.1.1.1, first.1.1.0);
    assert(st.subs.contains_key((t, found)));
    if j > 0 {
        assert(<(
            i64,
            (String, (String, ((String, String), (i64, (String, String))))),
        ) as crate::table::Key>::precedes(rows[0].0, rows[j].0));
        <String as crate::table::Key>::lemma_irreflexive(t);
        <String as crate::table::Key>::lemma_irreflexive(kind);
        <(String, String) as crate::table::Key>::lemma_irreflexive(key);
    }
}

/// Who is woken waits: for that kind, on one of the keys.
pub proof fn law_woken_waits(
    st: EventState,
    t: Seq<char>,
    kind: Seq<char>,
    keys: Seq<Pair>,
    found: (Pair, Pair),
)
    requires
        st.wf(),
        st.subs_by_key.dom().finite(),
        oldest_waiter(st, t, kind, keys) == Some(found),
    ensures
        st.subs.contains_key((t, found)),
        st.subs[(t, found)].kind == kind,
        keys.contains(found.1),
{
    let f = waits_for(st, t, kind, keys);
    lemma_listed::<(String, (String, ((String, String), (i64, (String, String))))), ()>(
        st.subs_by_key,
        f,
    );
    let rows = listed::<(String, (String, ((String, String), (i64, (String, String))))), ()>(
        st.subs_by_key,
        f,
    );
    let first = rows[0].0.1;
    assert(st.subs_by_key.contains_key(first) && f((first, st.subs_by_key[first])) == Some(
        rows[0].0.0,
    ));
}

/// A wait is satisfied once: the match retires it, and no later event goes to
/// it.
pub proof fn law_wait_is_satisfied_once(
    st: EventState,
    t: Seq<char>,
    ev: EventModel,
    at: i64,
    w: WaitModel,
    kind: Seq<char>,
    keys: Seq<Pair>,
    found: (Pair, Pair),
)
    requires
        match_answer(st, t, ev) == Ok::<Option<WaitModel>, Refusal>(Some(w)),
        st.subs_by_key.dom().finite(),
        oldest_waiter(matched(st, t, ev, at), t, kind, keys) == Some(found),
    ensures
        found.0 != (w.run, w.effect),
        forall|key: Pair| !#[trigger] matched(st, t, ev, at).subs.contains_key(
            (t, ((w.run, w.effect), key)),
        ),
{
    let after = matched(st, t, ev, at);
    assert(after.subs_by_key.dom().subset_of(st.subs_by_key.dom()));
    vstd::set_lib::lemma_len_subset(after.subs_by_key.dom(), st.subs_by_key.dom());
    let f = waits_for(after, t, kind, keys);
    let rows = listed::<(String, (String, ((String, String), (i64, (String, String))))), ()>(
        after.subs_by_key,
        f,
    );
    lemma_listed::<(String, (String, ((String, String), (i64, (String, String))))), ()>(
        after.subs_by_key,
        f,
    );
    let first = rows[0].0.1;
    assert(after.subs_by_key.contains_key(first) && f((first, after.subs_by_key[first])) == Some(
        rows[0].0.0,
    ));
    assert(after.subs.contains_key((t, found)));
}

/// A message is taken once: its identity outlives its content. Erasing its
/// payload, ending the wait it went to and retiring it all leave it known, so a
/// replay of it is still a duplicate.
pub proof fn law_identity_outlives_content(
    st: EventState,
    t: Seq<char>,
    k: EventKey,
    ev: Pair,
    wait: Pair,
    cutoff: i64,
    reason: Seq<char>,
)
    requires
        st.events.contains_key(k),
    ensures
        erased(st, t, ev).events.contains_key(k),
        unsubscribed(st, t, wait).events.contains_key(k),
        swept(st, t, cutoff, reason).events.contains_key(k),
{
}

/// Erasing takes the content and nothing else.
pub proof fn law_erasure_takes_only_content(st: EventState, t: Seq<char>, ev: Pair)
    requires
        st.events.contains_key((t, ev)),
    ensures
        ({
            let row = erased(st, t, ev).events[(t, ev)];
            &&& row.payload == "null"@
            &&& row.kind == st.events[(t, ev)].kind
            &&& row.received_at == st.events[(t, ev)].received_at
            &&& row.has_claim == st.events[(t, ev)].has_claim
            &&& row.claimed_by == st.events[(t, ev)].claimed_by
            &&& row.dead == st.events[(t, ev)].dead
            &&& row.reason == st.events[(t, ev)].reason
        }),
{
}

/// A sweep with no grace retires everything that is buffered: what arrived at
/// the cutoff itself goes too.
pub proof fn law_no_grace_spares_nothing(
    st: EventState,
    t: Seq<char>,
    cutoff: i64,
    reason: Seq<char>,
    ev: Pair,
)
    requires
        st.wf(),
        claimable(st, t, ev),
        st.events[(t, ev)].received_at <= cutoff,
    ensures
        swept(st, t, cutoff, reason).events[(t, ev)].dead,
        swept(st, t, cutoff, reason).events[(t, ev)].reason == reason,
        swept(st, t, cutoff, reason).dead.contains_key(
            (t, (st.events[(t, ev)].received_at, ev)),
        ),
{
    lemma_doomed(st, t, cutoff, ev);
}

/// What one tenant does leaves every other tenant's events and waits alone.
pub proof fn law_event_tenants_apart(
    st: EventState,
    t: Seq<char>,
    other: Seq<char>,
    ev: EventModel,
    w: WaitModel,
    run: Seq<char>,
    at: i64,
    reason: Seq<char>,
    k: EventKey,
    s: SubKey,
)
    requires
        t != other,
        k.0 == other,
        s.0 == other,
    ensures
        ({
            let states = seq![
                buffered(st, t, ev, at),
                claimed_for(st, t, w, at),
                matched(st, t, ev, at),
                delivered(st, t, run, ev, at),
                unsubscribed(st, t, (w.run, w.effect)),
                erased(st, t, ev.key),
                swept(st, t, at, reason),
            ];
            forall|i: int|
                #![trigger states[i]]
                0 <= i < states.len() ==> {
                    &&& states[i].events.contains_key(k) == st.events.contains_key(k)
                    &&& st.events.contains_key(k) ==> states[i].events[k] == st.events[k]
                    &&& states[i].subs.contains_key(s) == st.subs.contains_key(s)
                    &&& st.subs.contains_key(s) ==> states[i].subs[s] == st.subs[s]
                }
        }),
        subscribed(st, t, w, at, w.correlation.len() as int).subs.contains_key(s)
            == st.subs.contains_key(s),
{
    lemma_subscribing_stays_in(st, t, w, at, w.correlation.len() as int, s);
}

proof fn lemma_subscribing_stays_in(
    st: EventState,
    t: Seq<char>,
    w: WaitModel,
    at: i64,
    n: int,
    s: SubKey,
)
    requires
        s.0 != t,
    ensures
        subscribed(st, t, w, at, n).subs.contains_key(s) == st.subs.contains_key(s),
    decreases n,
{
    if n > 0 {
        lemma_subscribing_stays_in(st, t, w, at, n - 1, s);
    }
}

} // verus!
