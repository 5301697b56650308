//! What taking, matching and delivering events gives on a shared database, said of
//! the tables.

use vstd::prelude::*;

use crate::delivery_laws::{is_the_wait, lemma_keys_of_event, run_waits_for};
use crate::error::Refusal;
use crate::events::{
    handed_over, json_read_of, oldest_event, oldest_waiter, registered, retired_here, wait_rows,
    ByTime, DeliveryModel, EventKey, EventModel, EventState, Pair, SubByTime, SubKey, SubModel,
    WaitModel,
};
use crate::events_laws::{law_oldest_waiter_is_woken, law_woken_waits, lemma_corr_with};
use crate::postgres_events::{
    claim_here, dead_rows, delivery_at, first_match, first_waiter, keys_at, run_waits,
    shared_claim_answer, shared_claimed, shared_delivery, shared_letter, shared_letters_read,
    shared_match_answer, shared_matched, shared_wait, shared_waiter, shared_waits_read, wait_at,
    wait_row, waits_of_run, WaitRowModel,
};
use crate::table::{has_key, lemma_chosen, lemma_listed, listed, page, Key};

verus! {

// ── Delivering to one run ───────────────────────────────────────────────────

/// The rows of a run's waits: each is registered, for this kind of event, and each
/// that is registered for it is there, the earlier before the later.
proof fn lemma_run_waits(st: EventState, t: Seq<char>, run: Seq<char>, kind: Seq<char>, k: SubKey)
    requires
        st.subs.dom().finite(),
    ensures
        ({
            let rows = run_waits(st, t, run, kind);
            let at = listed::<(String, ((String, String), (String, String))), SubModel>(
                st.subs,
                waits_of_run(t, run, kind),
            );
            &&& rows.len() == at.len()
            &&& forall|i: int|
                0 <= i < rows.len() ==> {
                    let x = #[trigger] rows[i];
                    let key = at[i].0.1;
                    &&& key == (t, ((run, x.effect.text), x.key))
                    &&& st.subs.contains_key(key)
                    &&& st.subs[key].kind == kind
                    &&& x == wait_row(key, st.subs[key])
                    &&& at[i].0.0 == st.subs[key].created_at
                }
            &&& forall|i: int, j: int|
                0 <= i < j < at.len() ==> (#[trigger] at[i]).0.0 <= (#[trigger] at[j]).0.0
            &&& st.subs.contains_key(k) && k.0 == t && k.1.0.0 == run && st.subs[k].kind == kind
                ==> exists|i: int|
                0 <= i < rows.len() && (#[trigger] rows[i]).effect.text == k.1.0.1 && rows[i].key
                    == k.1.1 && at[i].0.1 == k
        }),
{
    let f = waits_of_run(t, run, kind);
    lemma_listed::<(String, ((String, String), (String, String))), SubModel>(st.subs, f);
    let at = listed::<(String, ((String, String), (String, String))), SubModel>(st.subs, f);
    let rows = run_waits(st, t, run, kind);
    assert forall|i: int| 0 <= i < rows.len() implies {
        let x = #[trigger] rows[i];
        let key = at[i].0.1;
        &&& key == (t, ((run, x.effect.text), x.key))
        &&& st.subs.contains_key(key)
        &&& st.subs[key].kind == kind
        &&& x == wait_row(key, st.subs[key])
        &&& at[i].0.0 == st.subs[key].created_at
    } by {
        let e = at[i].0;
        assert(st.subs.contains_key(e.1) && f((e.1, st.subs[e.1])) == Some(e.0));
    }
    assert forall|i: int, j: int| 0 <= i < j < at.len() implies (#[trigger] at[i]).0.0 <= (
    #[trigger] at[j]).0.0 by {
        assert(<(i64, (String, ((String, String), (String, String)))) as Key>::precedes(
            at[i].0,
            at[j].0,
        ));
    }
    if st.subs.contains_key(k) && k.0 == t && k.1.0.0 == run && st.subs[k].kind == kind {
        let when = st.subs[k].created_at;
        assert(f((k, st.subs[k])) == Some(when));
        assert(has_key(at, (when, k)));
        let i = choose|i: int| 0 <= i < at.len() && (#[trigger] at[i]).0 == (when, k);
        assert(rows[i].effect.text == k.1.0.1 && rows[i].key == k.1.1 && at[i].0.1 == k);
    }
}

proof fn lemma_keys_at(rows: Seq<WaitRowModel>, effect: Seq<char>, n: int, key: Pair)
    requires
        0 <= n <= rows.len(),
    ensures
        keys_at(rows, effect, n).contains(key) <==> exists|i: int|
            0 <= i < n && (#[trigger] rows[i]).effect.text == effect && rows[i].key == key,
    decreases n,
{
    if n > 0 {
        lemma_keys_at(rows, effect, n - 1, key);
        let before = keys_at(rows, effect, n - 1);
        let last = rows[n - 1];
        if last.effect.text == effect {
            let after = before.push(last.key);
            if after.contains(key) {
                let i = choose|i: int| 0 <= i < after.len() && after[i] == key;
                if i < before.len() {
                    assert(before[i] == key);
                } else {
                    assert(rows[n - 1].effect.text == effect && rows[n - 1].key == key);
                }
            }
            if before.contains(key) {
                let i = choose|i: int| 0 <= i < before.len() && before[i] == key;
                assert(after[i] == key);
            }
            if last.key == key {
                assert(after[before.len() as int] == key);
            }
        }
    }
}

/// A delivery that is matched answers a wait of the run, for this kind of event and
/// on one of its keys; none of the run's waits for it began earlier. The keys
/// answered are those on which the run waits for this kind at that effect, and the
/// event is new or already the run's own.
pub proof fn law_shared_delivery_answers_a_wait(
    st: EventState,
    t: Seq<char>,
    run: Seq<char>,
    ev: EventModel,
    w: WaitModel,
    k: SubKey,
    key: Pair,
)
    requires
        st.subs.dom().finite(),
        shared_delivery(
            st,
            t,
            run,
            ev,
            Ok::<DeliveryModel, Refusal>(DeliveryModel::Matched(w)),
        ),
    ensures
        w.run == run,
        w.kind == ev.kind,
        exists|on: Pair| #[trigger]
            is_the_wait(st, t, ev, w, on) && (run_waits_for(
                st,
                t,
                run,
                ev.kind,
                ev.correlation,
                k,
            ) ==> st.subs[(t, ((run, w.effect), on))].created_at <= st.subs[k].created_at),
        w.correlation.contains(key) <==> st.subs.contains_key((t, ((run, w.effect), key)))
            && st.subs[(t, ((run, w.effect), key))].kind == ev.kind,
        st.events.contains_key((t, ev.key)) ==> st.events[(t, ev.key)].has_claim && st.events[(
            t,
            ev.key,
        )].claimed_by == run,
{
    let rows = run_waits(st, t, run, ev.kind);
    let i = choose|i: int| #[trigger]
        first_match(rows, ev.correlation, i) && delivery_at(
            rows,
            run,
            ev.kind,
            claim_here(st, t, ev.key),
            i,
        ) == Ok::<DeliveryModel, Refusal>(DeliveryModel::Matched(w));
    lemma_run_waits(st, t, run, ev.kind, k);
    let on = rows[i].key;
    assert(wait_at(rows, run, ev.kind, i) == Ok::<WaitModel, Refusal>(w));
    assert(is_the_wait(st, t, ev, w, on));
    if run_waits_for(st, t, run, ev.kind, ev.correlation, k) {
        let at = listed::<(String, ((String, String), (String, String))), SubModel>(
            st.subs,
            waits_of_run(t, run, ev.kind),
        );
        let j = choose|j: int|
            0 <= j < rows.len() && (#[trigger] rows[j]).effect.text == k.1.0.1 && rows[j].key
                == k.1.1 && at[j].0.1 == k;
        assert(!(j < i));
        if i < j {
            assert(at[i].0.0 <= at[j].0.0);
        }
    }
    lemma_keys_at(rows, w.effect, rows.len() as int, key);
    let own = (t, ((run, w.effect), key));
    lemma_run_waits(st, t, run, ev.kind, own);
    if w.correlation.contains(key) {
        let j = choose|j: int|
            0 <= j < rows.len() && (#[trigger] rows[j]).effect.text == w.effect && rows[j].key
                == key;
        assert(rows[j].key == key);
    }
}

/// A run is told that it does not wait for an event exactly where none of its waits
/// is for this kind on one of the event's keys. It is told of a duplicate only
/// where the event is here and not its own.
pub proof fn law_shared_delivery_needs_a_wait(
    st: EventState,
    t: Seq<char>,
    run: Seq<char>,
    ev: EventModel,
)
    requires
        st.subs.dom().finite(),
    ensures
        shared_delivery(
            st,
            t,
            run,
            ev,
            Ok::<DeliveryModel, Refusal>(DeliveryModel::NotWaiting),
        ) <==> forall|k: SubKey|
            !#[trigger] run_waits_for(st, t, run, ev.kind, ev.correlation, k),
        shared_delivery(
            st,
            t,
            run,
            ev,
            Ok::<DeliveryModel, Refusal>(DeliveryModel::Duplicate),
        ) ==> st.events.contains_key((t, ev.key)) && !(st.events[(t, ev.key)].has_claim
            && st.events[(t, ev.key)].claimed_by == run),
{
    let rows = run_waits(st, t, run, ev.kind);
    let told = shared_delivery(
        st,
        t,
        run,
        ev,
        Ok::<DeliveryModel, Refusal>(DeliveryModel::NotWaiting),
    );
    if told {
        assert forall|k: SubKey| !#[trigger] run_waits_for(
            st,
            t,
            run,
            ev.kind,
            ev.correlation,
            k,
        ) by {
            lemma_run_waits(st, t, run, ev.kind, k);
        }
    }
    if forall|k: SubKey| !#[trigger] run_waits_for(st, t, run, ev.kind, ev.correlation, k) {
        assert forall|i: int| 0 <= i < rows.len() implies !ev.correlation.contains(
            (#[trigger] rows[i]).key,
        ) by {
            let k = (t, ((run, rows[i].effect.text), rows[i].key));
            lemma_run_waits(st, t, run, ev.kind, k);
            assert(!run_waits_for(st, t, run, ev.kind, ev.correlation, k));
        }
    }
}

/// An event that is handed over is kept as the run's own, as it came; nothing else
/// changes, and the wait stays until the run ends it.
pub proof fn law_shared_delivery_keeps_the_event(
    st: EventState,
    t: Seq<char>,
    run: Seq<char>,
    ev: EventModel,
    at: i64,
    k: EventKey,
    key: Pair,
)
    requires
        st.wf(),
        !st.events.contains_key((t, ev.key)),
    ensures
        ({
            let after = handed_over(st, t, run, ev, at);
            let row = after.events[(t, ev.key)];
            &&& after.events.contains_key((t, ev.key))
            &&& row.kind == ev.kind
            &&& row.payload == ev.payload
            &&& row.received_at == at
            &&& row.has_claim
            &&& row.claimed_by == run
            &&& !row.dead
            &&& after.corr.contains_key((t, (ev.key, key))) <==> ev.correlation.contains(key)
            &&& k != (t, ev.key) ==> after.events.contains_key(k) == st.events.contains_key(k)
            &&& st.events.contains_key(k) ==> after.events[k] == st.events[k]
            &&& after.subs == st.subs
        }),
{
    let n = ev.correlation.len() as int;
    lemma_corr_with(st.corr, t, ev.key, ev.correlation, n);
    assert(ev.correlation.take(n) =~= ev.correlation);
    if st.corr.contains_key((t, (ev.key, key))) {
        assert(st.events.contains_key((t, ev.key)));
    }
}

// ── Matching ────────────────────────────────────────────────────────────────

/// Whether a wait is registered on a key for a kind of event.
pub open spec fn waits_on(st: EventState, t: Seq<char>, kind: Seq<char>, wait: Pair, key: Pair) -> bool {
    st.subs.contains_key((t, (wait, key))) && st.subs[(t, (wait, key))].kind == kind
}

proof fn lemma_first_waiter(st: EventState, t: Seq<char>, kind: Seq<char>, keys: Seq<Pair>, n: int)
    requires
        st.wf(),
        st.subs_by_key.dom().finite(),
        0 <= n <= keys.len(),
    ensures
        first_waiter(st, t, kind, keys, n) matches Some(found) ==> exists|i: int|
            0 <= i < n && found.1 == #[trigger] keys[i] && waits_on(st, t, kind, found.0, keys[i])
                && (forall|j: int, w: Pair|
                0 <= j < i ==> !#[trigger] waits_on(st, t, kind, w, keys[j])) && forall|w: Pair|
                #[trigger]
                waits_on(st, t, kind, w, keys[i]) ==> st.subs[(t, found)].created_at
                    <= st.subs[(t, (w, keys[i]))].created_at,
        first_waiter(st, t, kind, keys, n) is None ==> forall|j: int, w: Pair|
            0 <= j < n ==> !#[trigger] waits_on(st, t, kind, w, keys[j]),
    decreases n,
{
    if n > 0 {
        lemma_first_waiter(st, t, kind, keys, n - 1);
        let last = keys[n - 1];
        let one = seq![last];
        assert(one[0] == last);
        assert(one.contains(last));
        if first_waiter(st, t, kind, keys, n - 1) is None {
            assert forall|w: Pair| #[trigger] waits_on(st, t, kind, w, last) implies oldest_waiter(
                st,
                t,
                kind,
                one,
            ) is Some && st.subs[(t, oldest_waiter(st, t, kind, one)->0)].created_at <= st.subs[(
                t,
                (w, last),
            )].created_at by {
                law_oldest_waiter_is_woken(st, t, kind, one, w, last);
            }
            if let Some(found) = oldest_waiter(st, t, kind, one) {
                law_woken_waits(st, t, kind, one, found);
                assert(found.1 == last);
                assert(found.1 == keys[n - 1] && waits_on(st, t, kind, found.0, keys[n - 1]));
            }
        }
    }
}

/// Whether a wait that is answered is the oldest on the first of an event's keys
/// that has one.
pub open spec fn is_first_in_line(
    st: EventState,
    t: Seq<char>,
    ev: EventModel,
    w: WaitModel,
    i: int,
) -> bool {
    &&& 0 <= i < ev.correlation.len()
    &&& is_the_wait(st, t, ev, w, ev.correlation[i])
    &&& forall|j: int, other: Pair|
        0 <= j < i ==> !#[trigger] waits_on(st, t, ev.kind, other, ev.correlation[j])
    &&& forall|other: Pair| #[trigger]
        waits_on(st, t, ev.kind, other, ev.correlation[i]) ==> st.subs[(
            t,
            ((w.run, w.effect), ev.correlation[i]),
        )].created_at <= st.subs[(t, (other, ev.correlation[i]))].created_at
}

/// A match joins an event that nobody has with a wait for it: the event is here,
/// unclaimed and not retired; the wait is for its kind, the oldest on the first of
/// its keys that has one, and is answered with the keys of the event. Where such a
/// wait and such an event are there, they are joined.
pub proof fn law_shared_match_joins_event_and_wait(
    st: EventState,
    t: Seq<char>,
    ev: EventModel,
    other: Pair,
    key: Pair,
)
    requires
        st.wf(),
        st.subs_by_key.dom().finite(),
    ensures
        shared_match_answer(st, t, ev) matches Ok(Some(w)) ==> {
            &&& st.events.contains_key((t, ev.key))
            &&& !st.events[(t, ev.key)].has_claim
            &&& !st.events[(t, ev.key)].dead
            &&& w.kind == ev.kind
            &&& w.correlation == ev.correlation
            &&& exists|i: int| #[trigger] is_first_in_line(st, t, ev, w, i)
        },
        shared_match_answer(st, t, ev) == Ok::<Option<WaitModel>, Refusal>(None) ==> !{
            &&& st.events.contains_key((t, ev.key))
            &&& !st.events[(t, ev.key)].has_claim
            &&& !st.events[(t, ev.key)].dead
            &&& waits_on(st, t, ev.kind, other, key)
            &&& ev.correlation.contains(key)
        },
{
    let n = ev.correlation.len() as int;
    lemma_first_waiter(st, t, ev.kind, ev.correlation, n);
    if let Ok(Some(w)) = shared_match_answer(st, t, ev) {
        let found = shared_waiter(st, t, ev)->0;
        let i = choose|i: int|
            0 <= i < n && found.1 == #[trigger] ev.correlation[i] && waits_on(
                st,
                t,
                ev.kind,
                found.0,
                ev.correlation[i],
            ) && (forall|j: int, x: Pair|
                0 <= j < i ==> !#[trigger] waits_on(st, t, ev.kind, x, ev.correlation[j]))
                && forall|x: Pair| #[trigger]
                waits_on(st, t, ev.kind, x, ev.correlation[i]) ==> st.subs[(t, found)].created_at
                    <= st.subs[(t, (x, ev.correlation[i]))].created_at;
        assert((w.run, w.effect) == found.0);
        assert((t, found) == (t, ((w.run, w.effect), ev.correlation[i])));
        assert(ev.correlation.contains(ev.correlation[i]));
        assert(is_the_wait(st, t, ev, w, ev.correlation[i]));
        assert(is_first_in_line(st, t, ev, w, i));
    }
    if ev.correlation.contains(key) && waits_on(st, t, ev.kind, other, key) {
        let j = choose|j: int| 0 <= j < n && ev.correlation[j] == key;
        assert(waits_on(st, t, ev.kind, other, ev.correlation[j]));
    }
}

/// What a match leaves: the event is the run's own from that instant, the wait is
/// gone from every key, and every other event and wait is as it was. Where nothing
/// is matched nothing changes.
pub proof fn law_shared_match_takes_event_and_wait(
    st: EventState,
    t: Seq<char>,
    ev: EventModel,
    at: i64,
    k: SubKey,
    e: EventKey,
)
    ensures
        ({
            let after = shared_matched(st, t, ev, at);
            match shared_match_answer(st, t, ev) {
                Ok(Some(w)) => {
                    let row = after.events[(t, ev.key)];
                    &&& row.has_claim
                    &&& row.claimed_by == w.run
                    &&& row.claimed_at == at
                    &&& row.kind == st.events[(t, ev.key)].kind
                    &&& row.payload == st.events[(t, ev.key)].payload
                    &&& row.received_at == st.events[(t, ev.key)].received_at
                    &&& after.subs.contains_key(k) <==> st.subs.contains_key(k) && !(k.0 == t
                        && k.1.0 == (w.run, w.effect))
                    &&& after.subs.contains_key(k) ==> after.subs[k] == st.subs[k]
                    &&& e != (t, ev.key) ==> after.events.contains_key(e)
                        == st.events.contains_key(e)
                    &&& e != (t, ev.key) && st.events.contains_key(e) ==> after.events[e]
                        == st.events[e]
                    &&& after.corr == st.corr
                },
                Ok(None) => after == st,
                Err(_) => after.corr == st.corr && after.events[(t, ev.key)].has_claim,
            }
        }),
{
}

// ── Taking a buffered event ─────────────────────────────────────────────────

/// What a wait is handed is the event as it is kept, with its keys and its arrival.
/// The event that was found is the run's own from then on, whether it reads or not;
/// every other event and every wait is as it was.
pub proof fn law_shared_event_is_taken_as_it_is_kept(
    st: EventState,
    t: Seq<char>,
    w: WaitModel,
    at: i64,
    k: EventKey,
    key: Pair,
)
    requires
        st.corr.dom().finite(),
    ensures
        shared_claim_answer(st, t, w) == Ok::<Option<(EventModel, i64)>, Refusal>(None)
            <==> oldest_event(st, t, w) is None,
        shared_claim_answer(st, t, w) matches Ok(Some(got)) ==> {
            &&& oldest_event(st, t, w) == Some(got.0.key)
            &&& got.0.kind == st.events[(t, got.0.key)].kind
            &&& json_read_of(st, t, got.0.key) == Ok::<Seq<char>, Seq<char>>(got.0.payload)
            &&& got.1 == st.events[(t, got.0.key)].received_at
            &&& got.0.correlation.contains(key) <==> st.corr.contains_key((t, (got.0.key, key)))
        },
        oldest_event(st, t, w) is None ==> shared_claimed(st, t, w, at) == st,
        oldest_event(st, t, w) matches Some(ev) ==> {
            let after = shared_claimed(st, t, w, at);
            let was = st.events[(t, ev)];
            let now = after.events[(t, ev)];
            &&& now.has_claim
            &&& now.claimed_by == w.run
            &&& now.claimed_at == at
            &&& now.payload == was.payload
            &&& now.kind == was.kind
            &&& now.received_at == was.received_at
            &&& k != (t, ev) ==> after.events.contains_key(k) == st.events.contains_key(k)
            &&& k != (t, ev) && st.events.contains_key(k) ==> after.events[k] == st.events[k]
            &&& after.subs == st.subs
            &&& after.corr == st.corr
        },
{
    if let Ok(Some(got)) = shared_claim_answer(st, t, w) {
        lemma_keys_of_event(st, t, got.0.key, key);
    }
}

// ── Lists ───────────────────────────────────────────────────────────────────

proof fn lemma_each_letter(st: EventState, t: Seq<char>, rows: Seq<(ByTime, ())>, n: int)
    requires
        0 <= n <= rows.len(),
        shared_letters_read(st, t, rows, n) is Ok,
    ensures
        shared_letters_read(st, t, rows, n)->Ok_0.len() == n,
        forall|i: int|
            0 <= i < n ==> {
                let ev = rows[rows.len() - 1 - i].0.1.1;
                shared_letter(ev, st.events[(t, ev)], json_read_of(st, t, ev)) == Ok::<
                    (EventModel, i64, Seq<char>),
                    Refusal,
                >(#[trigger] shared_letters_read(st, t, rows, n)->Ok_0[i])
            },
    decreases n,
{
    if n > 0 {
        lemma_each_letter(st, t, rows, n - 1);
        let before = shared_letters_read(st, t, rows, n - 1)->Ok_0;
        let after = shared_letters_read(st, t, rows, n)->Ok_0;
        assert forall|i: int| 0 <= i < n implies {
            let ev = rows[rows.len() - 1 - i].0.1.1;
            shared_letter(ev, st.events[(t, ev)], json_read_of(st, t, ev)) == Ok::<
                (EventModel, i64, Seq<char>),
                Refusal,
            >(#[trigger] after[i])
        } by {
            if i < n - 1 {
                assert(after[i] == before[i]);
            }
        }
    }
}

/// The retired events of a shared database are given newest first, each once and as
/// it is kept, without its keys. What is left out for want of room arrived no later.
pub proof fn law_shared_letters_are_given(
    st: EventState,
    t: Seq<char>,
    limit: usize,
    out: Seq<(EventModel, i64, Seq<char>)>,
    i: int,
    j: int,
    ev: Pair,
)
    requires
        st.wf(),
        st.dead.dom().finite(),
        shared_letters_read(st, t, dead_rows(st, t), page(dead_rows(st, t).len(), limit)) == Ok::<
            Seq<(EventModel, i64, Seq<char>)>,
            Refusal,
        >(out),
    ensures
        out.len() <= limit,
        0 <= i < out.len() ==> {
            let x = out[i];
            let row = st.events[(t, x.0.key)];
            &&& st.events.contains_key((t, x.0.key))
            &&& row.dead
            &&& x.0.kind == row.kind
            &&& json_read_of(st, t, x.0.key) == Ok::<Seq<char>, Seq<char>>(x.0.payload)
            &&& x.0.correlation.len() == 0
            &&& x.1 == row.received_at
            &&& x.2 == row.reason
        },
        0 <= i < j < out.len() ==> out[i].1 >= out[j].1 && out[i].0.key != out[j].0.key,
        st.events.contains_key((t, ev)) && st.events[(t, ev)].dead && (forall|p: int|
            0 <= p < out.len() ==> (#[trigger] out[p]).0.key != ev) ==> out.len() == limit && (0
            <= i < limit ==> out[i].1 >= st.events[(t, ev)].received_at),
{
    let f = retired_here(st, t);
    let rows = dead_rows(st, t);
    let n = page(rows.len(), limit);
    lemma_chosen::<(String, (i64, (String, String))), ()>(st.dead, f);
    lemma_each_letter(st, t, rows, n);
    let a = rows.len() - 1 - i;
    if 0 <= i < out.len() {
        assert(f(rows[a]) && st.dead.contains_key(rows[a].0));
        assert(out[i].0.key == rows[a].0.1.1);
    }
    <String as Key>::lemma_irreflexive(t);
    if 0 <= i < j < out.len() {
        let b = rows.len() - 1 - j;
        assert(f(rows[b]) && st.dead.contains_key(rows[b].0));
        assert(out[j].0.key == rows[b].0.1.1);
        assert(<(String, (i64, (String, String))) as Key>::precedes(rows[b].0, rows[a].0));
        <(String, String) as Key>::lemma_irreflexive(rows[a].0.1.1);
    }
    if st.events.contains_key((t, ev)) && st.events[(t, ev)].dead {
        let k: ByTime = (t, (st.events[(t, ev)].received_at, ev));
        assert(st.dead.contains_key(k) && f((k, st.dead[k])));
        assert(has_key(rows, k));
        let p = choose|p: int| 0 <= p < rows.len() && (#[trigger] rows[p]).0 == k;
        let q = rows.len() - 1 - p;
        if q < n {
            assert(out[q].0.key == ev);
        } else if 0 <= i < out.len() {
            assert(<(String, (i64, (String, String))) as Key>::precedes(rows[p].0, rows[a].0));
        }
    }
}

proof fn lemma_each_shared_wait(st: EventState, t: Seq<char>, rows: Seq<(SubByTime, ())>, n: int)
    requires
        0 <= n <= rows.len(),
        shared_waits_read(st, t, rows, n) is Ok,
    ensures
        shared_waits_read(st, t, rows, n)->Ok_0.len() == n,
        forall|i: int|
            0 <= i < n ==> shared_wait(
                (#[trigger] rows[i]).0.1.1.0,
                st.subs[(t, rows[i].0.1.1)],
                st.subs[(t, rows[i].0.1.1)].kind,
                seq![rows[i].0.1.1.1],
            ) == Ok::<WaitModel, Refusal>(shared_waits_read(st, t, rows, n)->Ok_0[i]),
    decreases n,
{
    if n > 0 {
        lemma_each_shared_wait(st, t, rows, n - 1);
        let before = shared_waits_read(st, t, rows, n - 1)->Ok_0;
        let after = shared_waits_read(st, t, rows, n)->Ok_0;
        assert forall|i: int| 0 <= i < n implies shared_wait(
            (#[trigger] rows[i]).0.1.1.0,
            st.subs[(t, rows[i].0.1.1)],
            st.subs[(t, rows[i].0.1.1)].kind,
            seq![rows[i].0.1.1.1],
        ) == Ok::<WaitModel, Refusal>(after[i]) by {
            if i < n - 1 {
                assert(after[i] == before[i]);
            }
        }
    }
}

/// The list of waits of a shared database has each wait of the tenant once for each
/// key it waits on, in the order they began, and nothing else; what is left out for
/// want of room began no earlier.
pub proof fn law_shared_waits_are_listed(
    st: EventState,
    t: Seq<char>,
    limit: usize,
    out: Seq<WaitModel>,
    k: SubKey,
    i: int,
    j: int,
)
    requires
        st.wf(),
        st.subs_by_time.dom().finite(),
        shared_waits_read(st, t, wait_rows(st, t), page(wait_rows(st, t).len(), limit)) == Ok::<
            Seq<WaitModel>,
            Refusal,
        >(out),
    ensures
        out.len() <= limit,
        0 <= i < out.len() ==> {
            let w = out[i];
            let row = st.subs[(t, ((w.run, w.effect), w.correlation[0]))];
            &&& w.correlation.len() == 1
            &&& st.subs.contains_key((t, ((w.run, w.effect), w.correlation[0])))
            &&& row.kind == w.kind
            &&& row.step == w.step
            &&& row.case is Some <==> w.case is Some
            &&& row.case is Some ==> row.case->0.text == w.case->0
        },
        0 <= i < j < out.len() ==> st.subs[(
            t,
            ((out[i].run, out[i].effect), out[i].correlation[0]),
        )].created_at <= st.subs[(t, ((out[j].run, out[j].effect), out[j].correlation[0]))].created_at,
        st.subs.contains_key(k) && k.0 == t && !(exists|p: int|
            0 <= p < out.len() && (#[trigger] out[p]).run == k.1.0.0 && out[p].effect == k.1.0.1
                && out[p].correlation == seq![k.1.1]) ==> out.len() == limit && (0 <= i < limit
            ==> st.subs[(t, ((out[i].run, out[i].effect), out[i].correlation[0]))].created_at
            <= st.subs[k].created_at),
{
    let f = registered(st, t);
    let rows = wait_rows(st, t);
    let n = page(rows.len(), limit);
    lemma_chosen::<(String, (i64, ((String, String), (String, String)))), ()>(
        st.subs_by_time,
        f,
    );
    lemma_each_shared_wait(st, t, rows, n);
    <String as Key>::lemma_irreflexive(t);
    if 0 <= i < out.len() {
        assert(f(rows[i]) && st.subs_by_time.contains_key(rows[i].0));
    }
    if 0 <= i < j < out.len() {
        assert(f(rows[j]) && st.subs_by_time.contains_key(rows[j].0));
        assert(<(String, (i64, ((String, String), (String, String)))) as Key>::precedes(
            rows[i].0,
            rows[j].0,
        ));
    }
    if st.subs.contains_key(k) && k.0 == t {
        let x: SubByTime = (t, (st.subs[k].created_at, k.1));
        assert(st.subs_by_time.contains_key(x) && f((x, st.subs_by_time[x])));
        assert(has_key(rows, x));
        let p = choose|p: int| 0 <= p < rows.len() && (#[trigger] rows[p]).0 == x;
        if p < n {
            assert(out[p].correlation == seq![k.1.1]);
            assert(out[p].run == k.1.0.0 && out[p].effect == k.1.0.1);
        } else if 0 <= i < out.len() {
            assert(<(String, (i64, ((String, String), (String, String)))) as Key>::precedes(
                rows[i].0,
                rows[p].0,
            ));
        }
    }
}

} // verus!
