//! What the journal grants, refuses and keeps, said of its tables.

use vstd::prelude::*;

use crate::error::Refusal;
use crate::journal::{
    append_refusal, appended, cancel_asked, cancel_of, case_page, chain_from, claim, expiry,
    fence_refusal, first_repeat, head_of, holds_lease, in_case, log_order, logged, newest,
    oldest_stranded, recent, released, repeats, run_key, seal_refusal, shown, started, stranded,
    strays, upcoming, with_lease, with_records, with_seal, AppendModel, CancelModel, HeadModel,
    JournalState, RunName, Ttl,
};
use crate::table::{text_before, Key};

verus! {

// ── Leases ──────────────────────────────────────────────────────────────────

/// A run is leased exactly where nobody holds a lease on it that has not lapsed, for
/// a second at least and no longer than time is counted: in the epoch after the one
/// before, or in the first.
pub proof fn law_lease_is_granted(st: JournalState, name: RunName, now: u64, ttl: Ttl)
    ensures
        claim(st, name, now, ttl) is Ok <==> {
            &&& ttl.secs >= 1
            &&& now + ttl.secs <= u64::MAX
            &&& st.leases.contains_key(name) ==> st.leases[name].expires_at <= now
                && st.leases[name].epoch < u64::MAX
        },
        claim(st, name, now, ttl) matches Ok(epoch) ==> epoch == if st.leases.contains_key(name) {
            st.leases[name].epoch + 1
        } else {
            1
        },
        ttl.secs >= 1 && now + ttl.secs <= u64::MAX && st.leases.contains_key(name)
            && st.leases[name].expires_at > now ==> claim(st, name, now, ttl) == Err::<
            u64,
            Refusal,
        >(
            Refusal::LeaseHeld {
                run: run_key(name.0, name.1),
                owner: st.leases[name].owner,
                epoch: st.leases[name].epoch,
                remaining_secs: (st.leases[name].expires_at - now) as u64,
            },
        ),
        expiry(now, ttl) is Ok <==> ttl.secs >= 1 && now + ttl.secs <= u64::MAX,
        expiry(now, ttl) matches Ok(at) ==> at == now + ttl.secs,
{
}

/// A lease that was taken is held by whoever took it until it lapses or is given
/// back: they may write meanwhile, and nobody else may take the run. It is one run's
/// own.
pub proof fn law_lease_is_held_until_it_lapses(
    st: JournalState,
    name: RunName,
    owner: Seq<char>,
    epoch: u64,
    until: u64,
    now: u64,
    ttl: Ttl,
    other: RunName,
    who: Seq<char>,
    e: u64,
)
    ensures
        ({
            let after = with_lease(st, name, owner, epoch, until);
            &&& holds_lease(after, name, who, e, now) <==> who == owner && e == epoch && now
                < until
            &&& fence_refusal(after, name, e) is None <==> e == epoch
            &&& now < until ==> claim(after, name, now, ttl) is Err
            &&& other != name ==> after.leases.contains_key(other) == st.leases.contains_key(other)
            &&& other != name && st.leases.contains_key(other) ==> after.leases[other]
                == st.leases[other]
            &&& after.journal == st.journal
            &&& after.seals == st.seals
        }),
{
}

/// A lease is given back only in its own epoch: nobody holds it then, it can be
/// taken at once, and its epoch is kept. Anything else changes nothing.
pub proof fn law_lease_is_given_back(
    st: JournalState,
    name: RunName,
    epoch: u64,
    now: u64,
    ttl: Ttl,
    other: RunName,
)
    ensures
        ({
            let after = released(st, name, epoch);
            let own = st.leases.contains_key(name) && st.leases[name].epoch == epoch;
            &&& !own ==> after == st
            &&& own ==> {
                &&& after.leases[name].owner.len() == 0
                &&& after.leases[name].expires_at == 0
                &&& after.leases[name].epoch == epoch
                &&& !stranded(after, name.0, now, name.1)
                &&& epoch < u64::MAX && ttl.secs >= 1 && now + ttl.secs <= u64::MAX ==> claim(
                    after,
                    name,
                    now,
                    ttl,
                ) == Ok::<u64, Refusal>((epoch + 1) as u64)
            }
            &&& other != name ==> after.leases.contains_key(other) == st.leases.contains_key(other)
            &&& other != name && st.leases.contains_key(other) ==> after.leases[other]
                == st.leases[other]
            &&& after.journal == st.journal
            &&& after.seals == st.seals
        }),
{
}

/// The runs to recover are those whose lease somebody let lapse without giving it
/// back, the longest lapsed first; none is left out where there is room, and where
/// there is none those that are lapsed longer come first.
pub proof fn law_abandoned_runs_are_found(
    st: JournalState,
    t: Seq<char>,
    now: u64,
    limit: usize,
    out: Seq<Seq<char>>,
    run: Seq<char>,
    i: int,
    j: int,
)
    requires
        oldest_stranded(st, t, now, limit, out),
    ensures
        out.len() <= limit,
        0 <= i < out.len() ==> {
            &&& st.leases.contains_key((t, out[i]))
            &&& st.leases[(t, out[i])].owner.len() > 0
            &&& st.leases[(t, out[i])].expires_at <= now
        },
        0 <= i < j < out.len() ==> st.leases[(t, out[i])].expires_at <= st.leases[(
            t,
            out[j],
        )].expires_at && out[i] != out[j],
        st.leases.contains_key((t, run)) && st.leases[(t, run)].owner.len() > 0 && st.leases[(
            t,
            run,
        )].expires_at <= now && !out.contains(run) ==> out.len() == limit && (0 <= i < out.len()
            ==> st.leases[(t, out[i])].expires_at <= st.leases[(t, run)].expires_at),
{
    if 0 <= i < out.len() {
        assert(stranded(st, t, now, out[i]));
    }
    if 0 <= i < j < out.len() {
        assert(crate::journal::staler(st, t, out[i], out[j]));
        <String as Key>::lemma_irreflexive(out[i]);
    }
    if st.leases.contains_key((t, run)) && st.leases[(t, run)].owner.len() > 0 && st.leases[(
        t,
        run,
    )].expires_at <= now {
        assert(stranded(st, t, now, run));
        if !out.contains(run) && 0 <= i < out.len() {
            assert(crate::journal::staler(st, t, out[i], run));
        }
    }
}

// ── Appending ───────────────────────────────────────────────────────────────

proof fn lemma_none_starts_twice(
    st: JournalState,
    t: Seq<char>,
    batch: Seq<AppendModel>,
    n: int,
)
    requires
        0 <= n <= batch.len(),
    ensures
        first_repeat(st, t, batch, n) is None <==> forall|i: int|
            0 <= i < n ==> !#[trigger] repeats(st, t, batch, i),
    decreases n,
{
    if n > 0 {
        lemma_none_starts_twice(st, t, batch, n - 1);
    }
}

proof fn lemma_one_run(batch: Seq<AppendModel>, i: int)
    requires
        0 <= i < batch.len(),
        batch[i].run != batch[0].run,
    ensures
        exists|j: int| strays(batch, j),
    decreases i,
{
    if forall|j: int| 0 <= j < i ==> (#[trigger] batch[j]).run == batch[0].run {
        assert(strays(batch, i));
    } else {
        let j = choose|j: int| 0 <= j < i && (#[trigger] batch[j]).run != batch[0].run;
        lemma_one_run(batch, j);
    }
}

/// Whether a record starts an effect.
pub open spec fn starts(a: AppendModel, effect: Seq<char>) -> bool {
    a.kind is EffectStarted && a.effect_key == Some(effect)
}

/// A batch is let in exactly where it may be: all of it is of one run, the writer is
/// not fenced, the run is not sealed and its last record reads, and no effect in it
/// was started before, in the run or earlier in the batch. (Positions and ordinals
/// can also run out.)
pub proof fn law_batch_is_let_in(
    st: JournalState,
    t: Seq<char>,
    epoch: u64,
    batch: Seq<AppendModel>,
)
    requires
        batch.len() > 0,
        head_of(st, (t, batch[0].run)) matches Ok(head) ==> head.seq + batch.len() <= u64::MAX,
        upcoming(st.next_conclusion, t) + batch.len() <= u64::MAX,
    ensures
        append_refusal(st, t, epoch, batch) is None <==> {
            let name = (t, batch[0].run);
            &&& forall|i: int| 0 <= i < batch.len() ==> (#[trigger] batch[i]).run == batch[0].run
            &&& st.leases.contains_key(name) ==> st.leases[name].epoch == epoch
            &&& !st.seals.contains_key(name)
            &&& head_of(st, name) is Ok
            &&& forall|i: int, e: Seq<char>|
                0 <= i < batch.len() && #[trigger] starts(batch[i], e) ==> !st.once.contains_key(
                    (t, (batch[0].run, e)),
                )
            &&& forall|i: int, j: int, e: Seq<char>|
                0 <= j < i < batch.len() && #[trigger] starts(batch[i], e) ==> !#[trigger] starts(
                    batch[j],
                    e,
                )
        },
{
    let n = batch.len() as int;
    lemma_none_starts_twice(st, t, batch, n);
    let same = forall|i: int| 0 <= i < batch.len() ==> (#[trigger] batch[i]).run == batch[0].run;
    if !same {
        let i = choose|i: int| 0 <= i < batch.len() && (#[trigger] batch[i]).run != batch[0].run;
        lemma_one_run(batch, i);
    } else {
        assert(forall|i: int| !strays(batch, i));
    }
    let fresh = (forall|i: int, e: Seq<char>|
        0 <= i < batch.len() && #[trigger] starts(batch[i], e) ==> !st.once.contains_key(
            (t, (batch[0].run, e)),
        )) && (forall|i: int, j: int, e: Seq<char>|
        0 <= j < i < batch.len() && #[trigger] starts(batch[i], e) ==> !#[trigger] starts(
            batch[j],
            e,
        ));
    if fresh {
        assert forall|i: int| 0 <= i < n implies !#[trigger] repeats(st, t, batch, i) by {
            if repeats(st, t, batch, i) {
                let e = started(batch[i])->0;
                assert(starts(batch[i], e));
                if !st.once.contains_key((t, (batch[0].run, e))) {
                    let j = choose|j: int| 0 <= j < i && started(#[trigger] batch[j]) == Some(e);
                    assert(starts(batch[j], e));
                }
            }
        }
    }
    if first_repeat(st, t, batch, n) is None {
        assert forall|i: int, e: Seq<char>|
            0 <= i < batch.len() && #[trigger] starts(batch[i], e) implies !st.once.contains_key(
            (t, (batch[0].run, e)),
        ) by {
            assert(!repeats(st, t, batch, i));
            assert(started(batch[i]) == Some(e));
        }
        assert forall|i: int, j: int, e: Seq<char>|
            0 <= j < i < batch.len() && #[trigger] starts(batch[i], e) implies !#[trigger] starts(
            batch[j],
            e,
        ) by {
            assert(!repeats(st, t, batch, i));
            assert(started(batch[i]) == Some(e));
            if starts(batch[j], e) {
                assert(started(batch[j]) == Some(e));
            }
        }
    }
}

proof fn lemma_filed(
    st: JournalState,
    name: RunName,
    head: HeadModel,
    batch: Seq<AppendModel>,
    n: int,
    c: Seq<char>,
    at: (Seq<char>, u64),
    u: Seq<char>,
)
    requires
        0 <= n <= batch.len(),
        head.seq + n <= u64::MAX,
    ensures
        ({
            let after = with_records(st, name, head, batch, n);
            &&& after.leases == st.leases
            &&& after.seals == st.seals
            &&& after.seal_log == st.seal_log
            &&& after.cancels == st.cancels
            &&& after.activity == st.activity
            &&& after.last_activity == st.last_activity
            &&& after.by_case.contains_key((u, (c, at))) <==> st.by_case.contains_key((u, (c, at)))
                || (u == name.0 && at.0 == name.1 && exists|i: int|
                0 <= i < n && at.1 == head.seq + i + 1 && (#[trigger] batch[i]).case == Some(c))
        }),
    decreases n,
{
    if n > 0 {
        lemma_filed(st, name, head, batch, n - 1, c, at, u);
        let a = batch[n - 1];
        if u == name.0 && at.0 == name.1 && at.1 == head.seq + n && a.case == Some(c) {
            assert(batch[n - 1].case == Some(c));
        }
    }
}

/// An append files each record under its case and no other, says when the run was
/// active, and touches no lease, no seal and no request to stop.
pub proof fn law_append_files_each_record(
    st: JournalState,
    t: Seq<char>,
    now: u64,
    epoch: u64,
    batch: Seq<AppendModel>,
    c: Seq<char>,
    at: (Seq<char>, u64),
    u: Seq<char>,
    other: RunName,
)
    requires
        batch.len() > 0,
        append_refusal(st, t, epoch, batch) is None,
    ensures
        ({
            let run = batch[0].run;
            let head = head_of(st, (t, run))->Ok_0;
            let after = appended(st, t, now, batch);
            &&& after.by_case.contains_key((u, (c, at))) <==> st.by_case.contains_key((u, (c, at)))
                || (u == t && at.0 == run && exists|i: int|
                0 <= i < batch.len() && at.1 == head.seq + i + 1 && (#[trigger] batch[i]).case
                    == Some(c))
            &&& after.last_activity[(t, run)] == now
            &&& after.activity.contains_key((t, (now, run)))
            &&& after.activity[(t, (now, run))] is None
            &&& other != (t, run) ==> after.last_activity.contains_key(other)
                == st.last_activity.contains_key(other)
            &&& other != (t, run) && st.last_activity.contains_key(other)
                ==> after.last_activity[other] == st.last_activity[other]
            &&& after.leases == st.leases
            &&& after.seals == st.seals
            &&& after.seal_log == st.seal_log
            &&& after.cancels == st.cancels
        }),
{
    let name = (t, batch[0].run);
    assert forall|j: int| !strays(batch, j) by {
        if strays(batch, j) {
            assert(exists|x: int| strays(batch, x));
        }
    }
    let head = head_of(st, name)->Ok_0;
    lemma_filed(st, name, head, batch, batch.len() as int, c, at, u);
}

// ── Sealing and stopping ────────────────────────────────────────────────────

/// A run is sealed by whoever may write to it; its outcome, the head of its chain
/// and the instant are kept, it takes the next position of its tenant's log, and
/// nothing else changes. A run that is sealed stays as it was sealed first.
pub proof fn law_seal_is_kept(
    st: JournalState,
    name: RunName,
    epoch: u64,
    outcome: Seq<char>,
    head: Seq<u8>,
    now: u64,
    other: RunName,
    k: (Seq<char>, u64),
)
    requires
        upcoming(st.next_log_index, name.0) < u64::MAX,
    ensures
        seal_refusal(st, name, epoch) is None <==> (st.leases.contains_key(name)
            ==> st.leases[name].epoch == epoch) && head_of(st, name) is Ok,
        ({
            let after = with_seal(st, name, outcome, head, now);
            let index = upcoming(st.next_log_index, name.0);
            &&& st.seals.contains_key(name) ==> after == st
            &&& !st.seals.contains_key(name) ==> {
                &&& after.seals.contains_key(name)
                &&& after.seals[name].outcome == outcome
                &&& after.seals[name].head == head
                &&& after.seals[name].sealed_at == now
                &&& after.seal_log.contains_key((name.0, index))
                &&& after.seal_log[(name.0, index)] == name.1
                &&& upcoming(after.next_log_index, name.0) == index + 1
                &&& k != (name.0, index) ==> after.seal_log.contains_key(k)
                    == st.seal_log.contains_key(k)
                &&& k != (name.0, index) && st.seal_log.contains_key(k) ==> after.seal_log[k]
                    == st.seal_log[k]
            }
            &&& other != name ==> after.seals.contains_key(other) == st.seals.contains_key(other)
            &&& other != name && st.seals.contains_key(other) ==> after.seals[other]
                == st.seals[other]
            &&& after.journal == st.journal
            &&& after.leases == st.leases
        }),
{
}

/// A request to stop a run is read back as it was first made, by whom and why; a
/// second changes nothing, and no other run is asked to stop.
pub proof fn law_first_request_to_stop_stands(
    st: JournalState,
    name: RunName,
    first: CancelModel,
    second: CancelModel,
    other: RunName,
)
    requires
        cancel_of(st, name) is None,
    ensures
        cancel_of(cancel_asked(st, name, first), name) == Some(first),
        cancel_asked(cancel_asked(st, name, first), name, second) == cancel_asked(st, name, first),
        other != name ==> cancel_of(cancel_asked(st, name, first), other) == cancel_of(st, other),
        cancel_asked(st, name, first).journal == st.journal,
        cancel_asked(st, name, first).leases == st.leases,
        cancel_asked(st, name, first).seals == st.seals,
{
}

// ── Listings ────────────────────────────────────────────────────────────────

/// Reading a run gives the records from the position asked for on: each of them and
/// no other, in the order of their positions.
pub proof fn law_reading_starts_where_asked(
    st: JournalState,
    name: RunName,
    from: u64,
    at: Seq<u64>,
    s: u64,
    i: int,
    j: int,
)
    requires
        chain_from(st, name, from, at),
    ensures
        at.contains(s) <==> s >= from && st.journal.contains_key((name.0, (name.1, s))),
        0 <= i < j < at.len() ==> at[i] < at[j],
{
    if at.contains(s) {
        let p = choose|p: int| 0 <= p < at.len() && at[p] == s;
        assert(st.journal.contains_key((name.0, (name.1, at[p]))));
    }
}

/// The history of a case is made of its own records, by run and position: each once,
/// and what is left out for want of room comes behind them.
pub proof fn law_history_of_a_case(
    st: JournalState,
    t: Seq<char>,
    case: Seq<char>,
    limit: usize,
    at: Seq<(Seq<char>, u64)>,
    k: (Seq<char>, u64),
    i: int,
    j: int,
)
    requires
        case_page(st, t, case, limit, at),
    ensures
        at.len() <= limit,
        0 <= i < at.len() ==> st.by_case.contains_key((t, (case, at[i])))
            && st.journal.contains_key((t, at[i])),
        0 <= i < j < at.len() ==> text_before(at[i].0, at[j].0) || (at[i].0 == at[j].0 && at[i].1
            < at[j].1),
        st.by_case.contains_key((t, (case, k))) && st.journal.contains_key((t, k)) && !at.contains(
            k,
        ) ==> at.len() == limit && (0 <= i < at.len() ==> text_before(at[i].0, k.0) || (at[i].0
            == k.0 && at[i].1 < k.1)),
{
    if 0 <= i < at.len() {
        assert(in_case(st, t, case, at[i]));
    }
    if 0 <= i < j < at.len() {
        assert(<(String, u64)>::precedes(at[i], at[j]));
    }
    if st.by_case.contains_key((t, (case, k))) && st.journal.contains_key((t, k)) {
        assert(in_case(st, t, case, k));
        if !at.contains(k) && 0 <= i < at.len() {
            assert(<(String, u64)>::precedes(at[i], k));
        }
    }
}

/// The conclusions of one outcome are listed newest first: each that there is where
/// there is room, and the newest where there is not.
pub proof fn law_conclusions_come_newest_first(
    st: JournalState,
    t: Seq<char>,
    outcome: Seq<char>,
    limit: usize,
    at: Seq<u64>,
    n: u64,
    i: int,
    j: int,
)
    requires
        newest(st, t, outcome, limit, at),
    ensures
        at.len() <= limit,
        0 <= i < at.len() ==> st.by_outcome.contains_key((t, (outcome, at[i]))),
        0 <= i < j < at.len() ==> at[i] > at[j],
        st.by_outcome.contains_key((t, (outcome, n))) && !at.contains(n) ==> at.len() == limit && (
        0 <= i < at.len() ==> at[i] > n),
{
}

/// Whether an activity is earlier than the cursor.
pub open spec fn below(after: Option<(u64, Seq<char>)>, k: (u64, Seq<char>)) -> bool {
    match after {
        None => true,
        Some(cursor) => k.0 < cursor.0 || (k.0 == cursor.0 && text_before(k.1, cursor.1)),
    }
}

/// A page of runs has those active most lately below the cursor, the latest first:
/// each is the tenant's, none comes twice, and what is left out for want of room was active earlier.
pub proof fn law_recent_runs_come_latest_first(
    st: JournalState,
    t: Seq<char>,
    after: Option<(u64, Seq<char>)>,
    limit: usize,
    out: Seq<(u64, Seq<char>)>,
    k: (u64, Seq<char>),
    i: int,
    j: int,
)
    requires
        recent(st, t, after, limit, out),
    ensures
        ({
            let below = below(after, k);
            &&& out.len() <= limit
            &&& out.contains(k) ==> st.activity.contains_key((t, k)) && st.activity[(t, k)] is None
                && below
            &&& st.activity.contains_key((t, k)) && st.activity[(t, k)] is None && below
                && !out.contains(k) ==> out.len() == limit && (0 <= i < out.len() ==> out[i].0 > k.0
                || (out[i].0 == k.0 && text_before(k.1, out[i].1)))
            &&& 0 <= i < j < out.len() ==> out[i].0 > out[j].0 || (out[i].0 == out[j].0
                && text_before(out[j].1, out[i].1))
        }),
{
    if out.contains(k) {
        let p = choose|p: int| 0 <= p < out.len() && out[p] == k;
        assert(shown(st, t, after, out[p]));
    }
    if 0 <= i < j < out.len() {
        assert(<(u64, String)>::precedes(out[j], out[i]));
    }
    if st.activity.contains_key((t, k)) && st.activity[(t, k)] is None && below(after, k) {
        assert(shown(st, t, after, k));
        if !out.contains(k) && 0 <= i < out.len() {
            assert(<(u64, String)>::precedes(k, out[i]));
        }
    }
}

/// The log has the sealed runs in the order they were sealed: each position that a
/// sealed run took and no other, in order.
pub proof fn law_log_has_the_sealed_runs(
    st: JournalState,
    t: Seq<char>,
    at: Seq<u64>,
    index: u64,
    i: int,
    j: int,
)
    requires
        log_order(st, t, at),
    ensures
        at.contains(index) <==> st.seal_log.contains_key((t, index)) && st.seals.contains_key(
            (t, st.seal_log[(t, index)]),
        ),
        0 <= i < j < at.len() ==> at[i] < at[j],
{
    if at.contains(index) {
        let p = choose|p: int| 0 <= p < at.len() && at[p] == index;
        assert(logged(st, t, at[p]));
    }
    if st.seal_log.contains_key((t, index)) && st.seals.contains_key(
        (t, st.seal_log[(t, index)]),
    ) {
        assert(logged(st, t, index));
    }
}

/// An entry of the index of outcomes counts where it is of the tenant and its run id is
/// one.
pub proof fn law_entry_is_of_its_tenant(t: Seq<char>, p: crate::journal::PointerModel)
    ensures
        crate::journal::sound(t, p) ==> p.tenant == t && p.fault is None,
        p.tenant == t && p.fault is None ==> crate::journal::sound(t, p),
{
}

} // verus!
