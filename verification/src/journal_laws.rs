//! What holds of the journal across operations.

use vstd::prelude::*;

use crate::error::Refusal;
use crate::journal::{
    append_refusal, appended, blank_journal, bytes_at, chain_from, claim, expiry, fence_refusal,
    first_repeat, head_of, holds_lease, in_case, is_last, leaf, lemma_log_order_is_one, log_order, logged,
    of_run, oldest_stranded, one_run, prev_of, read_back, released, repeats, row_of, run_key,
    seal_refusal, sealed_append_refusal, started, stranded, strays, upcoming, with_activity, with_conclusion, with_lease,
    with_record, with_records, with_seal, AppendModel, HeadModel, JournalState, KindModel,
    OutcomeModel, Position, RunName, Ttl,
};
use crate::row::{
    decoded, encoded, fits, law_row_round_trip, whole_pair, zero_digest, RowModel,
};

verus! {

/// What the records of a batch do to the journal, the effects and the cases.
proof fn lemma_records(
    st: JournalState,
    name: RunName,
    head: HeadModel,
    batch: Seq<AppendModel>,
    n: int,
)
    requires
        0 <= n <= batch.len(),
        head.seq + n <= u64::MAX,
    ensures
        ({
            let st2 = with_records(st, name, head, batch, n);
            &&& forall|k: Position| #[trigger]
                st2.journal.contains_key(k) <==> st.journal.contains_key(k) || (k.0 == name.0
                    && k.1.0 == name.1 && head.seq < k.1.1 <= head.seq + n)
            &&& forall|k: Position|
                #![trigger st2.journal[k]]
                k.0 == name.0 && k.1.0 == name.1 && head.seq < k.1.1 <= head.seq + n
                    ==> st2.journal[k] == encoded(
                    row_of(
                        batch[k.1.1 - head.seq - 1],
                        prev_of(head, batch, k.1.1 - head.seq - 1),
                    ),
                )
            &&& forall|k: Position|
                #![trigger st2.journal[k]]
                !(k.0 == name.0 && k.1.0 == name.1 && head.seq < k.1.1 <= head.seq + n)
                    ==> st2.journal[k] == st.journal[k]
            &&& forall|k: (Seq<char>, (Seq<char>, Seq<char>))| #[trigger]
                st2.once.contains_key(k) <==> st.once.contains_key(k) || (k.0 == name.0 && k.1.0
                    == name.1 && exists|i: int|
                    0 <= i < n && started(#[trigger] batch[i]) == Some(k.1.1))
        }),
    decreases n,
{
    if n > 0 {
        lemma_records(st, name, head, batch, n - 1);
        let st1 = with_records(st, name, head, batch, n - 1);
        let st2 = with_records(st, name, head, batch, n);
        assert forall|k: (Seq<char>, (Seq<char>, Seq<char>))| #[trigger]
            st2.once.contains_key(k) <==> st.once.contains_key(k) || (k.0 == name.0 && k.1.0
                == name.1 && exists|i: int|
                0 <= i < n && started(#[trigger] batch[i]) == Some(k.1.1)) by {
            if started(batch[n - 1]) == Some(k.1.1) {
            }
            if st1.once.contains_key(k) && !st.once.contains_key(k) {
                let i = choose|i: int|
                    0 <= i < n - 1 && started(#[trigger] batch[i]) == Some(k.1.1);
                assert(started(batch[i]) == Some(k.1.1));
            }
            if k.0 == name.0 && k.1.0 == name.1 && exists|i: int|
                0 <= i < n && started(#[trigger] batch[i]) == Some(k.1.1) {
                let i = choose|i: int| 0 <= i < n && started(#[trigger] batch[i]) == Some(k.1.1);
                if i < n - 1 {
                    assert(st1.once.contains_key(k));
                }
            }
        }
    }
}

/// A stale writer is refused: an epoch that is not the lease's can neither
/// append to the run nor seal it.
pub proof fn law_stale_epoch_is_fenced(
    st: JournalState,
    t: Seq<char>,
    epoch: u64,
    batch: Seq<AppendModel>,
)
    requires
        batch.len() > 0,
        one_run(batch, batch.len() as int),
        st.leases.contains_key((t, batch[0].run)),
        st.leases[(t, batch[0].run)].epoch != epoch,
    ensures
        append_refusal(st, t, epoch, batch) == Some(
            Refusal::Fenced {
                run: run_key(t, batch[0].run),
                held: epoch,
                current: st.leases[(t, batch[0].run)].epoch,
            },
        ),
        seal_refusal(st, (t, batch[0].run), epoch) is Some,
{
    assert(forall|i: int| !strays(batch, i));
}

/// Taking a run over fences whoever held it, and giving it back afterwards does
/// not let them in again: the epoch of a run never goes down.
pub proof fn law_takeover_fences_for_good(
    st: JournalState,
    name: RunName,
    owner: Seq<char>,
    now: u64,
    ttl: Ttl,
    expires_at: u64,
)
    requires
        st.leases.contains_key(name),
        claim(st, name, now, ttl) is Ok,
    ensures
        ({
            let epoch = claim(st, name, now, ttl)->Ok_0;
            let st2 = with_lease(st, name, owner, epoch, expires_at);
            &&& epoch == st.leases[name].epoch + 1
            &&& fence_refusal(st2, name, st.leases[name].epoch) is Some
            &&& fence_refusal(released(st2, name, epoch), name, st.leases[name].epoch) is Some
            &&& released(st2, name, epoch).leases.contains_key(name)
            &&& released(st2, name, epoch).leases[name].epoch == epoch
        }),
{
}

/// A live lease is claimed by nobody, its holder included, and a renewal keeps
/// the owner and the epoch.
pub proof fn law_live_lease_is_kept(
    st: JournalState,
    name: RunName,
    owner: Seq<char>,
    epoch: u64,
    now: u64,
    ttl: Ttl,
    until: u64,
)
    requires
        holds_lease(st, name, owner, epoch, now),
    ensures
        claim(st, name, now, ttl) is Err,
        with_lease(st, name, owner, epoch, until).leases[name].owner == st.leases[name].owner,
        with_lease(st, name, owner, epoch, until).leases[name].epoch == st.leases[name].epoch,
        fence_refusal(with_lease(st, name, owner, epoch, until), name, epoch) is None,
{
}

/// Sealed is frozen: nothing is appended to a sealed run, and sealing it again
/// changes nothing.
pub proof fn law_sealed_is_frozen(
    st: JournalState,
    t: Seq<char>,
    epoch: u64,
    batch: Seq<AppendModel>,
    outcome: Seq<char>,
    head: Seq<u8>,
    now: u64,
    again: Seq<char>,
    later: u64,
)
    requires
        batch.len() > 0,
    ensures
        ({
            let name = (t, batch[0].run);
            let st2 = with_seal(st, name, outcome, head, now);
            &&& append_refusal(st2, t, epoch, batch) is Some
            &&& with_seal(st2, name, again, head, later) == st2
        }),
{
}

/// A run that is sealed answers a second seal as it answered the first, whatever
/// outcome it is given: the same hash, and nothing changes. What is appended to
/// it afterwards is refused with the outcome of the first.
pub proof fn law_first_seal_stands(
    st: JournalState,
    t: Seq<char>,
    run: Seq<char>,
    epoch: u64,
    outcome: Seq<char>,
    now: u64,
    again: Seq<char>,
    later: u64,
    batch: Seq<AppendModel>,
)
    requires
        !st.seals.contains_key((t, run)),
        seal_refusal(st, (t, run), epoch) is None,
        batch.len() > 0,
        one_run(batch, batch.len() as int),
        batch[0].run == run,
    ensures
        ({
            let name = (t, run);
            let head = head_of(st, name)->Ok_0.hash;
            let st2 = with_seal(st, name, outcome, head, now);
            &&& seal_refusal(st2, name, epoch) is None
            &&& head_of(st2, name) == head_of(st, name)
            &&& with_seal(st2, name, again, head, later) == st2
            &&& append_refusal(st2, t, epoch, batch) == Some(
                Refusal::RunSealed { run: run_key(t, run), outcome },
            )
        }),
{
    let name = (t, run);
    let head = head_of(st, name)->Ok_0.hash;
    let st2 = with_seal(st, name, outcome, head, now);
    lemma_head_carries_over(st, st2, name);
    assert(forall|i: int| !strays(batch, i));
}

/// The log grows by one at a first seal and by none at a second.
pub proof fn law_sealing_twice_grows_the_log_once(
    st: JournalState,
    name: RunName,
    epoch: u64,
    outcome: Seq<char>,
    now: u64,
    again: Seq<char>,
    later: u64,
    before: Seq<u64>,
    after: Seq<u64>,
    twice: Seq<u64>,
)
    requires
        log_agrees(st),
        !st.seals.contains_key(name),
        seal_refusal(st, name, epoch) is None,
        log_order(st, name.0, before),
        ({
            let head = head_of(st, name)->Ok_0.hash;
            let st2 = with_seal(st, name, outcome, head, now);
            &&& log_order(st2, name.0, after)
            &&& log_order(with_seal(st2, name, again, head, later), name.0, twice)
        }),
    ensures
        after.len() == before.len() + 1,
        twice == after,
{
    let head = head_of(st, name)->Ok_0.hash;
    let st2 = with_seal(st, name, outcome, head, now);
    law_log_only_grows(st, name, epoch, outcome, head, now, before);
    let want = before.push(upcoming(st.next_log_index, name.0));
    lemma_log_order_is_one(st2, name.0, after, want);
    lemma_log_order_is_one(st2, name.0, after, twice);
}

proof fn lemma_head_carries_over(st: JournalState, st2: JournalState, name: RunName)
    requires
        st2.journal == st.journal,
    ensures
        head_of(st2, name) == head_of(st, name),
{
    if exists|s: u64| is_last(st, name, s) {
        let s = choose|s: u64| is_last(st, name, s);
        lemma_head_is_last(st, name, s);
        assert(is_last(st2, name, s));
        lemma_head_is_last(st2, name, s);
    }
    if exists|s: u64| is_last(st2, name, s) {
        let s = choose|s: u64| is_last(st2, name, s);
        assert(is_last(st, name, s));
    }
}

/// Exactly once: an effect whose start the journal holds is refused by name, and
/// nothing else stops the batch: where its writer is not fenced, its run not
/// sealed and its chain whole, the answer is that the effect is a duplicate.
pub proof fn law_second_start_is_a_duplicate(
    st: JournalState,
    t: Seq<char>,
    epoch: u64,
    batch: Seq<AppendModel>,
    i: int,
    effect: Seq<char>,
)
    requires
        0 <= i < batch.len(),
        started(batch[i]) == Some(effect),
        st.once.contains_key((t, (batch[0].run, effect))),
        forall|j: int| 0 <= j < i ==> !#[trigger] repeats(st, t, batch, j),
        one_run(batch, batch.len() as int),
        fence_refusal(st, (t, batch[0].run), epoch) is None,
        !st.seals.contains_key((t, batch[0].run)),
        head_of(st, (t, batch[0].run)) is Ok,
        head_of(st, (t, batch[0].run))->Ok_0.seq + batch.len() <= u64::MAX,
        upcoming(st.next_conclusion, t) + batch.len() <= u64::MAX,
    ensures
        append_refusal(st, t, epoch, batch) == Some(Refusal::DuplicateEffect(effect)),
{
    assert(forall|j: int| !strays(batch, j));
    assert(repeats(st, t, batch, i));
    lemma_none_repeats(st, t, batch, i);
    assert(first_repeat(st, t, batch, i + 1) == started(batch[i]));
    lemma_repeat_stays(st, t, batch, i + 1, batch.len() as int);
}

/// The start of an effect in one run does not stand in the way of another run:
/// a batch whose effects its own run never started, each of them once, is
/// refused for none of them.
pub proof fn law_effects_are_per_run(
    st: JournalState,
    t: Seq<char>,
    epoch: u64,
    batch: Seq<AppendModel>,
)
    requires
        forall|i: int|
            0 <= i < batch.len() ==> match started(#[trigger] batch[i]) {
                Some(e) => !st.once.contains_key((t, (batch[0].run, e))),
                None => true,
            },
        forall|i: int, j: int|
            0 <= i < j < batch.len() && started(#[trigger] batch[i]) is Some ==> started(batch[i])
                != started(#[trigger] batch[j]),
    ensures
        !(append_refusal(st, t, epoch, batch) matches Some(Refusal::DuplicateEffect(_))),
{
    assert forall|i: int| 0 <= i < batch.len() implies !#[trigger] repeats(st, t, batch, i) by {
        assert(started(batch[i]) is Some ==> !st.once.contains_key(
            (t, (batch[0].run, started(batch[i])->0)),
        ));
    }
    lemma_none_repeats(st, t, batch, batch.len() as int);
    lemma_head_is_no_duplicate(st, (t, batch[0].run));
}

proof fn lemma_head_is_no_duplicate(st: JournalState, name: RunName)
    ensures
        !(head_of(st, name) matches Err(Refusal::DuplicateEffect(_))),
{
}

proof fn lemma_none_repeats(st: JournalState, t: Seq<char>, batch: Seq<AppendModel>, n: int)
    requires
        0 <= n <= batch.len(),
        forall|i: int| 0 <= i < n ==> !#[trigger] repeats(st, t, batch, i),
    ensures
        first_repeat(st, t, batch, n) is None,
    decreases n,
{
    if n > 0 {
        lemma_none_repeats(st, t, batch, n - 1);
    }
}

proof fn lemma_repeat_stays(
    st: JournalState,
    t: Seq<char>,
    batch: Seq<AppendModel>,
    n: int,
    m: int,
)
    requires
        n <= m,
        first_repeat(st, t, batch, n) is Some,
    ensures
        first_repeat(st, t, batch, m) == first_repeat(st, t, batch, n),
    decreases m - n,
{
    if n < m {
        lemma_repeat_stays(st, t, batch, n, m - 1);
    }
}

/// Exactly once, whatever else is wrong: an effect whose start the journal holds
/// is not started again in its run, whatever batch carries the second start.
pub proof fn law_effect_starts_once(
    st: JournalState,
    t: Seq<char>,
    epoch: u64,
    batch: Seq<AppendModel>,
    i: int,
    effect: Seq<char>,
)
    requires
        0 <= i < batch.len(),
        started(batch[i]) == Some(effect),
        st.once.contains_key((t, (batch[0].run, effect))),
    ensures
        append_refusal(st, t, epoch, batch) is Some,
{
    assert(repeats(st, t, batch, i));
    lemma_repeat_found(st, t, batch, i, batch.len() as int);
}

proof fn lemma_repeat_found(
    st: JournalState,
    t: Seq<char>,
    batch: Seq<AppendModel>,
    i: int,
    n: int,
)
    requires
        0 <= i < n,
        repeats(st, t, batch, i),
    ensures
        first_repeat(st, t, batch, n) is Some,
    decreases n,
{
    if n > i + 1 {
        lemma_repeat_found(st, t, batch, i, n - 1);
    }
}

/// An append records the start of every effect it carries, and forgets none.
pub proof fn law_starts_are_kept(
    st: JournalState,
    t: Seq<char>,
    now: u64,
    epoch: u64,
    batch: Seq<AppendModel>,
    i: int,
    effect: Seq<char>,
    k: (Seq<char>, (Seq<char>, Seq<char>)),
)
    requires
        append_refusal(st, t, epoch, batch) is None,
        0 <= i < batch.len(),
        started(batch[i]) == Some(effect),
    ensures
        appended(st, t, now, batch).once.contains_key((t, (batch[0].run, effect))),
        st.once.contains_key(k) ==> appended(st, t, now, batch).once.contains_key(k),
{
    let name = (t, batch[0].run);
    assert forall|j: int| !strays(batch, j) by {
        if strays(batch, j) {
            assert(exists|x: int| strays(batch, x));
        }
    }
    lemma_records(st, name, head_of(st, name)->Ok_0, batch, batch.len() as int);
}

/// An effect that a batch started is started by no later batch of the run: a
/// batch that leads with it is answered that the effect is a duplicate, and what
/// other runs have started is as it was.
pub proof fn law_started_effect_is_refused(
    st: JournalState,
    t: Seq<char>,
    now: u64,
    epoch: u64,
    batch: Seq<AppendModel>,
    i: int,
    effect: Seq<char>,
    again: Seq<AppendModel>,
    len: u64,
    other: Seq<char>,
    e: Seq<char>,
)
    requires
        append_refusal(st, t, epoch, batch) is None,
        0 <= i < batch.len(),
        started(batch[i]) == Some(effect),
        chained(st, (t, batch[0].run), len),
        batch_fits(batch),
        again.len() > 0,
        one_run(again, again.len() as int),
        again[0].run == batch[0].run,
        started(again[0]) == Some(effect),
        len + batch.len() + again.len() <= u64::MAX,
        upcoming(appended(st, t, now, batch).next_conclusion, t) + again.len() <= u64::MAX,
        other != batch[0].run,
    ensures
        append_refusal(appended(st, t, now, batch), t, epoch, again) == Some(
            Refusal::DuplicateEffect(effect),
        ),
        appended(st, t, now, batch).once.contains_key((t, (other, e))) == st.once.contains_key(
            (t, (other, e)),
        ),
{
    let name = (t, batch[0].run);
    let st2 = appended(st, t, now, batch);
    let n = batch.len() as int;
    assert forall|j: int| !strays(batch, j) by {
        if strays(batch, j) {
            assert(exists|x: int| strays(batch, x));
        }
    }
    law_starts_are_kept(st, t, now, epoch, batch, i, effect, (t, (other, e)));
    lemma_records(st, name, head_of(st, name)->Ok_0, batch, n);
    lemma_records_leave_activity(st, name, head_of(st, name)->Ok_0, batch, n);
    law_append_extends_the_chain(st, t, now, epoch, batch, len);
    lemma_chain_head(st, name, len);
    lemma_chain_head(st2, name, (len + n) as u64);
    law_second_start_is_a_duplicate(st2, t, epoch, again, 0, effect);
}

/// What is sealed on a head follows that head: a batch that is let in begins where
/// its writer saw the chain end, and one whose writer saw another end is refused.
pub proof fn law_sealed_batch_follows_its_head(
    st: JournalState,
    t: Seq<char>,
    epoch: u64,
    batch: Seq<AppendModel>,
    on: HeadModel,
)
    requires
        batch.len() > 0,
    ensures
        sealed_append_refusal(st, t, epoch, batch, on) is None ==> head_of(
            st,
            (t, batch[0].run),
        ) == Ok::<HeadModel, Refusal>(on),
        append_refusal(st, t, epoch, batch) is None && head_of(st, (t, batch[0].run))->Ok_0 != on
            ==> sealed_append_refusal(st, t, epoch, batch, on) is Some,
{
}

/// Whether the records of a run are a chain: positions from one on without a
/// gap, each row following the hash of the one before it.
pub open spec fn chained(st: JournalState, name: RunName, len: u64) -> bool {
    &&& forall|s: u64| #[trigger]
        st.journal.contains_key((name.0, (name.1, s))) <==> 1 <= s <= len
    &&& forall|s: u64|
        1 <= s <= len ==> {
            &&& decoded(#[trigger] st.journal[(name.0, (name.1, s))]) is Ok
            &&& decoded(st.journal[(name.0, (name.1, s))])->Ok_0.prev_hash == hash_before(
                st,
                name,
                s,
            )
        }
}

/// The hash that the record at a position follows.
pub open spec fn hash_before(st: JournalState, name: RunName, s: u64) -> Seq<u8> {
    if s <= 1 {
        zero_digest()
    } else {
        decoded(st.journal[(name.0, (name.1, (s - 1) as u64))])->Ok_0.hash
    }
}

/// The head of a chain is its last record.
pub proof fn lemma_chain_head(st: JournalState, name: RunName, len: u64)
    requires
        chained(st, name, len),
    ensures
        head_of(st, name) == Ok::<HeadModel, Refusal>(
            HeadModel { seq: len, hash: hash_before(st, name, (len + 1) as u64) },
        ) || len == u64::MAX,
        head_of(st, name) is Ok,
        head_of(st, name)->Ok_0.seq == len,
{
    if len == 0 {
        assert(!exists|s: u64| is_last(st, name, s)) by {
            if exists|s: u64| is_last(st, name, s) {
                let s = choose|s: u64| is_last(st, name, s);
                assert(st.journal.contains_key((name.0, (name.1, s))));
            }
        }
    } else {
        assert(st.journal.contains_key((name.0, (name.1, len))));
        assert(is_last(st, name, len));
        let s = choose|s: u64| is_last(st, name, s);
        assert(st.journal.contains_key((name.0, (name.1, s))));
        assert(s == len);
        assert(decoded(st.journal[(name.0, (name.1, len))]) is Ok);
    }
}

/// What an append leaves of a chain, and what it adds to it.
proof fn lemma_appended_rows(
    st: JournalState,
    t: Seq<char>,
    now: u64,
    epoch: u64,
    batch: Seq<AppendModel>,
    len: u64,
)
    requires
        batch.len() > 0,
        chained(st, (t, batch[0].run), len),
        append_refusal(st, t, epoch, batch) is None,
        batch_fits(batch),
    ensures
        len + batch.len() <= u64::MAX,
        head_of(st, (t, batch[0].run))->Ok_0.hash == hash_before(
            st,
            (t, batch[0].run),
            (len + 1) as u64,
        ),
        forall|s: u64| #[trigger]
            appended(st, t, now, batch).journal.contains_key((t, (batch[0].run, s))) <==> 1 <= s
                <= len + batch.len(),
        forall|s: u64|
            1 <= s <= len ==> #[trigger] appended(st, t, now, batch).journal[(
                t,
                (batch[0].run, s),
            )] == st.journal[(t, (batch[0].run, s))],
        forall|i: int|
            0 <= i < batch.len() ==> decoded(
                appended(st, t, now, batch).journal[(
                    t,
                    (batch[0].run, (len + i + 1) as u64),
                )],
            ) == Ok::<RowModel, Refusal>(
                whole_pair(
                    row_of(
                        #[trigger] batch[i],
                        prev_of(head_of(st, (t, batch[0].run))->Ok_0, batch, i),
                    ),
                ),
            ),
{
    let name = (t, batch[0].run);
    assert forall|j: int| !strays(batch, j) by {
        if strays(batch, j) {
            assert(exists|x: int| strays(batch, x));
        }
    }
    lemma_chain_head(st, name, len);
    let head = head_of(st, name)->Ok_0;
    let n = batch.len() as int;
    assert(head.seq == len);
    assert(len < u64::MAX);
    assert(head.hash == hash_before(st, name, (len + 1) as u64));
    lemma_records(st, name, head, batch, n);
    let st2 = appended(st, t, now, batch);
    assert(head.hash.len() == 32) by {
        if len > 0 {
            assert(decoded(st.journal[(name.0, (name.1, len))]) is Ok);
            lemma_decoded_hash(st.journal[(name.0, (name.1, len))]);
        }
    }
    assert forall|i: int| 0 <= i < n implies decoded(
        st2.journal[(t, (batch[0].run, (len + i + 1) as u64))],
    ) == Ok::<RowModel, Refusal>(
        whole_pair(row_of(#[trigger] batch[i], prev_of(head, batch, i))),
    ) by {
        let k = (t, (batch[0].run, (len + i + 1) as u64));
        assert(st2.journal[k] == encoded(row_of(batch[i], prev_of(head, batch, i))));
        assert(fits(row_of(batch[i], zero_digest())));
        if i > 0 {
            assert(fits(row_of(batch[i - 1], zero_digest())));
        }
        law_row_round_trip(row_of(batch[i], prev_of(head, batch, i)));
    }
}

/// An append extends a chain and breaks none: the run is a chain again, longer
/// by the batch, and every new record reads back as it was written.
pub proof fn law_append_extends_the_chain(
    st: JournalState,
    t: Seq<char>,
    now: u64,
    epoch: u64,
    batch: Seq<AppendModel>,
    len: u64,
)
    requires
        batch.len() > 0,
        chained(st, (t, batch[0].run), len),
        append_refusal(st, t, epoch, batch) is None,
        batch_fits(batch),
    ensures
        chained(
            appended(st, t, now, batch),
            (t, batch[0].run),
            (len + batch.len()) as u64,
        ),
        forall|i: int|
            0 <= i < batch.len() ==> decoded(
                appended(st, t, now, batch).journal[(
                    t,
                    (batch[0].run, (len + i + 1) as u64),
                )],
            ) == Ok::<RowModel, Refusal>(
                whole_pair(
                    row_of(
                        #[trigger] batch[i],
                        prev_of(head_of(st, (t, batch[0].run))->Ok_0, batch, i),
                    ),
                ),
            ),
{
    let name = (t, batch[0].run);
    lemma_appended_rows(st, t, now, epoch, batch, len);
    let head = head_of(st, name)->Ok_0;
    let n = batch.len() as int;
    let st2 = appended(st, t, now, batch);
    assert forall|s: u64| 1 <= s <= len + n implies {
        &&& decoded(#[trigger] st2.journal[(name.0, (name.1, s))]) is Ok
        &&& decoded(st2.journal[(name.0, (name.1, s))])->Ok_0.prev_hash == hash_before(
            st2,
            name,
            s,
        )
    } by {
        let k = (name.0, (name.1, s));
        if s <= len {
            assert(st2.journal[k] == st.journal[k]);
            assert(decoded(st.journal[k]) is Ok);
            if s > 1 {
                let k1 = (name.0, (name.1, (s - 1) as u64));
                assert(st2.journal[k1] == st.journal[k1]);
            }
        } else {
            let i = s - len - 1;
            assert(decoded(st2.journal[(t, (batch[0].run, (len + i + 1) as u64))]) == Ok::<
                RowModel,
                Refusal,
            >(whole_pair(row_of(batch[i], prev_of(head, batch, i)))));
            if i > 0 {
                let j = i - 1;
                assert(decoded(st2.journal[(t, (batch[0].run, (len + j + 1) as u64))]) == Ok::<
                    RowModel,
                    Refusal,
                >(whole_pair(row_of(batch[j], prev_of(head, batch, j)))));
            } else if s > 1 {
                let k1 = (name.0, (name.1, (s - 1) as u64));
                assert(st2.journal[k1] == st.journal[k1]);
            }
        }
    }
}

/// An append to one run leaves every other run's chain as it was.
pub proof fn law_append_leaves_other_chains(
    st: JournalState,
    t: Seq<char>,
    now: u64,
    epoch: u64,
    batch: Seq<AppendModel>,
    other: RunName,
    len: u64,
)
    requires
        batch.len() > 0,
        append_refusal(st, t, epoch, batch) is None,
        other != (t, batch[0].run),
        chained(st, other, len),
    ensures
        chained(appended(st, t, now, batch), other, len),
{
    let name = (t, batch[0].run);
    assert forall|j: int| !strays(batch, j) by {
        if strays(batch, j) {
            assert(exists|x: int| strays(batch, x));
        }
    }
    lemma_records(st, name, head_of(st, name)->Ok_0, batch, batch.len() as int);
    let st2 = appended(st, t, now, batch);
    assert forall|s: u64| 1 <= s <= len implies {
        &&& decoded(#[trigger] st2.journal[(other.0, (other.1, s))]) is Ok
        &&& decoded(st2.journal[(other.0, (other.1, s))])->Ok_0.prev_hash == hash_before(
            st2,
            other,
            s,
        )
    } by {
        assert(st2.journal[(other.0, (other.1, s))] == st.journal[(other.0, (other.1, s))]);
        if s > 1 {
            let k1 = (other.0, (other.1, (s - 1) as u64));
            assert(st2.journal[k1] == st.journal[k1]);
        }
    }
}

/// Whether a run's records are a chain of some length.
pub open spec fn is_chain(st: JournalState, name: RunName) -> bool {
    exists|len: u64| chained(st, name, len)
}

/// Whether every run's records are a chain.
pub open spec fn chains_agree(st: JournalState) -> bool {
    forall|name: RunName| #[trigger] is_chain(st, name)
}

/// Whether every record of a batch can be stored: no field of it is longer than
/// a stored length can say.
pub open spec fn batch_fits(batch: Seq<AppendModel>) -> bool {
    forall|i: int| 0 <= i < batch.len() ==> fits(row_of(#[trigger] batch[i], zero_digest()))
}

/// An append keeps every run a chain.
pub proof fn law_append_keeps_chains(
    st: JournalState,
    t: Seq<char>,
    now: u64,
    epoch: u64,
    batch: Seq<AppendModel>,
)
    requires
        chains_agree(st),
        append_refusal(st, t, epoch, batch) is None,
        batch_fits(batch),
    ensures
        chains_agree(appended(st, t, now, batch)),
{
    if batch.len() > 0 {
        let st2 = appended(st, t, now, batch);
        let run = (t, batch[0].run);
        assert forall|name: RunName| #[trigger] is_chain(st2, name) by {
            assert(is_chain(st, name));
            let len = choose|len: u64| chained(st, name, len);
            if name == run {
                law_append_extends_the_chain(st, t, now, epoch, batch, len);
                assert(chained(st2, name, (len + batch.len()) as u64));
            } else {
                law_append_leaves_other_chains(st, t, now, epoch, batch, name, len);
                assert(chained(st2, name, len));
            }
        }
    }
}

/// What leaves the records alone keeps every run a chain.
pub proof fn lemma_chains_carry_over(st: JournalState, st2: JournalState)
    requires
        chains_agree(st),
        st2.journal == st.journal,
    ensures
        chains_agree(st2),
{
    assert forall|name: RunName| #[trigger] is_chain(st2, name) by {
        assert(is_chain(st, name));
        let len = choose|len: u64| chained(st, name, len);
        assert forall|s: u64| 1 <= s <= len implies {
            &&& decoded(#[trigger] st2.journal[(name.0, (name.1, s))]) is Ok
            &&& decoded(st2.journal[(name.0, (name.1, s))])->Ok_0.prev_hash == hash_before(
                st2,
                name,
                s,
            )
        } by {
            assert(decoded(st.journal[(name.0, (name.1, s))]) is Ok);
        }
        assert(chained(st2, name, len));
    }
}

/// The positions of a chain of `len` records, in order.
proof fn lemma_chain_positions(st: JournalState, name: RunName, len: u64, from: u64, at: Seq<u64>)
    requires
        chained(st, name, len),
        from <= 1,
        chain_from(st, name, from, at),
    ensures
        at.len() == len,
        forall|i: int| 0 <= i < len ==> #[trigger] at[i] == i + 1,
{
    lemma_chain_prefix(st, name, len, from, at, at.len() as int);
    if at.len() < len {
        let s = (at.len() + 1) as u64;
        assert(st.journal.contains_key((name.0, (name.1, s))));
        let i = choose|i: int| 0 <= i < at.len() && at[i] == s;
        assert(at[i] == i + 1);
    }
    if at.len() > len {
        assert(st.journal.contains_key((name.0, (name.1, at[len as int]))));
    }
}

proof fn lemma_chain_prefix(
    st: JournalState,
    name: RunName,
    len: u64,
    from: u64,
    at: Seq<u64>,
    n: int,
)
    requires
        chained(st, name, len),
        from <= 1,
        chain_from(st, name, from, at),
        0 <= n <= at.len(),
    ensures
        forall|i: int| 0 <= i < n ==> #[trigger] at[i] == i + 1,
    decreases n,
{
    if n > 0 {
        let i = n - 1;
        lemma_chain_prefix(st, name, len, from, at, i);
        assert(st.journal.contains_key((name.0, (name.1, at[i]))));
        if i > 0 {
            assert(at[i - 1] == i);
        }
        if at[i] != i + 1 {
            assert(at[i] > i + 1);
            let s = (i + 1) as u64;
            assert(st.journal.contains_key((name.0, (name.1, s))));
            let j = choose|j: int| 0 <= j < at.len() && at[j] == s;
            if j < i {
                assert(at[j] == j + 1);
            } else if j > i {
                assert(at[i] < at[j]);
            }
        }
    }
}

/// What the records of a batch read back as: each as it was written, following
/// the hash of the one before it.
pub open spec fn batch_read(head: HeadModel, batch: Seq<AppendModel>) -> Seq<RowModel> {
    Seq::new(batch.len(), |i: int| whole_pair(row_of(batch[i], prev_of(head, batch, i))))
}

/// Read your writes: after an append a read of the run gives what a read gave
/// before, followed by the records of the batch in order, and the head is the
/// last of them.
pub proof fn law_read_your_writes(
    st: JournalState,
    t: Seq<char>,
    now: u64,
    epoch: u64,
    batch: Seq<AppendModel>,
    len: u64,
    from: u64,
    before: Seq<u64>,
    was: Result<Seq<RowModel>, Refusal>,
    after: Seq<u64>,
    is: Result<Seq<RowModel>, Refusal>,
)
    requires
        batch.len() > 0,
        chained(st, (t, batch[0].run), len),
        append_refusal(st, t, epoch, batch) is None,
        batch_fits(batch),
        from <= 1,
        chain_from(st, (t, batch[0].run), from, before),
        read_back(bytes_at(st, t, of_run(batch[0].run, before)), was),
        chain_from(appended(st, t, now, batch), (t, batch[0].run), from, after),
        read_back(
            bytes_at(appended(st, t, now, batch), t, of_run(batch[0].run, after)),
            is,
        ),
    ensures
        was is Ok,
        was->Ok_0.len() == len,
        is == Ok::<Seq<RowModel>, Refusal>(
            was->Ok_0 + batch_read(head_of(st, (t, batch[0].run))->Ok_0, batch),
        ),
        head_of(appended(st, t, now, batch), (t, batch[0].run)) == Ok::<HeadModel, Refusal>(
            HeadModel {
                seq: (len + batch.len()) as u64,
                hash: batch[batch.len() - 1].hash,
            },
        ),
{
    let run = batch[0].run;
    let name = (t, run);
    let st2 = appended(st, t, now, batch);
    let n = batch.len() as int;
    law_append_extends_the_chain(st, t, now, epoch, batch, len);
    assert forall|j: int| !strays(batch, j) by {
        if strays(batch, j) {
            assert(exists|x: int| strays(batch, x));
        }
    }
    lemma_chain_head(st, name, len);
    let head = head_of(st, name)->Ok_0;
    lemma_records(st, name, head, batch, n);
    let len2 = (len + n) as u64;
    lemma_chain_positions(st, name, len, from, before);
    lemma_chain_positions(st2, name, len2, from, after);
    let old_bytes = bytes_at(st, t, of_run(run, before));
    let new_bytes = bytes_at(st2, t, of_run(run, after));
    assert forall|i: int| 0 <= i < len implies #[trigger] old_bytes[i] == st.journal[(
        t,
        (run, (i + 1) as u64),
    )] && decoded(old_bytes[i]) is Ok && new_bytes[i] == old_bytes[i] by {
        assert(of_run(run, before)[i] == (run, before[i]));
        assert(of_run(run, after)[i] == (run, after[i]));
        let k = (t, (run, (i + 1) as u64));
        assert(decoded(st.journal[k]) is Ok);
        assert(st2.journal[k] == st.journal[k]);
    }
    assert forall|i: int| len <= i < len2 implies decoded(#[trigger] new_bytes[i]) == Ok::<
        RowModel,
        Refusal,
    >(batch_read(head, batch)[i - len]) by {
        assert(of_run(run, after)[i] == (run, after[i]));
        let j = i - len;
        let k = (t, (run, (len + j + 1) as u64));
        assert(new_bytes[i] == st2.journal[k]);
        assert(decoded(st2.journal[k]) == Ok::<RowModel, Refusal>(
            whole_pair(row_of(batch[j], prev_of(head, batch, j))),
        ));
    }
    if was is Err {
        let i = choose|i: int|
            {
                &&& 0 <= i < old_bytes.len()
                &&& decoded(#[trigger] old_bytes[i]) == Err::<RowModel, Refusal>(was->Err_0)
                &&& forall|j: int| 0 <= j < i ==> decoded(#[trigger] old_bytes[j]) is Ok
            };
        assert(decoded(old_bytes[i]) is Ok);
    }
    if is is Err {
        let i = choose|i: int|
            {
                &&& 0 <= i < new_bytes.len()
                &&& decoded(#[trigger] new_bytes[i]) == Err::<RowModel, Refusal>(is->Err_0)
                &&& forall|j: int| 0 <= j < i ==> decoded(#[trigger] new_bytes[j]) is Ok
            };
        if i < len {
            assert(new_bytes[i] == old_bytes[i]);
        }
        assert(decoded(new_bytes[i]) is Ok);
    }
    let rows = is->Ok_0;
    let want = was->Ok_0 + batch_read(head, batch);
    assert forall|i: int| 0 <= i < rows.len() implies rows[i] == want[i] by {
        assert(decoded(new_bytes[i]) == Ok::<RowModel, Refusal>(rows[i]));
        if i < len {
            assert(new_bytes[i] == old_bytes[i]);
            assert(decoded(old_bytes[i]) == Ok::<RowModel, Refusal>(was->Ok_0[i]));
        }
    }
    assert(rows =~= want);
    lemma_chain_head(st2, name, len2);
    assert(is_last(st2, name, len2)) by {
        assert(st2.journal.contains_key((name.0, (name.1, len2))));
    }
    lemma_head_is_last(st2, name, len2);
    assert(decoded(st2.journal[(t, (run, (len + (n - 1) + 1) as u64))]) == Ok::<
        RowModel,
        Refusal,
    >(whole_pair(row_of(batch[n - 1], prev_of(head, batch, n - 1)))));
}

proof fn lemma_head_is_last(st: JournalState, name: RunName, a: u64)
    requires
        is_last(st, name, a),
    ensures
        head_of(st, name) == match decoded(st.journal[(name.0, (name.1, a))]) {
            Ok(row) => Ok::<HeadModel, Refusal>(HeadModel { seq: a, hash: row.hash }),
            Err(why) => Err::<HeadModel, Refusal>(why),
        },
{
    let b = choose|s: u64| is_last(st, name, s);
    assert(is_last(st, name, b));
    assert(st.journal.contains_key((name.0, (name.1, b))));
    assert(st.journal.contains_key((name.0, (name.1, a))));
}

proof fn lemma_decoded_hash(raw: Seq<u8>)
    requires
        decoded(raw) is Ok,
    ensures
        decoded(raw)->Ok_0.hash.len() == 32,
{
}

/// Whether the outcome index holds each concluded run once, under the outcome
/// it last had.
pub open spec fn outcomes_agree(st: JournalState) -> bool {
    &&& forall|k: (Seq<char>, (Seq<char>, u64))| #[trigger]
        st.by_outcome.contains_key(k) ==> {
            let p = st.by_outcome[k];
            &&& p.tenant == k.0
            &&& p.fault is None
            &&& st.outcomes.contains_key((k.0, p.run))
            &&& st.outcomes[(k.0, p.run)] == (OutcomeModel { outcome: k.1.0, ordinal: k.1.1 })
        }
    &&& forall|name: RunName| #[trigger]
        st.outcomes.contains_key(name) ==> {
            let k = (name.0, (st.outcomes[name].outcome, st.outcomes[name].ordinal));
            &&& st.by_outcome.contains_key(k)
            &&& st.by_outcome[k].run == name.1
            &&& st.outcomes[name].ordinal < upcoming(st.next_conclusion, name.0)
        }
}

proof fn lemma_conclusion_agrees(st: JournalState, name: RunName, outcome: Seq<char>)
    requires
        outcomes_agree(st),
        upcoming(st.next_conclusion, name.0) < u64::MAX,
    ensures
        outcomes_agree(with_conclusion(st, name, outcome)),
{
    let st2 = with_conclusion(st, name, outcome);
    assert forall|k: (Seq<char>, (Seq<char>, u64))| #[trigger]
        st2.by_outcome.contains_key(k) implies {
        let p = st2.by_outcome[k];
        &&& p.tenant == k.0
        &&& p.fault is None
        &&& st2.outcomes.contains_key((k.0, p.run))
        &&& st2.outcomes[(k.0, p.run)] == (OutcomeModel { outcome: k.1.0, ordinal: k.1.1 })
    } by {
        if k != (name.0, (outcome, upcoming(st.next_conclusion, name.0))) {
            assert(st.by_outcome.contains_key(k));
            assert(st.outcomes.contains_key((k.0, st.by_outcome[k].run)));
        }
    }
    assert forall|nm: RunName| #[trigger] st2.outcomes.contains_key(nm) implies {
        let k = (nm.0, (st2.outcomes[nm].outcome, st2.outcomes[nm].ordinal));
        &&& st2.by_outcome.contains_key(k)
        &&& st2.by_outcome[k].run == nm.1
        &&& st2.outcomes[nm].ordinal < upcoming(st2.next_conclusion, nm.0)
    } by {
        if nm != name {
            assert(st.outcomes.contains_key(nm));
            let k = (nm.0, (st.outcomes[nm].outcome, st.outcomes[nm].ordinal));
            assert(st.by_outcome.contains_key(k));
            if st.outcomes.contains_key(name) {
                assert(st.by_outcome.contains_key(
                    (name.0, (st.outcomes[name].outcome, st.outcomes[name].ordinal)),
                ));
            }
        }
    }
}

proof fn lemma_records_agree(
    st: JournalState,
    name: RunName,
    head: HeadModel,
    batch: Seq<AppendModel>,
    n: int,
)
    requires
        outcomes_agree(st),
        0 <= n <= batch.len(),
        upcoming(st.next_conclusion, name.0) + n <= u64::MAX,
    ensures
        outcomes_agree(with_records(st, name, head, batch, n)),
        upcoming(with_records(st, name, head, batch, n).next_conclusion, name.0) <= upcoming(
            st.next_conclusion,
            name.0,
        ) + n,
    decreases n,
{
    if n > 0 {
        lemma_records_agree(st, name, head, batch, n - 1);
        let st1 = with_records(st, name, head, batch, n - 1);
        let seq = (head.seq + n) as u64;
        let a = batch[n - 1];
        match a.kind {
            KindModel::RunConcluded { outcome } => {
                let mid = with_record(
                    st1,
                    name,
                    seq,
                    prev_of(head, batch, n - 1),
                    AppendModel { kind: KindModel::Other, ..a },
                );
                assert(outcomes_agree(mid)) by {
                    assert(mid.by_outcome == st1.by_outcome && mid.outcomes == st1.outcomes);
                }
                lemma_conclusion_agrees(st1, name, outcome);
                let st2 = with_records(st, name, head, batch, n);
                let alone = with_conclusion(st1, name, outcome);
                assert(st2.by_outcome == alone.by_outcome);
                assert(st2.outcomes == alone.outcomes);
                assert(st2.next_conclusion == alone.next_conclusion);
            },
            _ => {},
        }
    }
}

/// A run is listed under how it last ended and nowhere else: an append keeps
/// the outcome index in step with the chain it derives from.
pub proof fn law_outcome_index_follows_the_chain(
    st: JournalState,
    t: Seq<char>,
    now: u64,
    epoch: u64,
    batch: Seq<AppendModel>,
)
    requires
        outcomes_agree(st),
        append_refusal(st, t, epoch, batch) is None,
    ensures
        outcomes_agree(appended(st, t, now, batch)),
{
    if batch.len() > 0 {
        let name = (t, batch[0].run);
        assert forall|j: int| !strays(batch, j) by {
            if strays(batch, j) {
                assert(exists|x: int| strays(batch, x));
            }
        }
        lemma_records_agree(st, name, head_of(st, name)->Ok_0, batch, batch.len() as int);
    }
}

/// The last conclusion wins: where the last record of a batch concludes the
/// run, that is how the run ended.
pub proof fn law_last_conclusion_wins(
    st: JournalState,
    t: Seq<char>,
    now: u64,
    epoch: u64,
    batch: Seq<AppendModel>,
    outcome: Seq<char>,
)
    requires
        append_refusal(st, t, epoch, batch) is None,
        batch.len() > 0,
        batch[batch.len() - 1].kind == (KindModel::RunConcluded { outcome }),
    ensures
        appended(st, t, now, batch).outcomes.contains_key((t, batch[0].run)),
        appended(st, t, now, batch).outcomes[(t, batch[0].run)].outcome == outcome,
{
}

/// Whether every run that was ever active has one activity row, at its last
/// append.
pub open spec fn activity_agrees(st: JournalState) -> bool {
    &&& forall|k: (Seq<char>, (u64, Seq<char>))| #[trigger]
        st.activity.contains_key(k) ==> st.last_activity.contains_key((k.0, k.1.1))
            && st.last_activity[(k.0, k.1.1)] == k.1.0
    &&& forall|name: RunName| #[trigger]
        st.last_activity.contains_key(name) ==> st.activity.contains_key(
            (name.0, (st.last_activity[name], name.1)),
        )
}

proof fn lemma_records_leave_activity(
    st: JournalState,
    name: RunName,
    head: HeadModel,
    batch: Seq<AppendModel>,
    n: int,
)
    ensures
        with_records(st, name, head, batch, n).activity == st.activity,
        with_records(st, name, head, batch, n).last_activity == st.last_activity,
        with_records(st, name, head, batch, n).seal_log == st.seal_log,
        with_records(st, name, head, batch, n).seals == st.seals,
        with_records(st, name, head, batch, n).leases == st.leases,
        with_records(st, name, head, batch, n).next_log_index == st.next_log_index,
    decreases n,
{
    if n > 0 {
        lemma_records_leave_activity(st, name, head, batch, n - 1);
    }
}

/// A run that is active moves to the front of the activity index, and every run
/// stays there once.
pub proof fn law_activity_agrees(st: JournalState, name: RunName, now: u64)
    requires
        activity_agrees(st),
    ensures
        activity_agrees(with_activity(st, name, now)),
        with_activity(st, name, now).last_activity[name] == now,
{
    let st2 = with_activity(st, name, now);
    assert forall|k: (Seq<char>, (u64, Seq<char>))| #[trigger]
        st2.activity.contains_key(k) implies st2.last_activity.contains_key((k.0, k.1.1))
        && st2.last_activity[(k.0, k.1.1)] == k.1.0 by {
        if k != (name.0, (now, name.1)) {
            assert(st.activity.contains_key(k));
        }
    }
    assert forall|nm: RunName| #[trigger]
        st2.last_activity.contains_key(nm) implies st2.activity.contains_key(
        (nm.0, (st2.last_activity[nm], nm.1)),
    ) by {
        if nm != name {
            assert(st.last_activity.contains_key(nm));
        }
    }
}

/// Being active keeps the indexes in agreement.
pub proof fn law_touching_agrees(st: JournalState, name: RunName, now: u64)
    requires
        indexes_agree(st),
    ensures
        indexes_agree(with_activity(st, name, now)),
{
    law_activity_agrees(st, name, now);
    lemma_log_carries_over(st, with_activity(st, name, now));
}

/// An append moves its run to the front of the activity index, and keeps every
/// run there once.
pub proof fn law_activity_index_has_each_run_once(
    st: JournalState,
    t: Seq<char>,
    now: u64,
    batch: Seq<AppendModel>,
)
    requires
        activity_agrees(st),
    ensures
        activity_agrees(appended(st, t, now, batch)),
        batch.len() > 0 ==> appended(st, t, now, batch).last_activity[(t, batch[0].run)] == now,
{
    if batch.len() > 0 {
        let name = (t, batch[0].run);
        let head = head_of(st, name)->Ok_0;
        lemma_records_leave_activity(st, name, head, batch, batch.len() as int);
        law_activity_agrees(
            with_records(st, name, head, batch, batch.len() as int),
            name,
            now,
        );
    }
}

/// Whether the log holds each sealed run at one position below the next one to
/// be handed out.
pub open spec fn log_agrees(st: JournalState) -> bool {
    &&& forall|k: (Seq<char>, u64)| #[trigger]
        st.seal_log.contains_key(k) ==> k.1 < upcoming(st.next_log_index, k.0)
    &&& forall|a: (Seq<char>, u64), b: (Seq<char>, u64)|
        #[trigger] st.seal_log.contains_key(a) && #[trigger] st.seal_log.contains_key(b) && a.0
            == b.0 && st.seal_log[a] == st.seal_log[b] ==> a == b
    &&& forall|name: RunName| #[trigger]
        st.seals.contains_key(name) ==> exists|i: u64| #[trigger]
            st.seal_log.contains_key((name.0, i)) && st.seal_log[(name.0, i)] == name.1
    &&& forall|k: (Seq<char>, u64)| #[trigger]
        st.seal_log.contains_key(k) ==> st.seals.contains_key((k.0, st.seal_log[k]))
}

/// A seal enters its run in the log once, at a position nobody had: positions
/// only grow, and a second seal takes none.
pub proof fn law_seal_enters_the_log_once(
    st: JournalState,
    name: RunName,
    epoch: u64,
    outcome: Seq<char>,
    head: Seq<u8>,
    now: u64,
)
    requires
        log_agrees(st),
        seal_refusal(st, name, epoch) is None,
    ensures
        log_agrees(with_seal(st, name, outcome, head, now)),
        forall|k: (Seq<char>, u64)| #[trigger]
            st.seal_log.contains_key(k) ==> with_seal(
                st,
                name,
                outcome,
                head,
                now,
            ).seal_log.contains_key(k) && with_seal(st, name, outcome, head, now).seal_log[k]
                == st.seal_log[k],
        !st.seals.contains_key(name) ==> logged(
            with_seal(st, name, outcome, head, now),
            name.0,
            upcoming(st.next_log_index, name.0),
        ),
{
    if !st.seals.contains_key(name) {
        let st2 = with_seal(st, name, outcome, head, now);
        let index = upcoming(st.next_log_index, name.0);
        assert forall|a: (Seq<char>, u64), b: (Seq<char>, u64)|
            #[trigger] st2.seal_log.contains_key(a) && #[trigger] st2.seal_log.contains_key(b)
                && a.0 == b.0 && st2.seal_log[a] == st2.seal_log[b] implies a == b by {
            let k = (name.0, index);
            if a == k && b != k {
                assert(st.seal_log.contains_key(b));
                assert(st.seals.contains_key((b.0, st.seal_log[b])));
            } else if b == k && a != k {
                assert(st.seal_log.contains_key(a));
                assert(st.seals.contains_key((a.0, st.seal_log[a])));
            } else if a != k && b != k {
                assert(st.seal_log.contains_key(a));
                assert(st.seal_log.contains_key(b));
            }
        }
        assert forall|nm: RunName| #[trigger] st2.seals.contains_key(nm) implies exists|i: u64|
            #[trigger]
            st2.seal_log.contains_key((nm.0, i)) && st2.seal_log[(nm.0, i)] == nm.1 by {
            if nm == name {
                assert(st2.seal_log.contains_key((name.0, index)));
            } else {
                assert(st.seals.contains_key(nm));
                let i = choose|i: u64| #[trigger]
                    st.seal_log.contains_key((nm.0, i)) && st.seal_log[(nm.0, i)] == nm.1;
                assert(st2.seal_log.contains_key((nm.0, i)));
            }
        }
    }
}

/// A log only grows: a first seal puts its run behind every run that was there,
/// and leaves every leaf before it as it was. An older checkpoint is a prefix of
/// a newer one.
pub proof fn law_log_only_grows(
    st: JournalState,
    name: RunName,
    epoch: u64,
    outcome: Seq<char>,
    head: Seq<u8>,
    now: u64,
    at: Seq<u64>,
)
    requires
        log_agrees(st),
        seal_refusal(st, name, epoch) is None,
        !st.seals.contains_key(name),
        log_order(st, name.0, at),
    ensures
        ({
            let st2 = with_seal(st, name, outcome, head, now);
            let index = upcoming(st.next_log_index, name.0);
            &&& log_order(st2, name.0, at.push(index))
            &&& leaf(st2, name.0, index) == head
            &&& forall|i: int|
                0 <= i < at.len() ==> leaf(st2, name.0, #[trigger] at[i]) == leaf(st, name.0, at[i])
        }),
{
    let st2 = with_seal(st, name, outcome, head, now);
    let index = upcoming(st.next_log_index, name.0);
    let all = at.push(index);
    assert forall|i: int| 0 <= i < at.len() implies leaf(st2, name.0, #[trigger] at[i]) == leaf(
        st,
        name.0,
        at[i],
    ) && at[i] < index && logged(st2, name.0, at[i]) by {
        assert(logged(st, name.0, at[i]));
        assert(st.seal_log.contains_key((name.0, at[i])));
    }
    assert forall|i: int| 0 <= i < all.len() implies logged(st2, name.0, #[trigger] all[i]) by {
        if i < at.len() {
            assert(all[i] == at[i]);
            assert(logged(st2, name.0, at[i]));
        }
    }
    assert forall|i: int, j: int| 0 <= i < j < all.len() implies #[trigger] all[i] < #[trigger] all[j] by {
        assert(all[i] == at[i]);
        assert(at[i] < index);
        if j < at.len() {
            assert(all[j] == at[j]);
        }
    }
    assert forall|n: u64| #[trigger] logged(st2, name.0, n) implies all.contains(n) by {
        if n == index {
            assert(all[at.len() as int] == index);
        } else {
            assert(st.seal_log.contains_key((name.0, n)));
            assert(logged(st, name.0, n));
            let i = choose|i: int| 0 <= i < at.len() && at[i] == n;
            assert(all[i] == n);
        }
    }
}

/// An append leaves the log as it is.
pub proof fn law_append_leaves_the_log(
    st: JournalState,
    t: Seq<char>,
    now: u64,
    batch: Seq<AppendModel>,
    u: Seq<char>,
    at: Seq<u64>,
)
    requires
        log_order(st, u, at),
    ensures
        log_order(appended(st, t, now, batch), u, at),
        forall|i: int|
            0 <= i < at.len() ==> leaf(appended(st, t, now, batch), u, #[trigger] at[i]) == leaf(
                st,
                u,
                at[i],
            ),
{
    let st2 = appended(st, t, now, batch);
    if batch.len() > 0 {
        let name = (t, batch[0].run);
        let head = head_of(st, name)->Ok_0;
        lemma_records_leave_activity(st, name, head, batch, batch.len() as int);
    }
    assert forall|i: int| 0 <= i < at.len() implies logged(st2, u, #[trigger] at[i]) by {
        assert(logged(st, u, at[i]));
    }
    assert forall|n: u64| #[trigger] logged(st2, u, n) implies at.contains(n) by {
        assert(logged(st, u, n));
    }
}

/// What the history of a case lists is there to be read, and so is the record
/// that started an effect.
pub proof fn law_pointers_lead_to_records(
    st: JournalState,
    t: Seq<char>,
    case: Seq<char>,
    at: (Seq<char>, u64),
    run: Seq<char>,
    effect: Seq<char>,
)
    requires
        indexes_agree(st),
    ensures
        st.by_case.contains_key((t, (case, at))) ==> in_case(st, t, case, at),
        st.once.contains_key((t, (run, effect))) ==> st.journal.contains_key(
            (t, (run, st.once[(t, (run, effect))])),
        ),
{
    if st.by_case.contains_key((t, (case, at))) {
        let k = (t, (case, at));
        assert(st.by_case.contains_key(k));
    }
}

/// A blank journal meets every invariant.
pub proof fn law_blank_journal_agrees(name: RunName)
    ensures
        outcomes_agree(blank_journal()),
        activity_agrees(blank_journal()),
        log_agrees(blank_journal()),
        pointers_agree(blank_journal()),
        chained(blank_journal(), name, 0),
        chains_agree(blank_journal()),
{
    assert forall|other: RunName| #[trigger] is_chain(blank_journal(), other) by {
        assert(chained(blank_journal(), other, 0));
    }
}

/// One tenant's appends, leases and seals leave every other tenant's journal
/// alone.
pub proof fn law_journal_tenants_apart(
    st: JournalState,
    t: Seq<char>,
    now: u64,
    epoch: u64,
    batch: Seq<AppendModel>,
    other: RunName,
    s: u64,
    owner: Seq<char>,
    head: Seq<u8>,
)
    requires
        other.0 != t,
        batch.len() > 0,
        append_refusal(st, t, epoch, batch) is None,
    ensures
        ({
            let st2 = appended(st, t, now, batch);
            let name = (t, batch[0].run);
            let k = (other.0, (other.1, s));
            &&& st2.journal.contains_key(k) == st.journal.contains_key(k)
            &&& st2.journal[k] == st.journal[k]
            &&& st2.leases == st.leases
            &&& st2.seals == st.seals
            &&& with_lease(st, name, owner, epoch, s).leases.contains_key(other)
                == st.leases.contains_key(other)
            &&& with_lease(st, name, owner, epoch, s).leases[other] == st.leases[other]
            &&& with_seal(st, name, owner, head, now).seals.contains_key(other)
                == st.seals.contains_key(other)
            &&& with_seal(st, name, owner, head, now).seals[other] == st.seals[other]
        }),
{
    let name = (t, batch[0].run);
    assert forall|j: int| !strays(batch, j) by {
        if strays(batch, j) {
            assert(exists|x: int| strays(batch, x));
        }
    }
    let h = head_of(st, name)->Ok_0;
    lemma_records(st, name, h, batch, batch.len() as int);
    lemma_records_leave_activity(st, name, h, batch, batch.len() as int);
}

/// Whether what points at a record points at one that is there: the history of a
/// case, and where an effect was started.
pub open spec fn pointers_agree(st: JournalState) -> bool {
    &&& forall|k: (Seq<char>, (Seq<char>, (Seq<char>, u64)))| #[trigger]
        st.by_case.contains_key(k) ==> st.journal.contains_key((k.0, k.1.1))
    &&& forall|k: (Seq<char>, (Seq<char>, Seq<char>))| #[trigger]
        st.once.contains_key(k) ==> st.journal.contains_key((k.0, (k.1.0, st.once[k])))
}

proof fn lemma_record_points(
    st: JournalState,
    name: RunName,
    seq: u64,
    prev: Seq<u8>,
    a: AppendModel,
)
    requires
        pointers_agree(st),
    ensures
        pointers_agree(with_record(st, name, seq, prev, a)),
{
    let st2 = with_record(st, name, seq, prev, a);
    assert forall|k: (Seq<char>, (Seq<char>, (Seq<char>, u64)))| #[trigger]
        st2.by_case.contains_key(k) implies st2.journal.contains_key((k.0, k.1.1)) by {
        if st.by_case.contains_key(k) {
            assert(st.journal.contains_key((k.0, k.1.1)));
        }
    }
    assert forall|k: (Seq<char>, (Seq<char>, Seq<char>))| #[trigger]
        st2.once.contains_key(k) implies st2.journal.contains_key(
        (k.0, (k.1.0, st2.once[k])),
    ) by {
        if st.once.contains_key(k) {
            assert(st.journal.contains_key((k.0, (k.1.0, st.once[k]))));
        }
    }
}

proof fn lemma_records_point(
    st: JournalState,
    name: RunName,
    head: HeadModel,
    batch: Seq<AppendModel>,
    n: int,
)
    requires
        pointers_agree(st),
    ensures
        pointers_agree(with_records(st, name, head, batch, n)),
    decreases n,
{
    if n > 0 {
        lemma_records_point(st, name, head, batch, n - 1);
        lemma_record_points(
            with_records(st, name, head, batch, n - 1),
            name,
            (head.seq + n) as u64,
            prev_of(head, batch, n - 1),
            batch[n - 1],
        );
    }
}

/// Whether the indexes of a journal agree with what they derive from.
pub open spec fn indexes_agree(st: JournalState) -> bool {
    &&& outcomes_agree(st)
    &&& activity_agrees(st)
    &&& log_agrees(st)
    &&& pointers_agree(st)
}

proof fn lemma_log_carries_over(st: JournalState, st2: JournalState)
    requires
        log_agrees(st),
        st2.seal_log == st.seal_log,
        st2.seals == st.seals,
        st2.next_log_index == st.next_log_index,
    ensures
        log_agrees(st2),
{
    assert forall|name: RunName| #[trigger] st2.seals.contains_key(name) implies exists|i: u64|
        #[trigger]
        st2.seal_log.contains_key((name.0, i)) && st2.seal_log[(name.0, i)] == name.1 by {
        assert(st.seals.contains_key(name));
        let i = choose|i: u64| #[trigger]
            st.seal_log.contains_key((name.0, i)) && st.seal_log[(name.0, i)] == name.1;
        assert(st2.seal_log.contains_key((name.0, i)));
    }
}

/// What leaves the indexes alone keeps them in agreement.
pub proof fn lemma_indexes_carry_over(st: JournalState, st2: JournalState)
    requires
        indexes_agree(st),
        st2.by_outcome == st.by_outcome,
        st2.outcomes == st.outcomes,
        st2.next_conclusion == st.next_conclusion,
        st2.activity == st.activity,
        st2.last_activity == st.last_activity,
        st2.seal_log == st.seal_log,
        st2.seals == st.seals,
        st2.next_log_index == st.next_log_index,
        st2.by_case == st.by_case,
        st2.once == st.once,
        forall|k: Position| #[trigger]
            st.journal.contains_key(k) ==> st2.journal.contains_key(k),
    ensures
        indexes_agree(st2),
{
    lemma_log_carries_over(st, st2);
}

/// An append keeps the indexes in agreement.
pub proof fn law_appending_agrees(
    st: JournalState,
    t: Seq<char>,
    now: u64,
    epoch: u64,
    batch: Seq<AppendModel>,
)
    requires
        indexes_agree(st),
        append_refusal(st, t, epoch, batch) is None,
    ensures
        indexes_agree(appended(st, t, now, batch)),
{
    law_outcome_index_follows_the_chain(st, t, now, epoch, batch);
    law_activity_index_has_each_run_once(st, t, now, batch);
    if batch.len() > 0 {
        let name = (t, batch[0].run);
        let head = head_of(st, name)->Ok_0;
        lemma_records_leave_activity(st, name, head, batch, batch.len() as int);
        lemma_records_point(st, name, head, batch, batch.len() as int);
    }
    lemma_log_carries_over(st, appended(st, t, now, batch));
}

/// A seal keeps the indexes in agreement.
pub proof fn law_sealing_agrees(
    st: JournalState,
    name: RunName,
    epoch: u64,
    outcome: Seq<char>,
    head: Seq<u8>,
    now: u64,
)
    requires
        indexes_agree(st),
        seal_refusal(st, name, epoch) is None,
    ensures
        indexes_agree(with_seal(st, name, outcome, head, now)),
{
    law_seal_enters_the_log_once(st, name, epoch, outcome, head, now);
}

/// Taking, renewing and giving back a lease keep the indexes in agreement.
pub proof fn law_leasing_agrees(
    st: JournalState,
    name: RunName,
    owner: Seq<char>,
    epoch: u64,
    expires_at: u64,
)
    requires
        indexes_agree(st),
    ensures
        indexes_agree(with_lease(st, name, owner, epoch, expires_at)),
        indexes_agree(released(st, name, epoch)),
{
    lemma_log_carries_over(st, with_lease(st, name, owner, epoch, expires_at));
    lemma_log_carries_over(st, released(st, name, epoch));
}

/// Every clean exit hands its lease back, so what is recovered is what somebody
/// died holding: a run whose lease was given back, or is live, is not taken for
/// lost, however late it is.
pub proof fn law_clean_exit_is_not_recovered(
    st: JournalState,
    name: RunName,
    owner: Seq<char>,
    epoch: u64,
    now: u64,
    later: u64,
)
    requires
        holds_lease(st, name, owner, epoch, now),
    ensures
        !stranded(st, name.0, now, name.1),
        !stranded(released(st, name, epoch), name.0, later, name.1),
{
}

/// A lost run is found: where there is room in the list, every run whose lease
/// lapsed while somebody held it is on it.
pub proof fn law_lost_run_is_found(
    st: JournalState,
    t: Seq<char>,
    now: u64,
    limit: usize,
    out: Seq<Seq<char>>,
    run: Seq<char>,
)
    requires
        oldest_stranded(st, t, now, limit, out),
        stranded(st, t, now, run),
        out.len() < limit,
    ensures
        out.contains(run),
{
}

/// A run that was taken over is on the list no longer.
pub proof fn law_takeover_leaves_the_list(
    st: JournalState,
    name: RunName,
    owner: Seq<char>,
    now: u64,
    ttl: Ttl,
)
    requires
        claim(st, name, now, ttl) is Ok,
    ensures
        !stranded(
            with_lease(st, name, owner, claim(st, name, now, ttl)->Ok_0, expiry(now, ttl)->Ok_0),
            name.0,
            now,
            name.1,
        ),
{
}

} // verus!
