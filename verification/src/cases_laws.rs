//! What holds of cases across operations.

use vstd::prelude::*;

use crate::cases::{
    by_time, case_closed, case_opened, case_runs, close_refusal, correlate_answer, deadline_moved,
    deadline_registered, deadline_row, due_rows, first_open, keys_claimed, keys_recorded, needing,
    next_slot, no_cases, placed_by_time, put_refusal, run_attached, runs_full, runs_of, state_put,
    status_set, unmet_in, AllKey, CaseKey, CaseState, DeadlineModel, DeadlineRowModel, DueKey,
    DueName, OpenKey, OpenSlot, RunSeen, RunSlot, StatusKey,
};
use crate::domain::{
    deadline_word, first_attention, outstanding, status_word, CaseStatus, DeadlineState, IdModel,
};
use crate::error::Refusal;
use crate::table::{chosen, has_key, lemma_chosen, Key};

verus! {

// ── The tables agree ────────────────────────────────────────────────────────

/// Empty tables agree.
pub proof fn law_no_cases_agree()
    ensures
        no_cases().wf(),
{
}

proof fn lemma_keys_claimed(
    m: Map<OpenKey, IdModel>,
    t: Seq<char>,
    case: Seq<char>,
    keys: Seq<(Seq<char>, Seq<char>)>,
    n: int,
)
    requires
        0 <= n <= keys.len(),
    ensures
        forall|k: OpenKey| #[trigger]
            keys_claimed(m, t, case, keys, n).contains_key(k) ==> (keys_claimed(
                m,
                t,
                case,
                keys,
                n,
            )[k] == (if k.0 == t && exists|i: int| 0 <= i < n && #[trigger] keys[i] == k.1 {
                crate::domain::good_id(case)
            } else {
                m[k]
            })) && (m.contains_key(k) || (k.0 == t && exists|i: int|
                0 <= i < n && #[trigger] keys[i] == k.1)),
        forall|k: OpenKey| #[trigger]
            m.contains_key(k) ==> keys_claimed(m, t, case, keys, n).contains_key(k),
        forall|i: int|
            0 <= i < n ==> keys_claimed(m, t, case, keys, n).contains_key(
                (t, #[trigger] keys[i]),
            ),
    decreases n,
{
    if n > 0 {
        lemma_keys_claimed(m, t, case, keys, n - 1);
        let before = keys_claimed(m, t, case, keys, n - 1);
        let after = keys_claimed(m, t, case, keys, n);
        assert forall|k: OpenKey| #[trigger] after.contains_key(k) implies (after[k] == (if k.0
            == t && exists|i: int| 0 <= i < n && #[trigger] keys[i] == k.1 {
            crate::domain::good_id(case)
        } else {
            m[k]
        })) && (m.contains_key(k) || (k.0 == t && exists|i: int|
            0 <= i < n && #[trigger] keys[i] == k.1)) by {
            if k == (t, keys[n - 1]) {
                assert(keys[n - 1] == k.1);
            } else {
                assert(before.contains_key(k));
                if k.0 == t && exists|i: int| 0 <= i < n && #[trigger] keys[i] == k.1 {
                    let i = choose|i: int| 0 <= i < n && #[trigger] keys[i] == k.1;
                    assert(i < n - 1);
                    assert(exists|i: int| 0 <= i < n - 1 && #[trigger] keys[i] == k.1);
                }
            }
        }
        assert forall|k: OpenKey| #[trigger] m.contains_key(k) implies after.contains_key(k) by {
            assert(before.contains_key(k));
        }
    }
}

proof fn lemma_keys_recorded(
    m: Map<AllKey, ()>,
    t: Seq<char>,
    case: Seq<char>,
    keys: Seq<(Seq<char>, Seq<char>)>,
    n: int,
)
    requires
        0 <= n <= keys.len(),
    ensures
        forall|k: AllKey| #[trigger]
            m.contains_key(k) ==> keys_recorded(m, t, case, keys, n).contains_key(k),
        forall|i: int|
            0 <= i < n ==> keys_recorded(m, t, case, keys, n).contains_key(
                (t, (case, #[trigger] keys[i])),
            ),
    decreases n,
{
    if n > 0 {
        lemma_keys_recorded(m, t, case, keys, n - 1);
        let before = keys_recorded(m, t, case, keys, n - 1);
        assert forall|k: AllKey| #[trigger] m.contains_key(k) implies keys_recorded(
            m,
            t,
            case,
            keys,
            n,
        ).contains_key(k) by {
            assert(before.contains_key(k));
        }
    }
}

/// Opening a case under an id that is not taken keeps the tables in agreement.
pub proof fn law_opening_agrees(
    st: CaseState,
    t: Seq<char>,
    case: Seq<char>,
    kind: Seq<char>,
    keys: Seq<(Seq<char>, Seq<char>)>,
    at: i64,
)
    requires
        st.wf(),
        !st.cases.contains_key((t, case)),
    ensures
        case_opened(st, t, case, kind, keys, at).wf(),
{
    let after = case_opened(st, t, case, kind, keys, at);
    let n = keys.len() as int;
    lemma_keys_claimed(st.corr_open, t, case, keys, n);
    lemma_keys_recorded(st.corr_all, t, case, keys, n);
    assert(status_word(CaseStatus::Open) != status_word(CaseStatus::Closed)) by {
        crate::domain::law_status_words_differ(CaseStatus::Open, CaseStatus::Closed);
    }
    assert forall|k: OpenKey| #[trigger]
        after.corr_open.contains_key(k) implies after.corr_all.contains_key(
        (k.0, (after.corr_open[k].text, k.1)),
    ) by {
        if k.0 == t && exists|i: int| 0 <= i < n && #[trigger] keys[i] == k.1 {
            let i = choose|i: int| 0 <= i < n && #[trigger] keys[i] == k.1;
            assert(after.corr_all.contains_key((t, (case, keys[i]))));
        } else {
            assert(st.corr_open.contains_key(k));
            assert(st.corr_all.contains_key((k.0, (st.corr_open[k].text, k.1))));
        }
    }
    assert forall|k: OpenKey| #[trigger] after.corr_open.contains_key(k) implies {
        let c = (k.0, after.corr_open[k].text);
        after.cases.contains_key(c) && after.cases[c].status != "closed"@
    } by {
        if !(k.0 == t && exists|i: int| 0 <= i < n && #[trigger] keys[i] == k.1) {
            assert(st.corr_open.contains_key(k));
        }
    }
}

/// Attaching a run keeps the tables in agreement.
pub proof fn law_attaching_agrees(st: CaseState, t: Seq<char>, case: Seq<char>, run: Seq<char>)
    requires
        st.wf(),
        st.runs.dom().finite(),
        !runs_full(st, t, case, run),
    ensures
        run_attached(st, t, case, run).wf(),
{
    if !st.run_seen.contains_key((t, (case, run))) {
        let next = next_slot(case_runs(st, t, case)) as u64;
        lemma_next_is_free(st, t, case, next);
        let after = run_attached(st, t, case, run);
        assert forall|k: RunSlot| #[trigger] after.runs.contains_key(k) implies {
            let s = (k.0, (k.1.0, after.runs[k].text));
            after.run_seen.contains_key(s) && after.run_seen[s] == k.1.1
        } by {
            if k != (t, (case, next)) {
                assert(st.runs.contains_key(k));
            }
        }
        assert forall|s: RunSeen| #[trigger] after.run_seen.contains_key(s) implies {
            let k = (s.0, (s.1.0, after.run_seen[s]));
            after.runs.contains_key(k) && after.runs[k].text == s.1.1
        } by {
            if s != (t, (case, run)) {
                assert(st.run_seen.contains_key(s));
                let k = (s.0, (s.1.0, st.run_seen[s]));
                assert(st.runs.contains_key(k));
            }
        }
    }
}

/// The place behind the last run of a case is free.
proof fn lemma_next_is_free(st: CaseState, t: Seq<char>, case: Seq<char>, next: u64)
    requires
        st.runs.dom().finite(),
        next == next_slot(case_runs(st, t, case)),
    ensures
        !st.runs.contains_key((t, (case, next))),
        forall|seq: u64| #[trigger] st.runs.contains_key((t, (case, seq))) ==> seq < next,
{
    let rows = case_runs(st, t, case);
    let f = runs_of(t, case);
    lemma_chosen::<(String, (String, u64)), IdModel>(st.runs, f);
    assert forall|seq: u64| #[trigger] st.runs.contains_key((t, (case, seq))) implies seq < next by {
        let k = (t, (case, seq));
        assert(st.runs.contains_key(k) && f((k, st.runs[k])));
        assert(has_key(rows, k));
        let i = choose|i: int| 0 <= i < rows.len() && (#[trigger] rows[i]).0 == k;
        let m = rows.len() - 1;
        assert(f(rows[m]));
        if i < m {
            assert(<(String, (String, u64)) as Key>::precedes(rows[i].0, rows[m].0));
            <String as Key>::lemma_irreflexive(t);
            <String as Key>::lemma_irreflexive(case);
        }
    }
}

/// Writing a state keeps the tables in agreement.
pub proof fn law_putting_agrees(st: CaseState, t: Seq<char>, case: Seq<char>, state: Seq<char>)
    requires
        st.wf(),
        st.cases.contains_key((t, case)),
    ensures
        state_put(st, t, case, state).wf(),
{
}

/// Moving a case between statuses, other than closing it, keeps the tables in
/// agreement.
pub proof fn law_status_moves_agree(st: CaseState, t: Seq<char>, case: Seq<char>, now: Seq<char>)
    requires
        st.wf(),
        st.cases.contains_key((t, case)),
        now != "closed"@,
    ensures
        status_set(st, t, case, now).wf(),
{
    lemma_lists_follow(st, t, case, now);
    let after = status_set(st, t, case, now);
    assert forall|k: OpenKey| #[trigger] after.corr_open.contains_key(k) implies {
        let c = (k.0, after.corr_open[k].text);
        after.cases.contains_key(c) && after.cases[c].status != "closed"@
    } by {
        assert(st.corr_open.contains_key(k));
    }
}

/// The lists that follow a case's status follow it to any status.
proof fn lemma_lists_follow(st: CaseState, t: Seq<char>, case: Seq<char>, now: Seq<char>)
    requires
        st.wf(),
        st.cases.contains_key((t, case)),
    ensures
        status_set(st, t, case, now).open_agrees(),
        status_set(st, t, case, now).status_agrees(),
{
    let after = status_set(st, t, case, now);
    assert forall|k: StatusKey| #[trigger] after.by_status.contains_key(k) <==> {
        &&& after.cases.contains_key((k.0, k.1.1.1))
        &&& after.cases[(k.0, k.1.1.1)].status == k.1.0
        &&& after.cases[(k.0, k.1.1.1)].opened_at == k.1.1.0
    } by {
        let _there = st.by_status.contains_key(k);
    }
    assert forall|k: OpenSlot| #[trigger] after.open.contains_key(k) <==> {
        &&& after.cases.contains_key((k.0, k.1.1))
        &&& after.cases[(k.0, k.1.1)].status != "closed"@
        &&& after.cases[(k.0, k.1.1)].opened_at == k.1.0
    } by {
        let _there = st.open.contains_key(k);
    }
}

/// Closing a case keeps the tables in agreement.
pub proof fn law_closing_agrees(st: CaseState, t: Seq<char>, case: Seq<char>)
    requires
        st.wf(),
        st.cases.contains_key((t, case)),
    ensures
        case_closed(st, t, case).wf(),
{
    lemma_lists_follow(st, t, case, "closed"@);
    let after = case_closed(st, t, case);
    let mid = status_set(st, t, case, "closed"@);
    assert forall|k: OpenKey| #[trigger]
        after.corr_open.contains_key(k) implies after.corr_all.contains_key(
        (k.0, (after.corr_open[k].text, k.1)),
    ) by {
        assert(st.corr_open.contains_key(k));
    }
    assert forall|k: OpenKey| #[trigger] after.corr_open.contains_key(k) implies {
        let c = (k.0, after.corr_open[k].text);
        after.cases.contains_key(c) && after.cases[c].status != "closed"@
    } by {
        assert(st.corr_open.contains_key(k));
        assert(st.corr_all.contains_key((k.0, (st.corr_open[k].text, k.1))));
    }
    assert(after.open_agrees()) by {
        assert(mid.open_agrees());
        assert(after.open == mid.open && after.cases == mid.cases);
    }
    assert(after.status_agrees()) by {
        assert(mid.status_agrees());
        assert(after.by_status == mid.by_status && after.cases == mid.cases);
    }
}

/// Registering an obligation keeps the tables in agreement.
pub proof fn law_registering_agrees(st: CaseState, t: Seq<char>, d: DeadlineModel)
    requires
        st.wf(),
    ensures
        deadline_registered(st, t, d).wf(),
{
    let after = deadline_registered(st, t, d);
    assert forall|k: DueKey| #[trigger] after.due.contains_key(k) <==> {
        let n = (k.0, k.1.1);
        &&& after.deadlines.contains_key(n)
        &&& outstanding(after.deadlines[n].state)
        &&& k.1.0 == first_attention(after.deadlines[n].resolved_at, after.deadlines[n].warn_at)
    } by {
        let _there = st.due.contains_key(k);
    }
}

/// Moving an obligation between states keeps the tables in agreement.
pub proof fn law_deadline_moves_agree(
    st: CaseState,
    t: Seq<char>,
    case: Seq<char>,
    name: Seq<char>,
    to: Seq<char>,
)
    requires
        st.wf(),
        st.deadlines.contains_key((t, (case, name))),
    ensures
        deadline_moved(st, t, case, name, to).wf(),
{
    let after = deadline_moved(st, t, case, name, to);
    assert forall|k: DueKey| #[trigger] after.due.contains_key(k) <==> {
        let n = (k.0, k.1.1);
        &&& after.deadlines.contains_key(n)
        &&& outstanding(after.deadlines[n].state)
        &&& k.1.0 == first_attention(after.deadlines[n].resolved_at, after.deadlines[n].warn_at)
    } by {
        let _there = st.due.contains_key(k);
    }
}

// ── One open case per key ───────────────────────────────────────────────────

/// Linking a blob keeps the tables in agreement.
pub proof fn law_linking_agrees(
    st: CaseState,
    t: Seq<char>,
    case: Seq<char>,
    digest: Seq<u8>,
    at: i64,
)
    requires
        st.wf(),
    ensures
        crate::cases::blob_added(st, t, case, digest, at).wf(),
{
    let after = crate::cases::blob_added(st, t, case, digest, at);
    assert(after.open_agrees());
    assert(after.status_agrees());
    assert(after.due_agrees());
    assert(after.due_says_when());
    assert(after.runs_agree());
    assert(after.keys_agree());
    assert(after.keys_are_open());
}

/// A case that was opened under some keys is the case of every later message
/// that leads with one of them.
pub proof fn law_later_messages_attach(
    st: CaseState,
    t: Seq<char>,
    case: Seq<char>,
    kind: Seq<char>,
    keys: Seq<(Seq<char>, Seq<char>)>,
    at: i64,
    later: Seq<(Seq<char>, Seq<char>)>,
)
    requires
        later.len() > 0,
        keys.contains(later[0]),
    ensures
        correlate_answer(case_opened(st, t, case, kind, keys, at), t, later) == Ok::<
            Option<Seq<char>>,
            Refusal,
        >(Some(case)),
{
    let after = case_opened(st, t, case, kind, keys, at);
    lemma_keys_claimed(st.corr_open, t, case, keys, keys.len() as int);
    let i = choose|i: int| 0 <= i < keys.len() && keys[i] == later[0];
    assert(after.corr_open.contains_key((t, keys[i])));
    assert(first_open(after, t, later, 0) is None);
    assert(first_open(after, t, later, 1) == Some(crate::domain::good_id(case)));
    lemma_first_stays(after, t, later, 1, later.len() as int);
}

proof fn lemma_first_stays(
    st: CaseState,
    t: Seq<char>,
    keys: Seq<(Seq<char>, Seq<char>)>,
    n: int,
    m: int,
)
    requires
        n <= m,
        first_open(st, t, keys, n) is Some,
    ensures
        first_open(st, t, keys, m) == first_open(st, t, keys, n),
    decreases m - n,
{
    if n < m {
        lemma_first_stays(st, t, keys, n, m - 1);
    }
}

/// A message is only ever about a case that is there and not closed.
pub proof fn law_correlated_case_is_open(
    st: CaseState,
    t: Seq<char>,
    keys: Seq<(Seq<char>, Seq<char>)>,
    case: Seq<char>,
)
    requires
        st.wf(),
        correlate_answer(st, t, keys) == Ok::<Option<Seq<char>>, Refusal>(Some(case)),
    ensures
        st.cases.contains_key((t, case)),
        st.cases[(t, case)].status != "closed"@,
{
    lemma_first_open_is_open(st, t, keys, keys.len() as int);
}

proof fn lemma_first_open_is_open(
    st: CaseState,
    t: Seq<char>,
    keys: Seq<(Seq<char>, Seq<char>)>,
    n: int,
)
    requires
        st.wf(),
        0 <= n <= keys.len(),
    ensures
        match first_open(st, t, keys, n) {
            Some(id) => st.cases.contains_key((t, id.text)) && st.cases[(t, id.text)].status
                != "closed"@,
            None => true,
        },
    decreases n,
{
    if n > 0 {
        lemma_first_open_is_open(st, t, keys, n - 1);
        if st.corr_open.contains_key((t, keys[n - 1])) {
            assert(st.cases.contains_key((t, st.corr_open[(t, keys[n - 1])].text)));
        }
    }
}

/// A case that is closed lets go of every key it had open, so that a new matter
/// about the same thing opens a case of its own.
pub proof fn law_closing_frees_the_keys(
    st: CaseState,
    t: Seq<char>,
    case: Seq<char>,
    k: OpenKey,
)
    requires
        st.wf(),
        st.cases.contains_key((t, case)),
        k.0 == t,
    ensures
        case_closed(st, t, case).corr_open.contains_key(k) ==> case_closed(
            st,
            t,
            case,
        ).corr_open[k].text != case,
        case_closed(st, t, case).cases[(t, case)].status == "closed"@,
{
    if case_closed(st, t, case).corr_open.contains_key(k) {
        assert(st.corr_open.contains_key(k));
    }
}

/// A message about the keys of a case that was closed is not about that case:
/// with no other case open under them, it is about none.
pub proof fn law_closed_case_gets_no_message(
    st: CaseState,
    t: Seq<char>,
    case: Seq<char>,
    keys: Seq<(Seq<char>, Seq<char>)>,
)
    requires
        st.wf(),
        st.cases.contains_key((t, case)),
    ensures
        correlate_answer(case_closed(st, t, case), t, keys) != Ok::<Option<Seq<char>>, Refusal>(
            Some(case),
        ),
        (forall|i: int|
            0 <= i < keys.len() && st.corr_open.contains_key((t, #[trigger] keys[i]))
                ==> st.corr_open[(t, keys[i])].text == case) ==> correlate_answer(
            case_closed(st, t, case),
            t,
            keys,
        ) == Ok::<Option<Seq<char>>, Refusal>(None),
{
    lemma_closed_is_not_first(st, t, case, keys, keys.len() as int);
}

proof fn lemma_closed_is_not_first(
    st: CaseState,
    t: Seq<char>,
    case: Seq<char>,
    keys: Seq<(Seq<char>, Seq<char>)>,
    n: int,
)
    requires
        st.wf(),
        st.cases.contains_key((t, case)),
        0 <= n <= keys.len(),
    ensures
        match first_open(case_closed(st, t, case), t, keys, n) {
            Some(id) => id.text != case,
            None => true,
        },
        (forall|i: int|
            0 <= i < keys.len() && st.corr_open.contains_key((t, #[trigger] keys[i]))
                ==> st.corr_open[(t, keys[i])].text == case) ==> first_open(
            case_closed(st, t, case),
            t,
            keys,
            n,
        ) is None,
    decreases n,
{
    if n > 0 {
        lemma_closed_is_not_first(st, t, case, keys, n - 1);
        law_closing_frees_the_keys(st, t, case, (t, keys[n - 1]));
    }
}

/// Closing a case takes no key from another: one that was let go and claimed
/// anew stays with the case that has it.
pub proof fn law_closing_spares_other_cases(
    st: CaseState,
    t: Seq<char>,
    case: Seq<char>,
    k: OpenKey,
)
    requires
        st.corr_open.contains_key(k),
        k.0 != t || st.corr_open[k].text != case,
    ensures
        case_closed(st, t, case).corr_open.contains_key(k),
        case_closed(st, t, case).corr_open[k] == st.corr_open[k],
{
}

/// A case with an obligation that is not met is not closed.
pub proof fn law_open_deadline_blocks_closing(
    st: CaseState,
    t: Seq<char>,
    case: Seq<char>,
    name: Seq<char>,
)
    requires
        st.deadlines.dom().finite(),
        st.deadlines.contains_key((t, (case, name))),
        outstanding(st.deadlines[(t, (case, name))].state),
    ensures
        close_refusal(st, t, case) is Some,
        close_refusal(st, t, case)->0 is Backend,
{
    let f = unmet_in(t, case);
    lemma_chosen::<(String, (String, String)), DeadlineRowModel>(st.deadlines, f);
    let k: DueName = (t, (case, name));
    assert(st.deadlines.contains_key(k) && f((k, st.deadlines[k])));
    assert(has_key(
        chosen::<(String, (String, String)), DeadlineRowModel>(st.deadlines, f),
        k,
    ));
}

// ── State and runs ──────────────────────────────────────────────────────────

/// Of two writers that read one version, one writes: the second is refused, and
/// told the version that stands.
pub proof fn law_one_writer_per_version(
    st: CaseState,
    t: Seq<char>,
    case: Seq<char>,
    expected: u64,
    state: Seq<char>,
)
    requires
        put_refusal(st, t, case, expected) is None,
    ensures
        state_put(st, t, case, state).cases[(t, case)].version == expected + 1,
        state_put(st, t, case, state).cases[(t, case)].state == state,
        put_refusal(state_put(st, t, case, state), t, case, expected) == Some(
            Refusal::CaseConflict { case, expected, current: (expected + 1) as u64 },
        ),
{
}

/// Attaching a run twice is attaching it once.
pub proof fn law_attaching_is_idempotent(
    st: CaseState,
    t: Seq<char>,
    case: Seq<char>,
    run: Seq<char>,
)
    ensures
        run_attached(run_attached(st, t, case, run), t, case, run) == run_attached(
            st,
            t,
            case,
            run,
        ),
{
}

/// A run is attached behind every run that was attached before it.
pub proof fn law_runs_keep_their_order(
    st: CaseState,
    t: Seq<char>,
    case: Seq<char>,
    run: Seq<char>,
    seq: u64,
)
    requires
        st.runs.dom().finite(),
        !st.run_seen.contains_key((t, (case, run))),
        !runs_full(st, t, case, run),
        st.runs.contains_key((t, (case, seq))),
    ensures
        seq < run_attached(st, t, case, run).run_seen[(t, (case, run))],
        run_attached(st, t, case, run).runs[(t, (case, seq))] == st.runs[(t, (case, seq))],
{
    lemma_next_is_free(st, t, case, next_slot(case_runs(st, t, case)) as u64);
}

// ── Obligations ─────────────────────────────────────────────────────────────

/// The first registration of an obligation stands.
pub proof fn law_first_registration_stands(st: CaseState, t: Seq<char>, d: DeadlineModel, e: DeadlineModel)
    requires
        d.case == e.case,
        d.name == e.name,
    ensures
        deadline_registered(deadline_registered(st, t, d), t, e) == deadline_registered(st, t, d),
{
}

/// What was registered reads back as it was.
pub proof fn law_deadline_round_trip(d: DeadlineModel)
    requires
        d.calendar_digest.len() == 32,
    ensures
        crate::cases::deadline_read(d.case, d.name, deadline_row(d)) == Ok::<
            DeadlineModel,
            Refusal,
        >(d),
{
    let w = deadline_word(d.state);
    assert(crate::domain::is_deadline_word(w));
    assert(deadline_word(crate::cases::deadline_state_of(w)) == w);
    crate::domain::law_deadline_words_differ(d.state, crate::cases::deadline_state_of(w));
}

/// An outstanding obligation that needs attention is found: with room for all,
/// it is among those the sweep is given.
pub proof fn law_due_obligation_is_found(
    st: CaseState,
    t: Seq<char>,
    case: Seq<char>,
    name: Seq<char>,
    now: i64,
    limit: usize,
)
    requires
        st.wf(),
        st.due.dom().finite(),
        st.deadlines.contains_key((t, (case, name))),
        outstanding(st.deadlines[(t, (case, name))].state),
        first_attention(
            st.deadlines[(t, (case, name))].resolved_at,
            st.deadlines[(t, (case, name))].warn_at,
        ) <= now,
        chosen::<(String, (i64, (String, String))), i64>(st.due, needing(st, t, now)).len()
            <= limit,
    ensures
        exists|i: int|
            0 <= i < due_rows(st, t, now, limit).len() && (#[trigger] due_rows(
                st,
                t,
                now,
                limit,
            )[i]).0 == (t, (case, name)),
{
    let row = st.deadlines[(t, (case, name))];
    let k: DueKey = (t, (first_attention(row.resolved_at, row.warn_at), (case, name)));
    assert(st.due.contains_key(k));
    let f = needing(st, t, now);
    lemma_chosen::<(String, (i64, (String, String))), i64>(st.due, f);
    let rows = chosen::<(String, (i64, (String, String))), i64>(st.due, f);
    assert(st.due.contains_key(k) && f((k, st.due[k])));
    assert(has_key(rows, k));
    let i = choose|i: int| 0 <= i < rows.len() && (#[trigger] rows[i]).0 == k;
    assert(due_rows(st, t, now, limit)[i].0 == (t, (case, name)));
}

/// An obligation that is met, cancelled or breached leaves the list that drives
/// the sweep.
pub proof fn law_resolved_obligation_leaves_the_list(
    st: CaseState,
    t: Seq<char>,
    case: Seq<char>,
    name: Seq<char>,
    to: DeadlineState,
    at: i64,
)
    requires
        st.wf(),
        st.deadlines.contains_key((t, (case, name))),
        to == DeadlineState::Met || to == DeadlineState::Cancelled || to
            == DeadlineState::Breached,
    ensures
        !deadline_moved(st, t, case, name, deadline_word(to)).due.contains_key(
            (t, (at, (case, name))),
        ),
{
    let after = deadline_moved(st, t, case, name, deadline_word(to));
    crate::domain::law_deadline_words_differ(to, DeadlineState::Pending);
    crate::domain::law_deadline_words_differ(to, DeadlineState::Warned);
    law_deadline_moves_agree(st, t, case, name, deadline_word(to));
    let k: DueKey = (t, (at, (case, name)));
    assert(after.due.contains_key(k) ==> outstanding(after.deadlines[(t, (case, name))].state));
}

proof fn lemma_placed(s: Seq<DeadlineModel>, d: DeadlineModel)
    requires
        forall|i: int, j: int|
            0 <= i < j < s.len() ==> (#[trigger] s[i]).resolved_at <= (#[trigger] s[j]).resolved_at,
    ensures
        forall|i: int, j: int|
            0 <= i < j < placed_by_time(s, d).len() ==> (#[trigger] placed_by_time(
                s,
                d,
            )[i]).resolved_at <= (#[trigger] placed_by_time(s, d)[j]).resolved_at,
        placed_by_time(s, d).to_multiset() == s.to_multiset().insert(d),
        forall|i: int|
            0 <= i < placed_by_time(s, d).len() ==> (#[trigger] placed_by_time(
                s,
                d,
            )[i]).resolved_at <= d.resolved_at || exists|j: int|
                0 <= j < s.len() && s[j] == placed_by_time(s, d)[i],
    decreases s.len(),
{
    broadcast use vstd::seq_lib::group_to_multiset_ensures;

    if s.len() == 0 || s.last().resolved_at <= d.resolved_at {
        assert forall|i: int| 0 <= i < s.push(d).len() implies (#[trigger] s.push(
            d,
        )[i]).resolved_at <= d.resolved_at by {
            if i < s.len() {
                assert(s[i].resolved_at <= s[s.len() - 1].resolved_at);
            }
        }
    } else {
        let r = s.drop_last();
        let p = placed_by_time(r, d);
        let out = placed_by_time(s, d);
        assert(out == p.push(s.last()));
        lemma_placed(r, d);
        assert(s =~= r.push(s.last()));
        assert(s.to_multiset() == r.to_multiset().insert(s.last()));
        assert(out.to_multiset() == p.to_multiset().insert(s.last()));
        assert(out.to_multiset() =~= s.to_multiset().insert(d));
        assert forall|i: int| 0 <= i < p.len() implies (#[trigger] p[i]).resolved_at
            <= s.last().resolved_at by {
            if p[i].resolved_at > d.resolved_at {
                let j = choose|j: int| 0 <= j < r.len() && r[j] == p[i];
                assert(s[j].resolved_at <= s[s.len() - 1].resolved_at);
            }
        }
        assert forall|i: int| 0 <= i < out.len() implies (#[trigger] out[i]).resolved_at
            <= d.resolved_at || exists|j: int| 0 <= j < s.len() && s[j] == out[i] by {
            if i < p.len() {
                assert(out[i] == p[i]);
                if p[i].resolved_at > d.resolved_at {
                    let j = choose|j: int| 0 <= j < r.len() && r[j] == p[i];
                    assert(s[j] == out[i]);
                }
            } else {
                assert(s[s.len() - 1] == out[i]);
            }
        }
        assert forall|i: int, j: int| 0 <= i < j < out.len() implies (#[trigger] out[i]).resolved_at
            <= (#[trigger] out[j]).resolved_at by {
            assert(out[i] == p[i]);
            if j < p.len() {
                assert(out[j] == p[j]);
            }
        }
    }
}

/// Obligations come by when they are due, and none is lost or made up.
pub proof fn law_deadlines_come_in_order(s: Seq<DeadlineModel>)
    ensures
        forall|i: int, j: int|
            0 <= i < j < by_time(s).len() ==> (#[trigger] by_time(s)[i]).resolved_at <= (
            #[trigger] by_time(s)[j]).resolved_at,
        by_time(s).to_multiset() == s.to_multiset(),
    decreases s.len(),
{
    broadcast use vstd::seq_lib::group_to_multiset_ensures;

    if s.len() > 0 {
        law_deadlines_come_in_order(s.drop_last());
        lemma_placed(by_time(s.drop_last()), s.last());
        assert(s =~= s.drop_last().push(s.last()));
    } else {
        assert(by_time(s) =~= s);
    }
}

/// What one tenant does leaves every other tenant's cases alone.
pub proof fn law_case_tenants_apart(
    st: CaseState,
    t: Seq<char>,
    case: Seq<char>,
    kind: Seq<char>,
    keys: Seq<(Seq<char>, Seq<char>)>,
    at: i64,
    word: Seq<char>,
    name: Seq<char>,
    k: CaseKey,
    open: OpenKey,
    due: DueName,
)
    requires
        k.0 != t,
        open.0 != t,
        due.0 != t,
    ensures
        case_opened(st, t, case, kind, keys, at).cases.contains_key(k) == st.cases.contains_key(k),
        case_opened(st, t, case, kind, keys, at).corr_open.contains_key(open)
            == st.corr_open.contains_key(open),
        status_set(st, t, case, word).cases.contains_key(k) == st.cases.contains_key(k),
        case_closed(st, t, case).corr_open.contains_key(open) == st.corr_open.contains_key(open),
        st.cases.contains_key(k) ==> case_closed(st, t, case).cases[k] == st.cases[k],
        deadline_moved(st, t, case, name, word).deadlines.contains_key(due)
            == st.deadlines.contains_key(due),
        st.deadlines.contains_key(due) ==> deadline_moved(st, t, case, name, word).deadlines[due]
            == st.deadlines[due],
{
    lemma_keys_claimed(st.corr_open, t, case, keys, keys.len() as int);
}

} // verus!
