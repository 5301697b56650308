//! What the case layer answers and keeps, said of its tables.

use vstd::prelude::*;

use crate::cases::{
    blob_added, blob_rows, blobs_answer, blobs_in, blobs_read, by_status_answer, by_time,
    case_closed, case_keys, case_opened, case_read, case_runs, censused, close_refusal,
    correlate_answer, deadline_moved, deadline_read, deadline_registered, deadline_state_of,
    deadlines_answer, deadlines_in, deadlines_read, due_answer, due_by, due_rows, first_open,
    keys_claimed, keys_recorded, needing, next_slot, of_case, open_in, put_refusal, run_attached,
    runs_full, runs_of, runs_read, state_put, status_of, status_rows, status_set, unmet, unmet_in,
    with_status, worklist_read, AllKey, BlobKey, CaseCensus, CaseKey, CaseModel, CaseState,
    DeadlineModel, DeadlineRowModel, DueKey, DueName, OpenKey, OpenSlot, RunSlot, StatusKey,
};
use crate::cases_laws::law_deadlines_come_in_order;
use crate::domain::{
    deadline_word, first_attention, is_deadline_word, is_status_word, json_read,
    law_deadline_words_differ, law_status_words_differ, outstanding, status_word, CaseStatus,
    DeadlineState, IdModel,
};
use crate::error::Refusal;
use crate::table::{
    chosen, has_key, lemma_chosen, lemma_chosen_counted, lemma_chosen_gains, page, Key, Newest,
};

verus! {

// ── Words ───────────────────────────────────────────────────────────────────

/// A status reads back as it was written.
pub proof fn law_status_round_trip(s: CaseStatus)
    ensures
        status_of(status_word(s)) == s,
        is_status_word(status_word(s)),
{
    law_status_words_differ(s, CaseStatus::Open);
    law_status_words_differ(s, CaseStatus::AwaitingExternal);
    law_status_words_differ(s, CaseStatus::AwaitingHuman);
    law_status_words_differ(s, CaseStatus::Escalated);
    law_status_words_differ(s, CaseStatus::Closed);
}

/// The state of an obligation reads back as it was written, and it is outstanding
/// exactly while it is pending or warned of.
pub proof fn law_outstanding_until_resolved(s: DeadlineState)
    ensures
        deadline_state_of(deadline_word(s)) == s,
        is_deadline_word(deadline_word(s)),
        outstanding(deadline_word(s)) <==> s == DeadlineState::Pending || s
            == DeadlineState::Warned,
{
    law_deadline_words_differ(s, DeadlineState::Pending);
    law_deadline_words_differ(s, DeadlineState::Warned);
    law_deadline_words_differ(s, DeadlineState::Breached);
    law_deadline_words_differ(s, DeadlineState::Met);
    law_deadline_words_differ(s, DeadlineState::Cancelled);
}

/// An obligation needs attention once it is due, or once it gives warning.
pub proof fn law_attention_comes_with_the_first_instant(
    resolved_at: i64,
    warn_at: Option<i64>,
    now: i64,
)
    ensures
        first_attention(resolved_at, warn_at) <= now <==> resolved_at <= now || (warn_at is Some
            && warn_at->0 <= now),
{
}

// ── Correlating ─────────────────────────────────────────────────────────────

pub proof fn lemma_first_open(
    st: CaseState,
    t: Seq<char>,
    keys: Seq<(Seq<char>, Seq<char>)>,
    n: int,
)
    requires
        0 <= n <= keys.len(),
    ensures
        first_open(st, t, keys, n) matches Some(id) ==> exists|i: int|
            0 <= i < n && st.corr_open.contains_key((t, #[trigger] keys[i])) && st.corr_open[(
                t,
                keys[i],
            )] == id && forall|j: int|
                0 <= j < i ==> !st.corr_open.contains_key((t, #[trigger] keys[j])),
        first_open(st, t, keys, n) is None ==> forall|j: int|
            0 <= j < n ==> !st.corr_open.contains_key((t, #[trigger] keys[j])),
    decreases n,
{
    if n > 0 {
        lemma_first_open(st, t, keys, n - 1);
        if first_open(st, t, keys, n - 1) is None && st.corr_open.contains_key((t, keys[n - 1])) {
            assert(st.corr_open[(t, keys[n - 1])] == first_open(st, t, keys, n)->0);
        }
    }
}

/// A message is about the case that has the first of its keys that is open; it is
/// about none exactly where none of its keys is.
pub proof fn law_first_open_key_decides(
    st: CaseState,
    t: Seq<char>,
    keys: Seq<(Seq<char>, Seq<char>)>,
)
    ensures
        correlate_answer(st, t, keys) == Ok::<Option<Seq<char>>, Refusal>(None) <==> forall|j: int|
            0 <= j < keys.len() ==> !st.corr_open.contains_key((t, #[trigger] keys[j])),
        correlate_answer(st, t, keys) matches Ok(Some(case)) ==> exists|i: int|
            0 <= i < keys.len() && st.corr_open.contains_key((t, #[trigger] keys[i]))
                && st.corr_open[(t, keys[i])].text == case && st.corr_open[(t, keys[i])].fault
                is None && forall|j: int|
                0 <= j < i ==> !st.corr_open.contains_key((t, #[trigger] keys[j])),
{
    lemma_first_open(st, t, keys, keys.len() as int);
    if first_open(st, t, keys, keys.len() as int) is Some {
        let i = choose|i: int|
            0 <= i < keys.len() && st.corr_open.contains_key((t, #[trigger] keys[i]))
                && st.corr_open[(t, keys[i])] == first_open(st, t, keys, keys.len() as int)->0
                && forall|j: int|
                0 <= j < i ==> !st.corr_open.contains_key((t, #[trigger] keys[j]));
        assert(st.corr_open.contains_key((t, keys[i])));
    }
}

proof fn lemma_keys_are_claimed(
    st: CaseState,
    t: Seq<char>,
    case: Seq<char>,
    keys: Seq<(Seq<char>, Seq<char>)>,
    n: int,
    k: (Seq<char>, Seq<char>),
    u: Seq<char>,
    other: Seq<char>,
)
    requires
        0 <= n <= keys.len(),
    ensures
        ({
            let open = keys_claimed(st.corr_open, t, case, keys, n);
            let all = keys_recorded(st.corr_all, t, case, keys, n);
            let own = u == t && exists|i: int| 0 <= i < n && #[trigger] keys[i] == k;
            &&& open.contains_key((u, k)) <==> st.corr_open.contains_key((u, k)) || own
            &&& own ==> open[(u, k)].text == case && open[(u, k)].fault is None
            &&& !own && st.corr_open.contains_key((u, k)) ==> open[(u, k)] == st.corr_open[(u, k)]
            &&& all.contains_key((u, (other, k))) <==> st.corr_all.contains_key((u, (other, k)))
                || (own && other == case)
        }),
    decreases n,
{
    if n > 0 {
        lemma_keys_are_claimed(st, t, case, keys, n - 1, k, u, other);
        if keys[n - 1] == k {
            assert(0 <= n - 1 < n && keys[n - 1] == k);
        }
    }
}

/// A case that is opened is open, new and of its kind, and has each of the keys it
/// was opened under; no other key, no other case and no obligation is touched.
pub proof fn law_opened_case_is_new(
    st: CaseState,
    t: Seq<char>,
    case: Seq<char>,
    kind: Seq<char>,
    keys: Seq<(Seq<char>, Seq<char>)>,
    at: i64,
    k: OpenKey,
    other: CaseKey,
)
    ensures
        ({
            let after = case_opened(st, t, case, kind, keys, at);
            let row = after.cases[(t, case)];
            &&& after.cases.contains_key((t, case))
            &&& row.kind == kind
            &&& row.status == status_word(CaseStatus::Open)
            &&& row.state == "null"@
            &&& row.version == 0
            &&& row.opened_at == at
            &&& row.opened_fault is None
            &&& k.0 == t && keys.contains(k.1) ==> after.corr_open.contains_key(k)
                && after.corr_open[k].text == case && after.corr_open[k].fault is None
                && after.corr_all.contains_key((t, (case, k.1)))
            &&& !(k.0 == t && keys.contains(k.1)) ==> after.corr_open.contains_key(k)
                == st.corr_open.contains_key(k)
            &&& !(k.0 == t && keys.contains(k.1)) && st.corr_open.contains_key(k)
                ==> after.corr_open[k] == st.corr_open[k]
            &&& other != (t, case) ==> after.cases.contains_key(other) == st.cases.contains_key(
                other,
            )
            &&& other != (t, case) && st.cases.contains_key(other) ==> after.cases[other]
                == st.cases[other]
            &&& after.deadlines == st.deadlines
            &&& after.runs == st.runs
            &&& after.blobs == st.blobs
        }),
{
    lemma_keys_are_claimed(st, t, case, keys, keys.len() as int, k.1, k.0, case);
    if keys.contains(k.1) {
        let i = choose|i: int| 0 <= i < keys.len() && keys[i] == k.1;
        assert(keys[i] == k.1);
    }
}

// ── Reading a case ──────────────────────────────────────────────────────────

/// A case reads as it is kept, with every key that it ever claimed and no other;
/// it reads wherever its status is one, its instant is one and its runs are.
pub proof fn law_case_reads_as_it_is_kept(
    st: CaseState,
    t: Seq<char>,
    case: Seq<char>,
    parsed: Result<Seq<char>, Seq<char>>,
    k: (Seq<char>, Seq<char>),
)
    requires
        st.corr_all.dom().finite(),
    ensures
        case_read(st, t, case, parsed) is Ok <==> {
            let row = st.cases[(t, case)];
            &&& runs_read(case_runs(st, t, case), case_runs(st, t, case).len() as int) is Ok
            &&& is_status_word(row.status)
            &&& row.opened_fault is None
        },
        case_read(st, t, case, parsed) matches Ok(c) ==> {
            let row = st.cases[(t, case)];
            &&& c.id == case
            &&& c.kind == row.kind
            &&& status_word(c.status) == row.status
            &&& c.version == row.version
            &&& c.opened_at == row.opened_at
            &&& parsed is Ok ==> c.state == parsed->Ok_0
            &&& c.correlation.contains(k) <==> st.corr_all.contains_key((t, (case, k)))
            &&& runs_read(case_runs(st, t, case), case_runs(st, t, case).len() as int) == Ok::<
                Seq<Seq<char>>,
                Refusal,
            >(c.runs)
        },
{
    if is_status_word(st.cases[(t, case)].status) {
        let s = choose|s: CaseStatus| #[trigger] status_word(s) == st.cases[(t, case)].status;
        law_status_round_trip(s);
    }
    let f = of_case(t, case);
    let rows = chosen::<(String, (String, (String, String))), ()>(st.corr_all, f);
    lemma_chosen::<(String, (String, (String, String))), ()>(st.corr_all, f);
    let keys = case_keys(st, t, case);
    if keys.contains(k) {
        let i = choose|i: int| 0 <= i < keys.len() && keys[i] == k;
        assert(f(rows[i]) && st.corr_all.contains_key(rows[i].0));
        assert(rows[i].0 == (t, (case, k)));
    }
    let key: AllKey = (t, (case, k));
    if st.corr_all.contains_key(key) {
        assert(f((key, st.corr_all[key])));
        assert(has_key(rows, key));
        let i = choose|i: int| 0 <= i < rows.len() && (#[trigger] rows[i]).0 == key;
        assert(keys[i] == k);
    }
}

proof fn lemma_runs_prefix(a: Seq<(RunSlot, IdModel)>, b: Seq<(RunSlot, IdModel)>, n: int)
    requires
        0 <= n <= a.len(),
        n <= b.len(),
        forall|i: int| 0 <= i < n ==> a[i] == b[i],
    ensures
        runs_read(a, n) == runs_read(b, n),
    decreases n,
{
    if n > 0 {
        lemma_runs_prefix(a, b, n - 1);
    }
}

/// A run that is attached comes last among the runs of its case, behind those that
/// were; attached again, it keeps its place. No other case's runs are touched.
pub proof fn law_attached_run_comes_last(
    st: CaseState,
    t: Seq<char>,
    case: Seq<char>,
    run: Seq<char>,
    before: Seq<Seq<char>>,
)
    requires
        st.wf(),
        st.runs.dom().finite(),
        !runs_full(st, t, case, run),
        runs_read(case_runs(st, t, case), case_runs(st, t, case).len() as int) == Ok::<
            Seq<Seq<char>>,
            Refusal,
        >(before),
    ensures
        ({
            let after = run_attached(st, t, case, run);
            let rows = case_runs(after, t, case);
            &&& st.run_seen.contains_key((t, (case, run))) ==> after == st
            &&& !st.run_seen.contains_key((t, (case, run))) ==> runs_read(
                rows,
                rows.len() as int,
            ) == Ok::<Seq<Seq<char>>, Refusal>(before.push(run))
            &&& after.run_seen.contains_key((t, (case, run)))
            &&& after.cases == st.cases
            &&& after.corr_open == st.corr_open
            &&& after.deadlines == st.deadlines
        }),
{
    let f = runs_of(t, case);
    let old_rows = case_runs(st, t, case);
    lemma_chosen::<(String, (String, u64)), IdModel>(st.runs, f);
    if !st.run_seen.contains_key((t, (case, run))) {
        let next = next_slot(old_rows) as u64;
        let k: RunSlot = (t, (case, next));
        if old_rows.len() > 0 {
            assert(f(old_rows.last()));
        }
        assert forall|i: int| 0 <= i < old_rows.len() implies (#[trigger] old_rows[i]).0.0 == t
            && old_rows[i].0.1.0 == case && old_rows[i].0.1.1 < next by {
            assert(f(old_rows[i]));
            if i < old_rows.len() - 1 {
                assert(<(String, (String, u64)) as Key>::precedes(
                    old_rows[i].0,
                    old_rows[old_rows.len() - 1].0,
                ));
                assert(f(old_rows[old_rows.len() - 1]));
                <String as Key>::lemma_irreflexive(t);
                <String as Key>::lemma_irreflexive(case);
            }
        }
        assert(!st.runs.contains_key(k)) by {
            if st.runs.contains_key(k) {
                assert(f((k, st.runs[k])));
                assert(has_key(old_rows, k));
                let i = choose|i: int| 0 <= i < old_rows.len() && (#[trigger] old_rows[i]).0 == k;
                assert(old_rows[i].0.1.1 < next);
            }
        }
        let r = crate::domain::good_id(run);
        let p = lemma_chosen_gains::<(String, (String, u64)), IdModel>(st.runs, f, k, r);
        let rows = case_runs(run_attached(st, t, case, run), t, case);
        assert(rows == old_rows.insert(p, (k, r)));
        assert(p == old_rows.len()) by {
            if p < old_rows.len() {
                lemma_chosen::<(String, (String, u64)), IdModel>(st.runs.insert(k, r), f);
                assert(rows[p] == (k, r));
                assert(rows[p + 1] == old_rows[p]);
                assert(<(String, (String, u64)) as Key>::precedes(rows[p].0, rows[p + 1].0));
                assert(old_rows[p].0.1.1 < next);
                <String as Key>::lemma_irreflexive(t);
                <String as Key>::lemma_irreflexive(case);
            }
        }
        assert(rows =~= old_rows.push((k, r)));
        lemma_runs_prefix(rows, old_rows, old_rows.len() as int);
    }
}

// ── Changing a case ─────────────────────────────────────────────────────────

/// A state is written exactly by whoever read the version that stands: anything
/// else is refused, and says why. What is written is the state and the next
/// version, and nothing else of any case.
pub proof fn law_state_is_written_once(
    st: CaseState,
    t: Seq<char>,
    case: Seq<char>,
    expected: u64,
    state: Seq<char>,
    other: CaseKey,
)
    ensures
        put_refusal(st, t, case, expected) is None <==> st.cases.contains_key((t, case))
            && st.cases[(t, case)].version == expected && expected < u64::MAX,
        put_refusal(st, t, case, expected) == Some(Refusal::NotFound(case))
            <==> !st.cases.contains_key((t, case)),
        put_refusal(st, t, case, expected) is None ==> {
            let was = st.cases[(t, case)];
            let after = state_put(st, t, case, state);
            let now = after.cases[(t, case)];
            &&& now.state == state
            &&& now.version == expected + 1
            &&& now.kind == was.kind
            &&& now.status == was.status
            &&& now.opened_at == was.opened_at
            &&& other != (t, case) ==> after.cases.contains_key(other) == st.cases.contains_key(
                other,
            )
            &&& other != (t, case) && st.cases.contains_key(other) ==> after.cases[other]
                == st.cases[other]
            &&& after.corr_open == st.corr_open
            &&& after.deadlines == st.deadlines
            &&& after.runs == st.runs
        },
{
}

/// A case that got a status has it, and is what it was otherwise: its keys, its
/// state, its obligations and every other case are untouched.
pub proof fn law_status_is_read_back(
    st: CaseState,
    t: Seq<char>,
    case: Seq<char>,
    status: CaseStatus,
    other: CaseKey,
)
    requires
        st.cases.contains_key((t, case)),
    ensures
        ({
            let was = st.cases[(t, case)];
            let after = status_set(st, t, case, status_word(status));
            let now = after.cases[(t, case)];
            &&& status_of(now.status) == status
            &&& now.kind == was.kind
            &&& now.state == was.state
            &&& now.version == was.version
            &&& now.opened_at == was.opened_at
            &&& other != (t, case) ==> after.cases.contains_key(other) == st.cases.contains_key(
                other,
            )
            &&& other != (t, case) && st.cases.contains_key(other) ==> after.cases[other]
                == st.cases[other]
            &&& after.corr_open == st.corr_open
            &&& after.corr_all == st.corr_all
            &&& after.deadlines == st.deadlines
            &&& after.runs == st.runs
            &&& after.blobs == st.blobs
        }),
{
    law_status_round_trip(status);
}

/// A case is closed exactly where it is there and no obligation of it is pending or
/// warned of: it reads as closed then, has none of its keys open, and is what it
/// was otherwise. Keys, obligations and cases of others are untouched.
pub proof fn law_closing_needs_every_obligation_resolved(
    st: CaseState,
    t: Seq<char>,
    case: Seq<char>,
    k: OpenKey,
    other: CaseKey,
)
    requires
        st.wf(),
        st.deadlines.dom().finite(),
    ensures
        close_refusal(st, t, case) is None <==> {
            &&& st.cases.contains_key((t, case))
            &&& forall|name: Seq<char>| #[trigger]
                st.deadlines.contains_key((t, (case, name))) ==> st.deadlines[(
                    t,
                    (case, name),
                )].state != deadline_word(DeadlineState::Pending) && st.deadlines[(
                    t,
                    (case, name),
                )].state != deadline_word(DeadlineState::Warned)
        },
        close_refusal(st, t, case) is None ==> {
            let after = case_closed(st, t, case);
            &&& status_of(after.cases[(t, case)].status) == CaseStatus::Closed
            &&& after.cases[(t, case)].state == st.cases[(t, case)].state
            &&& after.cases[(t, case)].version == st.cases[(t, case)].version
            &&& st.corr_open.contains_key(k) && !(k.0 == t && st.corr_open[k].text == case)
                ==> after.corr_open.contains_key(k) && after.corr_open[k] == st.corr_open[k]
            &&& k.0 == t && st.corr_open.contains_key(k) && st.corr_open[k].text == case
                ==> !after.corr_open.contains_key(k)
            &&& !st.corr_open.contains_key(k) ==> !after.corr_open.contains_key(k)
            &&& after.corr_all == st.corr_all
            &&& after.deadlines == st.deadlines
            &&& other != (t, case) && st.cases.contains_key(other) ==> after.cases[other]
                == st.cases[other]
        },
{
    let f = unmet_in(t, case);
    lemma_chosen_counted::<(String, (String, String)), DeadlineRowModel>(st.deadlines, f);
    let open = Set::new(|d: DueName| st.deadlines.contains_key(d) && f((d, st.deadlines[d])));
    assert(unmet(st, t, case) == open.len());
    if open.len() == 0 {
        assert forall|name: Seq<char>| #[trigger]
            st.deadlines.contains_key((t, (case, name))) implies st.deadlines[(
            t,
            (case, name),
        )].state != deadline_word(DeadlineState::Pending) && st.deadlines[(t, (case, name))].state
            != deadline_word(DeadlineState::Warned) by {
            let d = (t, (case, name));
            if outstanding(st.deadlines[d].state) {
                assert(open.contains(d));
                assert(open.len() > 0) by {
                    open.lemma_len0_is_empty();
                }
            }
        }
    } else {
        let d = open.choose();
        assert(open.contains(d)) by {
            if forall|x: DueName| !open.contains(x) {
                assert(open =~= Set::empty());
            }
        }
        assert(d == (t, (case, d.1.1)));
        assert(st.deadlines.contains_key((t, (case, d.1.1))));
    }
    law_status_round_trip(CaseStatus::Closed);
    if st.corr_open.contains_key(k) {
        assert(st.corr_all.contains_key((k.0, (st.corr_open[k].text, k.1))));
    }
}

// ── Obligations ─────────────────────────────────────────────────────────────

/// An obligation reads as it is kept.
pub proof fn law_deadline_reads_as_it_is_kept(
    case: Seq<char>,
    name: Seq<char>,
    row: DeadlineRowModel,
)
    ensures
        deadline_read(case, name, row) is Ok <==> {
            &&& row.calendar_digest.len() == 32
            &&& row.fault is None
            &&& row.resolved_fault is None
            &&& row.warn_at is Some ==> row.warn_fault is None
            &&& is_deadline_word(row.state)
        },
        deadline_read(case, name, row) matches Ok(d) ==> {
            &&& d.case == case
            &&& d.name == name
            &&& d.resolved_at == row.resolved_at
            &&& d.calendar_digest == row.calendar_digest
            &&& d.warn_at == row.warn_at
            &&& deadline_word(d.state) == row.state
        },
{
    if is_deadline_word(row.state) {
        let s = choose|s: DeadlineState| #[trigger] deadline_word(s) == row.state;
        law_outstanding_until_resolved(s);
    }
}

/// An obligation that is registered is kept as it is, the first under its name;
/// one that is moved gets the state and keeps the rest. Neither touches another
/// obligation or any case.
pub proof fn law_obligations_keep_to_themselves(
    st: CaseState,
    t: Seq<char>,
    d: DeadlineModel,
    to: DeadlineState,
    k: DueName,
)
    ensures
        ({
            let own = (t, (d.case, d.name));
            let after = deadline_registered(st, t, d);
            &&& after.deadlines.contains_key(own)
            &&& !st.deadlines.contains_key(own) ==> {
                let row = after.deadlines[own];
                &&& row.resolved_at == d.resolved_at
                &&& row.warn_at == d.warn_at
                &&& row.calendar_digest == d.calendar_digest
                &&& row.state == deadline_word(d.state)
                &&& row.fault is None
            }
            &&& st.deadlines.contains_key(k) ==> after.deadlines.contains_key(k)
                && after.deadlines[k] == st.deadlines[k]
            &&& k != own && !st.deadlines.contains_key(k) ==> !after.deadlines.contains_key(k)
            &&& after.cases == st.cases
            &&& after.corr_open == st.corr_open
            &&& st.deadlines.contains_key(own) ==> {
                let moved = deadline_moved(st, t, d.case, d.name, deadline_word(to));
                let was = st.deadlines[own];
                let now = moved.deadlines[own];
                &&& deadline_state_of(now.state) == to
                &&& now.resolved_at == was.resolved_at
                &&& now.warn_at == was.warn_at
                &&& now.calendar_digest == was.calendar_digest
                &&& k != own ==> moved.deadlines.contains_key(k) == st.deadlines.contains_key(k)
                &&& k != own && st.deadlines.contains_key(k) ==> moved.deadlines[k]
                    == st.deadlines[k]
                &&& moved.cases == st.cases
                &&& moved.corr_open == st.corr_open
            }
        }),
{
    law_outstanding_until_resolved(to);
}

proof fn lemma_each_deadline(rows: Seq<(DueName, DeadlineRowModel)>, n: int)
    requires
        0 <= n <= rows.len(),
        deadlines_read(rows, n) is Ok,
    ensures
        deadlines_read(rows, n)->Ok_0.len() == n,
        forall|i: int|
            0 <= i < n ==> deadline_read(
                (#[trigger] rows[i]).0.1.0,
                rows[i].0.1.1,
                rows[i].1,
            ) == Ok::<DeadlineModel, Refusal>(deadlines_read(rows, n)->Ok_0[i]),
    decreases n,
{
    if n > 0 {
        lemma_each_deadline(rows, n - 1);
        let before = deadlines_read(rows, n - 1)->Ok_0;
        let after = deadlines_read(rows, n)->Ok_0;
        assert forall|i: int| 0 <= i < n implies deadline_read(
            (#[trigger] rows[i]).0.1.0,
            rows[i].0.1.1,
            rows[i].1,
        ) == Ok::<DeadlineModel, Refusal>(after[i]) by {
            if i < n - 1 {
                assert(after[i] == before[i]);
            }
        }
    }
}

/// A list keeps its members when it is put in order.
proof fn lemma_by_time_members(s: Seq<DeadlineModel>, d: DeadlineModel)
    ensures
        by_time(s).contains(d) <==> s.contains(d),
        by_time(s).len() == s.len(),
{
    law_deadlines_come_in_order(s);
    assert(by_time(s).to_multiset().count(d) == s.to_multiset().count(d));
    broadcast use vstd::seq_lib::group_to_multiset_ensures;

    assert(by_time(s).contains(d) <==> by_time(s).to_multiset().count(d) > 0);
    assert(s.contains(d) <==> s.to_multiset().count(d) > 0);
    assert(by_time(s).len() == by_time(s).to_multiset().len());
    assert(s.len() == s.to_multiset().len());
}

/// The obligations of a case are all of its own and no other's, by when they are
/// due.
pub proof fn law_deadlines_of_a_case(
    st: CaseState,
    t: Seq<char>,
    case: Seq<char>,
    out: Seq<DeadlineModel>,
    d: DeadlineModel,
)
    requires
        st.deadlines.dom().finite(),
        deadlines_answer(st, t, case) == Ok::<Seq<DeadlineModel>, Refusal>(out),
    ensures
        out.contains(d) <==> st.deadlines.contains_key((t, (case, d.name))) && deadline_read(
            case,
            d.name,
            st.deadlines[(t, (case, d.name))],
        ) == Ok::<DeadlineModel, Refusal>(d),
        forall|i: int, j: int|
            0 <= i < j < out.len() ==> (#[trigger] out[i]).resolved_at <= (
            #[trigger] out[j]).resolved_at,
{
    let f = deadlines_in(t, case);
    let rows = chosen::<(String, (String, String)), DeadlineRowModel>(st.deadlines, f);
    lemma_chosen::<(String, (String, String)), DeadlineRowModel>(st.deadlines, f);
    let all = deadlines_read(rows, rows.len() as int)->Ok_0;
    lemma_each_deadline(rows, rows.len() as int);
    law_deadlines_come_in_order(all);
    lemma_by_time_members(all, d);
    if all.contains(d) {
        let i = choose|i: int| 0 <= i < all.len() && all[i] == d;
        assert(f(rows[i]) && st.deadlines.contains_key(rows[i].0));
        assert(deadline_read(rows[i].0.1.0, rows[i].0.1.1, rows[i].1) == Ok::<
            DeadlineModel,
            Refusal,
        >(d));
        assert(rows[i].0 == (t, (case, d.name)));
    }
    let k = (t, (case, d.name));
    if st.deadlines.contains_key(k) && deadline_read(case, d.name, st.deadlines[k]) == Ok::<
        DeadlineModel,
        Refusal,
    >(d) {
        assert(f((k, st.deadlines[k])));
        assert(has_key(rows, k));
        let i = choose|i: int| 0 <= i < rows.len() && (#[trigger] rows[i]).0 == k;
        assert(all[i] == d);
    }
}

/// What needs attention is what is pending or warned of and is due by now or gives
/// warning by now: everything that is given is, in order of when it is due. What is
/// left out for want of room comes up no earlier.
pub proof fn law_due_is_what_needs_attention(
    st: CaseState,
    t: Seq<char>,
    now: i64,
    limit: usize,
    out: Seq<DeadlineModel>,
    d: DeadlineModel,
    e: DeadlineModel,
)
    requires
        st.wf(),
        st.due.dom().finite(),
        due_answer(st, t, now, limit) == Ok::<Seq<DeadlineModel>, Refusal>(out),
    ensures
        out.len() <= limit,
        out.contains(d) ==> {
            &&& st.deadlines.contains_key((t, (d.case, d.name)))
            &&& deadline_read(d.case, d.name, st.deadlines[(t, (d.case, d.name))]) == Ok::<
                DeadlineModel,
                Refusal,
            >(d)
            &&& d.state == DeadlineState::Pending || d.state == DeadlineState::Warned
            &&& d.resolved_at <= now || (d.warn_at is Some && d.warn_at->0 <= now)
        },
        st.deadlines.contains_key((t, (d.case, d.name))) && deadline_read(
            d.case,
            d.name,
            st.deadlines[(t, (d.case, d.name))],
        ) == Ok::<DeadlineModel, Refusal>(d) && (d.state == DeadlineState::Pending || d.state
            == DeadlineState::Warned) && (d.resolved_at <= now || (d.warn_at is Some && d.warn_at->0
            <= now)) && !out.contains(d) ==> out.len() == limit && (out.contains(e)
            ==> first_attention(e.resolved_at, e.warn_at) <= first_attention(
            d.resolved_at,
            d.warn_at,
        )),
        forall|i: int, j: int|
            0 <= i < j < out.len() ==> (#[trigger] out[i]).resolved_at <= (
            #[trigger] out[j]).resolved_at,
{
    let f = needing(st, t, now);
    let keys = chosen::<(String, (i64, (String, String))), i64>(st.due, f);
    let rows = due_rows(st, t, now, limit);
    lemma_chosen::<(String, (i64, (String, String))), i64>(st.due, f);
    lemma_chosen_counted::<(String, (i64, (String, String))), i64>(st.due, f);
    let all = deadlines_read(rows, rows.len() as int)->Ok_0;
    lemma_each_deadline(rows, rows.len() as int);
    law_deadlines_come_in_order(all);
    lemma_by_time_members(all, d);
    if all.contains(d) {
        let i = choose|i: int| 0 <= i < all.len() && all[i] == d;
        assert(f(keys[i]) && st.due.contains_key(keys[i].0));
        assert(deadline_read(rows[i].0.1.0, rows[i].0.1.1, rows[i].1) == Ok::<
            DeadlineModel,
            Refusal,
        >(d));
        assert(rows[i].0 == (t, (d.case, d.name)));
        law_deadline_reads_as_it_is_kept(d.case, d.name, rows[i].1);
        law_outstanding_until_resolved(d.state);
        law_attention_comes_with_the_first_instant(d.resolved_at, d.warn_at, now);
    }
    let name = (t, (d.case, d.name));
    if st.deadlines.contains_key(name) && deadline_read(d.case, d.name, st.deadlines[name]) == Ok::<
        DeadlineModel,
        Refusal,
    >(d) && (d.state == DeadlineState::Pending || d.state == DeadlineState::Warned) && (
    d.resolved_at <= now || (d.warn_at is Some && d.warn_at->0 <= now)) {
        law_deadline_reads_as_it_is_kept(d.case, d.name, st.deadlines[name]);
        law_outstanding_until_resolved(d.state);
        law_attention_comes_with_the_first_instant(d.resolved_at, d.warn_at, now);
        let x: DueKey = (t, (first_attention(d.resolved_at, d.warn_at), (d.case, d.name)));
        assert(st.due.contains_key(x));
        assert(f((x, st.due[x])));
        assert(has_key(keys, x));
        let p = choose|p: int| 0 <= p < keys.len() && (#[trigger] keys[p]).0 == x;
        if p < rows.len() {
            assert(rows[p].0 == name);
            assert(all[p] == d);
        } else if out.contains(e) {
            lemma_by_time_members(all, e);
            let i = choose|i: int| 0 <= i < all.len() && all[i] == e;
            assert(f(keys[i]) && st.due.contains_key(keys[i].0));
            assert(deadline_read(rows[i].0.1.0, rows[i].0.1.1, rows[i].1) == Ok::<
                DeadlineModel,
                Refusal,
            >(e));
            law_deadline_reads_as_it_is_kept(e.case, e.name, rows[i].1);
            assert(<(String, (i64, (String, String))) as Key>::precedes(keys[i].0, keys[p].0));
            <String as Key>::lemma_irreflexive(t);
        }
    }
}

// ── Counting and listing cases ──────────────────────────────────────────────

/// The census counts the cases that are not closed, the obligations that are
/// pending or warned of and due by now, and the age of the case that has been open
/// longest.
pub proof fn law_census_counts_what_is_open(
    st: CaseState,
    t: Seq<char>,
    now: i64,
    c: CaseCensus,
    case: Seq<char>,
)
    requires
        st.wf(),
        st.open.dom().finite(),
        st.due.dom().finite(),
        censused(st, t, now, c),
    ensures
        c.open == Set::new(
            |k: CaseKey|
                st.cases.contains_key(k) && k.0 == t && st.cases[k].status != status_word(
                    CaseStatus::Closed,
                ),
        ).len(),
        c.due == Set::new(
            |d: DueName|
                st.deadlines.contains_key(d) && d.0 == t && (st.deadlines[d].state
                    == deadline_word(DeadlineState::Pending) || st.deadlines[d].state
                    == deadline_word(DeadlineState::Warned)) && st.deadlines[d].resolved_at <= now,
        ).len(),
        c.oldest_age_secs is None <==> c.open == 0,
        st.cases.contains_key((t, case)) && st.cases[(t, case)].status != status_word(
            CaseStatus::Closed,
        ) && (forall|k: OpenSlot| #[trigger] st.open.contains_key(k) ==> st.open[k] is None) ==> {
            &&& c.oldest_age_secs is Some
            &&& c.oldest_age_secs->0 >= now - st.cases[(t, case)].opened_at
        },
        c.oldest_age_secs is Some && (forall|k: OpenSlot| #[trigger]
            st.open.contains_key(k) ==> st.open[k] is None) ==> c.oldest_age_secs->0 == 0
            || exists|id: Seq<char>| #[trigger]
            st.cases.contains_key((t, id)) && st.cases[(t, id)].status != status_word(
                CaseStatus::Closed,
            ) && c.oldest_age_secs->0 == now - st.cases[(t, id)].opened_at,
{
    let f = open_in(t);
    let rows = chosen::<(String, (i64, String)), Option<Seq<char>>>(st.open, f);
    lemma_chosen::<(String, (i64, String)), Option<Seq<char>>>(st.open, f);
    lemma_chosen_counted::<(String, (i64, String)), Option<Seq<char>>>(st.open, f);
    let a = Set::new(|k: OpenSlot| st.open.contains_key(k) && f((k, st.open[k])));
    let b = Set::new(
        |k: CaseKey|
            st.cases.contains_key(k) && k.0 == t && st.cases[k].status != status_word(
                CaseStatus::Closed,
            ),
    );
    let g = |k: OpenSlot| (k.0, k.1.1);
    assert forall|k: CaseKey| #[trigger] a.map(g).contains(k) <==> b.contains(k) by {
        if a.map(g).contains(k) {
            let x = choose|x: OpenSlot| a.contains(x) && g(x) == k;
            assert(st.open.contains_key(x));
        }
        if b.contains(k) {
            let x: OpenSlot = (t, (st.cases[k].opened_at, k.1));
            assert(st.open.contains_key(x));
            assert(a.contains(x) && g(x) == k);
        }
    }
    assert(a.map(g) =~= b);
    assert forall|x: OpenSlot, y: OpenSlot|
        a.contains(x) && a.contains(y) && #[trigger] g(x) == #[trigger] g(y) implies x == y by {
        assert(st.open.contains_key(x) && st.open.contains_key(y));
    }
    vstd::set_lib::lemma_map_size(a, b, g);
    lemma_due_counted(st, t, now);
    if rows.len() > 0 {
        assert(f(rows[0]) && st.open.contains_key(rows[0].0));
        assert(st.cases.contains_key((t, rows[0].0.1.1)));
    }
    if st.cases.contains_key((t, case)) && st.cases[(t, case)].status != status_word(
        CaseStatus::Closed,
    ) {
        let x: OpenSlot = (t, (st.cases[(t, case)].opened_at, case));
        assert(st.open.contains_key(x) && f((x, st.open[x])));
        assert(has_key(rows, x));
        let i = choose|i: int| 0 <= i < rows.len() && (#[trigger] rows[i]).0 == x;
        if i > 0 {
            assert(<(String, (i64, String)) as Key>::precedes(rows[0].0, rows[i].0));
            <String as Key>::lemma_irreflexive(t);
        }
        assert(rows[0].0.1.0 <= x.1.0);
        assert(st.open[rows[0].0] == rows[0].1);
    }
}

proof fn lemma_due_counted(st: CaseState, t: Seq<char>, now: i64)
    requires
        st.wf(),
        st.due.dom().finite(),
    ensures
        chosen::<(String, (i64, (String, String))), i64>(st.due, due_by(t, now)).len()
            == Set::new(
            |d: DueName|
                st.deadlines.contains_key(d) && d.0 == t && (st.deadlines[d].state
                    == deadline_word(DeadlineState::Pending) || st.deadlines[d].state
                    == deadline_word(DeadlineState::Warned)) && st.deadlines[d].resolved_at <= now,
        ).len(),
{
    let f = due_by(t, now);
    lemma_chosen_counted::<(String, (i64, (String, String))), i64>(st.due, f);
    let a = Set::new(|k: DueKey| st.due.contains_key(k) && f((k, st.due[k])));
    let b = Set::new(
        |d: DueName|
            st.deadlines.contains_key(d) && d.0 == t && (st.deadlines[d].state == deadline_word(
                DeadlineState::Pending,
            ) || st.deadlines[d].state == deadline_word(DeadlineState::Warned))
                && st.deadlines[d].resolved_at <= now,
    );
    let g = |k: DueKey| (k.0, k.1.1);
    assert forall|d: DueName| #[trigger] a.map(g).contains(d) <==> b.contains(d) by {
        if a.map(g).contains(d) {
            let x = choose|x: DueKey| a.contains(x) && g(x) == d;
            assert(st.due.contains_key(x));
        }
        if b.contains(d) {
            let row = st.deadlines[d];
            let x: DueKey = (t, (first_attention(row.resolved_at, row.warn_at), d.1));
            assert(st.due.contains_key(x));
            assert(a.contains(x) && g(x) == d);
        }
    }
    assert(a.map(g) =~= b);
    assert forall|x: DueKey, y: DueKey|
        a.contains(x) && a.contains(y) && #[trigger] g(x) == #[trigger] g(y) implies x == y by {
        assert(st.due.contains_key(x) && st.due.contains_key(y));
    }
    vstd::set_lib::lemma_map_size(a, b, g);
}

proof fn lemma_each_case(
    st: CaseState,
    t: Seq<char>,
    rows: Seq<(StatusKey, Option<Seq<char>>)>,
    n: int,
)
    requires
        0 <= n <= rows.len(),
        worklist_read(st, t, rows, n) is Ok,
        forall|i: int| 0 <= i < n ==> st.cases.contains_key((t, (#[trigger] rows[i]).0.1.1.1)),
    ensures
        worklist_read(st, t, rows, n)->Ok_0.len() == n,
        forall|i: int|
            0 <= i < n ==> case_read(
                st,
                t,
                (#[trigger] rows[i]).0.1.1.1,
                json_read(st.cases[(t, rows[i].0.1.1.1)].state),
            ) == Ok::<CaseModel, Refusal>(worklist_read(st, t, rows, n)->Ok_0[i]),
    decreases n,
{
    if n > 0 {
        lemma_each_case(st, t, rows, n - 1);
        let before = worklist_read(st, t, rows, n - 1)->Ok_0;
        let after = worklist_read(st, t, rows, n)->Ok_0;
        assert(st.cases.contains_key((t, rows[n - 1].0.1.1.1)));
        assert forall|i: int| 0 <= i < n implies case_read(
            st,
            t,
            (#[trigger] rows[i]).0.1.1.1,
            json_read(st.cases[(t, rows[i].0.1.1.1)].state),
        ) == Ok::<CaseModel, Refusal>(after[i]) by {
            if i < n - 1 {
                assert(after[i] == before[i]);
            }
        }
    }
}

/// The worklist of a status has the cases with that status, each once and the
/// newest first; what is left out for want of room was opened no later.
pub proof fn law_worklist_has_the_status(
    st: CaseState,
    t: Seq<char>,
    status: CaseStatus,
    limit: usize,
    out: Seq<CaseModel>,
    i: int,
    j: int,
    id: Seq<char>,
)
    requires
        st.wf(),
        st.by_status.dom().finite(),
        st.corr_all.dom().finite(),
        by_status_answer(st, t, status, limit) == Ok::<Seq<CaseModel>, Refusal>(out),
    ensures
        out.len() <= limit,
        0 <= i < out.len() ==> {
            &&& out[i].status == status
            &&& st.cases.contains_key((t, out[i].id))
            &&& case_read(st, t, out[i].id, json_read(st.cases[(t, out[i].id)].state)) == Ok::<
                CaseModel,
                Refusal,
            >(out[i])
        },
        0 <= i < j < out.len() ==> out[i].opened_at >= out[j].opened_at && out[i].id != out[j].id,
        st.cases.contains_key((t, id)) && st.cases[(t, id)].status == status_word(status)
            && (forall|p: int| 0 <= p < out.len() ==> (#[trigger] out[p]).id != id) ==> out.len()
            == limit && (0 <= i < limit ==> out[i].opened_at >= st.cases[(t, id)].opened_at),
{
    let word = status_word(status);
    let f = with_status(t, word);
    let rows = status_rows(st, t, word);
    let n = page(rows.len(), limit);
    lemma_chosen::<(String, (String, (Newest, String))), Option<Seq<char>>>(st.by_status, f);
    assert forall|p: int| 0 <= p < rows.len() implies st.cases.contains_key(
        (t, (#[trigger] rows[p]).0.1.1.1),
    ) && rows[p].0.0 == t && rows[p].0.1.0 == word && st.cases[(t, rows[p].0.1.1.1)].status == word
        && st.cases[(t, rows[p].0.1.1.1)].opened_at == rows[p].0.1.1.0 by {
        assert(f(rows[p]) && st.by_status.contains_key(rows[p].0));
    }
    lemma_each_case(st, t, rows, n);
    if 0 <= i < out.len() {
        let case = rows[i].0.1.1.1;
        law_case_reads_as_it_is_kept(
            st,
            t,
            case,
            json_read(st.cases[(t, case)].state),
            (t, t),
        );
        law_status_words_differ(out[i].status, status);
    }
    if 0 <= i < j < out.len() {
        let a = rows[i].0.1.1.1;
        let b = rows[j].0.1.1.1;
        law_case_reads_as_it_is_kept(st, t, a, json_read(st.cases[(t, a)].state), (t, t));
        law_case_reads_as_it_is_kept(st, t, b, json_read(st.cases[(t, b)].state), (t, t));
        assert(<(String, (String, (Newest, String))) as Key>::precedes(rows[i].0, rows[j].0));
        <String as Key>::lemma_irreflexive(t);
        <String as Key>::lemma_irreflexive(word);
        <String as Key>::lemma_irreflexive(a);
    }
    if st.cases.contains_key((t, id)) && st.cases[(t, id)].status == word {
        let x: StatusKey = (t, (word, (st.cases[(t, id)].opened_at, id)));
        assert(st.by_status.contains_key(x) && f((x, st.by_status[x])));
        assert(has_key(rows, x));
        let p = choose|p: int| 0 <= p < rows.len() && (#[trigger] rows[p]).0 == x;
        if p < n {
            assert(case_read(
                st,
                t,
                rows[p].0.1.1.1,
                json_read(st.cases[(t, rows[p].0.1.1.1)].state),
            ) == Ok::<CaseModel, Refusal>(out[p]));
            law_case_reads_as_it_is_kept(st, t, id, json_read(st.cases[(t, id)].state), (t, t));
            assert(out[p].id == id);
        } else if 0 <= i < out.len() {
            let a = rows[i].0.1.1.1;
            law_case_reads_as_it_is_kept(st, t, a, json_read(st.cases[(t, a)].state), (t, t));
            assert(<(String, (String, (Newest, String))) as Key>::precedes(rows[i].0, rows[p].0));
            <String as Key>::lemma_irreflexive(t);
            <String as Key>::lemma_irreflexive(word);
        }
    }
}

// ── Blobs ───────────────────────────────────────────────────────────────────

proof fn lemma_blobs_read(rows: Seq<(BlobKey, ())>, n: int, d: Seq<u8>)
    requires
        0 <= n <= rows.len(),
        blobs_read(rows, n) is Ok,
    ensures
        blobs_read(rows, n)->Ok_0.contains(d) <==> exists|i: int|
            0 <= i < n && (#[trigger] rows[i]).0.1.1.1 == d,
        blobs_read(rows, n)->Ok_0.no_duplicates(),
    decreases n,
{
    if n > 0 {
        lemma_blobs_read(rows, n - 1, d);
        lemma_blobs_read(rows, n - 1, rows[n - 1].0.1.1.1);
        let before = blobs_read(rows, n - 1)->Ok_0;
        let after = blobs_read(rows, n)->Ok_0;
        let x = rows[n - 1].0.1.1.1;
        if !before.contains(x) {
            assert(after == before.push(x));
            if before.contains(d) {
                let i = choose|i: int| 0 <= i < before.len() && before[i] == d;
                assert(after[i] == d);
            }
            if d == x {
                assert(after[before.len() as int] == d);
            }
            if after.contains(d) && d != x {
                let i = choose|i: int| 0 <= i < after.len() && after[i] == d;
                assert(before[i] == d);
            }
        }
    }
}

/// The blobs of a case are those that were linked to it, each once however often
/// it was.
pub proof fn law_linked_blobs_are_read_back(
    st: CaseState,
    t: Seq<char>,
    case: Seq<char>,
    digest: Seq<u8>,
    at: i64,
    out: Seq<Seq<u8>>,
    d: Seq<u8>,
)
    requires
        st.blobs.dom().finite(),
        blobs_answer(st, t, case) == Ok::<Seq<Seq<u8>>, Refusal>(out),
    ensures
        out.no_duplicates(),
        out.contains(d) <==> exists|when: i64| #[trigger]
            st.blobs.contains_key((t, (case, (when, d)))),
        blob_added(st, t, case, digest, at).blobs.contains_key((t, (case, (at, digest)))),
        blob_added(st, t, case, digest, at).cases == st.cases,
        blob_added(st, t, case, digest, at).deadlines == st.deadlines,
{
    let f = blobs_in(t, case);
    let rows = blob_rows(st, t, case);
    lemma_chosen::<(String, (String, (i64, Vec<u8>))), ()>(st.blobs, f);
    lemma_blobs_read(rows, rows.len() as int, d);
    if out.contains(d) {
        let i = choose|i: int| 0 <= i < rows.len() && (#[trigger] rows[i]).0.1.1.1 == d;
        assert(f(rows[i]) && st.blobs.contains_key(rows[i].0));
        assert(rows[i].0 == (t, (case, (rows[i].0.1.1.0, d))));
    }
    if exists|when: i64| #[trigger] st.blobs.contains_key((t, (case, (when, d)))) {
        let when = choose|when: i64| #[trigger] st.blobs.contains_key((t, (case, (when, d))));
        let k: BlobKey = (t, (case, (when, d)));
        assert(st.blobs.contains_key(k) && f((k, st.blobs[k])));
        assert(has_key(rows, k));
        let i = choose|i: int| 0 <= i < rows.len() && (#[trigger] rows[i]).0 == k;
        assert(rows[i].0.1.1.1 == d);
    }
}

/// Where each digest first occurs among the first links.
proof fn lemma_first_links(rows: Seq<(BlobKey, ())>, n: int) -> (at: Seq<int>)
    requires
        0 <= n <= rows.len(),
        blobs_read(rows, n) is Ok,
    ensures
        at.len() == blobs_read(rows, n)->Ok_0.len(),
        forall|i: int|
            0 <= i < at.len() ==> 0 <= #[trigger] at[i] < n && rows[at[i]].0.1.1.1 == blobs_read(
                rows,
                n,
            )->Ok_0[i],
        forall|i: int, p: int|
            0 <= i < at.len() && 0 <= p < at[i] ==> (#[trigger] rows[p]).0.1.1.1 != (
            #[trigger] blobs_read(rows, n)->Ok_0[i]),
        forall|i: int, j: int| 0 <= i < j < at.len() ==> #[trigger] at[i] < #[trigger] at[j],
    decreases n,
{
    if n <= 0 {
        Seq::empty()
    } else {
        let so_far = lemma_first_links(rows, n - 1);
        let before = blobs_read(rows, n - 1)->Ok_0;
        let after = blobs_read(rows, n)->Ok_0;
        let x = rows[n - 1].0.1.1.1;
        if before.contains(x) {
            so_far
        } else {
            let at = so_far.push(n - 1);
            assert(after == before.push(x));
            assert forall|i: int, p: int| 0 <= i < at.len() && 0 <= p < at[i] implies (
            #[trigger] rows[p]).0.1.1.1 != (#[trigger] after[i]) by {
                if i == so_far.len() {
                    if rows[p].0.1.1.1 == x {
                        lemma_blobs_read(rows, n - 1, x);
                    }
                } else {
                    assert(after[i] == before[i]);
                }
            }
            at
        }
    }
}

/// Linked content comes in the order in which it was first linked.
pub proof fn law_linked_blobs_come_in_order(
    st: CaseState,
    t: Seq<char>,
    case: Seq<char>,
    out: Seq<Seq<u8>>,
    i: int,
    j: int,
    when: i64,
)
    requires
        st.blobs.dom().finite(),
        blobs_answer(st, t, case) == Ok::<Seq<Seq<u8>>, Refusal>(out),
        0 <= i < j < out.len(),
        st.blobs.contains_key((t, (case, (when, out[j])))),
    ensures
        exists|first: i64| #[trigger]
            st.blobs.contains_key((t, (case, (first, out[i])))) && first <= when,
{
    let f = blobs_in(t, case);
    let rows = blob_rows(st, t, case);
    lemma_chosen::<(String, (String, (i64, Vec<u8>))), ()>(st.blobs, f);
    let at = lemma_first_links(rows, rows.len() as int);
    let k: BlobKey = (t, (case, (when, out[j])));
    assert(st.blobs.contains_key(k) && f((k, st.blobs[k])));
    assert(has_key(rows, k));
    let p = choose|p: int| 0 <= p < rows.len() && (#[trigger] rows[p]).0 == k;
    assert(at[i] < at[j]);
    assert(at[j] <= p) by {
        if p < at[j] {
            assert(rows[p].0.1.1.1 != out[j]);
        }
    }
    let a = at[i];
    assert(f(rows[a]) && st.blobs.contains_key(rows[a].0));
    assert(rows[a].0 == (t, (case, (rows[a].0.1.1.0, out[i]))));
    assert(<(String, (String, (i64, Vec<u8>))) as Key>::precedes(rows[a].0, rows[p].0));
    <String as Key>::lemma_irreflexive(t);
    <String as Key>::lemma_irreflexive(case);
}

} // verus!
