//! What the case layer of a shared database answers and keeps, said of its tables.

use vstd::prelude::*;

use crate::cases::{
    case_keys, case_runs, first_open, of_case, status_of, status_rows, unmet, unmet_in, with_status,
    AllKey, BlobKey, CaseKey, CaseModel, CaseState, DeadlineModel, DeadlineRowModel, DueName,
    OpenKey, StatusKey,
};
use crate::cases_answers::{
    law_closing_needs_every_obligation_resolved, law_outstanding_until_resolved,
    law_status_round_trip, lemma_first_open,
};
use crate::domain::{
    deadline_word, is_deadline_word, is_status_word, json_read, law_status_words_differ,
    outstanding, status_word, CaseStatus, DeadlineState,
};
use crate::error::Refusal;
use crate::postgres_cases::{
    blob_linked, due_of_case, due_or_warning, links_to, paged, shared_case_answer, shared_case_read,
    shared_close_refusal, shared_closed, shared_correlate_answer, shared_deadline_read,
    shared_deadlines_read, shared_page, shared_worklist, shared_worklist_read,
};
use crate::table::{
    chosen, has_key, lemma_chosen, lemma_chosen_counted, lemma_listed, lemma_listed_counted, listed,
    page, Key, Newest,
};

verus! {

// ── Correlating ─────────────────────────────────────────────────────────────

/// A message is about the open case of the first of its keys that has one, and about
/// none where none of them has.
pub proof fn law_shared_first_open_key_decides(
    st: CaseState,
    t: Seq<char>,
    keys: Seq<(Seq<char>, Seq<char>)>,
)
    ensures
        shared_correlate_answer(st, t, keys) == Ok::<Option<Seq<char>>, Refusal>(None)
            <==> forall|j: int|
            0 <= j < keys.len() ==> !st.corr_open.contains_key((t, #[trigger] keys[j])),
        shared_correlate_answer(st, t, keys) matches Ok(Some(case)) ==> exists|i: int|
            0 <= i < keys.len() && st.corr_open.contains_key((t, #[trigger] keys[i]))
                && st.corr_open[(t, keys[i])].text == case && forall|j: int|
                0 <= j < i ==> !st.corr_open.contains_key((t, #[trigger] keys[j])),
{
    lemma_first_open(st, t, keys, keys.len() as int);
    if first_open(st, t, keys, keys.len() as int) is Some {
        let i = choose|i: int|
            0 <= i < keys.len() && st.corr_open.contains_key((t, #[trigger] keys[i]))
                && st.corr_open[(t, keys[i])] == first_open(st, t, keys, keys.len() as int)->0
                && forall|j: int|
                0 <= j < i ==> !st.corr_open.contains_key((t, #[trigger] keys[j]));
        assert(st.corr_open.contains_key((t, keys[i])));
    }
}

// ── Reading cases ───────────────────────────────────────────────────────────

/// A case of a shared database reads as it is kept, with its own keys and its runs
/// in the order they were attached.
pub proof fn law_shared_case_reads_as_it_is_kept(
    st: CaseState,
    t: Seq<char>,
    case: Seq<char>,
    parsed: Result<Seq<char>, Seq<char>>,
    k: (Seq<char>, Seq<char>),
)
    requires
        st.corr_all.dom().finite(),
    ensures
        shared_case_answer(st, t, case, parsed) == Ok::<Option<CaseModel>, Refusal>(None)
            <==> !st.cases.contains_key((t, case)),
        shared_case_read(st, t, case, parsed) is Ok ==> is_status_word(st.cases[(t, case)].status),
        shared_case_read(st, t, case, parsed) matches Ok(c) ==> {
            let row = st.cases[(t, case)];
            let runs = case_runs(st, t, case);
            &&& c.id == case
            &&& c.kind == row.kind
            &&& status_word(c.status) == row.status
            &&& c.version == row.version
            &&& c.opened_at == row.opened_at
            &&& parsed == Ok::<Seq<char>, Seq<char>>(c.state)
            &&& c.correlation.contains(k) <==> st.corr_all.contains_key((t, (case, k)))
            &&& c.runs.len() == runs.len()
            &&& forall|i: int|
                0 <= i < runs.len() ==> (#[trigger] c.runs[i]) == runs[i].1.text
        },
{
    if is_status_word(st.cases[(t, case)].status) {
        let s = choose|s: CaseStatus| #[trigger] status_word(s) == st.cases[(t, case)].status;
        law_status_round_trip(s);
    }
    let f = of_case(t, case);
    let rows = chosen::<(String, (String, (String, String))), ()>(st.corr_all, f);
    lemma_chosen::<(String, (String, (String, String))), ()>(st.corr_all, f);
    let keys = case_keys(st, t, case);
    if keys.contains(k) {
        let i = choose|i: int| 0 <= i < keys.len() && keys[i] == k;
        assert(f(rows[i]) && st.corr_all.contains_key(rows[i].0));
        assert(rows[i].0 == (t, (case, k)));
    }
    let key: AllKey = (t, (case, k));
    if st.corr_all.contains_key(key) {
        assert(f((key, st.corr_all[key])));
        assert(has_key(rows, key));
        let i = choose|i: int| 0 <= i < rows.len() && (#[trigger] rows[i]).0 == key;
        assert(keys[i] == k);
    }
}

proof fn lemma_each_shared_case(
    st: CaseState,
    t: Seq<char>,
    rows: Seq<(StatusKey, Option<Seq<char>>)>,
    n: int,
)
    requires
        0 <= n <= rows.len(),
        forall|i: int| 0 <= i < rows.len() ==> st.cases.contains_key((t, (#[trigger] rows[i]).0.1.1.1)),
        shared_worklist_read(st, t, rows, n) is Ok,
    ensures
        shared_worklist_read(st, t, rows, n)->Ok_0.len() == n,
        forall|i: int|
            0 <= i < n ==> shared_case_read(
                st,
                t,
                (#[trigger] rows[i]).0.1.1.1,
                json_read(st.cases[(t, rows[i].0.1.1.1)].state),
            ) == Ok::<CaseModel, Refusal>(shared_worklist_read(st, t, rows, n)->Ok_0[i]),
    decreases n,
{
    if n > 0 {
        lemma_each_shared_case(st, t, rows, n - 1);
        let before = shared_worklist_read(st, t, rows, n - 1)->Ok_0;
        let after = shared_worklist_read(st, t, rows, n)->Ok_0;
        assert(st.cases.contains_key((t, rows[n - 1].0.1.1.1)));
        assert forall|i: int| 0 <= i < n implies shared_case_read(
            st,
            t,
            (#[trigger] rows[i]).0.1.1.1,
            json_read(st.cases[(t, rows[i].0.1.1.1)].state),
        ) == Ok::<CaseModel, Refusal>(after[i]) by {
            if i < n - 1 {
                assert(after[i] == before[i]);
            }
        }
    }
}

/// The worklist of a status has the cases with that status, each once and the newest
/// first; what is left out for want of room was opened no later.
pub proof fn law_shared_worklist_has_the_status(
    st: CaseState,
    t: Seq<char>,
    status: CaseStatus,
    limit: usize,
    out: Seq<CaseModel>,
    i: int,
    j: int,
    id: Seq<char>,
)
    requires
        st.wf(),
        st.by_status.dom().finite(),
        st.corr_all.dom().finite(),
        shared_worklist(st, t, status, limit) == Ok::<Seq<CaseModel>, Refusal>(out),
    ensures
        out.len() <= limit,
        0 <= i < out.len() ==> {
            &&& out[i].status == status
            &&& st.cases.contains_key((t, out[i].id))
            &&& shared_case_read(st, t, out[i].id, json_read(st.cases[(t, out[i].id)].state))
                == Ok::<CaseModel, Refusal>(out[i])
        },
        0 <= i < j < out.len() ==> out[i].opened_at >= out[j].opened_at && out[i].id != out[j].id,
        st.cases.contains_key((t, id)) && st.cases[(t, id)].status == status_word(status) && (
        forall|p: int| 0 <= p < out.len() ==> (#[trigger] out[p]).id != id) ==> out.len() == limit
            && (0 <= i < limit ==> out[i].opened_at >= st.cases[(t, id)].opened_at),
{
    let word = status_word(status);
    let f = with_status(t, word);
    let rows = status_rows(st, t, word);
    let n = page(rows.len(), limit);
    lemma_chosen::<(String, (String, (Newest, String))), Option<Seq<char>>>(st.by_status, f);
    assert forall|p: int| 0 <= p < rows.len() implies st.cases.contains_key(
        (t, (#[trigger] rows[p]).0.1.1.1),
    ) && rows[p].0.0 == t && rows[p].0.1.0 == word && st.cases[(t, rows[p].0.1.1.1)].status == word
        && st.cases[(t, rows[p].0.1.1.1)].opened_at == rows[p].0.1.1.0 by {
        assert(f(rows[p]) && st.by_status.contains_key(rows[p].0));
    }
    lemma_each_shared_case(st, t, rows, n);
    <String as Key>::lemma_irreflexive(t);
    <String as Key>::lemma_irreflexive(word);
    let a = rows[i].0.1.1.1;
    if 0 <= i < out.len() {
        law_shared_case_reads_as_it_is_kept(
            st,
            t,
            a,
            json_read(st.cases[(t, a)].state),
            (t, t),
        );
        law_status_words_differ(out[i].status, status);
    }
    if 0 <= i < j < out.len() {
        let b = rows[j].0.1.1.1;
        law_shared_case_reads_as_it_is_kept(
            st,
            t,
            b,
            json_read(st.cases[(t, b)].state),
            (t, t),
        );
        assert(<(String, (String, (Newest, String))) as Key>::precedes(rows[i].0, rows[j].0));
        <String as Key>::lemma_irreflexive(a);
    }
    if st.cases.contains_key((t, id)) && st.cases[(t, id)].status == word {
        let x: StatusKey = (t, (word, (st.cases[(t, id)].opened_at, id)));
        assert(st.by_status.contains_key(x) && f((x, st.by_status[x])));
        assert(has_key(rows, x));
        let p = choose|p: int| 0 <= p < rows.len() && (#[trigger] rows[p]).0 == x;
        if p < n {
            assert(shared_case_read(
                st,
                t,
                rows[p].0.1.1.1,
                json_read(st.cases[(t, rows[p].0.1.1.1)].state),
            ) == Ok::<CaseModel, Refusal>(out[p]));
            assert(out[p].id == id);
        } else if 0 <= i < out.len() {
            assert(<(String, (String, (Newest, String))) as Key>::precedes(rows[i].0, rows[p].0));
        }
    }
}

// ── Closing ─────────────────────────────────────────────────────────────────

/// A case closes exactly where each of its obligations is resolved. It is closed
/// then, and lets go of its keys and of no other's; where it is not there nothing
/// changes.
pub proof fn law_shared_closing_needs_every_obligation_resolved(
    st: CaseState,
    t: Seq<char>,
    case: Seq<char>,
    k: OpenKey,
    other: CaseKey,
)
    requires
        st.wf(),
        st.deadlines.dom().finite(),
    ensures
        shared_close_refusal(st, t, case) is None <==> forall|name: Seq<char>| #[trigger]
            st.deadlines.contains_key((t, (case, name))) ==> st.deadlines[(
                t,
                (case, name),
            )].state != deadline_word(DeadlineState::Pending) && st.deadlines[(
                t,
                (case, name),
            )].state != deadline_word(DeadlineState::Warned),
        !st.cases.contains_key((t, case)) ==> shared_closed(st, t, case) == st,
        st.cases.contains_key((t, case)) && shared_close_refusal(st, t, case) is None ==> {
            let after = shared_closed(st, t, case);
            &&& status_of(after.cases[(t, case)].status) == CaseStatus::Closed
            &&& after.cases[(t, case)].state == st.cases[(t, case)].state
            &&& after.cases[(t, case)].version == st.cases[(t, case)].version
            &&& k.0 == t && st.corr_open.contains_key(k) && st.corr_open[k].text == case
                ==> !after.corr_open.contains_key(k)
            &&& st.corr_open.contains_key(k) && !(k.0 == t && st.corr_open[k].text == case)
                ==> after.corr_open.contains_key(k) && after.corr_open[k] == st.corr_open[k]
            &&& other != (t, case) && st.cases.contains_key(other) ==> after.cases[other]
                == st.cases[other]
            &&& after.deadlines == st.deadlines
        },
{
    let f = unmet_in(t, case);
    lemma_chosen_counted::<(String, (String, String)), DeadlineRowModel>(st.deadlines, f);
    let open = Set::new(|d: DueName| st.deadlines.contains_key(d) && f((d, st.deadlines[d])));
    assert(unmet(st, t, case) == open.len());
    if open.len() == 0 {
        assert forall|name: Seq<char>| #[trigger]
            st.deadlines.contains_key((t, (case, name))) implies st.deadlines[(
            t,
            (case, name),
        )].state != deadline_word(DeadlineState::Pending) && st.deadlines[(t, (case, name))].state
            != deadline_word(DeadlineState::Warned) by {
            let d = (t, (case, name));
            if outstanding(st.deadlines[d].state) {
                assert(open.contains(d));
                assert(open.len() > 0) by {
                    open.lemma_len0_is_empty();
                }
            }
        }
    } else {
        let d = open.choose();
        assert(open.contains(d)) by {
            if forall|x: DueName| !open.contains(x) {
                assert(open =~= Set::empty());
            }
        }
        assert(d == (t, (case, d.1.1)));
        assert(st.deadlines.contains_key((t, (case, d.1.1))));
    }
    law_closing_needs_every_obligation_resolved(st, t, case, k, other);
}

// ── Obligations ─────────────────────────────────────────────────────────────

/// An obligation of a shared database reads as it is kept.
pub proof fn law_shared_deadline_reads_as_it_is_kept(k: DueName, row: DeadlineRowModel)
    ensures
        shared_deadline_read(k, row) is Ok <==> {
            &&& row.calendar_digest.len() == 32
            &&& row.fault is None
            &&& row.resolved_fault is None
            &&& row.warn_at is Some ==> row.warn_fault is None
            &&& is_deadline_word(row.state)
        },
        shared_deadline_read(k, row) matches Ok(d) ==> {
            &&& d.case == k.1.0
            &&& d.name == k.1.1
            &&& d.resolved_at == row.resolved_at
            &&& d.calendar_digest == row.calendar_digest
            &&& d.warn_at == row.warn_at
            &&& deadline_word(d.state) == row.state
        },
{
    if is_deadline_word(row.state) {
        let s = choose|s: DeadlineState| #[trigger] deadline_word(s) == row.state;
        law_outstanding_until_resolved(s);
    }
}

proof fn lemma_each_shared_deadline(st: CaseState, keys: Seq<DueName>, n: int)
    requires
        0 <= n <= keys.len(),
        shared_deadlines_read(st, keys, n) is Ok,
    ensures
        shared_deadlines_read(st, keys, n)->Ok_0.len() == n,
        forall|i: int|
            0 <= i < n ==> shared_deadline_read(#[trigger] keys[i], st.deadlines[keys[i]]) == Ok::<
                DeadlineModel,
                Refusal,
            >(shared_deadlines_read(st, keys, n)->Ok_0[i]),
    decreases n,
{
    if n > 0 {
        lemma_each_shared_deadline(st, keys, n - 1);
        let before = shared_deadlines_read(st, keys, n - 1)->Ok_0;
        let after = shared_deadlines_read(st, keys, n)->Ok_0;
        assert forall|i: int| 0 <= i < n implies shared_deadline_read(
            #[trigger] keys[i],
            st.deadlines[keys[i]],
        ) == Ok::<DeadlineModel, Refusal>(after[i]) by {
            if i < n - 1 {
                assert(after[i] == before[i]);
            }
        }
    }
}

/// What a page of obligations holds that are listed by when they are due.
proof fn lemma_shared_page(
    st: CaseState,
    t: Seq<char>,
    f: spec_fn((DueName, DeadlineRowModel)) -> Option<i64>,
    limit: usize,
    out: Seq<DeadlineModel>,
    k: DueName,
)
    requires
        st.deadlines.dom().finite(),
        forall|x: DueName, r: DeadlineRowModel| #[trigger]
            f((x, r)) matches Some(at) ==> x.0 == t && at == r.resolved_at,
        shared_page(st, f, limit) == Ok::<Seq<DeadlineModel>, Refusal>(out),
    ensures
        out.len() <= limit,
        forall|i: int|
            0 <= i < out.len() ==> {
                let x = (t, ((#[trigger] out[i]).case, out[i].name));
                &&& st.deadlines.contains_key(x)
                &&& f((x, st.deadlines[x])) is Some
                &&& shared_deadline_read(x, st.deadlines[x]) == Ok::<DeadlineModel, Refusal>(out[i])
            },
        forall|i: int, j: int|
            0 <= i < j < out.len() ==> (#[trigger] out[i]).resolved_at <= (
            #[trigger] out[j]).resolved_at && (out[i].case, out[i].name) != (
                out[j].case,
                out[j].name,
            ),
        st.deadlines.contains_key(k) && f((k, st.deadlines[k])) is Some && (forall|i: int|
            0 <= i < out.len() ==> ((#[trigger] out[i]).case, out[i].name) != k.1) ==> out.len()
            == limit && forall|i: int|
            0 <= i < out.len() ==> (#[trigger] out[i]).resolved_at <= st.deadlines[k].resolved_at,
{
    let rows = listed::<(String, (String, String)), DeadlineRowModel>(st.deadlines, f);
    let keys = paged(rows, limit);
    lemma_listed::<(String, (String, String)), DeadlineRowModel>(st.deadlines, f);
    lemma_listed_counted::<(String, (String, String)), DeadlineRowModel>(st.deadlines, f);
    lemma_each_shared_deadline(st, keys, keys.len() as int);
    assert forall|i: int| 0 <= i < out.len() implies {
        let x = (t, ((#[trigger] out[i]).case, out[i].name));
        &&& x == keys[i]
        &&& st.deadlines.contains_key(x)
        &&& f((x, st.deadlines[x])) == Some(rows[i].0.0)
        &&& shared_deadline_read(x, st.deadlines[x]) == Ok::<DeadlineModel, Refusal>(out[i])
        &&& out[i].resolved_at == rows[i].0.0
    } by {
        let e = rows[i].0;
        assert(keys[i] == e.1);
        assert(f((e.1, st.deadlines[e.1])) == Some(e.0));
        assert(shared_deadline_read(keys[i], st.deadlines[keys[i]]) == Ok::<
            DeadlineModel,
            Refusal,
        >(out[i]));
        law_shared_deadline_reads_as_it_is_kept(keys[i], st.deadlines[keys[i]]);
    }
    assert forall|i: int, j: int| 0 <= i < j < out.len() implies (#[trigger] out[i]).resolved_at
        <= (#[trigger] out[j]).resolved_at && (out[i].case, out[i].name) != (
        out[j].case,
        out[j].name,
    ) by {
        assert(rows[i].0.0 <= rows[j].0.0 && rows[i].0.1 != rows[j].0.1);
    }
    if st.deadlines.contains_key(k) && f((k, st.deadlines[k])) is Some {
        let at = f((k, st.deadlines[k]))->0;
        assert(f((k, st.deadlines[k])) == Some(at));
        assert(has_key(rows, (at, k)));
        let p = choose|p: int| 0 <= p < rows.len() && (#[trigger] rows[p]).0 == (at, k);
        if p < out.len() {
            assert((out[p].case, out[p].name) == k.1);
        } else {
            assert forall|i: int| 0 <= i < out.len() implies (#[trigger] out[i]).resolved_at
                <= st.deadlines[k].resolved_at by {
                assert(rows[i].0.0 <= rows[p].0.0);
            }
        }
    }
}

/// The obligations of a case are all of its own and no other's, each once and by
/// when they are due.
pub proof fn law_shared_deadlines_of_a_case(
    st: CaseState,
    t: Seq<char>,
    case: Seq<char>,
    out: Seq<DeadlineModel>,
    name: Seq<char>,
    i: int,
    j: int,
)
    requires
        st.deadlines.dom().finite(),
        shared_page(st, due_of_case(t, case), usize::MAX) == Ok::<Seq<DeadlineModel>, Refusal>(out),
    ensures
        0 <= i < out.len() ==> {
            &&& out[i].case == case
            &&& st.deadlines.contains_key((t, (case, out[i].name)))
            &&& shared_deadline_read(
                (t, (case, out[i].name)),
                st.deadlines[(t, (case, out[i].name))],
            ) == Ok::<DeadlineModel, Refusal>(out[i])
        },
        0 <= i < j < out.len() ==> out[i].resolved_at <= out[j].resolved_at && out[i].name
            != out[j].name,
        st.deadlines.contains_key((t, (case, name))) && out.len() < usize::MAX ==> exists|p: int|
            0 <= p < out.len() && (#[trigger] out[p]).name == name,
{
    let f = due_of_case(t, case);
    let k = (t, (case, name));
    lemma_shared_page(st, t, f, usize::MAX, out, k);
    if 0 <= i < out.len() {
        let x = (t, (out[i].case, out[i].name));
        assert(f((x, st.deadlines[x])) is Some);
    }
    if 0 <= j < out.len() {
        let x = (t, (out[j].case, out[j].name));
        assert(f((x, st.deadlines[x])) is Some);
    }
    if st.deadlines.contains_key(k) && out.len() < usize::MAX {
        assert(f((k, st.deadlines[k])) is Some);
        let p = choose|p: int|
            0 <= p < out.len() && ((#[trigger] out[p]).case, out[p].name) == k.1;
        assert(out[p].name == name);
    }
}

/// What is due is pending or warned of and is due by now or gives warning by now: each
/// once, by when it is due. What is left out for want of room is due no earlier.
pub proof fn law_shared_due_is_what_needs_attention(
    st: CaseState,
    t: Seq<char>,
    now: i64,
    limit: usize,
    out: Seq<DeadlineModel>,
    d: DeadlineModel,
    i: int,
    j: int,
)
    requires
        st.deadlines.dom().finite(),
        shared_page(st, due_or_warning(t, now), limit) == Ok::<Seq<DeadlineModel>, Refusal>(out),
    ensures
        out.len() <= limit,
        0 <= i < out.len() ==> {
            let x = (t, (out[i].case, out[i].name));
            &&& st.deadlines.contains_key(x)
            &&& shared_deadline_read(x, st.deadlines[x]) == Ok::<DeadlineModel, Refusal>(out[i])
            &&& out[i].state == DeadlineState::Pending || out[i].state == DeadlineState::Warned
            &&& out[i].resolved_at <= now || (out[i].warn_at is Some && out[i].warn_at->0 <= now)
        },
        0 <= i < j < out.len() ==> out[i].resolved_at <= out[j].resolved_at && (
            out[i].case,
            out[i].name,
        ) != (out[j].case, out[j].name),
        st.deadlines.contains_key((t, (d.case, d.name))) && shared_deadline_read(
            (t, (d.case, d.name)),
            st.deadlines[(t, (d.case, d.name))],
        ) == Ok::<DeadlineModel, Refusal>(d) && (d.state == DeadlineState::Pending || d.state
            == DeadlineState::Warned) && (d.resolved_at <= now || (d.warn_at is Some && d.warn_at->0
            <= now)) && !out.contains(d) ==> out.len() == limit && (0 <= i < limit
            ==> out[i].resolved_at <= d.resolved_at),
{
    let f = due_or_warning(t, now);
    let k = (t, (d.case, d.name));
    lemma_shared_page(st, t, f, limit, out, k);
    if 0 <= i < out.len() {
        let x = (t, (out[i].case, out[i].name));
        assert(f((x, st.deadlines[x])) is Some);
        law_shared_deadline_reads_as_it_is_kept(x, st.deadlines[x]);
        law_outstanding_until_resolved(out[i].state);
    }
    if st.deadlines.contains_key(k) && shared_deadline_read(k, st.deadlines[k]) == Ok::<
        DeadlineModel,
        Refusal,
    >(d) && (d.state == DeadlineState::Pending || d.state == DeadlineState::Warned) && (
    d.resolved_at <= now || (d.warn_at is Some && d.warn_at->0 <= now)) && !out.contains(d) {
        law_shared_deadline_reads_as_it_is_kept(k, st.deadlines[k]);
        law_outstanding_until_resolved(d.state);
        assert(f((k, st.deadlines[k])) is Some);
        assert forall|p: int| 0 <= p < out.len() implies ((#[trigger] out[p]).case, out[p].name)
            != k.1 by {
            if (out[p].case, out[p].name) == k.1 {
                assert(out[p] == d);
            }
        }
    }
}

// ── Blobs ───────────────────────────────────────────────────────────────────

/// The same content is linked to a case once: a second link changes nothing, and a
/// first adds that link and no other.
pub proof fn law_shared_content_is_linked_once(
    st: CaseState,
    t: Seq<char>,
    case: Seq<char>,
    content: Seq<u8>,
    at: i64,
    k: BlobKey,
)
    requires
        st.blobs.dom().finite(),
    ensures
        ({
            let after = blob_linked(st, t, case, content, at);
            let there = exists|when: i64| #[trigger]
                st.blobs.contains_key((t, (case, (when, content))));
            &&& there ==> after == st
            &&& !there ==> (after.blobs.contains_key(k) <==> st.blobs.contains_key(k) || k == (
                t,
                (case, (at, content)),
            ))
            &&& after.cases == st.cases
            &&& after.deadlines == st.deadlines
        }),
{
    let f = links_to(t, case, content);
    let rows = chosen::<(String, (String, (i64, Vec<u8>))), ()>(st.blobs, f);
    lemma_chosen::<(String, (String, (i64, Vec<u8>))), ()>(st.blobs, f);
    if rows.len() > 0 {
        assert(f(rows[0]) && st.blobs.contains_key(rows[0].0));
        assert(rows[0].0 == (t, (case, (rows[0].0.1.1.0, content))));
    }
    if exists|when: i64| #[trigger] st.blobs.contains_key((t, (case, (when, content)))) {
        let when = choose|when: i64| #[trigger] st.blobs.contains_key((t, (case, (when, content))));
        let x: BlobKey = (t, (case, (when, content)));
        assert(st.blobs.contains_key(x) && f((x, st.blobs[x])));
        assert(has_key(rows, x));
    }
}

} // verus!
