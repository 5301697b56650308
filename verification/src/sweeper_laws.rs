//! What holds of a tick as a whole: a second tick at the same instant finds
//! nothing left to do.

use vstd::prelude::*;

use crate::cases::{
    by_time, deadline_moved, deadline_read, deadlines_read, due_rows, needing, status_set,
    CaseState, DeadlineModel, DeadlineRowModel, DueName,
};
use crate::cases_laws::{
    law_deadline_moves_agree, law_deadlines_come_in_order, law_due_obligation_is_found,
    law_status_moves_agree,
};
use crate::domain::{
    deadline_word, first_attention, law_deadline_words_differ, law_status_words_differ, outstanding,
    status_word, CaseStatus, DeadlineState,
};
use crate::error::Refusal;
use crate::events::{doomed, swept, ByTime, EventState};
use crate::sweeper::{
    all_deadline_acts, all_task_acts, breaches, deadline_acts, escalations, overdue, warnable,
    warnings, ActModel,
};
use crate::table::{chosen, has_key, lemma_chosen, lemma_listed, listed};
use crate::tasks::{
    expiry_of, law_task_words_differ, overdue_in, task_word, tasks_read, OnExpiry, TaskKey,
    TaskModel, TaskRowModel, TaskState,
};
use crate::timers::{law_claims_mark_what_they_give, ripe_in, taken, TimerKey, TimerRowModel};

verus! {

// ── Obligations ─────────────────────────────────────────────────────────────

/// The case tables after an act of a sweep went through.
pub open spec fn act_applied(st: CaseState, t: Seq<char>, a: ActModel) -> CaseState {
    match a {
        ActModel::SetStatus { case, status } => if st.cases.contains_key((t, case)) && status
            != CaseStatus::Closed {
            status_set(st, t, case, status_word(status))
        } else {
            st
        },
        ActModel::SetDeadline { case, name, mark } => if st.deadlines.contains_key(
            (t, (case, name)),
        ) {
            deadline_moved(st, t, case, name, deadline_word(mark))
        } else {
            st
        },
        _ => st,
    }
}

/// The case tables after some acts went through, one after the other.
pub open spec fn acts_applied(st: CaseState, t: Seq<char>, acts: Seq<ActModel>) -> CaseState
    decreases acts.len(),
{
    if acts.len() == 0 {
        st
    } else {
        act_applied(acts_applied(st, t, acts.drop_last()), t, acts.last())
    }
}

proof fn lemma_applied_in_turn(st: CaseState, t: Seq<char>, a: Seq<ActModel>, b: Seq<ActModel>)
    ensures
        acts_applied(st, t, a + b) == acts_applied(acts_applied(st, t, a), t, b),
    decreases b.len(),
{
    if b.len() == 0 {
        assert(a + b =~= a);
    } else {
        assert((a + b).drop_last() =~= a + b.drop_last());
        assert((a + b).last() == b.last());
        lemma_applied_in_turn(st, t, a, b.drop_last());
    }
}

proof fn lemma_act_agrees(st: CaseState, t: Seq<char>, a: ActModel)
    requires
        st.wf(),
    ensures
        act_applied(st, t, a).wf(),
        act_applied(st, t, a).deadlines.dom() == st.deadlines.dom(),
        st.due.dom().finite() ==> act_applied(st, t, a).due.dom().finite(),
{
    match a {
        ActModel::SetStatus { case, status } => {
            if st.cases.contains_key((t, case)) && status != CaseStatus::Closed {
                law_status_words_differ(status, CaseStatus::Closed);
                law_status_moves_agree(st, t, case, status_word(status));
            }
        },
        ActModel::SetDeadline { case, name, mark } => {
            if st.deadlines.contains_key((t, (case, name))) {
                law_deadline_moves_agree(st, t, case, name, deadline_word(mark));
                assert(deadline_moved(st, t, case, name, deadline_word(mark)).deadlines.dom()
                    =~= st.deadlines.dom());
            }
        },
        _ => {},
    }
}

/// Performing what a sweep decided keeps the case tables in agreement.
pub proof fn law_acts_agree(st: CaseState, t: Seq<char>, acts: Seq<ActModel>)
    requires
        st.wf(),
    ensures
        acts_applied(st, t, acts).wf(),
        acts_applied(st, t, acts).deadlines.dom() == st.deadlines.dom(),
        st.due.dom().finite() ==> acts_applied(st, t, acts).due.dom().finite(),
    decreases acts.len(),
{
    if acts.len() > 0 {
        law_acts_agree(st, t, acts.drop_last());
        lemma_act_agrees(acts_applied(st, t, acts.drop_last()), t, acts.last());
    }
}

/// Whether an obligation's row calls for nothing at an instant.
pub open spec fn settled(row: DeadlineRowModel, now: i64) -> bool {
    &&& !(outstanding(row.state) && row.resolved_at <= now)
    &&& !(row.state == "pending"@ && match row.warn_at {
        Some(at) => at <= now,
        None => false,
    })
}

/// Whether an obligation is the one that a row was read as.
pub open spec fn read_as(row: DeadlineRowModel, d: DeadlineModel) -> bool {
    deadline_read(d.case, d.name, row) == Ok::<DeadlineModel, Refusal>(d)
}

proof fn lemma_settled(row: DeadlineRowModel, d: DeadlineModel, now: i64)
    requires
        read_as(row, d),
    ensures
        settled(row, now) <==> !overdue(d, now) && !warnable(d, now),
        d.resolved_at == row.resolved_at,
        d.warn_at == row.warn_at,
{
    law_deadline_words_differ(DeadlineState::Pending, DeadlineState::Warned);
    law_deadline_words_differ(DeadlineState::Breached, DeadlineState::Pending);
    law_deadline_words_differ(DeadlineState::Breached, DeadlineState::Warned);
    law_deadline_words_differ(DeadlineState::Met, DeadlineState::Pending);
    law_deadline_words_differ(DeadlineState::Met, DeadlineState::Warned);
    law_deadline_words_differ(DeadlineState::Cancelled, DeadlineState::Pending);
    law_deadline_words_differ(DeadlineState::Cancelled, DeadlineState::Warned);
}

/// What the acts on one obligation leave of the rows: its own is settled, and
/// every other is as it was.
proof fn lemma_one_is_settled(
    st: CaseState,
    t: Seq<char>,
    first: DeadlineRowModel,
    item: (DeadlineModel, Seq<char>),
    now: i64,
)
    requires
        st.deadlines.contains_key((t, (item.0.case, item.0.name))),
        read_as(first, item.0),
        ({
            let row = st.deadlines[(t, (item.0.case, item.0.name))];
            row.resolved_at == first.resolved_at && row.warn_at == first.warn_at && (row == first
                || settled(row, now))
        }),
    ensures
        ({
            let st2 = acts_applied(st, t, deadline_acts(item, now));
            let k = (t, (item.0.case, item.0.name));
            &&& st2.deadlines.dom() == st.deadlines.dom()
            &&& settled(st2.deadlines[k], now)
            &&& st2.deadlines[k].resolved_at == first.resolved_at
            &&& st2.deadlines[k].warn_at == first.warn_at
            &&& forall|o: DueName|
                o != k && st.deadlines.contains_key(o) ==> #[trigger] st2.deadlines[o]
                    == st.deadlines[o]
        }),
{
    let d = item.0;
    let k: DueName = (t, (d.case, d.name));
    lemma_settled(first, d, now);
    law_deadline_words_differ(DeadlineState::Pending, DeadlineState::Warned);
    law_deadline_words_differ(DeadlineState::Breached, DeadlineState::Pending);
    law_deadline_words_differ(DeadlineState::Breached, DeadlineState::Warned);
    let acts = deadline_acts(item, now);
    if overdue(d, now) {
        let a0 = acts.drop_last().drop_last().drop_last();
        let st1 = acts_applied(st, t, a0);
        assert(a0.drop_last() =~= Seq::<ActModel>::empty());
        assert(acts_applied(st, t, a0.drop_last()) == st);
        assert(st1 == st);
        assert(acts_applied(st, t, acts.drop_last().drop_last()) == st);
        let mid = acts_applied(st, t, acts.drop_last());
        assert(mid.deadlines == st.deadlines);
        let st2 = acts_applied(st, t, acts);
        assert(st2 == deadline_moved(
            mid,
            t,
            d.case,
            d.name,
            deadline_word(DeadlineState::Breached),
        ));
        assert(st2.deadlines.dom() =~= st.deadlines.dom());
    } else if warnable(d, now) {
        let a0 = acts.drop_last();
        assert(a0.drop_last() =~= Seq::<ActModel>::empty());
        assert(acts_applied(st, t, a0.drop_last()) == st);
        assert(acts_applied(st, t, a0) == st);
        let st2 = acts_applied(st, t, acts);
        assert(st2 == deadline_moved(
            st,
            t,
            d.case,
            d.name,
            deadline_word(DeadlineState::Warned),
        ));
        assert(st2.deadlines.dom() =~= st.deadlines.dom());
    }
}

/// Whether a name is that of one of the first `n` obligations.
pub open spec fn among(
    t: Seq<char>,
    items: Seq<(DeadlineModel, Seq<char>)>,
    n: int,
    k: DueName,
) -> bool {
    exists|i: int|
        0 <= i < n && k == (t, ((#[trigger] items[i]).0.case, items[i].0.name))
}

proof fn lemma_all_are_settled(
    st: CaseState,
    t: Seq<char>,
    items: Seq<(DeadlineModel, Seq<char>)>,
    now: i64,
    n: int,
)
    requires
        0 <= n <= items.len(),
        forall|i: int|
            0 <= i < items.len() ==> {
                let k = (t, ((#[trigger] items[i]).0.case, items[i].0.name));
                st.deadlines.contains_key(k) && read_as(st.deadlines[k], items[i].0)
            },
    ensures
        ({
            let st2 = acts_applied(st, t, all_deadline_acts(items, now, n));
            &&& st2.deadlines.dom() == st.deadlines.dom()
            &&& forall|k: DueName| #[trigger]
                st.deadlines.contains_key(k) ==> {
                    &&& st2.deadlines[k].resolved_at == st.deadlines[k].resolved_at
                    &&& st2.deadlines[k].warn_at == st.deadlines[k].warn_at
                    &&& if among(t, items, n, k) {
                        settled(st2.deadlines[k], now)
                    } else {
                        st2.deadlines[k] == st.deadlines[k]
                    }
                }
        }),
    decreases n,
{
    if n > 0 {
        lemma_all_are_settled(st, t, items, now, n - 1);
        let item = items[n - 1];
        let at: DueName = (t, (item.0.case, item.0.name));
        let mid = acts_applied(st, t, all_deadline_acts(items, now, n - 1));
        lemma_applied_in_turn(
            st,
            t,
            all_deadline_acts(items, now, n - 1),
            deadline_acts(item, now),
        );
        assert(st.deadlines.contains_key(at));
        assert(mid.deadlines.dom().contains(at));
        lemma_one_is_settled(mid, t, st.deadlines[at], item, now);
        let st2 = acts_applied(st, t, all_deadline_acts(items, now, n));
        assert forall|k: DueName| #[trigger] st.deadlines.contains_key(k) implies {
            &&& st2.deadlines[k].resolved_at == st.deadlines[k].resolved_at
            &&& st2.deadlines[k].warn_at == st.deadlines[k].warn_at
            &&& if among(t, items, n, k) {
                settled(st2.deadlines[k], now)
            } else {
                st2.deadlines[k] == st.deadlines[k]
            }
        } by {
            assert(mid.deadlines.dom().contains(k));
            if k == at {
                assert(items[n - 1] == item);
                assert(among(t, items, n, k));
            } else {
                assert(st2.deadlines[k] == mid.deadlines[k]);
                if among(t, items, n, k) {
                    let i = choose|i: int|
                        0 <= i < n && k == (t, ((#[trigger] items[i]).0.case, items[i].0.name));
                    assert(i < n - 1);
                    assert(among(t, items, n - 1, k));
                }
                if among(t, items, n - 1, k) {
                    let i = choose|i: int|
                        0 <= i < n - 1 && k == (
                            t,
                            ((#[trigger] items[i]).0.case, items[i].0.name),
                        );
                    assert(among(t, items, n, k));
                }
            }
        }
    }
}

/// The obligations in a list of items.
pub open spec fn subjects(items: Seq<(DeadlineModel, Seq<char>)>) -> Seq<DeadlineModel> {
    Seq::new(items.len(), |i: int| items[i].0)
}

/// Whether these items are what a tick is given of the obligations that need
/// attention.
pub open spec fn given(
    st: CaseState,
    t: Seq<char>,
    now: i64,
    limit: usize,
    items: Seq<(DeadlineModel, Seq<char>)>,
) -> bool {
    let rows = due_rows(st, t, now, limit);
    &&& deadlines_read(rows, rows.len() as int) is Ok
    &&& subjects(items) == by_time(deadlines_read(rows, rows.len() as int)->Ok_0)
}

proof fn lemma_reads(rows: Seq<(DueName, DeadlineRowModel)>, n: int)
    requires
        0 <= n <= rows.len(),
        deadlines_read(rows, n) is Ok,
    ensures
        deadlines_read(rows, n)->Ok_0.len() == n,
        forall|i: int|
            0 <= i < n ==> deadline_read((#[trigger] rows[i]).0.1.0, rows[i].0.1.1, rows[i].1)
                == Ok::<DeadlineModel, Refusal>(deadlines_read(rows, n)->Ok_0[i]),
    decreases n,
{
    if n > 0 {
        lemma_reads(rows, n - 1);
    }
}

proof fn lemma_same_members(a: Seq<DeadlineModel>, b: Seq<DeadlineModel>, d: DeadlineModel)
    requires
        a.to_multiset() == b.to_multiset(),
        a.contains(d),
    ensures
        b.contains(d),
{
    broadcast use vstd::seq_lib::group_to_multiset_ensures;

    assert(a.to_multiset().contains(d));
    assert(b.to_multiset().contains(d));
}

/// Each item of a tick is an obligation that is stored, as it is stored.
proof fn lemma_given_is_stored(
    st: CaseState,
    t: Seq<char>,
    now: i64,
    limit: usize,
    items: Seq<(DeadlineModel, Seq<char>)>,
    i: int,
)
    requires
        st.due.dom().finite(),
        given(st, t, now, limit, items),
        0 <= i < items.len(),
    ensures
        st.deadlines.contains_key((t, (items[i].0.case, items[i].0.name))),
        read_as(st.deadlines[(t, (items[i].0.case, items[i].0.name))], items[i].0),
{
    let rows = due_rows(st, t, now, limit);
    let n = rows.len() as int;
    let read = deadlines_read(rows, n)->Ok_0;
    lemma_reads(rows, n);
    law_deadlines_come_in_order(read);
    let d = items[i].0;
    assert(subjects(items)[i] == d);
    assert(by_time(read).contains(d));
    lemma_same_members(by_time(read), read, d);
    let j = choose|j: int| 0 <= j < read.len() && read[j] == d;
    assert(rows[j].0.1.0 == d.case && rows[j].0.1.1 == d.name);
    let f = needing(st, t, now);
    lemma_chosen::<(String, (i64, (String, String))), i64>(st.due, f);
    let picks = chosen::<(String, (i64, (String, String))), i64>(st.due, f);
    assert(f(picks[j]));
    assert(rows[j] == ((t, picks[j].0.1.1), st.deadlines[(t, picks[j].0.1.1)]));
    assert(picks[j].0.1.1 == (d.case, d.name));
}

/// An obligation of a tick's list is among the tick's items.
proof fn lemma_row_is_given(
    st: CaseState,
    t: Seq<char>,
    now: i64,
    limit: usize,
    items: Seq<(DeadlineModel, Seq<char>)>,
    j: int,
)
    requires
        given(st, t, now, limit, items),
        0 <= j < due_rows(st, t, now, limit).len(),
    ensures
        among(t, items, items.len() as int, due_rows(st, t, now, limit)[j].0),
{
    let rows = due_rows(st, t, now, limit);
    let n = rows.len() as int;
    let read = deadlines_read(rows, n)->Ok_0;
    lemma_reads(rows, n);
    law_deadlines_come_in_order(read);
    let d = read[j];
    assert(deadline_read(rows[j].0.1.0, rows[j].0.1.1, rows[j].1) == Ok::<DeadlineModel, Refusal>(
        d,
    ));
    assert(read.contains(d));
    lemma_same_members(read, by_time(read), d);
    let i = choose|i: int| 0 <= i < by_time(read).len() && by_time(read)[i] == d;
    assert(subjects(items)[i] == d);
    assert(rows[j].0 == (t, (items[i].0.case, items[i].0.name)));
}

proof fn lemma_quiet_items(items: Seq<(DeadlineModel, Seq<char>)>, now: i64, n: int)
    requires
        0 <= n <= items.len(),
        forall|i: int|
            0 <= i < items.len() ==> !overdue((#[trigger] items[i]).0, now) && !warnable(
                items[i].0,
                now,
            ),
    ensures
        all_deadline_acts(items, now, n) == Seq::<ActModel>::empty(),
        breaches(items, now, n) == 0,
        warnings(items, now, n) == 0,
    decreases n,
{
    if n > 0 {
        lemma_quiet_items(items, now, n - 1);
        assert(!overdue(items[n - 1].0, now) && !warnable(items[n - 1].0, now));
        assert(all_deadline_acts(items, now, n) =~= Seq::<ActModel>::empty());
    }
}

/// A tick that runs twice breaches and warns once: where the first was given all
/// that needed attention and performed what it decided, a second at the same
/// instant decides nothing about obligations, whatever is left on the list.
pub proof fn law_second_deadline_pass_is_quiet(
    st: CaseState,
    t: Seq<char>,
    now: i64,
    limit: usize,
    items: Seq<(DeadlineModel, Seq<char>)>,
    again: usize,
    later: Seq<(DeadlineModel, Seq<char>)>,
)
    requires
        st.wf(),
        st.due.dom().finite(),
        given(st, t, now, limit, items),
        chosen::<(String, (i64, (String, String))), i64>(st.due, needing(st, t, now)).len()
            <= limit,
        given(
            acts_applied(st, t, all_deadline_acts(items, now, items.len() as int)),
            t,
            now,
            again,
            later,
        ),
    ensures
        all_deadline_acts(later, now, later.len() as int) == Seq::<ActModel>::empty(),
        breaches(later, now, later.len() as int) == 0,
        warnings(later, now, later.len() as int) == 0,
{
    let acts = all_deadline_acts(items, now, items.len() as int);
    let st2 = acts_applied(st, t, acts);
    law_acts_agree(st, t, acts);
    assert forall|i: int| 0 <= i < items.len() implies {
        let k = (t, ((#[trigger] items[i]).0.case, items[i].0.name));
        st.deadlines.contains_key(k) && read_as(st.deadlines[k], items[i].0)
    } by {
        lemma_given_is_stored(st, t, now, limit, items, i);
    }
    lemma_all_are_settled(st, t, items, now, items.len() as int);
    assert forall|i: int| 0 <= i < later.len() implies !overdue((#[trigger] later[i]).0, now)
        && !warnable(later[i].0, now) by {
        let d = later[i].0;
        let k: DueName = (t, (d.case, d.name));
        lemma_given_is_stored(st2, t, now, again, later, i);
        lemma_settled(st2.deadlines[k], d, now);
        assert(st2.deadlines.dom().contains(k));
        assert(st.deadlines.contains_key(k));
        if !among(t, items, items.len() as int, k) {
            let row = st.deadlines[k];
            assert(st2.deadlines[k] == row);
            if overdue(d, now) || warnable(d, now) {
                assert(!settled(row, now));
                assert(outstanding(row.state));
                assert(first_attention(row.resolved_at, row.warn_at) <= now);
                law_due_obligation_is_found(st, t, d.case, d.name, now, limit);
                let j = choose|j: int|
                    0 <= j < due_rows(st, t, now, limit).len() && (#[trigger] due_rows(
                        st,
                        t,
                        now,
                        limit,
                    )[j]).0 == (t, (d.case, d.name));
                lemma_row_is_given(st, t, now, limit, items, j);
            }
        }
    }
    lemma_quiet_items(later, now, later.len() as int);
}

// ── Tasks ───────────────────────────────────────────────────────────────────

/// Whether a table is what the acts on some overdue tasks leave of it: a task
/// whose policy answers it is closed, one that is escalated keeps its policy,
/// and every other is as it was.
pub open spec fn tasks_swept(
    m: Map<TaskKey, TaskRowModel>,
    keys: Seq<TaskKey>,
    after: Map<TaskKey, TaskRowModel>,
) -> bool {
    &&& after.dom() == m.dom()
    &&& forall|i: int|
        0 <= i < keys.len() ==> if expiry_of(m[#[trigger] keys[i]].on_expiry)
            == OnExpiry::Escalate {
            after[keys[i]].on_expiry == m[keys[i]].on_expiry
        } else {
            after[keys[i]] == (TaskRowModel { state: task_word(TaskState::Expired), ..m[keys[i]] })
        }
    &&& forall|k: TaskKey|
        m.contains_key(k) && !keys.contains(k) ==> #[trigger] after[k] == m[k]
}

/// The tasks that a tick is given.
pub open spec fn tasks_given(
    m: Map<TaskKey, TaskRowModel>,
    t: Seq<char>,
    now: i64,
    limit: usize,
) -> Seq<TaskKey> {
    crate::tasks::paged(
        listed::<(String, String), TaskRowModel>(m, overdue_in(t, now)),
        limit,
    )
}

/// What is still overdue after a tick was escalated by it.
proof fn lemma_left_was_escalated(
    m: Map<TaskKey, TaskRowModel>,
    t: Seq<char>,
    now: i64,
    limit: usize,
    after: Map<TaskKey, TaskRowModel>,
    again: usize,
    j: int,
)
    requires
        m.dom().finite(),
        listed::<(String, String), TaskRowModel>(m, overdue_in(t, now)).len() <= limit,
        tasks_swept(m, tasks_given(m, t, now, limit), after),
        0 <= j < tasks_given(after, t, now, again).len(),
    ensures
        ({
            let k = tasks_given(after, t, now, again)[j];
            &&& m.contains_key(k)
            &&& tasks_given(m, t, now, limit).contains(k)
            &&& expiry_of(m[k].on_expiry) == OnExpiry::Escalate
            &&& after[k].on_expiry == m[k].on_expiry
            &&& overdue_in(t, now)((k, after[k])) is Some
        }),
{
    let f = overdue_in(t, now);
    lemma_listed::<(String, String), TaskRowModel>(m, f);
    lemma_listed::<(String, String), TaskRowModel>(after, f);
    let first = listed::<(String, String), TaskRowModel>(m, f);
    let keys = tasks_given(m, t, now, limit);
    let rows = listed::<(String, String), TaskRowModel>(after, f);
    law_task_words_differ(TaskState::Expired, TaskState::Open);
    law_task_words_differ(TaskState::Expired, TaskState::Claimed);
    law_task_words_differ(TaskState::Expired, TaskState::Escalated);
    let e = rows[j].0;
    let k = e.1;
    assert(after.contains_key(k) && f((k, after[k])) == Some(e.0));
    assert(after.dom().contains(k));
    assert(m.contains_key(k));
    if !keys.contains(k) {
        assert(after[k] == m[k]);
        assert(f((k, m[k])) == Some(e.0));
        assert(has_key(first, (e.0, k)));
        let i = choose|i: int| 0 <= i < first.len() && (#[trigger] first[i]).0 == (e.0, k);
        assert(keys[i] == k);
    }
    let i = choose|i: int| 0 <= i < keys.len() && keys[i] == k;
    if expiry_of(m[keys[i]].on_expiry) != OnExpiry::Escalate {
        assert(after[k].state == task_word(TaskState::Expired));
        assert(!crate::tasks::pending_word(after[k].state));
    }
}

proof fn lemma_tasks_are_read(m: Map<TaskKey, TaskRowModel>, keys: Seq<TaskKey>, n: int)
    requires
        0 <= n <= keys.len(),
        tasks_read(m, keys, n) is Ok,
    ensures
        tasks_read(m, keys, n)->Ok_0.len() == n,
        forall|i: int|
            0 <= i < n ==> (#[trigger] tasks_read(m, keys, n)->Ok_0[i]).on_expiry == expiry_of(
                m[keys[i]].on_expiry,
            ),
    decreases n,
{
    if n > 0 {
        lemma_tasks_are_read(m, keys, n - 1);
        let before = tasks_read(m, keys, n - 1)->Ok_0;
        let all = tasks_read(m, keys, n)->Ok_0;
        assert forall|i: int| 0 <= i < n implies (#[trigger] all[i]).on_expiry == expiry_of(
            m[keys[i]].on_expiry,
        ) by {
            if i < n - 1 {
                assert(all[i] == before[i]);
            }
        }
    }
}

proof fn lemma_all_escalated(tasks: Seq<TaskModel>, n: int)
    requires
        0 <= n <= tasks.len(),
        forall|i: int|
            0 <= i < tasks.len() ==> (#[trigger] tasks[i]).on_expiry == OnExpiry::Escalate,
    ensures
        escalations(tasks, n) == n,
    decreases n,
{
    if n > 0 {
        lemma_all_escalated(tasks, n - 1);
        assert(tasks[n - 1].on_expiry == OnExpiry::Escalate);
    }
}

/// A tick that runs twice answers a task once: where the first was given all
/// that was overdue and performed what it decided, a second at the same instant
/// expires none. What escalating takes off the list is not on it either, so that
/// where it takes off all that it escalated, the second finds no task at all.
pub proof fn law_second_task_pass_is_quiet(
    m: Map<TaskKey, TaskRowModel>,
    t: Seq<char>,
    now: i64,
    limit: usize,
    after: Map<TaskKey, TaskRowModel>,
    again: usize,
    later: Seq<TaskModel>,
)
    requires
        m.dom().finite(),
        listed::<(String, String), TaskRowModel>(m, overdue_in(t, now)).len() <= limit,
        tasks_swept(m, tasks_given(m, t, now, limit), after),
        ({
            let keys = tasks_given(after, t, now, again);
            tasks_read(after, keys, keys.len() as int) == Ok::<Seq<TaskModel>, Refusal>(later)
        }),
    ensures
        later.len() - escalations(later, later.len() as int) == 0,
        (forall|k: TaskKey|
            #[trigger] tasks_given(m, t, now, limit).contains(k) && expiry_of(m[k].on_expiry)
                == OnExpiry::Escalate ==> overdue_in(t, now)((k, after[k])) is None)
            ==> later.len() == 0 && all_task_acts(later, later.len() as int) == Seq::<
            ActModel,
        >::empty(),
{
    let keys = tasks_given(after, t, now, again);
    let n = keys.len() as int;
    lemma_tasks_are_read(after, keys, n);
    assert forall|i: int| 0 <= i < later.len() implies (#[trigger] later[i]).on_expiry
        == OnExpiry::Escalate by {
        lemma_left_was_escalated(m, t, now, limit, after, again, i);
    }
    lemma_all_escalated(later, n);
    if later.len() > 0 {
        lemma_left_was_escalated(m, t, now, limit, after, again, 0);
        assert(tasks_given(m, t, now, limit).contains(keys[0]));
    }
}

// ── Events and timers ───────────────────────────────────────────────────────

/// A sweep of unclaimed events that runs twice retires once: a second at the
/// same cutoff retires nothing and changes nothing.
pub proof fn law_second_event_pass_is_quiet(
    st: EventState,
    t: Seq<char>,
    cutoff: i64,
    reason: Seq<char>,
    again: Seq<char>,
)
    requires
        st.wf(),
        st.live.dom().finite(),
    ensures
        chosen::<(String, (i64, (String, String))), ()>(
            swept(st, t, cutoff, reason).live,
            doomed(swept(st, t, cutoff, reason), t, cutoff),
        ).len() == 0,
        swept(swept(st, t, cutoff, reason), t, cutoff, again) == swept(st, t, cutoff, reason),
{
    let st2 = swept(st, t, cutoff, reason);
    let f = doomed(st2, t, cutoff);
    assert(st2.live.dom().subset_of(st.live.dom()));
    vstd::set_lib::lemma_set_subset_finite(st.live.dom(), st2.live.dom());
    lemma_chosen::<(String, (i64, (String, String))), ()>(st2.live, f);
    let rows = chosen::<(String, (i64, (String, String))), ()>(st2.live, f);
    if rows.len() > 0 {
        let e = rows[0];
        assert(st2.live.contains_key(e.0) && f(e));
        assert(!doomed(st, t, cutoff)((e.0, ())));
    }
    assert forall|ev: (Seq<char>, Seq<char>)| !crate::events::is_doomed(st2, t, cutoff, ev) by {
        if crate::events::is_doomed(st2, t, cutoff, ev) {
            let at = choose|at: i64|
                at <= cutoff && #[trigger] st2.live.contains_key((t, (at, ev)));
            let k: ByTime = (t, (at, ev));
            assert(st2.live.contains_key(k));
            assert(st.live.contains_key(k));
            assert(st.events.contains_key((t, ev)));
            assert(doomed(st, t, cutoff)((k, ())));
        }
    }
    assert(swept(st2, t, cutoff, again) =~= st2);
}

/// A timer pass that runs twice wakes once: where the first took all that were
/// due, a second at the same instant takes none.
pub proof fn law_second_timer_pass_is_quiet(
    m: Map<TimerKey, TimerRowModel>,
    t: Seq<char>,
    now: i64,
    limit: usize,
    again: usize,
)
    requires
        m.dom().finite(),
        listed::<(String, (String, String)), TimerRowModel>(m, ripe_in(t, now)).len() <= limit,
    ensures
        ({
            let keys = crate::timers::paged(
                listed::<(String, (String, String)), TimerRowModel>(m, ripe_in(t, now)),
                limit,
            );
            crate::timers::paged(
                listed::<(String, (String, String)), TimerRowModel>(
                    taken(m, keys, now, keys.len() as int),
                    ripe_in(t, now),
                ),
                again,
            ).len() == 0
        }),
{
    let f = ripe_in(t, now);
    let first = listed::<(String, (String, String)), TimerRowModel>(m, f);
    let keys = crate::timers::paged(first, limit);
    let n = keys.len() as int;
    let after = taken(m, keys, now, n);
    lemma_listed::<(String, (String, String)), TimerRowModel>(m, f);
    assert forall|i: int| 0 <= i < keys.len() implies m.contains_key(#[trigger] keys[i]) by {
        assert(m.contains_key(first[i].0.1));
    }
    lemma_taken_names(m, keys, now, n);
    lemma_listed::<(String, (String, String)), TimerRowModel>(after, f);
    let rows = listed::<(String, (String, String)), TimerRowModel>(after, f);
    if rows.len() > 0 {
        let e = rows[0].0;
        let k = e.1;
        assert(after.contains_key(k) && f((k, after[k])) == Some(e.0));
        assert(after.dom().contains(k));
        law_claims_mark_what_they_give(m, keys, now, n, k);
        assert(keys.take(n) =~= keys);
        if !keys.contains(k) {
            assert(f((k, m[k])) == Some(e.0));
            assert(has_key(first, (e.0, k)));
            let i = choose|i: int| 0 <= i < first.len() && (#[trigger] first[i]).0 == (e.0, k);
            assert(keys[i] == k);
        }
    }
}

proof fn lemma_taken_names(
    m: Map<TimerKey, TimerRowModel>,
    keys: Seq<TimerKey>,
    now: i64,
    n: int,
)
    requires
        0 <= n <= keys.len(),
        forall|i: int| 0 <= i < keys.len() ==> m.contains_key(#[trigger] keys[i]),
    ensures
        taken(m, keys, now, n).dom() == m.dom(),
    decreases n,
{
    if n > 0 {
        lemma_taken_names(m, keys, now, n - 1);
        assert(m.contains_key(keys[n - 1]));
        assert(taken(m, keys, now, n).dom() =~= m.dom());
    } else {
        assert(taken(m, keys, now, n).dom() =~= m.dom());
    }
}

// ── The tick ────────────────────────────────────────────────────────────────

/// A tick is safe to repeat: where a first one hit no cap and performed all that
/// it decided, a second at the same instant warns of nothing, breaches nothing,
/// expires no task and retires no event, and leaves the cases and the events as
/// they are.
pub proof fn law_second_tick_is_quiet(
    cases: CaseState,
    tasks: Map<TaskKey, TaskRowModel>,
    events: EventState,
    t: Seq<char>,
    now: i64,
    cutoff: i64,
    reason: Seq<char>,
    due_limit: usize,
    task_limit: usize,
    items: Seq<(DeadlineModel, Seq<char>)>,
    after: Map<TaskKey, TaskRowModel>,
    items2: Seq<(DeadlineModel, Seq<char>)>,
    tasks2: Seq<TaskModel>,
)
    requires
        cases.wf(),
        cases.due.dom().finite(),
        given(cases, t, now, due_limit, items),
        chosen::<(String, (i64, (String, String))), i64>(
            cases.due,
            needing(cases, t, now),
        ).len() <= due_limit,
        given(
            acts_applied(cases, t, all_deadline_acts(items, now, items.len() as int)),
            t,
            now,
            due_limit,
            items2,
        ),
        tasks.dom().finite(),
        listed::<(String, String), TaskRowModel>(tasks, overdue_in(t, now)).len() <= task_limit,
        tasks_swept(tasks, tasks_given(tasks, t, now, task_limit), after),
        ({
            let keys = tasks_given(after, t, now, task_limit);
            tasks_read(after, keys, keys.len() as int) == Ok::<Seq<TaskModel>, Refusal>(tasks2)
        }),
        events.wf(),
        events.live.dom().finite(),
    ensures
        ({
            let cases2 = acts_applied(
                cases,
                t,
                all_deadline_acts(items, now, items.len() as int),
            );
            let events2 = swept(events, t, cutoff, reason);
            &&& warnings(items2, now, items2.len() as int) == 0
            &&& breaches(items2, now, items2.len() as int) == 0
            &&& acts_applied(cases2, t, all_deadline_acts(items2, now, items2.len() as int))
                == cases2
            &&& tasks2.len() - escalations(tasks2, tasks2.len() as int) == 0
            &&& chosen::<(String, (i64, (String, String))), ()>(
                events2.live,
                doomed(events2, t, cutoff),
            ).len() == 0
            &&& swept(events2, t, cutoff, reason) == events2
        }),
{
    law_second_deadline_pass_is_quiet(cases, t, now, due_limit, items, due_limit, items2);
    law_second_task_pass_is_quiet(tasks, t, now, task_limit, after, task_limit, tasks2);
    law_second_event_pass_is_quiet(events, t, cutoff, reason, reason);
}

} // verus!
