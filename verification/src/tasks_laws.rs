//! What holds of tasks across operations.

use vstd::prelude::*;

use crate::error::Refusal;
use crate::table::{
    has_key, lemma_chosen_counted, lemma_filter_origin, lemma_listed, lemma_listed_counted, listed,
    page,
};
use crate::tasks::{
    claim_answer, free_in, freed_row, held_row, holds, law_expiry_round_trip, law_list_round_trip,
    law_priority_round_trip, law_task_state_round_trip, law_task_words_differ, of_case,
    of_case_answer, opened, overdue_answer, overdue_in, paged, parsed_of, queue_answer, role_fits,
    state_given, take_over_answer, task_read, task_state_of, task_word, tasks_read, waiting_count,
    waiting_in, ClaimRefusal, TaskKey, TaskModel, TaskRowModel, TaskState,
};

verus! {

// ── Reading ─────────────────────────────────────────────────────────────────

/// A task reads as it is kept: every field is its own, and it reads wherever its
/// ids and instants are some, its justification parsed and its state is one.
pub proof fn law_task_reads_as_it_is_kept(
    id: Seq<char>,
    row: TaskRowModel,
    parsed: Result<Seq<char>, Seq<char>>,
)
    ensures
        task_read(id, row, parsed) is Ok <==> {
            &&& row.fault is None
            &&& row.run.fault is None
            &&& row.case is Some ==> row.case->0.fault is None
            &&& parsed is Ok
            &&& exists|s: TaskState| row.state == #[trigger] task_word(s)
            &&& row.created_fault is None
            &&& row.due_at is Some ==> row.due_fault is None
        },
        task_read(id, row, parsed) matches Ok(task) ==> {
            &&& task.id == id
            &&& task.run == row.run.text
            &&& task.case is Some <==> row.case is Some
            &&& row.case is Some ==> task.case == Some(row.case->0.text)
            &&& task.kind == row.kind
            &&& parsed == Ok::<Seq<char>, Seq<char>>(task.justification)
            &&& task.assignee == row.assignee
            &&& task_word(task.state) == row.state
            &&& task.created_at == row.created_at
            &&& task.due_at == row.due_at
        },
{
    if exists|s: TaskState| row.state == #[trigger] task_word(s) {
        let s = choose|s: TaskState| row.state == #[trigger] task_word(s);
        law_task_state_round_trip(s);
    }
    if let Some(s) = task_state_of(row.state) {
        assert(row.state == task_word(s));
    }
}

/// What was opened is what is read, where its lists can be kept in a column: the
/// first opening stands, and no other task is touched.
pub proof fn law_opened_task_reads_back(
    m: Map<TaskKey, TaskRowModel>,
    t: Seq<char>,
    task: TaskModel,
    parsed: Seq<char>,
    again: TaskModel,
    k: TaskKey,
)
    requires
        !m.contains_key((t, task.id)),
        again.id == task.id,
        forall|i: int|
            0 <= i < task.candidate_roles.len() ==> !(#[trigger] task.candidate_roles[i]).contains(
                ',',
            ),
        forall|i: int|
            0 <= i < task.excluded_actors.len() ==> !(#[trigger] task.excluded_actors[i]).contains(
                ',',
            ),
        task.candidate_roles != seq![Seq::<char>::empty()],
        task.excluded_actors != seq![Seq::<char>::empty()],
    ensures
        opened(m, t, task).contains_key((t, task.id)),
        task_read(
            task.id,
            opened(m, t, task)[(t, task.id)],
            Ok::<Seq<char>, Seq<char>>(parsed),
        ) == Ok::<TaskModel, Refusal>(TaskModel { justification: parsed, ..task }),
        opened(opened(m, t, task), t, again) == opened(m, t, task),
        k != (t, task.id) ==> opened(m, t, task).contains_key(k) == m.contains_key(k),
        m.contains_key(k) ==> opened(m, t, task)[k] == m[k],
{
    law_list_round_trip(task.candidate_roles);
    law_list_round_trip(task.excluded_actors);
    law_task_state_round_trip(task.state);
    law_priority_round_trip(task.priority);
    law_expiry_round_trip(task.on_expiry);
    let read = task_read(
        task.id,
        opened(m, t, task)[(t, task.id)],
        Ok::<Seq<char>, Seq<char>>(parsed),
    );
    assert(read->Ok_0 =~= TaskModel { justification: parsed, ..task });
}

/// A task that was given a state reads with that state, and as it was in
/// everything else. No other task is touched, and one that is not there stays
/// away.
pub proof fn law_state_is_read_back(
    m: Map<TaskKey, TaskRowModel>,
    k: TaskKey,
    state: TaskState,
    parsed: Result<Seq<char>, Seq<char>>,
    other: TaskKey,
)
    ensures
        state_given(m, k, state).contains_key(k) == m.contains_key(k),
        m.contains_key(k) ==> (task_read(k.1, m[k], parsed) matches Ok(task) ==> task_read(
            k.1,
            state_given(m, k, state)[k],
            parsed,
        ) == Ok::<TaskModel, Refusal>(TaskModel { state, ..task })),
        other != k ==> state_given(m, k, state).contains_key(other) == m.contains_key(other),
        other != k && m.contains_key(other) ==> state_given(m, k, state)[other] == m[other],
{
    law_task_state_round_trip(state);
}

// ── Claiming ────────────────────────────────────────────────────────────────

/// Whether a task names no roles, or one of these.
pub open spec fn asks_for_one_of(task: TaskModel, roles: Seq<Seq<char>>) -> bool {
    task.candidate_roles.len() == 0 || exists|role: Seq<char>| #[trigger]
        task.candidate_roles.contains(role) && roles.contains(role)
}

proof fn lemma_role_fits(task: TaskModel, roles: Seq<Seq<char>>)
    ensures
        role_fits(task.candidate_roles, roles) == asks_for_one_of(task, roles),
{
    if asks_for_one_of(task, roles) && task.candidate_roles.len() > 0 {
        let role = choose|role: Seq<char>| #[trigger]
            task.candidate_roles.contains(role) && roles.contains(role);
        let i = choose|i: int|
            0 <= i < task.candidate_roles.len() && task.candidate_roles[i] == role;
        assert(roles.contains(task.candidate_roles[i]));
    }
    if role_fits(task.candidate_roles, roles) && task.candidate_roles.len() > 0 {
        let i = choose|i: int|
            0 <= i < task.candidate_roles.len() && roles.contains(
                #[trigger] task.candidate_roles[i],
            );
        assert(task.candidate_roles.contains(task.candidate_roles[i]));
    }
}

/// A claim is granted exactly to whom it is owed: the task is there and reads, the
/// actor is not barred from it and has a role for it, it waits for somebody, and
/// nobody else has it. The actor has it then, and it is the task it was in
/// everything else; what the claim answers is what is read afterwards.
pub proof fn law_claim_is_granted(
    m: Map<TaskKey, TaskRowModel>,
    k: TaskKey,
    actor: Seq<char>,
    roles: Seq<Seq<char>>,
    parsed: Result<Seq<char>, Seq<char>>,
)
    ensures
        claim_answer(m, k, actor, roles, parsed) is Ok <==> {
            &&& m.contains_key(k)
            &&& task_read(k.1, m[k], parsed) matches Ok(task) && {
                &&& !task.excluded_actors.contains(actor)
                &&& asks_for_one_of(task, roles)
                &&& task.state != TaskState::Completed
                &&& task.state != TaskState::Expired
                &&& task.assignee is None || task.assignee == Some(actor)
            }
        },
        claim_answer(m, k, actor, roles, parsed) matches Ok(held) ==> {
            &&& held.assignee == Some(actor)
            &&& held.state == TaskState::Claimed
            &&& held == (TaskModel {
                assignee: Some(actor),
                state: TaskState::Claimed,
                ..task_read(k.1, m[k], parsed)->Ok_0
            })
            &&& task_read(k.1, held_row(m[k], actor), parsed) == Ok::<TaskModel, Refusal>(held)
        },
{
    if m.contains_key(k) {
        if let Ok(task) = task_read(k.1, m[k], parsed) {
            lemma_role_fits(task, roles);
        }
    }
    law_task_state_round_trip(TaskState::Claimed);
    law_task_reads_as_it_is_kept(k.1, m[k], parsed);
}

/// What a refused claim says is why: the task is not there, the actor is barred
/// from it or has no role for it, it waits for nobody, or somebody else has it,
/// who is named.
pub proof fn law_claim_says_why(
    m: Map<TaskKey, TaskRowModel>,
    k: TaskKey,
    actor: Seq<char>,
    roles: Seq<Seq<char>>,
    parsed: Result<Seq<char>, Seq<char>>,
    task: TaskModel,
)
    ensures
        claim_answer(m, k, actor, roles, parsed) == Err::<TaskModel, ClaimRefusal>(
            ClaimRefusal::NotFound(k.1),
        ) <==> !m.contains_key(k),
        m.contains_key(k) && task_read(k.1, m[k], parsed) == Ok::<TaskModel, Refusal>(task) ==> (
        claim_answer(m, k, actor, roles, parsed) matches Err(why) ==> match why {
            ClaimRefusal::Excluded { actor: who } => who == actor
                && task.excluded_actors.contains(actor),
            ClaimRefusal::WrongRole { actor: who } => who == actor && !asks_for_one_of(task, roles),
            ClaimRefusal::NotPending { task: id, state } => id == k.1 && state == task.state && (
            state == TaskState::Completed || state == TaskState::Expired),
            ClaimRefusal::AlreadyClaimed { task: id, holder } => id == k.1 && holder != actor
                && task.assignee == Some(holder),
            _ => false,
        }),
{
    lemma_role_fits(task, roles);
}

/// A task is taken over exactly from whoever holds it, by whom could have claimed
/// it, and is theirs then.
pub proof fn law_take_over_is_granted(
    m: Map<TaskKey, TaskRowModel>,
    k: TaskKey,
    from: Seq<char>,
    actor: Seq<char>,
    roles: Seq<Seq<char>>,
    parsed: Result<Seq<char>, Seq<char>>,
)
    ensures
        take_over_answer(m, k, from, actor, roles, parsed) is Ok <==> {
            &&& m.contains_key(k)
            &&& task_read(k.1, m[k], parsed) matches Ok(task) && {
                &&& !task.excluded_actors.contains(actor)
                &&& asks_for_one_of(task, roles)
                &&& task.state == TaskState::Claimed
                &&& task.assignee == Some(from)
            }
        },
        take_over_answer(m, k, from, actor, roles, parsed) matches Ok(held) ==> {
            &&& held == (TaskModel {
                assignee: Some(actor),
                ..task_read(k.1, m[k], parsed)->Ok_0
            })
            &&& task_read(k.1, held_row(m[k], actor), parsed) == Ok::<TaskModel, Refusal>(held)
        },
{
    if m.contains_key(k) {
        if let Ok(task) = task_read(k.1, m[k], parsed) {
            lemma_role_fits(task, roles);
            law_task_words_differ(task.state, TaskState::Claimed);
        }
    }
    law_task_state_round_trip(TaskState::Claimed);
    law_task_reads_as_it_is_kept(k.1, m[k], parsed);
}

/// Only whoever has a task lets go of it, and it is open to all then: it reads
/// with nobody holding it, and whoever may take it can.
pub proof fn law_release_opens_the_task(
    row: TaskRowModel,
    id: Seq<char>,
    actor: Seq<char>,
    parsed: Result<Seq<char>, Seq<char>>,
)
    ensures
        task_read(id, row, parsed) matches Ok(task) ==> (holds(row, actor) <==> task.assignee
            == Some(actor) && task.state == TaskState::Claimed),
        task_read(id, row, parsed) matches Ok(task) ==> task_read(id, freed_row(row), parsed)
            == Ok::<TaskModel, Refusal>(
            TaskModel { assignee: None, state: TaskState::Open, ..task },
        ),
{
    law_task_state_round_trip(TaskState::Open);
    law_task_reads_as_it_is_kept(id, row, parsed);
    if let Ok(task) = task_read(id, row, parsed) {
        law_task_words_differ(task.state, TaskState::Claimed);
    }
}

// ── Listing ─────────────────────────────────────────────────────────────────

proof fn lemma_each_is_read(m: Map<TaskKey, TaskRowModel>, keys: Seq<TaskKey>, n: int)
    requires
        0 <= n <= keys.len(),
        tasks_read(m, keys, n) is Ok,
    ensures
        tasks_read(m, keys, n)->Ok_0.len() == n,
        forall|i: int|
            0 <= i < n ==> task_read(
                (#[trigger] keys[i]).1,
                m[keys[i]],
                parsed_of(m, keys[i]),
            ) == Ok::<TaskModel, Refusal>(tasks_read(m, keys, n)->Ok_0[i]),
    decreases n,
{
    if n > 0 {
        lemma_each_is_read(m, keys, n - 1);
        let before = tasks_read(m, keys, n - 1)->Ok_0;
        let after = tasks_read(m, keys, n)->Ok_0;
        assert forall|i: int| 0 <= i < n implies task_read(
            (#[trigger] keys[i]).1,
            m[keys[i]],
            parsed_of(m, keys[i]),
        ) == Ok::<TaskModel, Refusal>(after[i]) by {
            if i < n - 1 {
                assert(after[i] == before[i]);
            }
        }
    }
}

/// What a page of a list of tasks holds.
proof fn lemma_page_of(
    m: Map<TaskKey, TaskRowModel>,
    t: Seq<char>,
    f: spec_fn((TaskKey, TaskRowModel)) -> Option<i64>,
    limit: usize,
)
    requires
        m.dom().finite(),
        forall|k: TaskKey, r: TaskRowModel| #[trigger] f((k, r)) is Some ==> k.0 == t,
        ({
            let keys = paged(listed::<(String, String), TaskRowModel>(m, f), limit);
            tasks_read(m, keys, keys.len() as int) is Ok
        }),
    ensures
        ({
            let keys = paged(listed::<(String, String), TaskRowModel>(m, f), limit);
            let all = tasks_read(m, keys, keys.len() as int)->Ok_0;
            &&& all.len() == keys.len()
            &&& all.len() <= limit
            &&& forall|i: int|
                0 <= i < all.len() ==> {
                    let k = (t, (#[trigger] all[i]).id);
                    &&& k == keys[i]
                    &&& m.contains_key(k)
                    &&& task_read(k.1, m[k], parsed_of(m, k)) == Ok::<TaskModel, Refusal>(all[i])
                    &&& f((k, m[k])) is Some
                }
            &&& forall|i: int, j: int|
                0 <= i < j < all.len() ==> f(
                    ((t, (#[trigger] all[i]).id), m[(t, all[i].id)]),
                )->0 <= f(((t, (#[trigger] all[j]).id), m[(t, all[j].id)]))->0 && all[i].id
                    != all[j].id
            &&& Set::new(|k: TaskKey| m.contains_key(k) && f((k, m[k])) is Some).len() <= limit
                ==> forall|id: Seq<char>| #[trigger]
                m.contains_key((t, id)) && f(((t, id), m[(t, id)])) is Some ==> exists|i: int|
                    0 <= i < all.len() && (#[trigger] all[i]).id == id
            &&& forall|id: Seq<char>| #[trigger]
                m.contains_key((t, id)) && f(((t, id), m[(t, id)])) is Some && !(exists|i: int|
                    0 <= i < all.len() && (#[trigger] all[i]).id == id) ==> all.len() == limit
                    && forall|i: int|
                    0 <= i < all.len() ==> f(
                        ((t, (#[trigger] all[i]).id), m[(t, all[i].id)]),
                    )->0 <= f(((t, id), m[(t, id)]))->0
        }),
{
    let rows = listed::<(String, String), TaskRowModel>(m, f);
    let keys = paged(rows, limit);
    let all = tasks_read(m, keys, keys.len() as int)->Ok_0;
    lemma_listed::<(String, String), TaskRowModel>(m, f);
    lemma_listed_counted::<(String, String), TaskRowModel>(m, f);
    lemma_each_is_read(m, keys, keys.len() as int);
    assert forall|i: int| 0 <= i < all.len() implies {
        let k = (t, (#[trigger] all[i]).id);
        &&& k == keys[i]
        &&& m.contains_key(k)
        &&& task_read(k.1, m[k], parsed_of(m, k)) == Ok::<TaskModel, Refusal>(all[i])
        &&& f((k, m[k])) == Some(rows[i].0.0)
    } by {
        let e = rows[i].0;
        assert(keys[i] == e.1);
        assert(f((e.1, m[e.1])) == Some(e.0));
        assert(task_read(keys[i].1, m[keys[i]], parsed_of(m, keys[i])) == Ok::<
            TaskModel,
            Refusal,
        >(all[i]));
    }
    assert forall|i: int, j: int| 0 <= i < j < all.len() implies f(
        ((t, (#[trigger] all[i]).id), m[(t, all[i].id)]),
    )->0 <= f(((t, (#[trigger] all[j]).id), m[(t, all[j].id)]))->0 && all[i].id != all[j].id by {
        assert(rows[i].0.0 <= rows[j].0.0);
        assert(rows[i].0.1 != rows[j].0.1);
    }
    assert forall|id: Seq<char>| #[trigger]
        m.contains_key((t, id)) && f(((t, id), m[(t, id)])) is Some && !(exists|i: int|
            0 <= i < all.len() && (#[trigger] all[i]).id == id) implies all.len() == limit
        && forall|i: int|
        0 <= i < all.len() ==> f(((t, (#[trigger] all[i]).id), m[(t, all[i].id)]))->0 <= f(
            ((t, id), m[(t, id)]),
        )->0 by {
        let k = (t, id);
        let at = f((k, m[k]))->0;
        assert(m.contains_key(k) && f((k, m[k])) == Some(at));
        assert(has_key(rows, (at, k)));
        let p = choose|p: int| 0 <= p < rows.len() && (#[trigger] rows[p]).0 == (at, k);
        if p < all.len() {
            assert(keys[p] == k);
            assert(all[p].id == id);
        }
        assert forall|i: int| 0 <= i < all.len() implies f(
            ((t, (#[trigger] all[i]).id), m[(t, all[i].id)]),
        )->0 <= at by {
            assert(rows[i].0.0 <= rows[p].0.0);
        }
    }
    if Set::new(|k: TaskKey| m.contains_key(k) && f((k, m[k])) is Some).len() <= limit {
        assert(keys.len() == rows.len());
        assert forall|id: Seq<char>| #[trigger]
            m.contains_key((t, id)) && f(((t, id), m[(t, id)])) is Some implies exists|i: int|
            0 <= i < all.len() && (#[trigger] all[i]).id == id by {
            let k = (t, id);
            let at = f((k, m[k]))->0;
            assert(m.contains_key(k) && f((k, m[k])) == Some(at));
            assert(has_key(rows, (at, k)));
            let i = choose|i: int| 0 <= i < rows.len() && (#[trigger] rows[i]).0 == (at, k);
            assert(keys[i] == k);
            assert(all[i].id == id);
        }
    }
}

/// The queue offers what waits for somebody: every task in it is open or was
/// escalated, names no roles or one that was asked with, and reads as it is kept;
/// none is claimed, completed or expired. The oldest come first, none twice.
pub proof fn law_queue_offers_what_is_free(
    m: Map<TaskKey, TaskRowModel>,
    t: Seq<char>,
    roles: Seq<Seq<char>>,
    limit: usize,
    out: Seq<TaskModel>,
)
    requires
        m.dom().finite(),
        queue_answer(m, t, roles, limit) == Ok::<Seq<TaskModel>, Refusal>(out),
    ensures
        out.len() <= limit,
        forall|i: int|
            0 <= i < out.len() ==> {
                let k = (t, (#[trigger] out[i]).id);
                &&& m.contains_key(k)
                &&& task_read(k.1, m[k], parsed_of(m, k)) == Ok::<TaskModel, Refusal>(out[i])
                &&& out[i].state == TaskState::Open || out[i].state == TaskState::Escalated
                &&& asks_for_one_of(out[i], roles)
            },
        forall|i: int, j: int|
            0 <= i < j < out.len() ==> (#[trigger] out[i]).created_at <= (
            #[trigger] out[j]).created_at && out[i].id != out[j].id,
{
    let f = free_in(t);
    let keys = paged(listed::<(String, String), TaskRowModel>(m, f), limit);
    let all = tasks_read(m, keys, keys.len() as int)->Ok_0;
    lemma_page_of(m, t, f, limit);
    let rule = |x: TaskModel| role_fits(x.candidate_roles, roles);
    let at = lemma_filter_origin(all, rule);
    lemma_rising_places(at, all.len() as int);
    assert forall|i: int| 0 <= i < out.len() implies {
        let k = (t, (#[trigger] out[i]).id);
        &&& m.contains_key(k)
        &&& task_read(k.1, m[k], parsed_of(m, k)) == Ok::<TaskModel, Refusal>(out[i])
        &&& out[i].state == TaskState::Open || out[i].state == TaskState::Escalated
        &&& asks_for_one_of(out[i], roles)
    } by {
        assert(all[at[i]] == out[i]);
        lemma_role_fits(out[i], roles);
        let k = (t, out[i].id);
        law_task_reads_as_it_is_kept(k.1, m[k], parsed_of(m, k));
        law_task_words_differ(out[i].state, TaskState::Open);
        law_task_words_differ(out[i].state, TaskState::Escalated);
    }
    assert forall|i: int, j: int| 0 <= i < j < out.len() implies (#[trigger] out[i]).created_at <= (
    #[trigger] out[j]).created_at && out[i].id != out[j].id by {
        assert(all[at[i]] == out[i] && all[at[j]] == out[j]);
        assert(at[i] < at[j]);
        let a = (t, out[i].id);
        let b = (t, out[j].id);
        law_task_reads_as_it_is_kept(a.1, m[a], parsed_of(m, a));
        law_task_reads_as_it_is_kept(b.1, m[b], parsed_of(m, b));
    }
}

proof fn lemma_rising_places(at: Seq<int>, n: int)
    requires
        n >= 0,
        forall|i: int| 0 <= i < at.len() ==> 0 <= #[trigger] at[i] < n,
        forall|i: int, j: int| 0 <= i < j < at.len() ==> #[trigger] at[i] < #[trigger] at[j],
    ensures
        at.len() <= n,
    decreases at.len(),
{
    if at.len() > 0 {
        let last = at[at.len() - 1];
        let d = at.drop_last();
        assert forall|i: int| 0 <= i < d.len() implies 0 <= #[trigger] d[i] < last by {
            assert(at[i] < at[at.len() - 1]);
        }
        lemma_rising_places(d, last);
    }
}

/// Nothing that waits is left out of the queue: where the limit has room for every
/// task that is open or was escalated, each of those that reads as asking for one
/// of these roles is offered.
pub proof fn law_queue_leaves_nothing_out(
    m: Map<TaskKey, TaskRowModel>,
    t: Seq<char>,
    roles: Seq<Seq<char>>,
    limit: usize,
    out: Seq<TaskModel>,
    id: Seq<char>,
)
    requires
        m.dom().finite(),
        queue_answer(m, t, roles, limit) == Ok::<Seq<TaskModel>, Refusal>(out),
        Set::new(
            |k: TaskKey|
                m.contains_key(k) && k.0 == t && (m[k].state == task_word(TaskState::Open)
                    || m[k].state == task_word(TaskState::Escalated)),
        ).len() <= limit,
        m.contains_key((t, id)),
        ({
            let read = task_read(id, m[(t, id)], parsed_of(m, (t, id)));
            &&& read is Ok
            &&& read->Ok_0.state == TaskState::Open || read->Ok_0.state == TaskState::Escalated
            &&& asks_for_one_of(read->Ok_0, roles)
        }),
    ensures
        exists|i: int| 0 <= i < out.len() && (#[trigger] out[i]).id == id,
{
    let f = free_in(t);
    let keys = paged(listed::<(String, String), TaskRowModel>(m, f), limit);
    let all = tasks_read(m, keys, keys.len() as int)->Ok_0;
    lemma_page_of(m, t, f, limit);
    assert(Set::new(|k: TaskKey| m.contains_key(k) && f((k, m[k])) is Some) =~= Set::new(
        |k: TaskKey|
            m.contains_key(k) && k.0 == t && (m[k].state == task_word(TaskState::Open)
                || m[k].state == task_word(TaskState::Escalated)),
    ));
    let rule = |x: TaskModel| role_fits(x.candidate_roles, roles);
    let at = lemma_filter_origin(all, rule);
    law_task_reads_as_it_is_kept(id, m[(t, id)], parsed_of(m, (t, id)));
    assert(f(((t, id), m[(t, id)])) is Some);
    let j = choose|j: int| 0 <= j < all.len() && (#[trigger] all[j]).id == id;
    lemma_role_fits(all[j], roles);
    assert(rule(all[j]));
    let i = choose|i: int| 0 <= i < at.len() && #[trigger] at[i] == j;
    assert(out[i] == all[at[i]]);
}

/// A queue that is cut keeps the oldest: a task that waits for somebody with one of
/// these roles and is not offered has as many before it, open or escalated and no
/// younger, as were asked for.
pub proof fn law_queue_keeps_the_oldest(
    m: Map<TaskKey, TaskRowModel>,
    t: Seq<char>,
    roles: Seq<Seq<char>>,
    limit: usize,
    out: Seq<TaskModel>,
    id: Seq<char>,
)
    requires
        m.dom().finite(),
        queue_answer(m, t, roles, limit) == Ok::<Seq<TaskModel>, Refusal>(out),
        m.contains_key((t, id)),
        ({
            let read = task_read(id, m[(t, id)], parsed_of(m, (t, id)));
            &&& read is Ok
            &&& read->Ok_0.state == TaskState::Open || read->Ok_0.state == TaskState::Escalated
            &&& asks_for_one_of(read->Ok_0, roles)
        }),
        forall|i: int| 0 <= i < out.len() ==> (#[trigger] out[i]).id != id,
    ensures
        Set::new(
            |k: TaskKey|
                m.contains_key(k) && k != (t, id) && k.0 == t && (m[k].state == task_word(
                    TaskState::Open,
                ) || m[k].state == task_word(TaskState::Escalated)) && m[k].created_at <= m[(
                    t,
                    id,
                )].created_at,
        ).len() >= limit,
{
    let f = free_in(t);
    let keys = paged(listed::<(String, String), TaskRowModel>(m, f), limit);
    let all = tasks_read(m, keys, keys.len() as int)->Ok_0;
    lemma_page_of(m, t, f, limit);
    let rule = |x: TaskModel| role_fits(x.candidate_roles, roles);
    let at = lemma_filter_origin(all, rule);
    law_task_reads_as_it_is_kept(id, m[(t, id)], parsed_of(m, (t, id)));
    assert(f(((t, id), m[(t, id)])) is Some);
    assert forall|j: int| 0 <= j < all.len() implies (#[trigger] all[j]).id != id by {
        if all[j].id == id {
            lemma_role_fits(all[j], roles);
            assert(rule(all[j]));
            let i = choose|i: int| 0 <= i < at.len() && #[trigger] at[i] == j;
            assert(out[i] == all[at[i]]);
        }
    }
    let before = Set::new(
        |k: TaskKey|
            m.contains_key(k) && k != (t, id) && k.0 == t && (m[k].state == task_word(
                TaskState::Open,
            ) || m[k].state == task_word(TaskState::Escalated)) && m[k].created_at <= m[(
                t,
                id,
            )].created_at,
    );
    assert forall|i: int, j: int| 0 <= i < keys.len() && 0 <= j < keys.len() && i
        != j implies keys[i] != keys[j] by {
        assert(keys[i] == (t, all[i].id) && keys[j] == (t, all[j].id));
    }
    assert(keys.no_duplicates());
    keys.unique_seq_to_set();
    assert(keys.to_set().subset_of(before)) by {
        assert forall|k: TaskKey| keys.to_set().contains(k) implies before.contains(k) by {
            let i = choose|i: int| 0 <= i < keys.len() && keys[i] == k;
            assert(keys[i] == (t, all[i].id));
            assert(f((k, m[k])) is Some);
        }
    }
    assert(before.subset_of(m.dom()));
    vstd::set_lib::lemma_set_subset_finite(m.dom(), before);
    vstd::set_lib::lemma_len_subset(keys.to_set(), before);
}

/// What is overdue still waits for somebody and was due by now: no task that was
/// answered or has expired, none without an instant and none that is due later.
/// The longest overdue come first, none twice.
pub proof fn law_overdue_still_waits(
    m: Map<TaskKey, TaskRowModel>,
    t: Seq<char>,
    now: i64,
    limit: usize,
    out: Seq<TaskModel>,
)
    requires
        m.dom().finite(),
        overdue_answer(m, t, now, limit) == Ok::<Seq<TaskModel>, Refusal>(out),
    ensures
        out.len() <= limit,
        forall|i: int|
            0 <= i < out.len() ==> {
                let k = (t, (#[trigger] out[i]).id);
                &&& m.contains_key(k)
                &&& task_read(k.1, m[k], parsed_of(m, k)) == Ok::<TaskModel, Refusal>(out[i])
                &&& out[i].state != TaskState::Completed
                &&& out[i].state != TaskState::Expired
                &&& out[i].due_at is Some
                &&& out[i].due_at->0 <= now
            },
        forall|i: int, j: int|
            0 <= i < j < out.len() ==> (#[trigger] out[i]).due_at->0 <= (
            #[trigger] out[j]).due_at->0 && out[i].id != out[j].id,
{
    let f = overdue_in(t, now);
    lemma_page_of(m, t, f, limit);
    assert forall|i: int| 0 <= i < out.len() implies {
        let k = (t, (#[trigger] out[i]).id);
        &&& m.contains_key(k)
        &&& task_read(k.1, m[k], parsed_of(m, k)) == Ok::<TaskModel, Refusal>(out[i])
        &&& out[i].state != TaskState::Completed
        &&& out[i].state != TaskState::Expired
        &&& out[i].due_at is Some
        &&& out[i].due_at->0 <= now
        &&& f((k, m[k])) == out[i].due_at
    } by {
        let k = (t, out[i].id);
        law_task_reads_as_it_is_kept(k.1, m[k], parsed_of(m, k));
        law_task_words_differ(out[i].state, TaskState::Open);
        law_task_words_differ(out[i].state, TaskState::Claimed);
        law_task_words_differ(out[i].state, TaskState::Escalated);
    }
}

/// Something overdue that is not given was left out for want of room, and what is
/// given was due no later.
pub proof fn law_overdue_leaves_nothing_out(
    m: Map<TaskKey, TaskRowModel>,
    t: Seq<char>,
    now: i64,
    limit: usize,
    out: Seq<TaskModel>,
    id: Seq<char>,
    i: int,
)
    requires
        m.dom().finite(),
        overdue_answer(m, t, now, limit) == Ok::<Seq<TaskModel>, Refusal>(out),
        m.contains_key((t, id)),
        ({
            let read = task_read(id, m[(t, id)], parsed_of(m, (t, id)));
            &&& read is Ok
            &&& read->Ok_0.state != TaskState::Completed
            &&& read->Ok_0.state != TaskState::Expired
            &&& read->Ok_0.due_at is Some
            &&& read->Ok_0.due_at->0 <= now
        }),
        forall|p: int| 0 <= p < out.len() ==> (#[trigger] out[p]).id != id,
    ensures
        out.len() == limit,
        0 <= i < limit ==> out[i].due_at->0 <= m[(t, id)].due_at->0,
{
    let f = overdue_in(t, now);
    lemma_page_of(m, t, f, limit);
    law_task_reads_as_it_is_kept(id, m[(t, id)], parsed_of(m, (t, id)));
    assert(f(((t, id), m[(t, id)])) is Some);
    if 0 <= i < out.len() {
        let k = (t, out[i].id);
        law_task_reads_as_it_is_kept(k.1, m[k], parsed_of(m, k));
    }
}

/// The tasks of a case are its own, all of them where they can be counted, the
/// oldest first and none twice.
pub proof fn law_tasks_of_a_case(
    m: Map<TaskKey, TaskRowModel>,
    t: Seq<char>,
    case: Seq<char>,
    out: Seq<TaskModel>,
)
    requires
        m.dom().finite(),
        m.dom().len() <= usize::MAX,
        of_case_answer(m, t, case) == Ok::<Seq<TaskModel>, Refusal>(out),
    ensures
        forall|i: int|
            0 <= i < out.len() ==> {
                let k = (t, (#[trigger] out[i]).id);
                &&& m.contains_key(k)
                &&& task_read(k.1, m[k], parsed_of(m, k)) == Ok::<TaskModel, Refusal>(out[i])
                &&& out[i].case == Some(case)
            },
        forall|i: int, j: int|
            0 <= i < j < out.len() ==> (#[trigger] out[i]).created_at <= (
            #[trigger] out[j]).created_at && out[i].id != out[j].id,
        forall|id: Seq<char>|
            #![trigger m.contains_key((t, id))]
            m.contains_key((t, id)) && m[(t, id)].case is Some && m[(t, id)].case->0.text == case
                ==> exists|i: int| 0 <= i < out.len() && (#[trigger] out[i]).id == id,
{
    let f = of_case(t, case);
    lemma_page_of(m, t, f, usize::MAX);
    let keys = Set::new(|k: TaskKey| m.contains_key(k) && f((k, m[k])) is Some);
    assert(keys.subset_of(m.dom()));
    vstd::set_lib::lemma_len_subset(keys, m.dom());
    assert forall|i: int| 0 <= i < out.len() implies {
        let k = (t, (#[trigger] out[i]).id);
        &&& m.contains_key(k)
        &&& task_read(k.1, m[k], parsed_of(m, k)) == Ok::<TaskModel, Refusal>(out[i])
        &&& out[i].case == Some(case)
        &&& f((k, m[k])) == Some(out[i].created_at)
    } by {
        let k = (t, out[i].id);
        law_task_reads_as_it_is_kept(k.1, m[k], parsed_of(m, k));
    }
    assert forall|id: Seq<char>|
        #![trigger m.contains_key((t, id))]
        m.contains_key((t, id)) && m[(t, id)].case is Some && m[(t, id)].case->0.text
            == case implies exists|i: int| 0 <= i < out.len() && (#[trigger] out[i]).id == id by {
        assert(f(((t, id), m[(t, id)])) is Some);
    }
}

/// As many tasks are counted as waiting as there are that are open, claimed or
/// escalated: one that is completed or has expired counts no more.
pub proof fn law_waiting_is_counted(
    m: Map<TaskKey, TaskRowModel>,
    k: TaskKey,
    state: TaskState,
)
    requires
        m.dom().finite(),
    ensures
        waiting_count(m, k.0) == Set::new(
            |x: TaskKey|
                m.contains_key(x) && x.0 == k.0 && (m[x].state == task_word(TaskState::Open)
                    || m[x].state == task_word(TaskState::Claimed) || m[x].state == task_word(
                    TaskState::Escalated,
                )),
        ).len(),
        m.contains_key(k) && m[k].state == task_word(TaskState::Open) && (state
            == TaskState::Completed || state == TaskState::Expired) ==> waiting_count(
            state_given(m, k, state),
            k.0,
        ) + 1 == waiting_count(m, k.0),
        m.contains_key(k) && m[k].state == task_word(TaskState::Open) && (state
            == TaskState::Claimed || state == TaskState::Escalated) ==> waiting_count(
            state_given(m, k, state),
            k.0,
        ) == waiting_count(m, k.0),
{
    let f = waiting_in(k.0);
    lemma_chosen_counted::<(String, String), TaskRowModel>(m, f);
    let a = Set::new(|x: TaskKey| m.contains_key(x) && f((x, m[x])));
    assert(a =~= Set::new(
        |x: TaskKey|
            m.contains_key(x) && x.0 == k.0 && (m[x].state == task_word(TaskState::Open)
                || m[x].state == task_word(TaskState::Claimed) || m[x].state == task_word(
                TaskState::Escalated,
            )),
    ));
    if m.contains_key(k) && m[k].state == task_word(TaskState::Open) {
        let n = state_given(m, k, state);
        assert(n.dom() =~= m.dom());
        lemma_chosen_counted::<(String, String), TaskRowModel>(n, f);
        let b = Set::new(|x: TaskKey| n.contains_key(x) && f((x, n[x])));
        law_task_words_differ(state, TaskState::Open);
        law_task_words_differ(state, TaskState::Claimed);
        law_task_words_differ(state, TaskState::Escalated);
        if state == TaskState::Completed || state == TaskState::Expired {
            assert(a =~= b.insert(k));
            assert(!b.contains(k));
        } else if state == TaskState::Claimed || state == TaskState::Escalated {
            assert(a =~= b);
        }
    }
}

} // verus!
