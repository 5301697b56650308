//! What a tick decides and reports, said of what it was given.

use vstd::prelude::*;

use crate::cases::{CaseCensus, DeadlineModel};
use crate::domain::{CaseStatus, DeadlineState};
use crate::sweeper::{
    after_takeover, attention, breaches, closing, deadline_acts, decision_event, delivered,
    escalations, failed_recoveries, got_through, holding, next_place, quiet, recoveries, reports,
    step, takeover_acts, task_acts, wake_acts, wake_of, wake_recorded, wake_text, warnings,
    ActModel, Census, Configured, RecordGist, RecordModel, RecoveryOutcome, Resumed, SealReply,
    StepModel, SweepParts, SweepPhase, SweepRecord, SweepReport, SweptAction, TIMER_BATCH, Tick,
    WakeAct,
};
use crate::tasks::{OnExpiry, TaskModel, TaskState};
use crate::timers::TimerModel;

verus! {

// ── The report ──────────────────────────────────────────────────────────────

/// A tick that met trouble asks for attention: an obligation breached, a task
/// expired, an event retired, a pass capped, a record lost, a run or a wake that
/// failed, gauges that could not be read. Without any of these it does not.
pub proof fn law_trouble_asks_for_attention(r: SweepReport)
    ensures
        r.breached > 0 ==> attention(r),
        r.tasks_expired > 0 ==> attention(r),
        r.dead_lettered > 0 ==> attention(r),
        r.saturated.timers || r.saturated.deadlines || r.saturated.tasks || r.saturated.recovery
            ==> attention(r),
        r.evidence_lost ==> attention(r),
        r.recovery_failures > 0 ==> attention(r),
        r.wake_failures > 0 ==> attention(r),
        r.census_unavailable ==> attention(r),
        attention(r) ==> r.breached + r.tasks_expired + r.dead_lettered + r.recovery_failures
            + r.wake_failures > 0 || r.saturated.timers || r.saturated.deadlines
            || r.saturated.tasks || r.saturated.recovery || r.evidence_lost
            || r.census_unavailable,
{
}

/// A tick is quiet exactly where it did nothing: no counter moved and no pass was
/// capped.
pub proof fn law_quiet_is_doing_nothing(r: SweepReport)
    ensures
        quiet(r) <==> r.warned + r.breached + r.tasks_expired + r.tasks_escalated + r.dead_lettered
            + r.events_redelivered + r.timers_fired + r.wake_failures + r.runs_recovered
            + r.recovery_failures == 0 && !r.saturated.timers && !r.saturated.deadlines
            && !r.saturated.tasks && !r.saturated.recovery,
{
}

/// A report says of each pass what that pass came to, and nothing of one that the
/// plane has no store for. Its record and its gauges are those of the tick, and what
/// could not be had is said to be missing.
pub proof fn law_report_says_what_the_passes_did(
    parts: SweepParts,
    record: SweepRecord,
    census: Option<Census>,
    r: SweepReport,
)
    requires
        reports(parts, record, census, r),
    ensures
        r.runs_recovered == parts.recovery.recovered,
        r.recovery_failures == parts.recovery.failures,
        r.saturated.recovery == parts.recovery.saturated,
        parts.deadlines is Some ==> r.warned == parts.deadlines->0.warned && r.breached
            == parts.deadlines->0.breached && r.saturated.deadlines
            == parts.deadlines->0.saturated,
        parts.deadlines is None ==> r.warned == 0 && r.breached == 0,
        parts.tasks is Some ==> r.tasks_expired == parts.tasks->0.expired && r.tasks_escalated
            == parts.tasks->0.escalated && r.saturated.tasks == parts.tasks->0.saturated,
        parts.tasks is None ==> r.tasks_expired == 0 && r.tasks_escalated == 0,
        r.events_redelivered == parts.events_redelivered,
        r.dead_lettered == parts.dead_lettered,
        parts.woken is Some ==> r.timers_fired == parts.woken->0.fired && r.wake_failures
            == parts.woken->0.failed && (r.saturated.timers <==> parts.woken->0.fired
            + parts.woken->0.failed >= TIMER_BATCH),
        parts.woken is None ==> r.timers_fired == 0 && r.wake_failures == 0,
        r.evidence_lost <==> record is EvidenceLost,
        r.record is Some <==> record is Recorded,
        r.record is Some ==> r.record->0@ == record->Recorded_0@,
        r.census_unavailable <==> census is None,
        census is Some ==> r.census == census->0,
{
}

/// What the plane holds is what its stores hold, each under its own name.
pub proof fn law_census_says_what_the_stores_hold(
    cases: Option<CaseCensus>,
    timers: Option<u64>,
    tasks: Option<u64>,
    c: Census,
)
    requires
        holding(cases, timers, tasks, c),
    ensures
        cases is Some ==> c.open_cases == cases->0.open && c.due_deadlines == cases->0.due
            && c.oldest_case_age_secs == cases->0.oldest_age_secs,
        cases is None ==> c.open_cases == 0 && c.due_deadlines == 0,
        timers is Some ==> c.pending_timers == timers->0,
        timers is None ==> c.pending_timers == 0,
        tasks is Some ==> c.open_tasks == tasks->0,
        tasks is None ==> c.open_tasks == 0,
{
}

// ── Obligations ─────────────────────────────────────────────────────────────

/// Whether an obligation is past its instant without being resolved.
pub open spec fn is_late(d: DeadlineModel, now: i64) -> bool {
    d.resolved_at <= now && (d.state == DeadlineState::Pending || d.state
        == DeadlineState::Warned)
}

/// Whether an obligation is to be warned of: it is not late, gives warning by now,
/// and nobody was warned.
pub open spec fn is_near(d: DeadlineModel, now: i64) -> bool {
    !is_late(d, now) && d.state == DeadlineState::Pending && d.warn_at is Some && d.warn_at->0
        <= now
}

/// An obligation that is late is marked as breached, and its case escalated, and
/// both are noted; one that is near is marked as warned of and noted, and its case
/// left; for any other nothing is done.
pub proof fn law_obligation_comes_to_its_state(d: DeadlineModel, due: Seq<char>, now: i64, a: ActModel)
    ensures
        ({
            let acts = deadline_acts((d, due), now);
            &&& acts.len() == if is_late(d, now) {
                4int
            } else if is_near(d, now) {
                2
            } else {
                0
            }
            &&& acts.contains(a) && a is SetStatus ==> is_late(d, now) && a == (
            ActModel::SetStatus { case: d.case, status: CaseStatus::Escalated })
            &&& acts.contains(a) && a is SetDeadline ==> a == (ActModel::SetDeadline {
                case: d.case,
                name: d.name,
                mark: if is_late(d, now) {
                    DeadlineState::Breached
                } else {
                    DeadlineState::Warned
                },
            })
            &&& acts.contains(a) ==> a is SetStatus || a is SetDeadline || a is Note
            &&& acts.contains(a) && a is Note ==> a->Note_0.case == Some(d.case)
                && a->Note_0.subject == d.case && if is_late(d, now) {
                a->Note_0.action == SweptAction::DeadlineBreached || a->Note_0.action
                    == SweptAction::CaseEscalated
            } else {
                a->Note_0.action == SweptAction::DeadlineWarned
            }
            &&& is_late(d, now) ==> acts[2] == (ActModel::SetStatus {
                case: d.case,
                status: CaseStatus::Escalated,
            }) && acts[3] == (ActModel::SetDeadline {
                case: d.case,
                name: d.name,
                mark: DeadlineState::Breached,
            }) && acts[0] is Note && acts[1] is Note
            &&& is_near(d, now) ==> acts[0] is Note && acts[1] == (ActModel::SetDeadline {
                case: d.case,
                name: d.name,
                mark: DeadlineState::Warned,
            })
        }),
{
    let acts = deadline_acts((d, due), now);
    if acts.contains(a) {
        let i = choose|i: int| 0 <= i < acts.len() && acts[i] == a;
        assert(acts[i] == a);
    }
}

/// Each obligation counts once, as breached where it is late and as warned of where
/// it is near.
pub proof fn law_obligations_are_counted(
    items: Seq<(DeadlineModel, Seq<char>)>,
    now: i64,
    x: (DeadlineModel, Seq<char>),
)
    ensures
        ({
            let n = items.len() as int;
            let more = items.push(x);
            &&& breaches(more, now, n + 1) == breaches(items, now, n) + if is_late(x.0, now) {
                1nat
            } else {
                0
            }
            &&& warnings(more, now, n + 1) == warnings(items, now, n) + if is_near(x.0, now) {
                1nat
            } else {
                0
            }
            &&& breaches(Seq::empty(), now, 0) == 0
            &&& warnings(Seq::empty(), now, 0) == 0
        }),
{
    lemma_counts_of_prefix(items, x, now, items.len() as int);
}

proof fn lemma_counts_of_prefix(
    items: Seq<(DeadlineModel, Seq<char>)>,
    x: (DeadlineModel, Seq<char>),
    now: i64,
    n: int,
)
    requires
        0 <= n <= items.len(),
    ensures
        breaches(items.push(x), now, n) == breaches(items, now, n),
        warnings(items.push(x), now, n) == warnings(items, now, n),
    decreases n,
{
    if n > 0 {
        lemma_counts_of_prefix(items, x, now, n - 1);
        assert(items.push(x)[n - 1] == items[n - 1]);
    }
}

// ── Tasks ───────────────────────────────────────────────────────────────────

/// A task that nobody answered is answered as was decided for it and is over, or it
/// is passed on and goes on waiting, where that was decided; it is noted either way.
pub proof fn law_task_comes_to_its_policy(t: TaskModel, a: ActModel)
    ensures
        ({
            let acts = task_acts(t);
            let passed_on = t.on_expiry == OnExpiry::Escalate;
            &&& acts.len() == if passed_on {
                2int
            } else {
                3
            }
            &&& acts[0] is Note && acts[0]->Note_0.case == t.case && acts[0]->Note_0.subject == t.id
            &&& acts[0]->Note_0.action == if passed_on {
                SweptAction::TaskEscalated
            } else {
                SweptAction::TaskExpired
            }
            &&& passed_on ==> acts[1] == (ActModel::EscalateTask { task: t.id })
            &&& !passed_on ==> acts[1] == (ActModel::AnswerTask {
                task: t.id,
                policy: t.on_expiry,
            }) && acts[2] == (ActModel::SetTaskState { task: t.id, state: TaskState::Expired })
        }),
{
}

/// Each task counts as passed on where that was decided for it.
pub proof fn law_passed_on_tasks_are_counted(tasks: Seq<TaskModel>, x: TaskModel)
    ensures
        escalations(tasks.push(x), (tasks.len() + 1) as int) == escalations(tasks, tasks.len() as int)
            + if x.on_expiry == OnExpiry::Escalate {
            1nat
        } else {
            0
        },
        escalations(Seq::empty(), 0) == 0,
        escalations(tasks, tasks.len() as int) <= tasks.len(),
{
    lemma_escalations(tasks, x, tasks.len() as int);
}

proof fn lemma_escalations(tasks: Seq<TaskModel>, x: TaskModel, n: int)
    requires
        0 <= n <= tasks.len(),
    ensures
        escalations(tasks.push(x), n) == escalations(tasks, n),
        escalations(tasks, n) <= n,
    decreases n,
{
    if n > 0 {
        lemma_escalations(tasks, x, n - 1);
        assert(tasks.push(x)[n - 1] == tasks[n - 1]);
    }
}

// ── Recovery ────────────────────────────────────────────────────────────────

/// A run that is taken over is noted first. One that was resumed has its lease
/// cleared; one that never was is noted again and has its lease and its slot
/// cleared; one that somebody else has, and one that failed, is left.
pub proof fn law_takeover_comes_to_its_outcome(run: Seq<char>, outcome: RecoveryOutcome)
    ensures
        takeover_acts(run).len() == 2,
        takeover_acts(run)[0] is Note,
        takeover_acts(run)[0]->Note_0.subject == run,
        takeover_acts(run)[0]->Note_0.action == SweptAction::RunRecovered,
        takeover_acts(run)[1] == (ActModel::TakeOver { run }),
        ({
            let acts = after_takeover(run, outcome);
            &&& outcome == RecoveryOutcome::Resumed ==> acts.len() == 1 && acts[0] == (
            ActModel::ClearLease { run, slot: false })
            &&& outcome == RecoveryOutcome::NoRun ==> acts.len() == 2 && acts[0] is Note
                && acts[0]->Note_0.subject == run && acts[1] == (ActModel::ClearLease {
                run,
                slot: true,
            })
            &&& outcome == RecoveryOutcome::Held || outcome == RecoveryOutcome::Failed
                ==> acts.len() == 0
        }),
{
}

/// A run counts as recovered where it was resumed or never was, as failed where it
/// could not be, and as neither where somebody else has it.
pub proof fn law_recoveries_are_counted(outcomes: Seq<RecoveryOutcome>, x: RecoveryOutcome)
    ensures
        ({
            let n = outcomes.len() as int;
            let more = outcomes.push(x);
            &&& recoveries(more, n + 1) == recoveries(outcomes, n) + if x
                == RecoveryOutcome::Resumed || x == RecoveryOutcome::NoRun {
                1nat
            } else {
                0
            }
            &&& failed_recoveries(more, n + 1) == failed_recoveries(outcomes, n) + if x
                == RecoveryOutcome::Failed {
                1nat
            } else {
                0
            }
            &&& recoveries(Seq::empty(), 0) == 0
            &&& failed_recoveries(Seq::empty(), 0) == 0
        }),
{
    lemma_recoveries(outcomes, x, outcomes.len() as int);
}

proof fn lemma_recoveries(outcomes: Seq<RecoveryOutcome>, x: RecoveryOutcome, n: int)
    requires
        0 <= n <= outcomes.len(),
    ensures
        recoveries(outcomes.push(x), n) == recoveries(outcomes, n),
        failed_recoveries(outcomes.push(x), n) == failed_recoveries(outcomes, n),
    decreases n,
{
    if n > 0 {
        lemma_recoveries(outcomes, x, n - 1);
        assert(outcomes.push(x)[n - 1] == outcomes[n - 1]);
    }
}

// ── Timers ──────────────────────────────────────────────────────────────────

/// A wake is appended exactly where the journal has no result of that very effect
/// yet; the timer is disarmed behind that and the run resumed last, in any case.
pub proof fn law_wake_is_appended_where_it_is_missing(
    records: Seq<RecordGist>,
    effect: Seq<char>,
)
    ensures
        ({
            let acts = wake_acts(wake_recorded(records, effect));
            let there = exists|i: int|
                0 <= i < records.len() && (#[trigger] records[i]).done && records[i].effect is Some
                    && records[i].effect->0@ == effect;
            &&& there ==> acts == seq![WakeAct::Disarm, WakeAct::Resume]
            &&& !there ==> acts == seq![WakeAct::Record, WakeAct::Disarm, WakeAct::Resume]
        }),
{
    if wake_recorded(records, effect) {
        let i = choose|i: int|
            0 <= i < records.len() && (#[trigger] records[i])@ == (Some(effect), true);
        assert(records[i].done && records[i].effect is Some && records[i].effect->0@ == effect);
    }
    if exists|i: int|
        0 <= i < records.len() && (#[trigger] records[i]).done && records[i].effect is Some
            && records[i].effect->0@ == effect {
        let i = choose|i: int|
            0 <= i < records.len() && (#[trigger] records[i]).done && records[i].effect is Some
                && records[i].effect->0@ == effect;
        assert(records[i]@ == (Some(effect), true));
    }
}

/// A wake is recorded as the result of the effect that slept, at the step it slept
/// in; it says when it was due, cost nothing, and has no sender.
pub proof fn law_wake_is_the_sleepers_result(t: TimerModel)
    ensures
        wake_of(t).run == t.run,
        wake_of(t).effect == t.effect,
        wake_of(t).step == t.step,
        wake_of(t).phase == t.phase,
        wake_of(t).case == t.case,
        wake_of(t).output == wake_text(t.fire_at),
        wake_of(t).source is None,
        wake_of(t).spend.tokens == 0,
        wake_of(t).spend.minor_units == 0,
        wake_of(t).trusted,
{
}

/// A wake got through where the run ran, and where somebody else has it; it did not
/// where resuming failed.
pub proof fn law_wake_gets_through(r: Resumed)
    ensures
        got_through(r) <==> r == Resumed::Ran || r == Resumed::LeaseHeld,
{
}

/// What is next is the first that was not gone through, as long as all before it went
/// through and there is one.
pub proof fn law_next_is_the_first_not_done(total: int, done: int, went: bool)
    ensures
        next_place(total, done, went) is Some <==> went && done < total,
        next_place(total, done, went) is Some ==> next_place(total, done, went) == Some(done),
{
}

/// Each wake that got through counts as one.
pub proof fn law_wakes_are_counted(results: Seq<bool>, x: bool)
    ensures
        delivered(results.push(x), (results.len() + 1) as int) == delivered(results, results.len() as int)
            + if x {
            1nat
        } else {
            0
        },
        delivered(Seq::empty(), 0) == 0,
{
    lemma_delivered(results, x, results.len() as int);
}

proof fn lemma_delivered(results: Seq<bool>, x: bool, n: int)
    requires
        0 <= n <= results.len(),
    ensures
        delivered(results.push(x), n) == delivered(results, n),
    decreases n,
{
    if n > 0 {
        lemma_delivered(results, x, n - 1);
        assert(results.push(x)[n - 1] == results[n - 1]);
    }
}

// ── Decisions ───────────────────────────────────────────────────────────────

/// A decision reaches whoever waits on the task and says what was decided; the
/// decisions on two tasks are two events.
pub proof fn law_decision_reaches_its_task(
    task: Seq<char>,
    other: Seq<char>,
    kind: Seq<char>,
    payload: Seq<char>,
)
    ensures
        ({
            let e = decision_event(task, kind, payload);
            &&& e.kind == kind
            &&& e.payload == payload
            &&& e.correlation == seq![("task"@, task)]
            &&& decision_event(other, kind, payload).key == e.key ==> other == task
        }),
{
    if decision_event(other, kind, payload).key == decision_event(task, kind, payload).key {
        let p = "task-decision:"@;
        let a = p + task;
        let b = p + other;
        assert(a.subrange(p.len() as int, a.len() as int) =~= task);
        assert(b.subrange(p.len() as int, b.len() as int) =~= other);
    }
}

// ── The tick ────────────────────────────────────────────────────────────────

/// A tick goes through the passes that the plane has stores for and through no
/// other, in this order: obligations, tasks, events (those claimed before those
/// unclaimed), timers. It passes none of them over while they go through.
pub proof fn law_tick_goes_through_its_passes(t: Tick, c: Configured)
    requires
        !(t.phase == SweepPhase::Seal || t.phase == SweepPhase::Census || t.phase
            == SweepPhase::Done || t.phase == SweepPhase::Failed),
    ensures
        ({
            let p = step(t, c, true).phase;
            &&& step(t, c, true).failed == t.failed
            &&& p == SweepPhase::Deadlines ==> c.cases
            &&& p == SweepPhase::Tasks ==> c.tasks
            &&& p == SweepPhase::Redeliver ==> c.events
            &&& p == SweepPhase::Timers ==> c.timers
            &&& p != SweepPhase::Recover
            &&& t.phase == SweepPhase::Recover && c.cases ==> p == SweepPhase::Deadlines
            &&& (t.phase == SweepPhase::Deadlines || (t.phase == SweepPhase::Recover && !c.cases))
                && c.tasks ==> p == SweepPhase::Tasks
            &&& (t.phase == SweepPhase::Tasks || ((t.phase == SweepPhase::Deadlines || (t.phase
                == SweepPhase::Recover && !c.cases)) && !c.tasks)) && c.events ==> p
                == SweepPhase::Redeliver
            &&& t.phase == SweepPhase::Redeliver ==> p == SweepPhase::DeadLetter
            &&& t.phase == SweepPhase::DeadLetter && c.timers ==> p == SweepPhase::Timers
            &&& t.phase == SweepPhase::Tasks && !c.events && c.timers ==> p == SweepPhase::Timers
            &&& t.phase == SweepPhase::Timers ==> p == SweepPhase::Seal
        }),
        step(t, c, false).phase == SweepPhase::Seal,
        step(t, c, false).failed,
{
}

/// A tick whose passes went through reads its gauges and is done; one of which a
/// pass failed has failed, once its record is closed.
pub proof fn law_tick_tells_how_it_ended(c: Configured, ok: bool, failed: bool)
    ensures
        step(Tick { phase: SweepPhase::Seal, failed }, c, ok).phase == if failed {
            SweepPhase::Failed
        } else {
            SweepPhase::Census
        },
        step(Tick { phase: SweepPhase::Census, failed }, c, ok).phase == SweepPhase::Done,
        step(Tick { phase: SweepPhase::Done, failed }, c, ok).phase == SweepPhase::Done,
        step(Tick { phase: SweepPhase::Failed, failed }, c, ok).phase == SweepPhase::Failed,
{
}

/// A record that was written to is closed in three steps, each on the run of the
/// record: its head is read, the conclusion naming that head is appended, and the
/// run is sealed.
pub proof fn law_record_is_closed_in_steps(run: Seq<char>, head: crate::row::Digest)
    ensures
        closing(Some(run), true, SealReply::Begin) == (StepModel::ReadHead { run }),
        closing(Some(run), true, SealReply::Head(Some(head))) == (StepModel::Conclude {
            run,
            epoch: 1,
            outcome: "swept"@,
            chain_head: head@,
        }),
        closing(Some(run), true, SealReply::Concluded(true)) == (StepModel::Seal {
            run,
            epoch: 1,
            outcome: "swept"@,
        }),
        closing(Some(run), true, SealReply::Sealed(true)) == StepModel::Over(
            RecordModel::Recorded(run),
        ),
{
}

} // verus!
