//! The sweep: what turns a passing instant into something that happened.
//!
//! A tick reads what is due, decides, and acts. The deciding is here: each
//! finding becomes a list of acts in the order in which they are performed, and
//! the counts that the tick reports. Every decision is noted before it is
//! applied, and the write that takes a finding off the list that drives it goes
//! last, so that a crash in between repeats work and never drops it.

use vstd::prelude::*;

use crate::batches::Spend;
use crate::cases::{CaseCensus, Deadline, DeadlineModel};
use crate::domain::{CaseStatus, CorrelationKey, DeadlineState, Phase};
use crate::error::StoreError;
use crate::events::{EventModel, InboundEvent};
use crate::journal::{
    claim, fence_refusal, released, stranded, with_lease, Journal, JournalState, RunName, Ttl,
};
use crate::journal_laws::{chains_agree, indexes_agree};
use crate::quota::{slot_freed, QuotaBook};
use crate::row::Digest;
use crate::tasks::{OnExpiry, Task, TaskModel, TaskState};
use crate::timers::{Timer, TimerModel};
use crate::text::{copied, dec_signed, join, join3, join5, said, same};

verus! {

/// The source a human decision arrives under: the plane's own worklist.
pub const SOURCE_WORKLIST: &'static str = "agentplane://worklist";

/// The epoch a sweep's own run is written at.
pub const SWEEP_EPOCH: u64 = 1;

/// How a sweep's own run concludes.
pub const SWEEP_OUTCOME: &'static str = "swept";

/// How many timers one tick fires.
pub const TIMER_BATCH: usize = 128;

/// How many obligations one tick handles.
pub const DEADLINE_BATCH: usize = 512;

/// How many overdue tasks one tick handles.
pub const TASK_BATCH: usize = 512;

/// How many abandoned runs one tick takes over. The smallest, because taking
/// over a run executes it.
pub const RECOVERY_BATCH: usize = 32;

/// How many claimed events one tick delivers again.
pub const EVENT_BATCH: usize = 128;

// ── The report ──────────────────────────────────────────────────────────────

/// What one timer pass did: wakes delivered, and wakes that died trying.
#[derive(Clone, Copy, Debug, PartialEq, Eq)]
pub struct WokenRuns {
    pub fired: usize,
    pub failed: usize,
}

impl Default for WokenRuns {
    fn default() -> (w: WokenRuns)
        ensures
            w == (WokenRuns { fired: 0, failed: 0 }),
    {
        WokenRuns { fired: 0, failed: 0 }
    }
}

/// Which sweeps hit their cap this tick.
#[derive(Clone, Copy, Debug, PartialEq, Eq)]
pub struct Saturation {
    pub timers: bool,
    pub deadlines: bool,
    pub tasks: bool,
    pub recovery: bool,
}

impl Default for Saturation {
    fn default() -> (s: Saturation)
        ensures
            s == (Saturation { timers: false, deadlines: false, tasks: false, recovery: false }),
    {
        Saturation { timers: false, deadlines: false, tasks: false, recovery: false }
    }
}

/// Whether any sweep was capped.
pub open spec fn capped(s: Saturation) -> bool {
    s.timers || s.deadlines || s.tasks || s.recovery
}

impl Saturation {
    /// Whether any sweep was capped.
    pub fn any(self) -> (b: bool)
        ensures
            b == capped(self),
    {
        self.timers || self.deadlines || self.tasks || self.recovery
    }
}

/// What the plane is holding.
#[derive(Clone, Copy, Debug, PartialEq, Eq)]
pub struct Census {
    pub open_cases: u64,
    pub oldest_case_age_secs: Option<u64>,
    pub due_deadlines: u64,
    pub pending_timers: u64,
    pub open_tasks: u64,
}

/// A census of nothing.
pub open spec fn no_census() -> Census {
    Census {
        open_cases: 0,
        oldest_case_age_secs: None,
        due_deadlines: 0,
        pending_timers: 0,
        open_tasks: 0,
    }
}

impl Default for Census {
    fn default() -> (c: Census)
        ensures
            c == no_census(),
    {
        Census {
            open_cases: 0,
            oldest_case_age_secs: None,
            due_deadlines: 0,
            pending_timers: 0,
            open_tasks: 0,
        }
    }
}

/// What one tick found and did.
#[derive(Debug, PartialEq, Eq)]
pub struct SweepReport {
    pub warned: usize,
    pub breached: usize,
    pub tasks_expired: usize,
    pub tasks_escalated: usize,
    pub dead_lettered: usize,
    pub events_redelivered: usize,
    pub timers_fired: usize,
    pub wake_failures: usize,
    pub runs_recovered: usize,
    pub recovery_failures: usize,
    pub saturated: Saturation,
    /// The sealed run holding the tick's own record, when it has one.
    pub record: Option<String>,
    /// The tick decided something and its own record could not be written.
    pub evidence_lost: bool,
    pub census: Census,
    /// The gauges could not be read this tick.
    pub census_unavailable: bool,
}

impl Default for SweepReport {
    fn default() -> (r: SweepReport)
        ensures
            r.warned == 0 && r.breached == 0 && r.tasks_expired == 0 && r.tasks_escalated == 0,
            r.dead_lettered == 0 && r.events_redelivered == 0 && r.timers_fired == 0,
            r.wake_failures == 0 && r.runs_recovered == 0 && r.recovery_failures == 0,
            !capped(r.saturated),
            r.record is None,
            !r.evidence_lost,
            r.census == no_census(),
            !r.census_unavailable,
    {
        SweepReport {
            warned: 0,
            breached: 0,
            tasks_expired: 0,
            tasks_escalated: 0,
            dead_lettered: 0,
            events_redelivered: 0,
            timers_fired: 0,
            wake_failures: 0,
            runs_recovered: 0,
            recovery_failures: 0,
            saturated: Saturation::default(),
            record: None,
            evidence_lost: false,
            census: Census::default(),
            census_unavailable: false,
        }
    }
}

/// Whether a tick found anything that a human should see.
pub open spec fn attention(r: SweepReport) -> bool {
    ||| r.breached > 0
    ||| r.tasks_expired > 0
    ||| r.dead_lettered > 0
    ||| capped(r.saturated)
    ||| r.evidence_lost
    ||| r.recovery_failures > 0
    ||| r.wake_failures > 0
    ||| r.census_unavailable
}

/// Whether a tick did nothing: every counter is zero and no sweep was capped.
/// What the plane holds is state and not activity, and does not enter.
pub open spec fn quiet(r: SweepReport) -> bool {
    &&& !capped(r.saturated)
    &&& r.warned == 0
    &&& r.breached == 0
    &&& r.tasks_expired == 0
    &&& r.tasks_escalated == 0
    &&& r.dead_lettered == 0
    &&& r.events_redelivered == 0
    &&& r.timers_fired == 0
    &&& r.wake_failures == 0
    &&& r.runs_recovered == 0
    &&& r.recovery_failures == 0
}

impl SweepReport {
    /// Whether this tick found anything that a human should see.
    pub fn needs_attention(&self) -> (b: bool)
        ensures
            b == attention(*self),
    {
        self.breached > 0 || self.tasks_expired > 0 || self.dead_lettered > 0
            || self.saturated.any() || self.evidence_lost || self.recovery_failures > 0
            || self.wake_failures > 0 || self.census_unavailable
    }

    /// Whether this tick did nothing.
    pub fn is_quiet(&self) -> (b: bool)
        ensures
            b == quiet(*self),
    {
        !self.saturated.any() && self.warned == 0 && self.breached == 0 && self.tasks_expired == 0
            && self.tasks_escalated == 0 && self.dead_lettered == 0 && self.events_redelivered == 0
            && self.timers_fired == 0 && self.wake_failures == 0 && self.runs_recovered == 0
            && self.recovery_failures == 0
    }
}

/// A quiet tick asks for attention over two things only: a record that was
/// lost, and gauges that could not be read.
pub proof fn law_quiet_asks_for_little(r: SweepReport)
    requires
        quiet(r),
    ensures
        attention(r) <==> r.evidence_lost || r.census_unavailable,
{
}

/// What the plane holds makes a tick neither quiet nor loud.
pub proof fn law_census_is_state(a: SweepReport, b: SweepReport)
    requires
        b == (SweepReport { census: b.census, ..a }),
    ensures
        quiet(a) == quiet(b),
        attention(a) == attention(b),
{
}

/// A capped sweep always asks for attention and is never quiet.
pub proof fn law_capped_is_loud(r: SweepReport)
    requires
        capped(r.saturated),
    ensures
        attention(r),
        !quiet(r),
{
}

/// A plane that healed needs no attention for it: recovered runs, fired timers,
/// warnings, escalated tasks and redelivered events leave the answer as it was.
pub proof fn law_healing_is_calm(r: SweepReport, healed: SweepReport)
    requires
        healed == (SweepReport {
            warned: healed.warned,
            tasks_escalated: healed.tasks_escalated,
            events_redelivered: healed.events_redelivered,
            timers_fired: healed.timers_fired,
            runs_recovered: healed.runs_recovered,
            ..r
        }),
    ensures
        attention(healed) == attention(r),
{
}

// ── Acts ────────────────────────────────────────────────────────────────────

/// What a sweep decided, as its record names it.
#[derive(Clone, Copy, Debug, PartialEq, Eq, Structural)]
pub enum SweptAction {
    RunRecovered,
    DeadlineWarned,
    DeadlineBreached,
    CaseEscalated,
    TaskExpired,
    TaskEscalated,
}

/// A decision as it is written down, before it is applied. The case it is about
/// is stamped on it, so that the history of the case finds it.
#[derive(Debug)]
pub struct SweptNote {
    pub case: Option<String>,
    pub subject: String,
    pub action: SweptAction,
    pub detail: String,
}

/// What a [`SweptNote`] says.
pub struct NoteModel {
    pub case: Option<Seq<char>>,
    pub subject: Seq<char>,
    pub action: SweptAction,
    pub detail: Seq<char>,
}

impl View for SweptNote {
    type V = NoteModel;

    open spec fn view(&self) -> NoteModel {
        NoteModel {
            case: said(self.case),
            subject: self.subject@,
            action: self.action,
            detail: self.detail@,
        }
    }
}

/// One thing that a sweep does.
#[derive(Debug)]
pub enum SweepAct {
    /// Write a decision down.
    Note(SweptNote),
    SetStatus { case: String, status: CaseStatus },
    SetDeadline { case: String, name: String, mark: DeadlineState },
    /// Widen a task's audience and clear who held it.
    EscalateTask { task: String },
    /// Answer a task as was decided in advance.
    AnswerTask { task: String, policy: OnExpiry },
    SetTaskState { task: String, state: TaskState },
    /// Take a run over and resume it.
    TakeOver { run: String },
    /// Clear a lease that nobody holds, and the slot of a run that never was.
    ClearLease { run: String, slot: bool },
}

/// What a [`SweepAct`] says.
pub enum ActModel {
    Note(NoteModel),
    SetStatus { case: Seq<char>, status: CaseStatus },
    SetDeadline { case: Seq<char>, name: Seq<char>, mark: DeadlineState },
    EscalateTask { task: Seq<char> },
    AnswerTask { task: Seq<char>, policy: OnExpiry },
    SetTaskState { task: Seq<char>, state: TaskState },
    TakeOver { run: Seq<char> },
    ClearLease { run: Seq<char>, slot: bool },
}

impl View for SweepAct {
    type V = ActModel;

    open spec fn view(&self) -> ActModel {
        match self {
            SweepAct::Note(n) => ActModel::Note(n@),
            SweepAct::SetStatus { case, status } => ActModel::SetStatus {
                case: case@,
                status: *status,
            },
            SweepAct::SetDeadline { case, name, mark } => ActModel::SetDeadline {
                case: case@,
                name: name@,
                mark: *mark,
            },
            SweepAct::EscalateTask { task } => ActModel::EscalateTask { task: task@ },
            SweepAct::AnswerTask { task, policy } => ActModel::AnswerTask {
                task: task@,
                policy: *policy,
            },
            SweepAct::SetTaskState { task, state } => ActModel::SetTaskState {
                task: task@,
                state: *state,
            },
            SweepAct::TakeOver { run } => ActModel::TakeOver { run: run@ },
            SweepAct::ClearLease { run, slot } => ActModel::ClearLease { run: run@, slot: *slot },
        }
    }
}

/// What a list of acts says.
pub open spec fn acts_of(v: Seq<SweepAct>) -> Seq<ActModel> {
    Seq::new(v.len(), |i: int| v[i]@)
}

/// A note, as an act.
pub open spec fn noted(
    case: Option<Seq<char>>,
    subject: Seq<char>,
    action: SweptAction,
    detail: Seq<char>,
) -> ActModel {
    ActModel::Note(NoteModel { case, subject, action, detail })
}

fn note(case: Option<String>, subject: &str, action: SweptAction, detail: String) -> (a: SweepAct)
    ensures
        a@ == noted(said(case), subject@, action, detail@),
{
    SweepAct::Note(SweptNote { case, subject: subject.to_owned(), action, detail })
}

// ── Performing ──────────────────────────────────────────────────────────────

/// The place of what is next, of so many, once some were gone through and the
/// last of them went through or did not.
pub open spec fn next_place(total: int, done: int, went: bool) -> Option<int> {
    if went && done < total {
        Some(done)
    } else {
        None
    }
}

/// What a place is as a number.
pub open spec fn place(p: Option<usize>) -> Option<int> {
    match p {
        Some(i) => Some(i as int),
        None => None,
    }
}

/// The next act of a pass to perform, of so many, once some were performed and
/// this is what became of the last. The first act that fails ends the pass with
/// its error, and no act behind it is performed.
pub fn next_act(total: usize, done: usize, last: Result<(), StoreError>) -> (next: Result<
    Option<usize>,
    StoreError,
>)
    ensures
        match next {
            Err(e) => last == Err::<(), StoreError>(e),
            Ok(p) => last is Ok && place(p) == next_place(total as int, done as int, true),
        },
{
    match last {
        Err(e) => Err(e),
        Ok(_) => if done < total {
            Ok(Some(done))
        } else {
            Ok(None)
        },
    }
}

/// Whether the act at `i` of a pass is performed, given which go through: step by
/// step, it is what is next once the one before it was performed.
pub open spec fn performed(total: int, through: Seq<bool>, i: int) -> bool
    decreases i,
{
    if i < 0 {
        false
    } else if i == 0 {
        next_place(total, 0, true) == Some(0int)
    } else {
        performed(total, through, i - 1) && next_place(total, i, through[i - 1]) == Some(i)
    }
}

/// An act is performed where every one before it goes through.
proof fn lemma_performed(total: int, through: Seq<bool>, i: int)
    ensures
        performed(total, through, i) <==> 0 <= i < total && forall|j: int|
            0 <= j < i ==> #[trigger] through[j],
    decreases i,
{
    if i > 0 {
        lemma_performed(total, through, i - 1);
    }
}

// ── Obligations ─────────────────────────────────────────────────────────────

/// An obligation that needs attention, and how its due instant is shown.
#[derive(Debug)]
pub struct DueItem {
    pub deadline: Deadline,
    pub due_text: String,
}

impl View for DueItem {
    type V = (DeadlineModel, Seq<char>);

    open spec fn view(&self) -> (DeadlineModel, Seq<char>) {
        (self.deadline@, self.due_text@)
    }
}

/// What a list of them says.
pub open spec fn items_of(v: Seq<DueItem>) -> Seq<(DeadlineModel, Seq<char>)> {
    Seq::new(v.len(), |i: int| v[i]@)
}

/// Whether an obligation is past its instant and not met.
pub open spec fn overdue(d: DeadlineModel, now: i64) -> bool {
    (d.state == DeadlineState::Pending || d.state == DeadlineState::Warned) && d.resolved_at <= now
}

/// Whether an obligation is to be warned of: it is coming due and nobody has
/// been warned.
pub open spec fn warnable(d: DeadlineModel, now: i64) -> bool {
    d.state == DeadlineState::Pending && match d.warn_at {
        Some(at) => at <= now,
        None => false,
    }
}

impl Deadline {
    /// Whether the obligation is past its instant and not met.
    pub fn is_due(&self, now: i64) -> (b: bool)
        ensures
            b == overdue(self@, now),
    {
        (self.state == DeadlineState::Pending || self.state == DeadlineState::Warned)
            && self.resolved_at <= now
    }

    /// Whether the obligation is to be warned of.
    pub fn needs_warning(&self, now: i64) -> (b: bool)
        ensures
            b == warnable(self@, now),
    {
        match self.warn_at {
            Some(at) => self.state == DeadlineState::Pending && at <= now,
            None => false,
        }
    }
}

/// What a breach comes to: it and the escalation are noted, the case is
/// escalated, and last of all the obligation is marked, which is what takes it
/// off the list that drives the sweep.
pub open spec fn breach_acts(d: DeadlineModel, due: Seq<char>) -> Seq<ActModel> {
    seq![
        noted(
            Some(d.case),
            d.case,
            SweptAction::DeadlineBreached,
            "'"@ + d.name + "' was due "@ + due + " and was not met"@,
        ),
        noted(
            Some(d.case),
            d.case,
            SweptAction::CaseEscalated,
            "obligation '"@ + d.name + "' was breached"@,
        ),
        ActModel::SetStatus { case: d.case, status: CaseStatus::Escalated },
        ActModel::SetDeadline { case: d.case, name: d.name, mark: DeadlineState::Breached },
    ]
}

/// What a warning comes to.
pub open spec fn warning_acts(d: DeadlineModel, due: Seq<char>) -> Seq<ActModel> {
    seq![
        noted(
            Some(d.case),
            d.case,
            SweptAction::DeadlineWarned,
            "'"@ + d.name + "' comes due "@ + due,
        ),
        ActModel::SetDeadline { case: d.case, name: d.name, mark: DeadlineState::Warned },
    ]
}

/// What an obligation comes to.
pub open spec fn deadline_acts(item: (DeadlineModel, Seq<char>), now: i64) -> Seq<ActModel> {
    if overdue(item.0, now) {
        breach_acts(item.0, item.1)
    } else if warnable(item.0, now) {
        warning_acts(item.0, item.1)
    } else {
        Seq::empty()
    }
}

/// What the first `n` obligations come to, one after the other.
pub open spec fn all_deadline_acts(items: Seq<(DeadlineModel, Seq<char>)>, now: i64, n: int) -> Seq<
    ActModel,
>
    decreases n,
{
    if n <= 0 {
        Seq::empty()
    } else {
        all_deadline_acts(items, now, n - 1) + deadline_acts(items[n - 1], now)
    }
}

/// How many of the first `n` obligations are breached.
pub open spec fn breaches(items: Seq<(DeadlineModel, Seq<char>)>, now: i64, n: int) -> nat
    decreases n,
{
    if n <= 0 {
        0
    } else {
        breaches(items, now, n - 1) + if overdue(items[n - 1].0, now) {
            1nat
        } else {
            0nat
        }
    }
}

/// How many of the first `n` obligations are warned of.
pub open spec fn warnings(items: Seq<(DeadlineModel, Seq<char>)>, now: i64, n: int) -> nat
    decreases n,
{
    if n <= 0 {
        0
    } else {
        warnings(items, now, n - 1) + if !overdue(items[n - 1].0, now) && warnable(
            items[n - 1].0,
            now,
        ) {
            1nat
        } else {
            0nat
        }
    }
}

/// What a tick does about obligations.
#[derive(Debug)]
pub struct DeadlinePlan {
    pub acts: Vec<SweepAct>,
    pub warned: usize,
    pub breached: usize,
    pub saturated: bool,
}

fn push_deadline_acts(acts: &mut Vec<SweepAct>, item: &DueItem, now: i64)
    ensures
        acts_of(final(acts)@) == acts_of(old(acts)@) + deadline_acts(item@, now),
{
    let ghost before = acts_of(acts@);
    let d = &item.deadline;
    let ghost dm = d@;
    if d.is_due(now) {
        acts.push(
            note(
                Some(d.case.clone()),
                &d.case,
                SweptAction::DeadlineBreached,
                join5("'", &d.name, "' was due ", &item.due_text, " and was not met"),
            ),
        );
        acts.push(
            note(
                Some(d.case.clone()),
                &d.case,
                SweptAction::CaseEscalated,
                join3("obligation '", &d.name, "' was breached"),
            ),
        );
        acts.push(SweepAct::SetStatus { case: d.case.clone(), status: CaseStatus::Escalated });
        acts.push(
            SweepAct::SetDeadline {
                case: d.case.clone(),
                name: d.name.clone(),
                mark: DeadlineState::Breached,
            },
        );
        assert(acts_of(acts@) =~= before + breach_acts(dm, item.due_text@));
    } else if d.needs_warning(now) {
        acts.push(
            note(
                Some(d.case.clone()),
                &d.case,
                SweptAction::DeadlineWarned,
                join(&join3("'", &d.name, "' comes due "), &item.due_text),
            ),
        );
        acts.push(
            SweepAct::SetDeadline {
                case: d.case.clone(),
                name: d.name.clone(),
                mark: DeadlineState::Warned,
            },
        );
        assert(acts_of(acts@) =~= before + warning_acts(dm, item.due_text@));
    } else {
        assert(acts_of(acts@) =~= before + Seq::<ActModel>::empty());
    }
}

/// Decides what a tick does about the obligations that need attention.
pub fn sweep_deadlines(items: &Vec<DueItem>, now: i64) -> (p: DeadlinePlan)
    ensures
        acts_of(p.acts@) == all_deadline_acts(items_of(items@), now, items@.len() as int),
        p.warned == warnings(items_of(items@), now, items@.len() as int),
        p.breached == breaches(items_of(items@), now, items@.len() as int),
        p.saturated == (items@.len() >= DEADLINE_BATCH),
{
    let ghost all = items_of(items@);
    let mut acts: Vec<SweepAct> = Vec::new();
    let mut warned: usize = 0;
    let mut breached: usize = 0;
    let mut i: usize = 0;
    assert(acts_of(acts@) =~= Seq::<ActModel>::empty());
    while i < items.len()
        invariant
            i <= items@.len(),
            all == items_of(items@),
            acts_of(acts@) == all_deadline_acts(all, now, i as int),
            warned == warnings(all, now, i as int),
            breached == breaches(all, now, i as int),
            warned + breached <= i,
        decreases items@.len() - i,
    {
        let item = &items[i];
        assert(all[i as int] == item@);
        push_deadline_acts(&mut acts, item, now);
        if item.deadline.is_due(now) {
            breached = breached + 1;
        } else if item.deadline.needs_warning(now) {
            warned = warned + 1;
        }
        i = i + 1;
    }
    let saturated = items.len() >= DEADLINE_BATCH;
    DeadlinePlan { acts, warned, breached, saturated }
}

// ── Tasks ───────────────────────────────────────────────────────────────────

/// How an expiry policy is shown.
pub open spec fn policy_text(p: OnExpiry) -> Seq<char> {
    match p {
        OnExpiry::Deny => "Deny"@,
        OnExpiry::Escalate => "Escalate"@,
        OnExpiry::Proceed => "Proceed"@,
    }
}

fn policy_shown(p: OnExpiry) -> (s: &'static str)
    ensures
        s@ == policy_text(p),
{
    match p {
        OnExpiry::Deny => "Deny",
        OnExpiry::Escalate => "Escalate",
        OnExpiry::Proceed => "Proceed",
    }
}

/// What a task that nobody answered comes to. Its policy was decided in advance:
/// it is escalated and goes on waiting, or answered and closed. The write that
/// takes it off the list that drives the sweep goes last.
pub open spec fn task_acts(t: TaskModel) -> Seq<ActModel> {
    match t.on_expiry {
        OnExpiry::Escalate => seq![
            noted(t.case, t.id, SweptAction::TaskEscalated, "nobody answered inside the window"@),
            ActModel::EscalateTask { task: t.id },
        ],
        policy => seq![
            noted(
                t.case,
                t.id,
                SweptAction::TaskExpired,
                "window closed; applied "@ + policy_text(policy),
            ),
            ActModel::AnswerTask { task: t.id, policy },
            ActModel::SetTaskState { task: t.id, state: TaskState::Expired },
        ],
    }
}

/// What the first `n` tasks come to, one after the other.
pub open spec fn all_task_acts(tasks: Seq<TaskModel>, n: int) -> Seq<ActModel>
    decreases n,
{
    if n <= 0 {
        Seq::empty()
    } else {
        all_task_acts(tasks, n - 1) + task_acts(tasks[n - 1])
    }
}

/// How many of the first `n` tasks are escalated.
pub open spec fn escalations(tasks: Seq<TaskModel>, n: int) -> nat
    decreases n,
{
    if n <= 0 {
        0
    } else {
        escalations(tasks, n - 1) + if tasks[n - 1].on_expiry == OnExpiry::Escalate {
            1nat
        } else {
            0nat
        }
    }
}

/// What a tick does about overdue tasks.
#[derive(Debug)]
pub struct TaskPlan {
    pub acts: Vec<SweepAct>,
    pub escalated: usize,
    pub expired: usize,
    pub saturated: bool,
}

fn push_task_acts(acts: &mut Vec<SweepAct>, t: &Task)
    ensures
        acts_of(final(acts)@) == acts_of(old(acts)@) + task_acts(t@),
{
    let ghost before = acts_of(acts@);
    let case = copied(&t.case);
    match t.on_expiry {
        OnExpiry::Escalate => {
            acts.push(
                note(
                    case,
                    &t.id,
                    SweptAction::TaskEscalated,
                    "nobody answered inside the window".to_owned(),
                ),
            );
            acts.push(SweepAct::EscalateTask { task: t.id.clone() });
        },
        policy => {
            acts.push(
                note(
                    case,
                    &t.id,
                    SweptAction::TaskExpired,
                    join("window closed; applied ", policy_shown(policy)),
                ),
            );
            acts.push(SweepAct::AnswerTask { task: t.id.clone(), policy });
            acts.push(
                SweepAct::SetTaskState { task: t.id.clone(), state: TaskState::Expired },
            );
        },
    }
    assert(acts_of(acts@) =~= before + task_acts(t@));
}

/// Decides what a tick does about the tasks that nobody answered.
pub fn sweep_tasks(tasks: &Vec<Task>) -> (p: TaskPlan)
    ensures
        ({
            let all = crate::tasks::tasks_of(tasks@);
            &&& acts_of(p.acts@) == all_task_acts(all, all.len() as int)
            &&& p.escalated == escalations(all, all.len() as int)
            &&& p.expired == all.len() - escalations(all, all.len() as int)
            &&& p.saturated == (all.len() >= TASK_BATCH)
        }),
{
    let ghost all = crate::tasks::tasks_of(tasks@);
    let mut acts: Vec<SweepAct> = Vec::new();
    let mut escalated: usize = 0;
    let mut expired: usize = 0;
    let mut i: usize = 0;
    assert(acts_of(acts@) =~= Seq::<ActModel>::empty());
    while i < tasks.len()
        invariant
            i <= tasks@.len(),
            all == crate::tasks::tasks_of(tasks@),
            acts_of(acts@) == all_task_acts(all, i as int),
            escalated == escalations(all, i as int),
            expired == i - escalated,
        decreases tasks@.len() - i,
    {
        let t = &tasks[i];
        assert(all[i as int] == t@);
        push_task_acts(&mut acts, t);
        if t.on_expiry == OnExpiry::Escalate {
            escalated = escalated + 1;
        } else {
            expired = expired + 1;
        }
        i = i + 1;
    }
    let saturated = tasks.len() >= TASK_BATCH;
    TaskPlan { acts, escalated, expired, saturated }
}

// ── Recovery ────────────────────────────────────────────────────────────────

/// What became of taking over a run.
#[derive(Clone, Copy, Debug, PartialEq, Eq, Structural)]
pub enum RecoveryOutcome {
    /// It was resumed.
    Resumed,
    /// Somebody else holds it: another instance got there first.
    Held,
    /// There is no run: its owner died between the lease and the first record.
    NoRun,
    /// It could not be resumed, and is tried again next tick.
    Failed,
}

/// How taking over a run begins: it is noted, and the run is taken over. A run
/// that was taken over can leave the list that drives the sweep, and then no
/// later tick could write the note.
pub open spec fn takeover_acts(run: Seq<char>) -> Seq<ActModel> {
    seq![
        noted(
            None,
            run,
            SweptAction::RunRecovered,
            "its owner's lease lapsed without release; taking the run over and resuming it"@,
        ),
        ActModel::TakeOver { run },
    ]
}

/// How it goes on.
pub open spec fn after_takeover(run: Seq<char>, outcome: RecoveryOutcome) -> Seq<ActModel> {
    match outcome {
        RecoveryOutcome::Resumed => seq![ActModel::ClearLease { run, slot: false }],
        RecoveryOutcome::NoRun => seq![
            noted(
                None,
                run,
                SweptAction::RunRecovered,
                "its owner died between acquiring the lease and the admission append; no run exists, so clearing the lease is the whole recovery"@,
            ),
            ActModel::ClearLease { run, slot: true },
        ],
        _ => Seq::empty(),
    }
}

/// Begins to take over a run.
pub fn recover_abandoned(run: &str) -> (acts: Vec<SweepAct>)
    ensures
        acts_of(acts@) == takeover_acts(run@),
{
    let mut acts: Vec<SweepAct> = Vec::new();
    acts.push(
        note(
            None,
            run,
            SweptAction::RunRecovered,
            "its owner's lease lapsed without release; taking the run over and resuming it".to_owned(),
        ),
    );
    acts.push(SweepAct::TakeOver { run: run.to_owned() });
    assert(acts_of(acts@) =~= takeover_acts(run@));
    acts
}

/// Goes on once it is known what became of taking over a run.
pub fn recovery_next(run: &str, outcome: RecoveryOutcome) -> (acts: Vec<SweepAct>)
    ensures
        acts_of(acts@) == after_takeover(run@, outcome),
{
    let mut acts: Vec<SweepAct> = Vec::new();
    match outcome {
        RecoveryOutcome::Resumed => {
            acts.push(SweepAct::ClearLease { run: run.to_owned(), slot: false });
        },
        RecoveryOutcome::NoRun => {
            acts.push(
                note(
                    None,
                    run,
                    SweptAction::RunRecovered,
                    "its owner died between acquiring the lease and the admission append; no run exists, so clearing the lease is the whole recovery".to_owned(),
                ),
            );
            acts.push(SweepAct::ClearLease { run: run.to_owned(), slot: true });
        },
        _ => {},
    }
    assert(acts_of(acts@) =~= after_takeover(run@, outcome));
    acts
}

/// The next abandoned run to take over, of so many, once some were tried and this
/// is what became of the last. Whatever became of it, the next is tried; only a
/// note that could not be written ends the pass, with its error.
pub fn next_run(total: usize, done: usize, last: Result<RecoveryOutcome, StoreError>) -> (next:
    Result<Option<usize>, StoreError>)
    ensures
        match next {
            Err(e) => last == Err::<RecoveryOutcome, StoreError>(e),
            Ok(p) => last is Ok && place(p) == next_place(total as int, done as int, true),
        },
{
    match last {
        Err(e) => Err(e),
        Ok(_) => if done < total {
            Ok(Some(done))
        } else {
            Ok(None)
        },
    }
}

/// The next timer to wake, of so many, once some were tried and the last got
/// through or did not. One that fails does not stop those behind it.
pub fn next_wake(total: usize, done: usize, woke: bool) -> (next: Option<usize>)
    ensures
        place(next) == next_place(total as int, done as int, true),
{
    if done < total {
        Some(done)
    } else {
        None
    }
}

/// The journal after a lease that nobody holds was cleared: it is claimed by
/// whoever clears it, and given back. A live lease refuses the claim, and stays.
pub open spec fn lease_cleared(
    st: JournalState,
    name: RunName,
    owner: Seq<char>,
    now: u64,
    ttl: Ttl,
) -> JournalState {
    match claim(st, name, now, ttl) {
        Ok(epoch) => released(
            with_lease(st, name, owner, epoch, (now + ttl.secs) as u64),
            name,
            epoch,
        ),
        Err(_) => st,
    }
}

/// Clears a lease that nobody holds, and with it the slot of a run that never
/// was. Says whether it did.
pub fn clear_lease(
    journal: &mut Journal,
    quota: &mut QuotaBook,
    tenant: &str,
    run: &str,
    owner: &str,
    now: u64,
    ttl: Ttl,
    slot: bool,
) -> (cleared: bool)
    requires
        ttl.proper(),
    ensures
        cleared == claim(old(journal)@, (tenant@, run@), now, ttl) is Ok,
        final(journal)@ == lease_cleared(old(journal)@, (tenant@, run@), owner@, now, ttl),
        final(quota)@ == if cleared && slot {
            slot_freed(old(quota)@, tenant@, run@)
        } else {
            old(quota)@
        },
        indexes_agree(old(journal)@) ==> indexes_agree(final(journal)@),
        chains_agree(old(journal)@) ==> chains_agree(final(journal)@),
{
    match journal.acquire(tenant, run, owner, now, ttl) {
        Err(_) => false,
        Ok(lease) => {
            if slot {
                quota.release(tenant, run);
            }
            journal.release_lease(tenant, run, lease.epoch);
            true
        },
    }
}

/// How many of the first `n` runs were recovered.
pub open spec fn recoveries(outcomes: Seq<RecoveryOutcome>, n: int) -> nat
    decreases n,
{
    if n <= 0 {
        0
    } else {
        recoveries(outcomes, n - 1) + if outcomes[n - 1] == RecoveryOutcome::Resumed
            || outcomes[n - 1] == RecoveryOutcome::NoRun {
            1nat
        } else {
            0nat
        }
    }
}

/// How many of the first `n` runs could not be.
pub open spec fn failed_recoveries(outcomes: Seq<RecoveryOutcome>, n: int) -> nat
    decreases n,
{
    if n <= 0 {
        0
    } else {
        failed_recoveries(outcomes, n - 1) + if outcomes[n - 1] == RecoveryOutcome::Failed {
            1nat
        } else {
            0nat
        }
    }
}

/// What a recovery pass came to.
#[derive(Debug)]
pub struct RecoveryTally {
    pub recovered: usize,
    pub failures: usize,
    pub saturated: bool,
}

/// Counts what a recovery pass came to: one outcome for each run it was given.
pub fn tally_recovery(outcomes: &Vec<RecoveryOutcome>) -> (t: RecoveryTally)
    ensures
        t.recovered == recoveries(outcomes@, outcomes@.len() as int),
        t.failures == failed_recoveries(outcomes@, outcomes@.len() as int),
        t.saturated == (outcomes@.len() >= RECOVERY_BATCH),
{
    let mut recovered: usize = 0;
    let mut failures: usize = 0;
    let mut i: usize = 0;
    while i < outcomes.len()
        invariant
            i <= outcomes@.len(),
            recovered == recoveries(outcomes@, i as int),
            failures == failed_recoveries(outcomes@, i as int),
            recovered + failures <= i,
        decreases outcomes@.len() - i,
    {
        match outcomes[i] {
            RecoveryOutcome::Resumed | RecoveryOutcome::NoRun => {
                recovered = recovered + 1;
            },
            RecoveryOutcome::Failed => {
                failures = failures + 1;
            },
            RecoveryOutcome::Held => {},
        }
        i = i + 1;
    }
    RecoveryTally { recovered, failures, saturated: outcomes.len() >= RECOVERY_BATCH }
}

// ── Timers ──────────────────────────────────────────────────────────────────

/// What a record of a run's journal says to a wake: whose effect it is, and
/// whether it is that effect's result.
#[derive(Debug)]
pub struct RecordGist {
    pub effect: Option<String>,
    pub done: bool,
}

impl View for RecordGist {
    type V = (Option<Seq<char>>, bool);

    open spec fn view(&self) -> (Option<Seq<char>>, bool) {
        (said(self.effect), self.done)
    }
}

/// Whether a wake is in the journal already.
pub open spec fn wake_recorded(records: Seq<RecordGist>, effect: Seq<char>) -> bool {
    exists|i: int| 0 <= i < records.len() && (#[trigger] records[i])@ == (Some(effect), true)
}

/// What one timer's wake takes.
#[derive(Clone, Copy, Debug, PartialEq, Eq, Structural)]
pub enum WakeAct {
    /// Append the wake as the sleeping effect's result.
    Record,
    Disarm,
    /// Resume the run under the lease the wake was recorded under.
    Resume,
}

/// What one timer's wake takes: a wake that is recorded already is not recorded
/// again.
pub open spec fn wake_acts(recorded: bool) -> Seq<WakeAct> {
    if recorded {
        seq![WakeAct::Disarm, WakeAct::Resume]
    } else {
        seq![WakeAct::Record, WakeAct::Disarm, WakeAct::Resume]
    }
}

/// Decides what one timer's wake takes.
pub fn fire_one(records: &Vec<RecordGist>, effect: &str) -> (acts: Vec<WakeAct>)
    ensures
        acts@ == wake_acts(wake_recorded(records@, effect@)),
{
    let mut recorded = false;
    let mut i: usize = 0;
    while i < records.len()
        invariant
            i <= records@.len(),
            recorded == exists|j: int|
                0 <= j < i && (#[trigger] records@[j])@ == (Some(effect@), true),
        decreases records@.len() - i,
    {
        let hit = match &records[i].effect {
            Some(e) => records[i].done && same(e, effect),
            None => false,
        };
        assert(hit == (records@[i as int]@ == (Some(effect@), true)));
        if hit {
            recorded = true;
        }
        i = i + 1;
    }
    let mut acts: Vec<WakeAct> = Vec::new();
    if !recorded {
        acts.push(WakeAct::Record);
    }
    acts.push(WakeAct::Disarm);
    acts.push(WakeAct::Resume);
    assert(acts@ =~= wake_acts(recorded));
    acts
}

/// What a wake is recorded as: the instant at which it was due, not the one at
/// which the sweep noticed.
pub open spec fn wake_text(fire_at: i64) -> Seq<char> {
    "{\"fired_at\":"@ + crate::text::signed_decimal(fire_at as int) + "}"@
}

/// What a wake is recorded as.
pub fn wake_output(fire_at: i64) -> (s: String)
    ensures
        s@ == wake_text(fire_at),
{
    join3("{\"fired_at\":", &dec_signed(fire_at), "}")
}

/// The record of a wake: the result of the effect that slept. It has no sender,
/// cost nothing, and is the runtime's own word.
#[derive(Debug)]
pub struct WakeRecord {
    pub run: String,
    pub effect: String,
    pub step: u32,
    pub phase: Phase,
    pub case: Option<String>,
    /// What the effect gave, as JSON text.
    pub output: String,
    pub source: Option<String>,
    pub spend: Spend,
    pub trusted: bool,
}

/// What a [`WakeRecord`] says.
pub struct WakeModel {
    pub run: Seq<char>,
    pub effect: Seq<char>,
    pub step: u32,
    pub phase: Phase,
    pub case: Option<Seq<char>>,
    pub output: Seq<char>,
    pub source: Option<Seq<char>>,
    pub spend: Spend,
    pub trusted: bool,
}

impl View for WakeRecord {
    type V = WakeModel;

    open spec fn view(&self) -> WakeModel {
        WakeModel {
            run: self.run@,
            effect: self.effect@,
            step: self.step,
            phase: self.phase,
            case: said(self.case),
            output: self.output@,
            source: said(self.source),
            spend: self.spend,
            trusted: self.trusted,
        }
    }
}

/// What a timer's wake is recorded as.
pub open spec fn wake_of(t: TimerModel) -> WakeModel {
    WakeModel {
        run: t.run,
        effect: t.effect,
        step: t.step,
        phase: t.phase,
        case: t.case,
        output: wake_text(t.fire_at),
        source: None,
        spend: Spend { tokens: 0, minor_units: 0 },
        trusted: true,
    }
}

/// Makes the record of a timer's wake.
pub fn wake_record(timer: &Timer) -> (r: WakeRecord)
    ensures
        r@ == wake_of(timer@),
{
    WakeRecord {
        run: timer.run.clone(),
        effect: timer.effect.clone(),
        step: timer.step,
        phase: timer.phase,
        case: copied(&timer.case),
        output: wake_output(timer.fire_at),
        source: None,
        spend: Spend { tokens: 0, minor_units: 0 },
        trusted: true,
    }
}

/// What became of resuming a run.
#[derive(Clone, Copy, Debug, PartialEq, Eq, Structural)]
pub enum Resumed {
    Ran,
    /// The lease lapsed on the way, and somebody else has the run.
    LeaseHeld,
    Failed,
}

/// Whether a wake got through.
pub open spec fn got_through(r: Resumed) -> bool {
    r != Resumed::Failed
}

/// Whether a wake got through. A run that somebody else has took the wake with
/// it.
pub fn wake_delivered(r: Resumed) -> (b: bool)
    ensures
        b == got_through(r),
{
    !matches!(r, Resumed::Failed)
}

/// How many of the first `n` wakes got through.
pub open spec fn delivered(results: Seq<bool>, n: int) -> nat
    decreases n,
{
    if n <= 0 {
        0
    } else {
        delivered(results, n - 1) + if results[n - 1] {
            1nat
        } else {
            0nat
        }
    }
}

/// Counts what a timer pass came to. One wake that failed does not stop those
/// behind it.
pub fn fire_timers(results: &Vec<bool>) -> (w: WokenRuns)
    ensures
        w.fired == delivered(results@, results@.len() as int),
        w.fired + w.failed == results@.len(),
{
    let mut fired: usize = 0;
    let mut failed: usize = 0;
    let mut i: usize = 0;
    while i < results.len()
        invariant
            i <= results@.len(),
            fired == delivered(results@, i as int),
            fired + failed == i,
        decreases results@.len() - i,
    {
        if results[i] {
            fired = fired + 1;
        } else {
            failed = failed + 1;
        }
        i = i + 1;
    }
    WokenRuns { fired, failed }
}

// ── Decisions ───────────────────────────────────────────────────────────────

/// The event that a person's decision on a task travels as. Its identity is the
/// task's, so that a decision given twice is given once.
pub open spec fn decision_event(task: Seq<char>, kind: Seq<char>, payload: Seq<char>) -> EventModel {
    EventModel {
        key: (SOURCE_WORKLIST@, "task-decision:"@ + task),
        kind,
        correlation: seq![("task"@, task)],
        payload,
    }
}

/// Makes the event that a person's decision on a task travels as.
pub fn answer_task(task: &str, kind: &str, payload: &str) -> (e: InboundEvent)
    ensures
        e@ == decision_event(task@, kind@, payload@),
{
    let mut correlation: Vec<CorrelationKey> = Vec::new();
    correlation.push(CorrelationKey::new("task".to_owned(), task.to_owned()));
    let e = InboundEvent {
        source: SOURCE_WORKLIST.to_owned(),
        id: join("task-decision:", task),
        kind: kind.to_owned(),
        correlation,
        payload: payload.to_owned(),
    };
    assert(e@.correlation =~= seq![("task"@, task@)]);
    e
}

/// What completing a task for a person takes.
#[derive(Clone, Copy, Debug, PartialEq, Eq, Structural)]
pub enum DecideAct {
    /// Claim it for them, which checks that they may.
    Claim,
    /// Deliver the decision.
    Answer,
    /// Mark it completed.
    Complete,
}

/// What completing a task takes, in order: an answer from somebody who might not
/// give it is worse than none.
pub open spec fn decide_acts() -> Seq<DecideAct> {
    seq![DecideAct::Claim, DecideAct::Answer, DecideAct::Complete]
}

/// What is next for a task's decision once some of it was done, and the last of
/// that went through or did not. The first that does not ends it: a claim that
/// is refused delivers nothing, and a decision that is not delivered completes
/// nothing.
pub fn decide_task(done: usize, ok: bool) -> (next: Option<DecideAct>)
    ensures
        next == match next_place(decide_acts().len() as int, done as int, ok) {
            Some(i) => Some(decide_acts()[i]),
            None => None,
        },
{
    if !ok {
        None
    } else if done == 0 {
        Some(DecideAct::Claim)
    } else if done == 1 {
        Some(DecideAct::Answer)
    } else if done == 2 {
        Some(DecideAct::Complete)
    } else {
        None
    }
}

// ── The tick's own record ───────────────────────────────────────────────────

/// The run that a tick writes its decisions down in, opened when there is one to
/// write.
#[derive(Debug)]
pub struct SweepLedger {
    pub run: Option<String>,
    /// Whether a note has landed.
    pub wrote: bool,
}

/// What became of a tick's own record.
#[derive(Debug)]
pub enum SweepRecord {
    /// The tick decided nothing.
    Quiet,
    /// Its decisions are in this sealed run.
    Recorded(String),
    /// It decided something, and its record could not be closed.
    EvidenceLost,
}

/// What a [`SweepRecord`] says.
pub enum RecordModel {
    Quiet,
    Recorded(Seq<char>),
    EvidenceLost,
}

impl View for SweepRecord {
    type V = RecordModel;

    open spec fn view(&self) -> RecordModel {
        match self {
            SweepRecord::Quiet => RecordModel::Quiet,
            SweepRecord::Recorded(run) => RecordModel::Recorded(run@),
            SweepRecord::EvidenceLost => RecordModel::EvidenceLost,
        }
    }
}

/// What came of the last step of closing a record.
#[derive(Debug)]
pub enum SealReply {
    /// Nothing has been done yet.
    Begin,
    /// The chain's head was read, or could not be.
    Head(Option<Digest>),
    /// Whether the conclusion was appended.
    Concluded(bool),
    /// Whether the run was sealed.
    Sealed(bool),
}

/// The next step of closing a record.
#[derive(Debug)]
pub enum SealStep {
    /// Read the head of the run's chain.
    ReadHead { run: String },
    /// Append the conclusion, which names the head it was written over.
    Conclude { run: String, epoch: u64, outcome: String, chain_head: Digest },
    /// Seal the run.
    Seal { run: String, epoch: u64, outcome: String },
    /// Nothing: this is what became of the record.
    Over(SweepRecord),
}

/// What a [`SealStep`] says.
pub enum StepModel {
    ReadHead { run: Seq<char> },
    Conclude { run: Seq<char>, epoch: u64, outcome: Seq<char>, chain_head: Seq<u8> },
    Seal { run: Seq<char>, epoch: u64, outcome: Seq<char> },
    Over(RecordModel),
}

impl View for SealStep {
    type V = StepModel;

    open spec fn view(&self) -> StepModel {
        match self {
            SealStep::ReadHead { run } => StepModel::ReadHead { run: run@ },
            SealStep::Conclude { run, epoch, outcome, chain_head } => StepModel::Conclude {
                run: run@,
                epoch: *epoch,
                outcome: outcome@,
                chain_head: chain_head@,
            },
            SealStep::Seal { run, epoch, outcome } => StepModel::Seal {
                run: run@,
                epoch: *epoch,
                outcome: outcome@,
            },
            SealStep::Over(r) => StepModel::Over(r@),
        }
    }
}

/// How a record is closed, step by step: the head is read, the conclusion goes
/// into the chain before the chain closes over it, and the run is sealed. The
/// first step that fails loses the record. A tick that wrote nothing has nothing
/// to close, and touches nothing.
pub open spec fn closing(run: Option<Seq<char>>, wrote: bool, reply: SealReply) -> StepModel {
    match run {
        Some(run) if wrote => match reply {
            SealReply::Begin => StepModel::ReadHead { run },
            SealReply::Head(Some(head)) => StepModel::Conclude {
                run,
                epoch: SWEEP_EPOCH,
                outcome: SWEEP_OUTCOME@,
                chain_head: head@,
            },
            SealReply::Concluded(true) => StepModel::Seal {
                run,
                epoch: SWEEP_EPOCH,
                outcome: SWEEP_OUTCOME@,
            },
            SealReply::Sealed(true) => StepModel::Over(RecordModel::Recorded(run)),
            _ => StepModel::Over(RecordModel::EvidenceLost),
        },
        _ => StepModel::Over(RecordModel::Quiet),
    }
}

impl SweepLedger {
    /// A record that is not open.
    pub fn new() -> (l: SweepLedger)
        ensures
            l.run is None,
            !l.wrote,
    {
        SweepLedger { run: None, wrote: false }
    }

    /// The run to write the next note in: the one that is open, or else this
    /// fresh one, from now on.
    pub fn note(&mut self, fresh: String) -> (run: String)
        ensures
            run@ == match old(self).run {
                Some(r) => r@,
                None => fresh@,
            },
            said(final(self).run) == Some(run@),
            final(self).wrote == old(self).wrote,
    {
        let run = match &self.run {
            Some(run) => run.clone(),
            None => fresh,
        };
        self.run = Some(run.clone());
        run
    }

    /// Notes that a note has landed.
    pub fn landed(&mut self)
        ensures
            final(self).wrote,
            said(final(self).run) == said(old(self).run),
    {
        self.wrote = true;
    }

    /// The next step of closing the record, given what came of the last.
    pub fn seal(&self, reply: SealReply) -> (step: SealStep)
        ensures
            step@ == closing(said(self.run), self.wrote, reply),
    {
        let run = match &self.run {
            Some(run) if self.wrote => run.clone(),
            _ => {
                return SealStep::Over(SweepRecord::Quiet);
            },
        };
        match reply {
            SealReply::Begin => SealStep::ReadHead { run },
            SealReply::Head(Some(chain_head)) => SealStep::Conclude {
                run,
                epoch: SWEEP_EPOCH,
                outcome: SWEEP_OUTCOME.to_owned(),
                chain_head,
            },
            SealReply::Concluded(true) => SealStep::Seal {
                run,
                epoch: SWEEP_EPOCH,
                outcome: SWEEP_OUTCOME.to_owned(),
            },
            SealReply::Sealed(true) => SealStep::Over(SweepRecord::Recorded(run)),
            _ => SealStep::Over(SweepRecord::EvidenceLost),
        }
    }
}

// ── The tick ────────────────────────────────────────────────────────────────

/// Which stores a plane has.
#[derive(Clone, Copy, Debug, PartialEq, Eq)]
pub struct Configured {
    pub cases: bool,
    pub tasks: bool,
    pub events: bool,
    pub timers: bool,
}

/// Where a tick is.
#[derive(Clone, Copy, Debug, PartialEq, Eq, Structural)]
pub enum SweepPhase {
    /// First: an abandoned run may be one step from meeting what the next pass
    /// would breach.
    Recover,
    Deadlines,
    Tasks,
    Redeliver,
    DeadLetter,
    Timers,
    /// Close the record, whatever went before.
    Seal,
    Census,
    Done,
    /// The tick failed, its record closed.
    Failed,
}

/// A tick: where it is, and whether a pass has failed.
#[derive(Clone, Copy, Debug, PartialEq, Eq)]
pub struct Tick {
    pub phase: SweepPhase,
    pub failed: bool,
}

/// Whether a phase does the tick's work.
pub open spec fn working(p: SweepPhase) -> bool {
    match p {
        SweepPhase::Seal | SweepPhase::Census | SweepPhase::Done | SweepPhase::Failed => false,
        _ => true,
    }
}

/// The pass behind a pass, of those that the plane has stores for.
pub open spec fn next_pass(p: SweepPhase, c: Configured) -> SweepPhase {
    let timers = if c.timers {
        SweepPhase::Timers
    } else {
        SweepPhase::Seal
    };
    let events = if c.events {
        SweepPhase::Redeliver
    } else {
        timers
    };
    let tasks = if c.tasks {
        SweepPhase::Tasks
    } else {
        events
    };
    match p {
        SweepPhase::Recover => if c.cases {
            SweepPhase::Deadlines
        } else {
            tasks
        },
        SweepPhase::Deadlines => tasks,
        SweepPhase::Tasks => events,
        SweepPhase::Redeliver => SweepPhase::DeadLetter,
        SweepPhase::DeadLetter => timers,
        _ => SweepPhase::Seal,
    }
}

/// Where a tick goes from where it is, given whether what it did there went
/// through. The first pass that fails ends the passes, and the record is closed
/// in any case. Gauges that cannot be read fail nothing.
pub open spec fn step(t: Tick, c: Configured, ok: bool) -> Tick {
    if working(t.phase) {
        if ok {
            Tick { phase: next_pass(t.phase, c), failed: t.failed }
        } else {
            Tick { phase: SweepPhase::Seal, failed: true }
        }
    } else {
        match t.phase {
            SweepPhase::Seal => Tick {
                phase: if t.failed {
                    SweepPhase::Failed
                } else {
                    SweepPhase::Census
                },
                failed: t.failed,
            },
            SweepPhase::Census => Tick { phase: SweepPhase::Done, failed: t.failed },
            _ => t,
        }
    }
}

impl Tick {
    /// A tick that begins.
    pub fn start() -> (t: Tick)
        ensures
            t == (Tick { phase: SweepPhase::Recover, failed: false }),
    {
        Tick { phase: SweepPhase::Recover, failed: false }
    }

    /// Goes on, given whether what the tick did where it is went through.
    pub fn next(self, c: Configured, ok: bool) -> (t: Tick)
        ensures
            t == step(self, c, ok),
    {
        let timers = if c.timers {
            SweepPhase::Timers
        } else {
            SweepPhase::Seal
        };
        let events = if c.events {
            SweepPhase::Redeliver
        } else {
            timers
        };
        let tasks = if c.tasks {
            SweepPhase::Tasks
        } else {
            events
        };
        let pass = match self.phase {
            SweepPhase::Recover => if c.cases {
                SweepPhase::Deadlines
            } else {
                tasks
            },
            SweepPhase::Deadlines => tasks,
            SweepPhase::Tasks => events,
            SweepPhase::Redeliver => SweepPhase::DeadLetter,
            SweepPhase::DeadLetter => timers,
            SweepPhase::Timers => SweepPhase::Seal,
            SweepPhase::Seal => {
                return Tick {
                    phase: if self.failed {
                        SweepPhase::Failed
                    } else {
                        SweepPhase::Census
                    },
                    failed: self.failed,
                };
            },
            SweepPhase::Census => {
                return Tick { phase: SweepPhase::Done, failed: self.failed };
            },
            SweepPhase::Done | SweepPhase::Failed => {
                return self;
            },
        };
        if ok {
            Tick { phase: pass, failed: self.failed }
        } else {
            Tick { phase: SweepPhase::Seal, failed: true }
        }
    }
}

/// What the passes of a tick came to.
#[derive(Debug)]
pub struct SweepParts {
    pub recovery: RecoveryTally,
    pub deadlines: Option<DeadlinePlan>,
    pub tasks: Option<TaskPlan>,
    pub events_redelivered: usize,
    pub dead_lettered: usize,
    pub woken: Option<WokenRuns>,
}

/// Whether this is the report of a tick: what its passes came to, its record, and
/// what the plane holds.
pub open spec fn reports(
    parts: SweepParts,
    record: SweepRecord,
    census: Option<Census>,
    r: SweepReport,
) -> bool {
    &&& r.runs_recovered == parts.recovery.recovered
    &&& r.recovery_failures == parts.recovery.failures
    &&& r.saturated.recovery == parts.recovery.saturated
    &&& match parts.deadlines {
        Some(p) => r.warned == p.warned && r.breached == p.breached && r.saturated.deadlines
            == p.saturated,
        None => r.warned == 0 && r.breached == 0 && !r.saturated.deadlines,
    }
    &&& match parts.tasks {
        Some(p) => r.tasks_expired == p.expired && r.tasks_escalated == p.escalated
            && r.saturated.tasks == p.saturated,
        None => r.tasks_expired == 0 && r.tasks_escalated == 0 && !r.saturated.tasks,
    }
    &&& r.events_redelivered == parts.events_redelivered
    &&& r.dead_lettered == parts.dead_lettered
    &&& match parts.woken {
        Some(w) => r.timers_fired == w.fired && r.wake_failures == w.failed
            && r.saturated.timers == (w.fired + w.failed >= TIMER_BATCH),
        None => r.timers_fired == 0 && r.wake_failures == 0 && !r.saturated.timers,
    }
    &&& match record {
        SweepRecord::Quiet => r.record is None && !r.evidence_lost,
        SweepRecord::Recorded(run) => said(r.record) == Some(run@) && !r.evidence_lost,
        SweepRecord::EvidenceLost => r.record is None && r.evidence_lost,
    }
    &&& match census {
        Some(c) => r.census == c && !r.census_unavailable,
        None => r.census == no_census() && r.census_unavailable,
    }
}

/// Puts the report of a tick together. Wakes that failed used up the cap like
/// those that got through. A census that could not be read leaves a report
/// without one, and says so.
pub fn sweep(parts: SweepParts, record: SweepRecord, census: Option<Census>) -> (r: SweepReport)
    ensures
        reports(parts, record, census, r),
{
    let mut r = SweepReport::default();
    r.runs_recovered = parts.recovery.recovered;
    r.recovery_failures = parts.recovery.failures;
    let mut saturated = Saturation::default();
    saturated.recovery = parts.recovery.saturated;
    if let Some(p) = &parts.deadlines {
        r.warned = p.warned;
        r.breached = p.breached;
        saturated.deadlines = p.saturated;
    }
    if let Some(p) = &parts.tasks {
        r.tasks_expired = p.expired;
        r.tasks_escalated = p.escalated;
        saturated.tasks = p.saturated;
    }
    r.events_redelivered = parts.events_redelivered;
    r.dead_lettered = parts.dead_lettered;
    if let Some(w) = parts.woken {
        r.timers_fired = w.fired;
        r.wake_failures = w.failed;
        saturated.timers = w.fired >= TIMER_BATCH || w.failed >= TIMER_BATCH - w.fired;
    }
    r.saturated = saturated;
    match record {
        SweepRecord::Quiet => {},
        SweepRecord::Recorded(run) => {
            r.record = Some(run);
        },
        SweepRecord::EvidenceLost => {
            r.evidence_lost = true;
        },
    }
    match census {
        Some(c) => {
            r.census = c;
        },
        None => {
            r.census_unavailable = true;
        },
    }
    r
}

/// Whether this is what the plane holds, of the stores that it has.
pub open spec fn holding(
    cases: Option<CaseCensus>,
    pending_timers: Option<u64>,
    open_tasks: Option<u64>,
    c: Census,
) -> bool {
    &&& match cases {
        Some(cc) => c.open_cases == cc.open && c.oldest_case_age_secs == cc.oldest_age_secs
            && c.due_deadlines == cc.due,
        None => c.open_cases == 0 && c.oldest_case_age_secs is None && c.due_deadlines == 0,
    }
    &&& c.pending_timers == match pending_timers {
        Some(n) => n,
        None => 0,
    }
    &&& c.open_tasks == match open_tasks {
        Some(n) => n,
        None => 0,
    }
}

/// What the plane is holding. A store that it does not have holds nothing.
pub fn census(
    cases: Option<CaseCensus>,
    pending_timers: Option<u64>,
    open_tasks: Option<u64>,
) -> (c: Census)
    ensures
        holding(cases, pending_timers, open_tasks, c),
{
    let mut c = Census::default();
    if let Some(cc) = cases {
        c.open_cases = cc.open;
        c.oldest_case_age_secs = cc.oldest_age_secs;
        c.due_deadlines = cc.due;
    }
    if let Some(n) = pending_timers {
        c.pending_timers = n;
    }
    if let Some(n) = open_tasks {
        c.open_tasks = n;
    }
    c
}

// ── Laws ────────────────────────────────────────────────────────────────────

/// Whether every note in a list of acts stands before everything that changes
/// state.
pub open spec fn notes_first(acts: Seq<ActModel>) -> bool {
    forall|i: int, j: int|
        0 <= i < j < acts.len() && (#[trigger] acts[j]) is Note ==> (#[trigger] acts[i]) is Note
}

/// A decision is written down before it is applied: of what an obligation, a
/// task or a lost run comes to, the notes come first, and there is one if
/// anything changes at all.
pub proof fn law_decisions_are_noted_first(
    item: (DeadlineModel, Seq<char>),
    now: i64,
    t: TaskModel,
    run: Seq<char>,
    outcome: RecoveryOutcome,
)
    ensures
        notes_first(deadline_acts(item, now)),
        deadline_acts(item, now).len() > 0 ==> deadline_acts(item, now)[0] is Note,
        notes_first(task_acts(t)),
        task_acts(t)[0] is Note,
        notes_first(takeover_acts(run)),
        takeover_acts(run)[0] is Note,
        notes_first(after_takeover(run, outcome)),
{
}

/// Nothing follows a failure: where an act of a pass does not go through, none
/// behind it is performed, and every act up to it was.
pub proof fn law_nothing_follows_a_failure(total: int, through: Seq<bool>, p: int, q: int)
    requires
        performed(total, through, p),
        !through[p],
    ensures
        q > p ==> !performed(total, through, q),
        0 <= q <= p ==> performed(total, through, q),
{
    lemma_performed(total, through, p);
    lemma_performed(total, through, q);
}

/// A step of a pass performs what is next: the act behind one that was performed
/// is performed exactly where that one went through.
pub proof fn law_pass_goes_on_while_acts_go_through(total: int, through: Seq<bool>, i: int)
    requires
        performed(total, through, i),
    ensures
        performed(total, through, i + 1) <==> through[i] && i + 1 < total,
{
}

/// A note that could not be written leaves its decision unapplied: whatever stands
/// before and behind it in the pass, nothing that an obligation, a task or a run
/// without a journal comes to changes state once one of its notes failed.
pub proof fn law_failed_note_changes_nothing(
    before: Seq<ActModel>,
    block: Seq<ActModel>,
    behind: Seq<ActModel>,
    through: Seq<bool>,
    i: int,
    j: int,
)
    requires
        notes_first(block),
        0 <= i < block.len(),
        block[i] is Note,
        !through[before.len() + i],
        0 <= j < block.len(),
        !(block[j] is Note),
    ensures
        (before + block + behind)[before.len() + j] == block[j],
        !performed(
            (before + block + behind).len() as int,
            through,
            before.len() + j,
        ),
{
    assert(i < j);
    lemma_performed((before + block + behind).len() as int, through, before.len() + j);
}

/// Whether the abandoned run at `i` is tried, given what became of each: the
/// outcome of taking it over, or nothing where a note could not be written.
pub open spec fn tried(total: int, became: Seq<Option<RecoveryOutcome>>, i: int) -> bool {
    performed(total, Seq::new(became.len(), |j: int| became[j] is Some), i)
}

/// Every abandoned run is tried, whatever became of the others: where the notes
/// are written, none of them is passed over, and those behind a note that could
/// not be written are left for the next tick.
pub proof fn law_every_abandoned_run_is_tried(
    total: int,
    became: Seq<Option<RecoveryOutcome>>,
    i: int,
)
    requires
        0 <= i < total,
        became.len() == total,
    ensures
        tried(total, became, i) <==> forall|j: int| 0 <= j < i ==> #[trigger] became[j] is Some,
{
    let through = Seq::new(became.len(), |j: int| became[j] is Some);
    lemma_performed(total, through, i);
    if tried(total, became, i) {
        assert forall|j: int| 0 <= j < i implies #[trigger] became[j] is Some by {
            assert(through[j]);
        }
    }
}

/// A decision that is refused goes no further: somebody who may not claim a task
/// has nothing delivered and completes nothing.
pub proof fn law_refused_claim_delivers_nothing(through: Seq<bool>)
    requires
        !through[0],
    ensures
        performed(decide_acts().len() as int, through, 0),
        decide_acts()[0] == DecideAct::Claim,
        !performed(decide_acts().len() as int, through, 1),
        !performed(decide_acts().len() as int, through, 2),
{
    lemma_performed(decide_acts().len() as int, through, 0);
    lemma_performed(decide_acts().len() as int, through, 1);
    lemma_performed(decide_acts().len() as int, through, 2);
}

/// A lease that somebody holds is not cleared, and one that was cleared is held
/// by nobody, fences whoever had it, and is not taken for lost.
pub proof fn law_live_lease_is_not_cleared(
    st: JournalState,
    name: RunName,
    owner: Seq<char>,
    now: u64,
    ttl: Ttl,
    later: u64,
)
    ensures
        st.leases.contains_key(name) && st.leases[name].expires_at > now ==> lease_cleared(
            st,
            name,
            owner,
            now,
            ttl,
        ) == st,
        claim(st, name, now, ttl) is Ok ==> {
            let after = lease_cleared(st, name, owner, now, ttl);
            &&& !stranded(after, name.0, later, name.1)
            &&& after.leases[name].owner.len() == 0
            &&& st.leases.contains_key(name) ==> fence_refusal(
                after,
                name,
                st.leases[name].epoch,
            ) is Some
        },
{
}

/// The write that takes an obligation or a task off the list that drives the
/// sweep comes last: a crash before it leaves the finding to be found again.
pub proof fn law_list_is_left_last(
    item: (DeadlineModel, Seq<char>),
    now: i64,
    t: TaskModel,
    i: int,
)
    requires
        0 <= i,
    ensures
        i < deadline_acts(item, now).len() && deadline_acts(item, now)[i] is SetDeadline ==> i
            == deadline_acts(item, now).len() - 1,
        i < task_acts(t).len() && (task_acts(t)[i] is SetTaskState || task_acts(t)[i] is EscalateTask)
            ==> i == task_acts(t).len() - 1,
{
}

/// A sweep that runs twice breaches once: what is marked is neither breached nor
/// warned of again, and what is warned of is not warned of again.
pub proof fn law_sweep_is_idempotent(d: DeadlineModel, due: Seq<char>, now: i64, later: i64)
    ensures
        deadline_acts(
            (DeadlineModel { state: DeadlineState::Breached, ..d }, due),
            later,
        ).len() == 0,
        !warnable(DeadlineModel { state: DeadlineState::Warned, ..d }, later),
        overdue(DeadlineModel { state: DeadlineState::Warned, ..d }, later) == (d.resolved_at
            <= later),
{
}

/// Every obligation past its instant is breached: each unmet one among those
/// that a tick is given is counted.
pub proof fn law_every_breach_is_counted(
    items: Seq<(DeadlineModel, Seq<char>)>,
    now: i64,
    n: int,
    i: int,
)
    requires
        0 <= i < n <= items.len(),
        overdue(items[i].0, now),
    ensures
        breaches(items, now, n) > 0,
    decreases n,
{
    if i < n - 1 {
        law_every_breach_is_counted(items, now, n - 1, i);
    }
}

/// The record is closed whatever happens: a tick that works goes to another pass
/// or to the closing, never past it, and a pass that fails leads to it at once.
pub proof fn law_record_is_always_closed(t: Tick, c: Configured, ok: bool)
    requires
        working(t.phase),
    ensures
        working(step(t, c, ok).phase) || step(t, c, ok).phase == SweepPhase::Seal,
        !ok ==> step(t, c, ok).phase == SweepPhase::Seal && step(t, c, ok).failed,
{
}

/// A tick's record is whole or it is lost: it counts as recorded only once its
/// run was sealed, a step that failed loses it at once, and a tick that wrote
/// nothing is quiet without touching the journal.
pub proof fn law_record_is_whole_or_lost(run: Seq<char>, reply: SealReply, wrote: bool)
    ensures
        closing(Some(run), true, reply) == StepModel::Over(RecordModel::Recorded(run)) <==> reply
            == SealReply::Sealed(true),
        closing(Some(run), true, SealReply::Head(None)) == StepModel::Over(
            RecordModel::EvidenceLost,
        ),
        closing(Some(run), true, SealReply::Concluded(false)) == StepModel::Over(
            RecordModel::EvidenceLost,
        ),
        closing(Some(run), true, SealReply::Sealed(false)) == StepModel::Over(
            RecordModel::EvidenceLost,
        ),
        closing(Some(run), true, reply) != StepModel::Over(RecordModel::Quiet),
        closing(Some(run), false, reply) == StepModel::Over(RecordModel::Quiet),
        closing(None, wrote, reply) == StepModel::Over(RecordModel::Quiet),
{
}

/// How many steps a tick can still take.
pub open spec fn steps_left(p: SweepPhase) -> nat {
    match p {
        SweepPhase::Recover => 8,
        SweepPhase::Deadlines => 7,
        SweepPhase::Tasks => 6,
        SweepPhase::Redeliver => 5,
        SweepPhase::DeadLetter => 4,
        SweepPhase::Timers => 3,
        SweepPhase::Seal => 2,
        SweepPhase::Census => 1,
        SweepPhase::Done => 0,
        SweepPhase::Failed => 0,
    }
}

/// A tick ends: every step brings it nearer to its end, and it fails exactly
/// where a pass did.
pub proof fn law_tick_ends(t: Tick, c: Configured, ok: bool)
    requires
        t.phase != SweepPhase::Done,
        t.phase != SweepPhase::Failed,
    ensures
        steps_left(step(t, c, ok).phase) < steps_left(t.phase),
        step(t, c, ok).phase == SweepPhase::Failed ==> t.failed,
        step(t, c, ok).phase == SweepPhase::Census ==> !t.failed,
{
}

/// A wake is in the journal once: a timer whose wake is recorded is disarmed and
/// its run resumed, and nothing is appended.
pub proof fn law_wake_is_recorded_once(records: Seq<RecordGist>, wake: RecordGist, effect: Seq<char>)
    requires
        wake@ == (Some(effect), true),
    ensures
        !wake_acts(wake_recorded(records.push(wake), effect)).contains(WakeAct::Record),
{
    let all = records.push(wake);
    assert(all[records.len() as int] == wake);
    assert(wake_recorded(all, effect));
    let acts = wake_acts(true);
    assert(acts[0] == WakeAct::Disarm && acts[1] == WakeAct::Resume);
}

/// One decision per task: however often it is given, it is one event.
pub proof fn law_decision_is_one_event(
    task: Seq<char>,
    kind: Seq<char>,
    a: Seq<char>,
    b: Seq<char>,
)
    ensures
        decision_event(task, kind, a).key == decision_event(task, kind, b).key,
{
}

} // verus!
