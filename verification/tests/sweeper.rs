use agentplane::batches::Spend;
use agentplane::cases::{CaseBook, CaseCensus, Deadline};
use agentplane::domain::{CaseStatus, CorrelationKey, DeadlineState, Phase};
use agentplane::postgres::{
    commit_refused_or_in_doubt, connection_plan, digest_from, plan_from, recall_limit,
    refuse_transaction_control, refused_insert, version_i64, version_u64, PostgresStore, TlsMode,
    UrlParts,
};
use agentplane::error::StoreError;
use agentplane::journal::{Journal, Ttl};
use agentplane::quota::QuotaBook;
use agentplane::row::Digest;
use agentplane::sweeper::{
    answer_task, census, clear_lease, decide_task, fire_one, fire_timers, next_act, next_run,
    next_wake, recover_abandoned, recovery_next,
    sweep, sweep_deadlines, sweep_tasks, tally_recovery, wake_delivered, wake_output, wake_record,
    Census, Configured, DecideAct, DueItem, RecordGist, RecoveryOutcome, RecoveryTally, Resumed, Saturation,
    SealReply, SealStep, SweepAct, SweepLedger, SweepParts, SweepPhase, SweepRecord, SweepReport,
    SweptAction, Tick, WakeAct, WokenRuns, RECOVERY_BATCH, TIMER_BATCH,
};
use agentplane::tasks::{OnExpiry, Priority, Task, TaskBook, TaskState};
use agentplane::telemetry::{loud_events, mode_str, Mode, TenantLabel};
use agentplane::timers::{Timer, TimerBook};

fn obligation(state: DeadlineState, at: i64, warn: Option<i64>) -> DueItem {
    DueItem {
        deadline: Deadline {
            case: "c1".to_owned(),
            name: "answer".to_owned(),
            resolved_at: at,
            calendar_digest: Digest { bytes: [0; 32] },
            warn_at: warn,
            state,
        },
        due_text: "2026-01-01".to_owned(),
    }
}

fn shown(a: &SweepAct) -> String {
    match a {
        SweepAct::Note(n) => format!("note {:?} {:?} {} {}", n.action, n.case, n.subject, n.detail),
        SweepAct::SetStatus { case, status } => format!("status {case} {status:?}"),
        SweepAct::SetDeadline { case, name, mark } => format!("deadline {case} {name} {mark:?}"),
        SweepAct::EscalateTask { task } => format!("escalate {task}"),
        SweepAct::AnswerTask { task, policy } => format!("answer {task} {policy:?}"),
        SweepAct::SetTaskState { task, state } => format!("task {task} {state:?}"),
        SweepAct::TakeOver { run } => format!("take over {run}"),
        SweepAct::ClearLease { run, slot } => format!("clear {run} {slot}"),
    }
}

fn script(acts: &[SweepAct]) -> Vec<String> {
    acts.iter().map(shown).collect()
}

#[test]
fn a_breach_is_noted_before_it_is_applied() {
    let p = sweep_deadlines(&vec![obligation(DeadlineState::Warned, 100, Some(50))], 100);
    assert_eq!(
        script(&p.acts),
        [
            "note DeadlineBreached Some(\"c1\") c1 'answer' was due 2026-01-01 and was not met",
            "note CaseEscalated Some(\"c1\") c1 obligation 'answer' was breached",
            "status c1 Escalated",
            "deadline c1 answer Breached",
        ]
    );
    assert_eq!((p.warned, p.breached, p.saturated), (0, 1, false));
}

#[test]
fn a_warning_comes_once() {
    let items = vec![
        obligation(DeadlineState::Pending, 100, Some(50)),
        obligation(DeadlineState::Warned, 100, Some(50)),
        obligation(DeadlineState::Met, 10, None),
        obligation(DeadlineState::Breached, 10, None),
    ];
    let p = sweep_deadlines(&items, 60);
    assert_eq!(
        script(&p.acts),
        [
            "note DeadlineWarned Some(\"c1\") c1 'answer' comes due 2026-01-01",
            "deadline c1 answer Warned",
        ]
    );
    assert_eq!((p.warned, p.breached), (1, 0));
    assert!(items[0].deadline.needs_warning(60) && !items[0].deadline.is_due(60));
}

fn task(id: &str, on_expiry: OnExpiry) -> Task {
    Task {
        id: id.to_owned(),
        run: "r".to_owned(),
        case: None,
        kind: "approve".to_owned(),
        justification: "null".to_owned(),
        candidate_roles: Vec::new(),
        excluded_actors: Vec::new(),
        assignee: None,
        priority: Priority::Normal,
        state: TaskState::Open,
        on_expiry,
        created_at: 0,
        due_at: Some(1),
    }
}

#[test]
fn a_closed_window_applies_what_was_decided() {
    let p = sweep_tasks(&vec![task("k1", OnExpiry::Deny), task("k2", OnExpiry::Escalate), task("k3", OnExpiry::Proceed)]);
    assert_eq!(
        script(&p.acts),
        [
            "note TaskExpired None k1 window closed; applied Deny",
            "answer k1 Deny",
            "task k1 Expired",
            "note TaskEscalated None k2 nobody answered inside the window",
            "escalate k2",
            "note TaskExpired None k3 window closed; applied Proceed",
            "answer k3 Proceed",
            "task k3 Expired",
        ]
    );
    assert_eq!((p.expired, p.escalated, p.saturated), (2, 1, false));
}

#[test]
fn a_lost_run_is_noted_before_it_is_taken_over() {
    let acts = recover_abandoned("r");
    assert_eq!(
        script(&acts),
        [
            "note RunRecovered None r its owner's lease lapsed without release; taking the run over and resuming it",
            "take over r",
        ]
    );
    assert_eq!(script(&recovery_next("r", RecoveryOutcome::Resumed)), ["clear r false"]);
    assert!(recovery_next("r", RecoveryOutcome::Held).is_empty());
    assert!(recovery_next("r", RecoveryOutcome::Failed).is_empty());
    let empty = script(&recovery_next("r", RecoveryOutcome::NoRun));
    assert!(empty[0].starts_with("note RunRecovered None r its owner died between"), "{}", empty[0]);
    assert_eq!(empty[1], "clear r true");
    let t = tally_recovery(&vec![
        RecoveryOutcome::Resumed,
        RecoveryOutcome::Held,
        RecoveryOutcome::NoRun,
        RecoveryOutcome::Failed,
    ]);
    assert_eq!((t.recovered, t.failures, t.saturated), (2, 1, false));
    assert!(tally_recovery(&vec![RecoveryOutcome::Held; RECOVERY_BATCH]).saturated);
}

#[test]
fn a_wake_is_recorded_once() {
    let done = RecordGist { effect: Some("e".to_owned()), done: true };
    let started = RecordGist { effect: Some("e".to_owned()), done: false };
    let other = RecordGist { effect: Some("x".to_owned()), done: true };
    assert_eq!(fire_one(&vec![started, other], "e"), [WakeAct::Record, WakeAct::Disarm, WakeAct::Resume]);
    assert_eq!(fire_one(&vec![done], "e"), [WakeAct::Disarm, WakeAct::Resume]);
    assert_eq!(wake_output(-5), "{\"fired_at\":-5}");
    assert!(wake_delivered(Resumed::Ran) && wake_delivered(Resumed::LeaseHeld));
    assert!(!wake_delivered(Resumed::Failed));
    assert_eq!(fire_timers(&vec![true, false, true]), WokenRuns { fired: 2, failed: 1 });
}

#[test]
fn a_decision_travels_as_one_event() {
    let e = answer_task("0a", "task.decided", "{}");
    assert_eq!((e.source.as_str(), e.id.as_str()), ("agentplane://worklist", "task-decision:0a"));
    assert_eq!(e.correlation[0].shown(), "task:0a");
    assert_eq!(
        (0..4).map(|n| decide_task(n, true)).collect::<Vec<_>>(),
        [Some(DecideAct::Claim), Some(DecideAct::Answer), Some(DecideAct::Complete), None]
    );
    assert!((0..4).all(|n| decide_task(n, false).is_none()), "nothing follows what failed");
}

#[test]
fn a_record_is_closed_or_its_loss_is_told() {
    let head = || SealReply::Head(Some(Digest { bytes: [6; 32] }));
    for reply in [SealReply::Begin, head(), SealReply::Concluded(true), SealReply::Sealed(true)] {
        assert!(matches!(SweepLedger::new().seal(reply), SealStep::Over(SweepRecord::Quiet)));
    }
    let mut l = SweepLedger::new();
    assert_eq!(l.note("r1".to_owned()), "r1");
    assert!(matches!(l.seal(SealReply::Begin), SealStep::Over(SweepRecord::Quiet)), "no note has landed");
    assert_eq!(l.note("r2".to_owned()), "r1");
    l.landed();
    assert!(matches!(l.seal(SealReply::Begin), SealStep::ReadHead { run } if run == "r1"));
    match l.seal(head()) {
        SealStep::Conclude { run, epoch, outcome, chain_head } => {
            assert_eq!((run.as_str(), epoch, outcome.as_str(), chain_head.bytes), ("r1", 1, "swept", [6; 32]));
        }
        other => panic!("{other:?}"),
    }
    match l.seal(SealReply::Concluded(true)) {
        SealStep::Seal { run, epoch, outcome } => {
            assert_eq!((run.as_str(), epoch, outcome.as_str()), ("r1", 1, "swept"));
        }
        other => panic!("{other:?}"),
    }
    assert!(matches!(l.seal(SealReply::Sealed(true)), SealStep::Over(SweepRecord::Recorded(r)) if r == "r1"));
    for reply in [SealReply::Head(None), SealReply::Concluded(false), SealReply::Sealed(false)] {
        assert!(matches!(l.seal(reply), SealStep::Over(SweepRecord::EvidenceLost)));
    }
}

#[test]
fn a_wake_is_recorded_as_the_timer_has_it() {
    let timer = Timer {
        run: "r".to_owned(),
        case: Some("c".to_owned()),
        effect: "e".to_owned(),
        step: 4,
        phase: Phase::Compensating,
        fire_at: 77,
    };
    let w = wake_record(&timer);
    assert_eq!((w.run.as_str(), w.effect.as_str(), w.case.as_deref()), ("r", "e", Some("c")));
    assert_eq!((w.step, w.phase), (4, Phase::Compensating));
    assert_eq!(w.output, "{\"fired_at\":77}");
    assert_eq!((w.source, w.spend, w.trusted), (None, Spend { tokens: 0, minor_units: 0 }, true));
}

#[test]
fn a_second_tick_finds_nothing_to_do() {
    let mut b = CaseBook::new();
    let open = |b: &mut CaseBook, case: &str, at| {
        b.correlate_or_open("t", "k", &vec![CorrelationKey::new("n".to_owned(), case.to_owned())], at, case.to_owned())
            .expect("open");
    };
    open(&mut b, "c1", 1);
    b.register_deadline("t", &obligation(DeadlineState::Pending, 50, None).deadline);
    let mut soon = obligation(DeadlineState::Pending, 90, Some(40)).deadline;
    soon.name = "soon".to_owned();
    b.register_deadline("t", &soon);
    let items = |b: &CaseBook| -> Vec<DueItem> {
        b.due("t", 60, 9)
            .expect("due")
            .into_iter()
            .map(|deadline| DueItem { deadline, due_text: "then".to_owned() })
            .collect()
    };
    let first = sweep_deadlines(&items(&b), 60);
    assert_eq!((first.breached, first.warned), (1, 1));
    for act in first.acts {
        match act {
            SweepAct::SetStatus { case, status } => b.set_status("t", &case, status).expect("status"),
            SweepAct::SetDeadline { case, name, mark } => {
                b.set_deadline_state("t", &case, &name, mark).expect("mark");
            }
            _ => {}
        }
    }
    let second = sweep_deadlines(&items(&b), 60);
    assert_eq!((second.breached, second.warned, second.acts.len()), (0, 0, 0));
    assert!(b.check());

    let mut tasks = TaskBook::new();
    for (id, policy) in [("k1", OnExpiry::Deny), ("k2", OnExpiry::Proceed)] {
        let mut task = task(id, policy);
        task.due_at = Some(50);
        tasks.open("t", &task).expect("open");
    }
    let first = sweep_tasks(&tasks.overdue("t", 60, 9).expect("overdue"));
    assert_eq!((first.expired, first.escalated), (2, 0));
    for act in first.acts {
        if let SweepAct::SetTaskState { task, state } = act {
            tasks.set_state("t", &task, state);
        }
    }
    let second = sweep_tasks(&tasks.overdue("t", 60, 9).expect("overdue"));
    assert_eq!((second.expired, second.escalated, second.acts.len()), (0, 0, 0));

    let mut timers = TimerBook::new();
    timers.arm("t", &Timer {
        run: "r".to_owned(),
        case: None,
        effect: "e".to_owned(),
        step: 1,
        phase: Phase::Forward,
        fire_at: 50,
    });
    assert_eq!(timers.claim_due("t", 60, 9).expect("claim").len(), 1);
    assert!(timers.claim_due("t", 60, 9).expect("claim").is_empty());
}

#[test]
fn a_tick_always_closes_its_record() {
    let all = Configured { cases: true, tasks: true, events: true, timers: true };
    let mut t = Tick::start();
    let mut seen = Vec::new();
    while t.phase != SweepPhase::Done {
        seen.push(t.phase);
        t = t.next(all, true);
    }
    assert_eq!(
        seen,
        [
            SweepPhase::Recover,
            SweepPhase::Deadlines,
            SweepPhase::Tasks,
            SweepPhase::Redeliver,
            SweepPhase::DeadLetter,
            SweepPhase::Timers,
            SweepPhase::Seal,
            SweepPhase::Census,
        ]
    );
    let t = Tick::start().next(all, false);
    assert_eq!(t, Tick { phase: SweepPhase::Seal, failed: true });
    assert_eq!(t.next(all, true).phase, SweepPhase::Failed);
    let none = Configured { cases: false, tasks: false, events: false, timers: false };
    assert_eq!(Tick::start().next(none, true).phase, SweepPhase::Seal);
}

#[test]
fn a_report_says_what_the_passes_did() {
    let parts = |woken| SweepParts {
        recovery: RecoveryTally { recovered: 1, failures: 0, saturated: false },
        deadlines: None,
        tasks: None,
        events_redelivered: 0,
        dead_lettered: 0,
        woken,
    };
    let c = census(Some(CaseCensus { open: 2, oldest_age_secs: Some(9), due: 1 }), None, Some(4));
    assert_eq!((c.open_cases, c.due_deadlines, c.pending_timers, c.open_tasks), (2, 1, 0, 4));
    let r = sweep(parts(None), SweepRecord::Recorded("r".to_owned()), Some(c));
    assert_eq!((r.runs_recovered, r.record.as_deref(), r.evidence_lost), (1, Some("r"), false));
    assert!(!r.needs_attention() && !r.is_quiet());
    let r = sweep(parts(Some(WokenRuns { fired: 0, failed: TIMER_BATCH })), SweepRecord::EvidenceLost, None);
    assert!(r.saturated.timers && r.evidence_lost && r.census_unavailable && r.needs_attention());
    assert_eq!(r.record, None);
    let quiet = SweepReport { census: Census { open_cases: 500, ..Census::default() }, ..SweepReport::default() };
    assert!(quiet.is_quiet() && !quiet.needs_attention());
    assert!(Saturation { recovery: true, ..Saturation::default() }.any());
    assert!(!Saturation::default().any());
    assert_eq!(CaseStatus::Escalated.as_str(), "escalated");
    assert_ne!(SweptAction::RunRecovered, SweptAction::CaseEscalated);
}

#[test]
fn labels_and_modes() {
    assert_eq!(TenantLabel::Name.render("acme"), "acme");
    assert_ne!(TenantLabel::Omitted.render("acme"), "acme");
    assert_eq!([mode_str(Mode::Live), mode_str(Mode::Resume), mode_str(Mode::Strict)], ["live", "resume", "strict"]);
    assert!(loud_events().contains(&"agentplane.deadline.breached"));
    assert!(!loud_events().contains(&"agentplane.run"));
    assert_eq!(loud_events().len(), 17);
}

#[test]
fn a_url_that_demands_tls_is_refused() {
    let e = connection_plan("postgres://ann:pw@db.example:5433/plane?sslmode=disable").expect("plan");
    assert_eq!((e.host.as_deref(), e.port, e.user.as_deref()), (Some("db.example"), Some(5433), Some("ann")));
    assert_eq!((e.password.as_deref(), e.dbname.as_deref()), (Some("pw"), Some("plane")));
    assert!(connection_plan("postgres://db/plane").is_ok());
    match connection_plan("postgres://db/plane?sslmode=require") {
        Err(StoreError::Backend(m)) => assert!(m.starts_with("the connection URL demands TLS (sslmode Require)"), "{m}"),
        other => panic!("{other:?}"),
    }
    assert!(matches!(connection_plan("postgres://db:notaport/plane"), Err(StoreError::Backend(_))));
    let s = PostgresStore::connect_sized("postgres://db/plane", Some(3)).expect("plan").for_tenant("acme".to_owned());
    assert_eq!((s.max_connections, s.tenant(), s.is_shared()), (Some(3), "acme", true));
    assert_eq!(s.origin("p".to_owned()).signing_as("k".to_owned()).log_origin(), "p/acme");
    let parts = |tls| UrlParts {
        hosts: vec!["a".to_owned(), "b".to_owned()],
        ports: vec![5, 6],
        user: None,
        password: None,
        dbname: None,
        tls,
    };
    let plain = plan_from(Ok(parts(TlsMode::Prefer))).expect("plan");
    assert_eq!((plain.host.as_deref(), plain.port), (Some("a"), Some(5)));
    assert!(plan_from(Ok(parts(TlsMode::Disable))).is_ok());
    for (tls, said) in [(TlsMode::Require, "Require"), (TlsMode::Other("VerifyFull".to_owned()), "VerifyFull")] {
        match plan_from(Ok(parts(tls))) {
            Err(StoreError::Backend(m)) => assert!(m.contains(&format!("(sslmode {said})")), "{m}"),
            other => panic!("{other:?}"),
        }
    }
    let many = connection_plan("postgres://one:1,two:2/plane").expect("plan");
    assert_eq!((many.host.as_deref(), many.port), (Some("one"), Some(1)));
    assert_eq!(connection_plan("host=/run/pg user=ann").expect("plan").host.as_deref(), Some("/run/pg"));
    assert!(matches!(plan_from(Err("bad".to_owned())), Err(StoreError::Backend(m)) if m == "bad"));
}

#[test]
fn what_the_database_refuses_is_named() {
    assert!(matches!(commit_refused_or_in_doubt(true, "x".to_owned()), StoreError::Backend(_)));
    assert!(matches!(commit_refused_or_in_doubt(false, "x".to_owned()), StoreError::CommitUnknown { .. }));
    assert!(matches!(
        refused_insert(Some("journal_effect_started"), Some("e"), "r", 3, "d"),
        StoreError::DuplicateEffect(e) if e == "e"
    ));
    match refused_insert(Some("journal_pkey"), Some("e"), "r", 3, "d") {
        StoreError::Backend(m) => assert!(m.starts_with("append raced another writer on run r at seq 3"), "{m}"),
        other => panic!("{other:?}"),
    }
    assert!(matches!(refused_insert(None, None, "r", 3, "d"), StoreError::Backend(m) if m == "d"));
    assert_eq!(digest_from(&[5; 32]).expect("hash").bytes, [5; 32]);
    assert!(matches!(digest_from(&[5; 31]), Err(StoreError::Corrupt { detail, .. }) if detail == "a hash column holds 31 bytes, not 32"));
    assert_eq!(version_u64(4).expect("version"), 4);
    assert!(version_u64(-1).is_err());
    assert_eq!(version_i64(4).expect("version"), 4);
    assert!(version_i64(u64::MAX).is_err());
    assert_eq!(recall_limit(9).expect("limit"), 9);
    for sql in ["COMMIT", "  rollback;", "PREPARE TRANSACTION 'x'", "set transaction read only", "savepoint a", "\n\tEND", ";commit"] {
        assert!(refuse_transaction_control(sql).is_err(), "{sql}");
    }
    for sql in ["SELECT 1", "INSERT INTO a VALUES ('commit')", "UPDATE committed SET a = 1", "SET search_path = x", "PREPARE p AS SELECT 1", "/* */ COMMIT", "-- x\nCOMMIT", "--\nCOMMIT", ""] {
        assert!(refuse_transaction_control(sql).is_ok(), "{sql}");
    }
}

fn lost() -> StoreError {
    StoreError::Backend("lost".to_owned())
}

#[test]
fn a_failed_note_is_followed_by_no_transition() {
    let p = sweep_deadlines(&vec![obligation(DeadlineState::Pending, 10, None)], 60);
    let total = p.acts.len();
    assert!(matches!(p.acts[0], SweepAct::Note(_)));
    assert!(matches!(next_act(total, 0, Ok(())), Ok(Some(0))));
    assert!(matches!(next_act(total, 1, Err(lost())), Err(StoreError::Backend(m)) if m == "lost"));
    assert!(matches!(next_act(total, 1, Ok(())), Ok(Some(1))));
    assert!(matches!(next_act(total, total, Ok(())), Ok(None)));
}

#[test]
fn every_abandoned_run_is_tried() {
    for last in [RecoveryOutcome::Failed, RecoveryOutcome::Held, RecoveryOutcome::NoRun] {
        assert!(matches!(next_run(3, 1, Ok(last)), Ok(Some(1))));
    }
    assert!(matches!(next_run(3, 3, Ok(RecoveryOutcome::Resumed)), Ok(None)));
    assert!(next_run(3, 1, Err(lost())).is_err());
    assert_eq!(next_wake(2, 1, false), Some(1));
    assert_eq!(next_wake(2, 2, true), None);
}

#[test]
fn only_a_lapsed_lease_is_cleared() {
    let ttl = Ttl { secs: 10, nanos: 0 };
    let mut j = Journal::new();
    let mut q = QuotaBook::new();
    j.acquire("t", "r", "old", 100, ttl).expect("lease");
    q.running.insert(("t".to_owned(), "r".to_owned()), 1);
    assert!(!clear_lease(&mut j, &mut q, "t", "r", "sweeper", 105, ttl, true));
    assert!(q.running.contains(&("t".to_owned(), "r".to_owned())));
    assert!(clear_lease(&mut j, &mut q, "t", "r", "sweeper", 110, ttl, true));
    assert!(!q.running.contains(&("t".to_owned(), "r".to_owned())));
    let row = j.leases.get(&("t".to_owned(), "r".to_owned())).expect("row");
    assert_eq!((row.owner.as_str(), row.epoch, row.expires_at), ("", 2, 0));
    assert!(j.fence("t", "r", 1).is_err(), "the last holder is fenced");
}
