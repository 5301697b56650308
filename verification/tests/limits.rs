use agentplane::admissions::{AdmissionBook, AdmissionRow};
use agentplane::authority::{AuthorityBook, AuthorityError, BalanceRow, Verdict};
use agentplane::batches::{BatchBook, ItemOutcome, ItemRow, Spend};
use agentplane::cases::{CaseBook, CaseRow, DeadlineRow};
use agentplane::domain::{CaseStatus, CorrelationKey, DeadlineState, Fault, Instant, Phase, StoredId};
use agentplane::error::StoreError;
use agentplane::events::{EventBook, InboundEvent, Subscription};
use agentplane::journal::{Append, Journal, LeaseRow, RecordKind, Ttl};
use agentplane::memory::{MemoryBook, MemoryItem, Trust};
use agentplane::push::{PushBook, PushConfig};
use agentplane::registry::{ManifestRegistry, ManifestRow, PublishVerdict, RegistryError};
use agentplane::row::{Digest, Row};
use agentplane::table::Newest;
use agentplane::tasks::{ClaimError, OnExpiry, Priority, Task, TaskBook, TaskState};
use agentplane::timers::{Timer, TimerBook};

fn backend<T: std::fmt::Debug>(r: Result<T, StoreError>) -> String {
    match r {
        Err(StoreError::Backend(m)) => m,
        other => panic!("{other:?}"),
    }
}

fn damage<T: std::fmt::Debug>(r: Result<T, StoreError>) -> String {
    match r {
        Err(StoreError::Corrupt { seq: 0, detail }) => detail,
        other => panic!("{other:?}"),
    }
}

fn record(kind: RecordKind) -> Append {
    Append {
        run: "r".to_owned(),
        kind,
        effect_key: None,
        case: None,
        body: vec![1],
        hash: Digest { bytes: [1; 32] },
        key_id: None,
        signature: None,
    }
}

fn t(s: &str) -> String {
    s.to_owned()
}

fn obligation(at: i64, digest: Vec<u8>, warn_at: Option<i64>, state: &str) -> DeadlineRow {
    DeadlineRow {
        resolved_at: at,
        calendar_digest: digest,
        warn_at,
        state: state.to_owned(),
        fault: None,
        resolved_fault: None,
        warn_fault: None,
    }
}

#[test]
fn counters_at_their_last_value_are_refused() {
    let mut j = Journal::new();
    let row = Row {
        body: vec![],
        prev_hash: Digest { bytes: [0; 32] },
        hash: Digest { bytes: [2; 32] },
        key_id: None,
        signature: None,
    };
    j.journal.insert((t("t"), (t("r"), u64::MAX)), row.encode());
    assert_eq!(backend(j.append("t", 1, 1, &vec![record(RecordKind::Other)])), "journal sequence overflow");

    let mut j = Journal::new();
    j.next_conclusion.insert(t("t"), u64::MAX);
    assert_eq!(
        backend(j.append("t", 1, 1, &vec![record(RecordKind::Other)])),
        "conclusion ordinal overflow"
    );
    j.next_log_index.insert(t("t"), u64::MAX);
    assert_eq!(backend(j.seal("t", "r", 1, "failed", 2)), "log position overflow");
    j.leases.insert(
        (t("t"), t("r")),
        LeaseRow { owner: t("a"), epoch: u64::MAX, expires_at: 0, fault: None },
    );
    assert_eq!(backend(j.acquire("t", "r", "b", 5, Ttl { secs: 1, nanos: 0 })), "lease epoch overflow");

    let mut b = CaseBook::new();
    b.cases.insert(
        (t("t"), t("c")),
        CaseRow { kind: t("k"), status: t("open"), state: t("null"), version: u64::MAX, opened_at: 1, opened_fault: None },
    );
    assert_eq!(backend(b.put_state("t", "c", u64::MAX, "{}")), "case version overflow");
    b.runs.insert((t("t"), (t("c"), u64::MAX)), StoredId { text: t("r0"), fault: None });
    assert_eq!(backend(b.attach_run("t", "c", "r1")), "case run sequence overflow");

    let mut a = AuthorityBook::new();
    a.issue("t", "x", "{}").expect("issue");
    a.balance.insert(
        (t("t"), t("x")),
        BalanceRow {
            drawn: Spend { tokens: 0, minor_units: 0 },
            draws: u32::MAX,
            revoked: false,
            revoked_at: 0,
            revoked_fault: false,
            reason: String::new(),
        },
    );
    let one = Spend { tokens: 1, minor_units: 0 };
    assert!(matches!(
        a.draw("t", "x", "k", one, Verdict::Left(one)),
        Err(AuthorityError::Unavailable(m)) if m == "draw count overflow"
    ));

    let mut b = BatchBook::new();
    for key in ["a", "b"] {
        b.reserve("t", "b", key, "r").expect("reserve");
        b.record("t", "b", key, &ItemOutcome::Succeeded, Spend { tokens: u64::MAX, minor_units: 0 })
            .expect("record");
    }
    assert_eq!(backend(b.census("t", "b")), "batch spend overflow");

    let mut m = MemoryBook::new();
    let item = MemoryItem {
        id: t("m"),
        version: 0,
        subject: t("s"),
        purpose: t("p"),
        content: t("c"),
        digest: t("d"),
        trust: Trust::Trusted,
        created_at: Instant::at_second(1),
        expires_at: None,
        superseded_at: None,
        access_retention_seconds: Some(u64::MAX),
        derived_from: Vec::new(),
    };
    m.remember("t", item.twin()).expect("first");
    assert_eq!(m.access.get(&(t("t"), t("m"))), Some(&i64::MAX));
    let mut last = m.items.remove(&(t("t"), (t("m"), 1))).expect("row");
    last.version = u64::MAX;
    m.items.insert((t("t"), (t("m"), u64::MAX)), last);
    let mut current = m.current.remove(&(t("t"), t("m"))).expect("row");
    current.version = u64::MAX;
    m.current.insert((t("t"), t("m")), current);
    m.by_subject.insert((t("t"), (t("s"), (t("p"), (Newest(1), t("m"))))), (u64::MAX, 0));
    assert!(m.check());
    assert_eq!(backend(m.remember("t", item)), "memory version overflow");
}

#[test]
fn an_id_that_is_not_one_is_damage_wherever_it_is_met() {
    let fault = || Some(t("not an id"));
    let mut adm = AdmissionBook::new();
    adm.rows.insert(
        (t("t"), t("k")),
        AdmissionRow { run: StoredId { text: t("?"), fault: fault() }, admitted_at: 1 },
    );
    assert_eq!(
        damage(adm.admitted_as("t", "k")),
        "run_admission holds an unparseable run id '?': not an id"
    );

    let mut b = BatchBook::new();
    b.items.insert(
        (t("t"), (t("b"), t("k"))),
        ItemRow {
            run: StoredId { text: t("?"), fault: fault() },
            outcome: String::new(),
            has_outcome: 0,
            detail: String::new(),
            spend: Spend { tokens: 0, minor_units: 0 },
        },
    );
    assert_eq!(damage(b.items("t", "b", 9)), "bad run id '?': not an id");

    let mut c = CaseBook::new();
    let key = CorrelationKey::new(t("n"), t("v"));
    c.corr_open.insert((t("t"), (t("n"), t("v"))), StoredId { text: t("?"), fault: fault() });
    assert_eq!(damage(c.correlate("t", &vec![key.twin()])), "bad case id '?': not an id");
    c.cases.insert(
        (t("t"), t("c")),
        CaseRow { kind: t("k"), status: t("opened"), state: t("null"), version: 0, opened_at: 1, opened_fault: None },
    );
    assert_eq!(damage(c.case("t", "c")), "unknown case status 'opened'");
    c.by_status.insert((t("t"), (t("open"), (Newest(1), t("?")))), Fault { said: fault() });
    assert_eq!(damage(c.by_status("t", CaseStatus::Open, 9)), "bad case id '?': not an id");
    c.deadlines.insert(
        (t("t"), (t("c"), t("d"))),
        obligation(1, vec![1], None, "pending"),
    );
    assert_eq!(damage(c.deadlines("t", "c")), "stored calendar digest is not 32 bytes");
    c.deadlines.insert(
        (t("t"), (t("c"), t("d"))),
        obligation(1, vec![1; 32], None, "late"),
    );
    assert_eq!(damage(c.deadlines("t", "c")), "unknown deadline state 'late'");
    assert!(matches!(DeadlineState::Pending.as_str(), "pending"));

    let mut e = EventBook::new();
    let sub = Subscription {
        run: t("r"),
        case: None,
        effect: t("e"),
        step: 1,
        phase: Phase::Forward,
        kind: t("k"),
        correlation: vec![key.twin()],
    };
    e.subscribe("t", &sub, 5);
    let k = (t("t"), ((t("r"), t("e")), (t("n"), t("v"))));
    let mut row = e.subs.remove(&k).expect("row");
    row.run_fault = fault();
    e.subs.insert(k, row);
    assert_eq!(damage(e.waiting("t", 9)), "bad run id 'r': not an id");
    let event = InboundEvent {
        source: t("s"),
        id: t("1"),
        kind: t("k"),
        correlation: vec![key],
        payload: t("1"),
    };
    e.buffer("t", &event, 6);
    assert_eq!(damage(e.match_waiter("t", &event, 7)), "bad run id 'r': not an id");

    let mut timers = TimerBook::new();
    timers.arm("t", &Timer { run: t("r"), case: None, effect: t("e"), step: 1, phase: Phase::Forward, fire_at: 5 });
    let k = (t("t"), (t("r"), t("e")));
    let mut row = timers.timers.remove(&k).expect("row");
    row.effect_fault = fault();
    timers.timers.insert(k, row);
    assert!(damage(timers.pending("t", 9)).ends_with(": not an id"));

    let mut push = PushBook::new();
    push.put("t", &PushConfig { id: t("p"), task: t("k"), url: t("u"), token: None, authentication: None }, 1);
    let k = (t("t"), (t("k"), t("p")));
    let mut row = push.rows.remove(&k).expect("row");
    row.fault = fault();
    push.rows.insert(k, row);
    assert!(push.due("t", 9, 9).is_err());
}

#[test]
fn a_task_that_cannot_be_read_is_not_claimed() {
    let mut b = TaskBook::new();
    let task = Task {
        id: t("k"),
        run: t("r"),
        case: None,
        kind: t("approve"),
        justification: t("{ not json"),
        candidate_roles: Vec::new(),
        excluded_actors: Vec::new(),
        assignee: None,
        priority: Priority::Urgent,
        state: TaskState::Open,
        on_expiry: OnExpiry::Deny,
        created_at: 1,
        due_at: None,
    };
    assert!(b.open("t", &task).is_err());
    assert!(matches!(b.claim("t", "k", "ann", &Vec::new()), Err(ClaimError::Store(_))));
}

#[test]
fn a_registry_row_without_a_digest_is_refused() {
    let mut r = ManifestRegistry::new();
    r.manifests.insert(
        (t("t"), (t("bot"), t("1"))),
        ManifestRow { digest: t("zz"), yaml: t("y"), key_id: String::new(), signature: String::new() },
    );
    match r.stored("t", "bot", "1") {
        Err(RegistryError::Backend(m)) => {
            assert_eq!(m, "registry row 'bot' '1' holds 'zz', which is not a digest");
        }
        other => panic!("{other:?}"),
    }
    assert!(r.publish_row("t", "bot", "1", Digest { bytes: [1; 32] }, "y", &None, Ok(PublishVerdict::Unchanged)).is_err());
    let mut r = ManifestRegistry::new();
    r.publish_row("t", "bot", "1", Digest { bytes: [1; 32] }, "y", &None, Ok(PublishVerdict::Insert)).expect("publish");
    let again = r.publish_row("t", "bot", "1", Digest { bytes: [1; 32] }, "y", &None, Ok(PublishVerdict::Unchanged)).expect("again");
    assert_eq!(again.bytes, [1; 32]);
    assert!(r.row("t", "bot", "1").expect("row").1.is_none());
    for verdict in [PublishVerdict::Unchanged, PublishVerdict::AdoptAttestation] {
        match r.publish_row("t", "bot", "1", Digest { bytes: [2; 32] }, "y", &None, Ok(verdict)) {
            Err(RegistryError::Backend(m)) => assert_eq!(m, "the published manifest holds other content"),
            other => panic!("{other:?}"),
        }
    }
}

#[test]
fn an_instant_that_is_none_is_damage_wherever_it_is_met() {
    let fault = || Some(t("out of range"));
    let mut c = CaseBook::new();
    c.correlate_or_open("t", "k", &vec![CorrelationKey::new(t("n"), t("v"))], 5, t("c")).expect("open");
    let mut row = c.cases.remove(&(t("t"), t("c"))).expect("row");
    row.opened_fault = fault();
    c.cases.insert((t("t"), t("c")), row);
    assert_eq!(damage(c.case("t", "c")), "unrepresentable timestamp 5: out of range");
    assert_eq!(c.census("t", 95).oldest_age_secs, Some(90));
    c.open.insert((t("t"), (5, t("c"))), Fault { said: fault() });
    assert_eq!(c.census("t", 95).oldest_age_secs, Some(0), "it counts as opened now");
    c.set_status("t", "c", CaseStatus::Closed).expect("closed");
    c.set_status("t", "c", CaseStatus::Open).expect("open again");
    assert_eq!(c.census("t", 95).oldest_age_secs, Some(0), "the fault goes with the instant");

    let name = || (t("t"), (t("c"), t("d")));
    let mut row = obligation(-9, vec![1; 32], Some(7), "late");
    row.warn_fault = fault();
    c.deadlines.insert(name(), row);
    assert_eq!(damage(c.deadlines("t", "c")), "unrepresentable timestamp 7: out of range");
    let mut row = obligation(-9, vec![1; 32], Some(7), "late");
    row.warn_fault = fault();
    row.resolved_fault = fault();
    c.deadlines.insert(name(), row);
    assert_eq!(damage(c.deadlines("t", "c")), "unrepresentable timestamp -9: out of range");
    let mut row = obligation(-9, vec![1; 32], None, "pending");
    row.warn_fault = fault();
    c.deadlines.insert(name(), row);
    assert_eq!(c.deadlines("t", "c").expect("no warning is read").len(), 1);

    let mut e = EventBook::new();
    let event = InboundEvent {
        source: t("s"),
        id: t("1"),
        kind: t("k"),
        correlation: vec![CorrelationKey::new(t("n"), t("v"))],
        payload: t("1"),
    };
    let sub = Subscription {
        run: t("r"),
        case: None,
        effect: t("e"),
        step: 1,
        phase: Phase::Forward,
        kind: t("k"),
        correlation: vec![CorrelationKey::new(t("n"), t("v"))],
    };
    e.buffer("t", &event, 6);
    let k = (t("t"), (t("s"), t("1")));
    let mut row = e.events.remove(&k).expect("row");
    row.received_fault = fault();
    e.events.insert(k, row);
    assert_eq!(damage(e.claim_for("t", &sub, 9)), "unrepresentable timestamp 6: out of range");
    let mut e = EventBook::new();
    e.buffer("t", &event, 6);
    let k = (t("t"), (t("s"), t("1")));
    let mut row = e.events.remove(&k).expect("row");
    row.received_fault = fault();
    e.events.insert(k, row);
    assert_eq!(e.sweep_unclaimed("t", 6, "old"), 1);
    assert_eq!(damage(e.dead_letters("t", 9)), "unrepresentable timestamp 6: out of range");

    let mut timers = TimerBook::new();
    timers.arm("t", &Timer { run: t("r"), case: None, effect: t("e"), step: 1, phase: Phase::Forward, fire_at: 5 });
    let k = (t("t"), (t("r"), t("e")));
    let mut row = timers.timers.remove(&k).expect("row");
    row.fire_fault = fault();
    timers.timers.insert(k, row);
    assert_eq!(damage(timers.pending("t", 9)), "unrepresentable fire_at: out of range");

    let mut tasks = TaskBook::new();
    let task = Task {
        id: t("k"),
        run: t("r"),
        case: None,
        kind: t("approve"),
        justification: t("1"),
        candidate_roles: Vec::new(),
        excluded_actors: Vec::new(),
        assignee: None,
        priority: Priority::Urgent,
        state: TaskState::Open,
        on_expiry: OnExpiry::Deny,
        created_at: 1,
        due_at: Some(2),
    };
    tasks.open("t", &task).expect("open");
    let k = || (t("t"), t("k"));
    let mut row = tasks.tasks.remove(&k()).expect("row");
    row.due_fault = fault();
    tasks.tasks.insert(k(), row);
    assert_eq!(damage(tasks.task("t", "k")), "unrepresentable due_at: out of range");
    let mut row = tasks.tasks.remove(&k()).expect("row");
    row.created_fault = fault();
    tasks.tasks.insert(k(), row);
    assert_eq!(damage(tasks.task("t", "k")), "unrepresentable created_at: out of range");

    let mut a = AuthorityBook::new();
    a.issue("t", "x", "{}").expect("issue");
    a.revoke("t", "x", "lost", 8).expect("revoke");
    let mut row = a.balance("t", "x");
    row.revoked_fault = true;
    a.balance.insert((t("t"), t("x")), row);
    assert_eq!(a.state("t", "x", &None).expect("read").expect("there").revoked, Some((0, t("lost"))));
}

#[test]
fn tables_that_disagree_are_told_apart() {
    let mut c = CaseBook::new();
    c.correlate_or_open("t", "k", &vec![CorrelationKey::new(t("n"), t("v"))], 5, t("c")).expect("open");
    c.attach_run("t", "c", "r").expect("attached");
    c.deadlines.insert((t("t"), (t("c"), t("d"))), obligation(9, vec![1; 32], None, "met"));
    assert!(c.check());
    c.deadlines.insert((t("t"), (t("c"), t("d"))), obligation(9, vec![1; 32], None, "pending"));
    assert!(!c.check(), "an outstanding obligation that nothing is driven by");
    c.due.insert((t("t"), (9, (t("c"), t("d")))), 9);
    assert!(c.check());
    c.open.remove(&(t("t"), (5, t("c"))));
    assert!(!c.check());

    let mut e = EventBook::new();
    let event = InboundEvent {
        source: t("s"),
        id: t("1"),
        kind: t("k"),
        correlation: vec![CorrelationKey::new(t("n"), t("v"))],
        payload: t("1"),
    };
    e.buffer("t", &event, 6);
    assert!(e.check());
    e.live.remove(&(t("t"), (6, (t("s"), t("1")))));
    assert!(!e.check());

    let mut j = Journal::new();
    j.append("t", 1, 1, &vec![record(RecordKind::RunConcluded { outcome: t("ok") })]).expect("append");
    j.seal("t", "r", 1, "ok", 2).expect("seal");
    assert!(j.check());
    j.seal_log.insert((t("t"), 0), t("q"));
    assert!(!j.check());
    j.seal_log.insert((t("t"), 0), t("r"));
    assert!(j.check());
    j.next_log_index.insert(t("t"), 9);
    j.seal_log.insert((t("t"), 5), t("r"));
    assert!(!j.check(), "a run stands in the log once");
}
