use agentplane::admissions::AdmissionBook;
use agentplane::authority::{AuthorityBook, AuthorityError, Receipt, Verdict};
use agentplane::batches::{BatchBook, ItemOutcome, Spend};
use agentplane::cases::{CaseBook, Correlation, Deadline, DeadlineRow};
use agentplane::domain::{CaseStatus, CorrelationKey, DeadlineState, Fault, Phase, StoredId};
use agentplane::error::StoreError;
use agentplane::events::{EventBook, InboundEvent, Subscription, TargetedDelivery};
use agentplane::journal::{Append, Head, Journal, RecordKind, Ttl};
use agentplane::postgres_authority::{draw_shared, issue_shared, state_shared};
use agentplane::postgres_batches::{
    cursor_shared, items_shared, mark_exhausted_shared, open_shared, record_shared, reserve_shared,
};
use agentplane::postgres_cases::{
    by_status_shared, case_shared, close_shared, correlate_or_open_shared, correlate_shared,
    deadlines_shared, due_shared, link_blob_shared, set_deadline_state_shared, set_status_shared,
};
use agentplane::postgres_events::{
    claim_for_shared, dead_letters_shared, deliver_shared, match_shared, read_letter_shared,
    take_shared, unsubscribe_shared, waiting_shared,
};
use agentplane::postgres_journal::{
    acquire_shared, append_atomic_shared, append_shared, fence_shared, recent_runs_shared,
    renew_shared, runs_by_outcome_shared, seal_shared,
};
use agentplane::row::Digest;

fn t(s: &str) -> String {
    s.to_owned()
}

fn key(value: &str) -> CorrelationKey {
    CorrelationKey::new(t("order"), t(value))
}

fn backend<T: std::fmt::Debug>(r: Result<T, StoreError>) -> String {
    match r {
        Err(StoreError::Backend(m)) => m,
        other => panic!("{other:?}"),
    }
}

fn damage<T: std::fmt::Debug>(r: Result<T, StoreError>) -> String {
    match r {
        Err(StoreError::Corrupt { seq: 0, detail }) => detail,
        other => panic!("{other:?}"),
    }
}

// Cases.

fn opened(b: &mut CaseBook, id: &str, value: &str) {
    match correlate_or_open_shared(b, "t", "claim", &vec![key(value)], 100, t(id)) {
        Ok(Correlation::Opened(got)) => assert_eq!(got, id),
        other => panic!("{other:?}"),
    }
}

fn deadline(case: &str, name: &str, at: i64, warn: Option<i64>) -> Deadline {
    Deadline {
        case: t(case),
        name: t(name),
        resolved_at: at,
        calendar_digest: Digest { bytes: [4; 32] },
        warn_at: warn,
        state: DeadlineState::Pending,
    }
}

#[test]
fn a_shared_case_is_found_by_its_keys() {
    let mut b = CaseBook::new();
    opened(&mut b, "c1", "7");
    assert_eq!(correlate_shared(&b, "t", &vec![key("8"), key("7")]).expect("lookup").as_deref(), Some("c1"));
    match correlate_or_open_shared(&mut b, "t", "claim", &vec![key("7")], 101, t("c2")) {
        Ok(Correlation::Attached(id)) => assert_eq!(id, "c1"),
        other => panic!("{other:?}"),
    }
    assert_eq!(
        backend(correlate_or_open_shared(&mut b, "t", "claim", &vec![key("9"), key("9")], 101, t("c3"))),
        "could not open or attach a case: the correlation key is being opened and closed concurrently"
    );
    b.corr_open.insert((t("t"), (t("order"), t("5"))), StoredId { text: t("zz"), fault: Some(t("odd")) });
    assert_eq!(damage(correlate_shared(&b, "t", &vec![key("5")])), "bad case id: odd");
}

#[test]
fn a_shared_case_that_is_not_there_closes() {
    let mut b = CaseBook::new();
    close_shared(&mut b, "t", "nobody").expect("closed");
    set_status_shared(&mut b, "t", "nobody", CaseStatus::Closed).expect("closed");
    assert!(matches!(
        set_status_shared(&mut b, "t", "nobody", CaseStatus::Escalated),
        Err(StoreError::NotFound(id)) if id == "nobody"
    ));
    opened(&mut b, "c1", "7");
    b.register_deadline("t", &deadline("c1", "answer", 50, None));
    assert_eq!(backend(close_shared(&mut b, "t", "c1")), "case c1 has 1 unmet obligation(s) and cannot be closed");
    set_deadline_state_shared(&mut b, "t", "c1", "nothing", DeadlineState::Met);
    set_deadline_state_shared(&mut b, "t", "c1", "answer", DeadlineState::Met);
    close_shared(&mut b, "t", "c1").expect("closed");
    close_shared(&mut b, "t", "c1").expect("closed again");
    let c = case_shared(&b, "t", "c1").expect("read").expect("there");
    assert_eq!(c.status, CaseStatus::Closed);
    assert!(by_status_shared(&b, "t", CaseStatus::Open, 9).expect("list").is_empty());
    assert_eq!(by_status_shared(&b, "t", CaseStatus::Closed, 9).expect("list").len(), 1);
    assert!(b.check());
}

#[test]
fn shared_deadlines_come_by_instant() {
    let mut b = CaseBook::new();
    opened(&mut b, "c1", "7");
    b.register_deadline("t", &deadline("c1", "late", 90, Some(40)));
    b.register_deadline("t", &deadline("c1", "soon", 50, None));
    let names = |v: Vec<Deadline>| -> Vec<String> { v.into_iter().map(|d| d.name).collect() };
    assert_eq!(names(deadlines_shared(&b, "t", "c1").expect("list")), ["soon", "late"]);
    assert_eq!(names(due_shared(&b, "t", 45, 9).expect("list")), ["late"]);
    assert_eq!(names(due_shared(&b, "t", 50, 9).expect("list")), ["soon", "late"]);
    assert_eq!(names(due_shared(&b, "t", 50, 1).expect("list")), ["soon"]);
    b.deadlines.insert(
        (t("t"), (t("c1"), t("odd"))),
        DeadlineRow {
            resolved_at: 10,
            calendar_digest: vec![4; 32],
            warn_at: None,
            state: t("pending"),
            fault: Some(t("no id")),
            resolved_fault: None,
            warn_fault: None,
        },
    );
    assert_eq!(damage(deadlines_shared(&b, "t", "c1")), "bad case id: no id");
}

#[test]
fn an_unreadable_shared_case_is_refused() {
    let mut b = CaseBook::new();
    opened(&mut b, "c1", "7");
    let mut row = b.cases.remove(&(t("t"), t("c1"))).expect("row");
    row.state = t("{ not json");
    b.cases.insert((t("t"), t("c1")), row);
    assert!(matches!(case_shared(&b, "t", "c1"), Err(StoreError::Backend(_))));
    let content = Digest { bytes: [9; 32] };
    link_blob_shared(&mut b, "t", "c1", &content, 20);
    link_blob_shared(&mut b, "t", "c1", &content, 30);
    assert!(b.blobs.contains(&(t("t"), (t("c1"), (20, vec![9; 32])))));
    assert!(!b.blobs.contains(&(t("t"), (t("c1"), (30, vec![9; 32])))), "it is linked once");
}

// Events.

fn event(id: &str, values: &[&str]) -> InboundEvent {
    InboundEvent {
        source: t("mail"),
        id: t(id),
        kind: t("reply"),
        correlation: values.iter().map(|v| key(v)).collect(),
        payload: format!("{{\"id\":\"{id}\"}}"),
    }
}

fn wait(run: &str, values: &[&str]) -> Subscription {
    Subscription {
        run: t(run),
        case: None,
        effect: format!("e-{run}"),
        step: 3,
        phase: Phase::Forward,
        kind: t("reply"),
        correlation: values.iter().map(|v| key(v)).collect(),
    }
}

fn shown(keys: &[CorrelationKey]) -> Vec<String> {
    keys.iter().map(|k| k.shown()).collect()
}

#[test]
fn a_shared_match_goes_by_the_keys_of_the_event() {
    let mut b = EventBook::new();
    b.subscribe("t", &wait("old", &["1"]), 1);
    b.subscribe("t", &wait("new", &["2", "3"]), 5);
    let e = event("m", &["2", "1"]);
    assert!(match_shared(&mut b, "t", &e, 9).expect("match").is_none(), "it is not here");
    b.buffer("t", &e, 8);
    let got = match_shared(&mut b, "t", &e, 9).expect("match").expect("waiting");
    assert_eq!(got.run, "new", "the first key that has a waiter decides");
    assert_eq!(shown(&got.correlation), ["order:2", "order:1"], "with the keys of the event");
    assert!(match_shared(&mut b, "t", &e, 9).expect("match").is_none());
    let left: Vec<String> = waiting_shared(&b, "t", 9).expect("list").into_iter().map(|s| s.run).collect();
    assert_eq!(left, ["old"]);
    assert!(b.check());
    let mut b = EventBook::new();
    b.subscribe("t", &wait("old", &["1"]), 1);
    b.subscribe("t", &wait("new", &["2", "3"]), 5);
    b.buffer("t", &e, 8);
    let got = b.match_waiter("t", &e, 9).expect("match").expect("waiting");
    assert_eq!((got.run.as_str(), shown(&got.correlation)), ("old", vec![t("order:1")]));
}

#[test]
fn a_shared_match_stands_though_the_wait_does_not_read() {
    let mut b = EventBook::new();
    b.subscribe("t", &wait("r", &["1"]), 1);
    let k = || (t("t"), ((t("r"), t("e-r")), (t("order"), t("1"))));
    let mut row = b.subs.remove(&k()).expect("row");
    row.run_fault = Some(t("odd"));
    b.subs.insert(k(), row);
    assert_eq!(damage(waiting_shared(&b, "t", 9)), "bad run id: odd");
    let e = event("m", &["1"]);
    b.buffer("t", &e, 8);
    assert_eq!(damage(match_shared(&mut b, "t", &e, 9)), "bad run id: odd");
    assert!(waiting_shared(&b, "t", 9).expect("list").is_empty());
    assert!(b.events.get(&(t("t"), (t("mail"), t("m")))).expect("row").has_claim);
}

#[test]
fn a_shared_wait_ends_and_the_payload_stays() {
    let mut b = EventBook::new();
    let w = wait("r", &["1"]);
    b.subscribe("t", &w, 1);
    b.buffer("t", &event("m", &["1"]), 8);
    claim_for_shared(&mut b, "t", &w, 9).expect("claim").expect("found");
    unsubscribe_shared(&mut b, "t", "r", "e-r");
    assert!(waiting_shared(&b, "t", 9).expect("list").is_empty());
    let again = claim_for_shared(&mut b, "t", &w, 9).expect("claim").expect("its own");
    assert_eq!((again.event.payload.as_str(), again.received_at), ("{\"id\":\"m\"}", 8));
    assert_eq!(shown(&again.event.correlation), ["order:1"]);
    b.unsubscribe("t", "r", "e-r");
    let shed = claim_for_shared(&mut b, "t", &w, 9).expect("claim").expect("its own");
    assert_eq!(shed.event.payload, "null");
    assert!(b.check());
}

#[test]
fn a_shared_claim_stands_though_the_event_does_not_read() {
    let mut b = EventBook::new();
    let mut e = event("m", &["1"]);
    e.payload = t("{ not json");
    b.buffer("t", &e, 8);
    backend(claim_for_shared(&mut b, "t", &wait("r", &["1"]), 9));
    assert!(b.events.get(&(t("t"), (t("mail"), t("m")))).expect("row").has_claim);
    assert!(claim_for_shared(&mut b, "t", &wait("s", &["1"]), 9).expect("claim").is_none());
    let mut b = EventBook::new();
    b.buffer("t", &event("m", &["1"]), 8);
    let mut row = b.events.remove(&(t("t"), (t("mail"), t("m")))).expect("row");
    row.received_fault = Some(t("too far"));
    b.events.insert((t("t"), (t("mail"), t("m"))), row);
    let ev = || (t("mail"), t("m"));
    assert_eq!(
        damage(take_shared(&mut b, "t", ev(), "r", 9, Ok(t("1")))),
        "unrepresentable received_at: too far"
    );
    assert_eq!(backend(take_shared(&mut b, "t", ev(), "r", 9, Err(t("bad")))), "bad");
}

#[test]
fn shared_letters_come_without_keys() {
    let mut b = EventBook::new();
    b.buffer("t", &event("1", &["1"]), 8);
    b.buffer("t", &event("2", &["1"]), 9);
    assert_eq!(b.sweep_unclaimed("t", 20, ""), 2);
    let all = dead_letters_shared(&b, "t", 9).expect("list");
    let ids: Vec<&str> = all.iter().map(|d| d.event.id.as_str()).collect();
    assert_eq!(ids, ["2", "1"]);
    assert!(all[0].event.correlation.is_empty());
    assert_eq!((all[0].reason.as_str(), all[0].received_at), ("", 9));
    assert_eq!(all[0].event.payload, "{\"id\":\"2\"}");
    assert_eq!(dead_letters_shared(&b, "t", 1).expect("list").len(), 1);
    let row = b.events.get(&(t("t"), (t("mail"), t("1")))).expect("row");
    assert_eq!(backend(read_letter_shared("mail", "1", row, Err(t("bad")))), "bad");
}

#[test]
fn a_shared_delivery_to_one_run() {
    let mut b = EventBook::new();
    b.subscribe("t", &wait("r", &["1", "2"]), 5);
    match deliver_shared(&mut b, "t", "r", &event("m", &["2"]), 9) {
        Ok(TargetedDelivery::Matched(s)) => {
            assert_eq!((s.effect.as_str(), s.step), ("e-r", 3));
            assert_eq!(shown(&s.correlation), ["order:1", "order:2"]);
        }
        other => panic!("{other:?}"),
    }
    assert!(b.check());
    assert!(matches!(deliver_shared(&mut b, "t", "r", &event("m", &["2"]), 9), Ok(TargetedDelivery::Matched(_))));
    b.buffer("t", &event("n", &["2"]), 9);
    assert!(matches!(deliver_shared(&mut b, "t", "r", &event("n", &["2"]), 9), Ok(TargetedDelivery::Duplicate)));
    assert!(
        matches!(deliver_shared(&mut b, "t", "s", &event("n", &["2"]), 9), Ok(TargetedDelivery::NotWaiting)),
        "also of an event that is here"
    );
}

// Batches.

#[test]
fn a_shared_batch_keeps_its_first_plan() {
    let mut b = BatchBook::new();
    open_shared(&mut b, "t", "b", "p1");
    open_shared(&mut b, "t", "b", "p2");
    assert_eq!(b.plan_digest("t", "b").as_deref(), Some("p1"));
    mark_exhausted_shared(&mut b, "t", "other");
    assert!(b.plan_digest("t", "other").is_none());
    mark_exhausted_shared(&mut b, "t", "b");
    assert!(b.is_exhausted("t", "b"));
    assert!(b.open("t", "b", "p2").is_err());
    assert!(b.mark_exhausted("t", "other").is_err());
}

#[test]
fn shared_items_read_what_is_written() {
    let mut b = BatchBook::new();
    let much = Spend { tokens: u64::MAX, minor_units: 3 };
    assert!(matches!(
        record_shared(&mut b, "t", "b", "1", &ItemOutcome::Succeeded, much),
        Err(StoreError::NotFound(what)) if what == "b/1"
    ));
    for (item, outcome) in [
        ("1", ItemOutcome::Succeeded),
        ("2", ItemOutcome::Failed(t("f"))),
        ("3", ItemOutcome::Quarantined(t("q"))),
        ("4", ItemOutcome::Suspended(t("s"))),
    ] {
        assert_eq!(reserve_shared(&mut b, "t", "b", item, "r1").expect("reserve").run, "r1");
        assert!(reserve_shared(&mut b, "t", "b", item, "r2").expect("reserve").run == "r1");
        record_shared(&mut b, "t", "b", item, &outcome, much).expect("record");
        let all = items_shared(&b, "t", "b", 9).expect("list");
        let last = all.last().expect("item");
        assert_eq!(last.outcome, Some(outcome));
        assert_eq!(last.spend, Spend { tokens: i64::MAX as u64, minor_units: 3 });
    }
    assert_eq!(cursor_shared(&b, "t", "b").as_deref(), Some("3"));
    let k = || (t("t"), (t("b"), t("4")));
    let mut row = b.items.remove(&k()).expect("row");
    row.outcome = t("exhausted");
    b.items.insert(k(), row);
    assert_eq!(cursor_shared(&b, "t", "b").as_deref(), Some("4"));
    assert_eq!(items_shared(&b, "t", "b", 9).expect("list")[3].outcome, None);
    let mut row = b.items.remove(&k()).expect("row");
    row.run.fault = Some(t("odd"));
    b.items.insert(k(), row);
    assert_eq!(damage(items_shared(&b, "t", "b", 9)), "bad run id: odd");
    assert_eq!(items_shared(&b, "t", "b", 3).expect("list").len(), 3);
}

// The journal.

fn record(run: &str, kind: RecordKind, hash: u8) -> Append {
    Append {
        run: t(run),
        kind,
        effect_key: None,
        case: None,
        body: vec![hash],
        hash: Digest { bytes: [hash; 32] },
        key_id: None,
        signature: None,
    }
}

#[test]
fn a_shared_refusal_names_the_run_itself() {
    let ttl = Ttl { secs: 10, nanos: 0 };
    let mut j = Journal::new();
    let mut keys = AdmissionBook::new();
    let start = || Head { seq: 0, hash: Digest { bytes: [0; 32] } };
    assert_eq!(acquire_shared(&mut j, "t", "r", "a", 100, ttl).expect("lease").epoch, 1);
    match acquire_shared(&mut j, "t", "r", "b", 103, ttl) {
        Err(StoreError::LeaseHeld { run, owner, epoch, remaining_secs }) => {
            assert_eq!((run.as_str(), owner.as_str(), epoch, remaining_secs), ("r", "a", 1, 7));
        }
        other => panic!("{other:?}"),
    }
    match renew_shared(&mut j, "t", "r", "b", 1, 103, ttl) {
        Err(StoreError::LeaseNotHeld { run, epoch }) => assert_eq!((run.as_str(), epoch), ("r", 1)),
        other => panic!("{other:?}"),
    }
    renew_shared(&mut j, "t", "r", "a", 1, 103, ttl).expect("renewed");
    assert!(matches!(
        fence_shared(&j, "t", "r", 2),
        Err(StoreError::Fenced { run, held: 2, current: 1 }) if run == "r"
    ));
    let two = vec![record("r", RecordKind::Other, 1), record("s", RecordKind::Other, 2)];
    assert!(matches!(
        append_shared(&mut j, &mut keys, "t", 104, 2, &two, &start()),
        Err(StoreError::Fenced { run, .. }) if run == "r"
    ));
    assert!(backend(append_shared(&mut j, &mut keys, "t", 104, 1, &two, &start())).starts_with("batch spans runs r and s"));
    assert!(append_shared(&mut j, &mut keys, "t", 104, 9, &Vec::new(), &start()).expect("nothing").is_empty());
    let one = vec![record("r", RecordKind::RunAdmitted { idempotency_key: Some(t("k")) }, 1)];
    assert_eq!(append_shared(&mut j, &mut keys, "t", 104, 1, &one, &start()).expect("append")[0].seq, 1);
    let on = j.head("t", "r").expect("head");
    assert!(matches!(
        append_shared(&mut j, &mut keys, "t", 104, 1, &one, &on),
        Err(StoreError::DuplicateAdmission { key, run }) if key == "k" && run == "r"
    ));
    assert!(seal_shared(&mut j, "t", "r", 7, "done", 105).is_err());
    assert_eq!(seal_shared(&mut j, "t", "r", 1, "done", 105).expect("sealed").bytes, [1; 32]);
    match append_shared(&mut j, &mut keys, "t", 106, 1, &vec![record("r", RecordKind::Other, 2)], &on) {
        Err(StoreError::RunSealed { run, outcome }) => assert_eq!((run.as_str(), outcome.as_str()), ("r", "done")),
        other => panic!("{other:?}"),
    }
    assert!(j.check() && j.check_chains());
}

#[test]
fn a_member_writes_for_its_own_run() {
    let mut j = Journal::new();
    let mut keys = AdmissionBook::new();
    let start = Head { seq: 0, hash: Digest { bytes: [0; 32] } };
    let other = vec![record("s", RecordKind::Other, 1)];
    assert!(backend(append_atomic_shared(&mut j, &mut keys, "t", "r", 5, 1, &other, &start))
        .starts_with("batch spans runs r and s"));
    assert!(append_atomic_shared(&mut j, &mut keys, "t", "r", 5, 1, &Vec::new(), &start).expect("nothing").is_empty());
    assert_eq!(j.recent_runs("t", &None, 9), [(5, t("r"))], "the run was active");
    let own = vec![record("r", RecordKind::Other, 1)];
    assert_eq!(append_atomic_shared(&mut j, &mut keys, "t", "r", 6, 1, &own, &start).expect("append")[0].seq, 1);
    seal_shared(&mut j, "t", "r", 1, "done", 7).expect("sealed");
    assert!(matches!(
        append_atomic_shared(&mut j, &mut keys, "t", "r", 8, 1, &Vec::new(), &start),
        Err(StoreError::RunSealed { run, outcome }) if run == "r" && outcome == "done"
    ));
    assert!(j.check() && j.check_chains());
}

#[test]
fn shared_listings_refuse_what_is_no_run() {
    let mut j = Journal::new();
    for (i, run) in ["a", "b", "c"].iter().enumerate() {
        let end = record(run, RecordKind::RunConcluded { outcome: t("failed") }, 1);
        j.append("t", 10 + i as u64, 0, &vec![end]).expect("append");
    }
    assert_eq!(runs_by_outcome_shared(&j, "t", "failed", 2).expect("list"), ["c", "b"]);
    let page = recent_runs_shared(&j, "t", &None, 2).expect("list");
    assert_eq!(page, [(12, t("c")), (11, t("b"))]);
    let cursor = Some((11, t("b")));
    assert_eq!(recent_runs_shared(&j, "t", &cursor, 2).expect("list"), [(10, t("a"))]);
    let k = || (t("t"), (11, t("b")));
    j.activity.remove(&k());
    j.activity.insert(k(), Fault { said: Some(t("odd")) });
    assert_eq!(backend(recent_runs_shared(&j, "t", &None, 2)), "odd");
    assert_eq!(recent_runs_shared(&j, "t", &None, 1).expect("list").len(), 1);
    assert_eq!(j.recent_runs("t", &None, 2), [(12, t("c")), (10, t("a"))], "one node passes it over");
    let k = || (t("t"), (t("failed"), 1));
    let mut row = j.by_outcome.remove(&k()).expect("row");
    row.fault = Some(t("odd"));
    j.by_outcome.insert(k(), row);
    assert_eq!(
        damage(runs_by_outcome_shared(&j, "t", "failed", 9)),
        "run_outcome holds an unparsable run id 'b': odd"
    );
}

// Standing authority.

#[test]
fn a_shared_draw_lands_once() {
    let mut b = AuthorityBook::new();
    let spend = |tokens, minor_units| Spend { tokens, minor_units };
    let left = |tokens, minor_units| Verdict::Left(Spend { tokens, minor_units });
    assert!(matches!(
        draw_shared(&mut b, "t", "m", "d1", spend(1, 1), left(9, 9)),
        Err(AuthorityError::Unknown(id)) if id == "m"
    ));
    issue_shared(&mut b, "t", "m", "terms").expect("issue");
    assert!(matches!(issue_shared(&mut b, "t", "m", "other"), Err(AuthorityError::AlreadyIssued(_))));
    match draw_shared(&mut b, "t", "m", "d1", spend(1, 1), Verdict::Unreadable(t("odd"))) {
        Err(AuthorityError::Unavailable(m)) => assert_eq!(m, "stored authority unreadable: odd"),
        other => panic!("{other:?}"),
    }
    let first = draw_shared(&mut b, "t", "m", "d1", spend(3, 1), left(9, u64::MAX)).expect("draw");
    assert_eq!(first, Receipt { amount: spend(3, 1), remaining: spend(6, u64::MAX - 1), draws: 1 });
    let again = draw_shared(&mut b, "t", "m", "d1", spend(5, 5), left(0, 0)).expect("again");
    assert_eq!(again, Receipt { amount: spend(3, 1), remaining: spend(6, i64::MAX as u64), draws: 1 });
    match draw_shared(&mut b, "t", "m", "d2", spend(u64::MAX, 0), left(u64::MAX, 0)) {
        Err(AuthorityError::Unavailable(m)) => assert_eq!(m, "authority balance out of range"),
        other => panic!("{other:?}"),
    }
    let s = state_shared(&b, "t", "m", &None).expect("read").expect("there");
    assert_eq!((s.drawn, s.draws), (spend(3, 1), 1));
    b.revoke("t", "m", "enough", 7).expect("revoke");
    assert!(matches!(
        draw_shared(&mut b, "t", "m", "d3", spend(1, 0), left(6, 0)),
        Err(AuthorityError::Revoked { reason, .. }) if reason == "enough"
    ));
    b.balance.remove(&(t("t"), t("m")));
    assert!(state_shared(&b, "t", "m", &None).expect("read").is_none());
    match draw_shared(&mut b, "t", "m", "d3", spend(1, 0), left(6, 0)) {
        Err(AuthorityError::Unavailable(m)) => assert_eq!(m, "stored authority has no balance"),
        other => panic!("{other:?}"),
    }
    issue_shared(&mut b, "t", "m", "terms").expect("issue again");
    assert_eq!(state_shared(&b, "t", "m", &None).expect("read").expect("there").draws, 0);
    assert!(state_shared(&b, "t", "m", &Some(t("odd"))).is_err());
}
