use agentplane::authority::{AuthorityBook, AuthorityError, Verdict};
use agentplane::batches::Spend;
use agentplane::domain::Phase;
use agentplane::error::StoreError;
use agentplane::push::{PushAuthentication, PushBook, PushConfig};
use agentplane::quota::{amount_of, sql_amount, QuotaBook, QuotaError};
use agentplane::registry::{
    attestation_row, stored_attestation, Attestation, ManifestRegistry, PublishVerdict,
    RegistryError,
};
use agentplane::row::Digest;
use agentplane::tasks::{
    check_eligible, expiry_from, expiry_str, fits, join_list, priority_from, split,
    task_state_from, ClaimError, OnExpiry, Priority, Task, TaskBook, TaskState,
};
use agentplane::timers::{Timer, TimerBook};

fn task(id: &str, due: Option<i64>) -> Task {
    Task {
        id: id.to_owned(),
        run: "run".to_owned(),
        case: Some("c1".to_owned()),
        kind: "approve".to_owned(),
        justification: "{\"why\":1}".to_owned(),
        candidate_roles: vec!["clerk".to_owned()],
        excluded_actors: vec!["ann".to_owned()],
        assignee: None,
        priority: Priority::Normal,
        state: TaskState::Open,
        on_expiry: OnExpiry::Deny,
        created_at: 100,
        due_at: due,
    }
}

fn clerk() -> Vec<String> {
    vec!["clerk".to_owned()]
}

#[test]
fn whoever_is_barred_learns_nothing_else() {
    let mut b = TaskBook::new();
    b.open("t", &task("k1", None)).expect("open");
    assert!(matches!(b.claim("t", "k1", "ann", &clerk()), Err(ClaimError::Excluded { actor }) if actor == "ann"));
    assert!(matches!(b.claim("t", "k1", "bob", &Vec::new()), Err(ClaimError::WrongRole { actor }) if actor == "bob"));
    assert!(matches!(b.claim("t", "k9", "bob", &clerk()), Err(ClaimError::NotFound(_))));
    let held = b.claim("t", "k1", "bob", &clerk()).expect("claim");
    assert_eq!((held.assignee.as_deref(), held.state), (Some("bob"), TaskState::Claimed));
    b.claim("t", "k1", "bob", &clerk()).expect("again, by the holder");
    match b.claim("t", "k1", "cat", &clerk()) {
        Err(ClaimError::AlreadyClaimed { task, holder }) => assert_eq!((task.as_str(), holder.as_str()), ("k1", "bob")),
        other => panic!("{other:?}"),
    }
    match b.take_over("t", "k1", "dan", "cat", &clerk()) {
        Err(ClaimError::NotHeld { task, actor }) => assert_eq!((task.as_str(), actor.as_str()), ("k1", "dan")),
        other => panic!("{other:?}"),
    }
    let held = b.take_over("t", "k1", "bob", "cat", &clerk()).expect("takeover");
    assert_eq!(held.assignee.as_deref(), Some("cat"));
    assert!(b.release("t", "k1", "bob").is_err());
    b.release("t", "k1", "cat").expect("release");
    b.set_state("t", "k1", TaskState::Completed);
    match b.claim("t", "k1", "bob", &clerk()) {
        Err(ClaimError::NotPending { state, .. }) => assert_eq!(state, TaskState::Completed),
        other => panic!("{other:?}"),
    }
}

#[test]
fn work_is_found_by_role_case_and_instant() {
    let mut b = TaskBook::new();
    b.open("t", &task("k1", Some(500))).expect("open");
    b.open("t", &task("k2", None)).expect("open");
    let again = b.open("t", &task("k1", Some(900))).expect("open");
    assert_eq!(again.due_at, Some(500), "the first opening stands");
    let ids = |v: Vec<Task>| -> Vec<String> { v.into_iter().map(|t| t.id).collect() };
    assert_eq!(b.queue("t", &clerk(), 9).expect("queue").len(), 2);
    assert!(b.queue("t", &vec!["other".to_owned()], 9).expect("queue").is_empty());
    assert_eq!(ids(b.for_case("t", "c1").expect("case")), ["k1", "k2"]);
    assert!(b.overdue("t", 499, 9).expect("overdue").is_empty());
    assert_eq!(ids(b.overdue("t", 500, 9).expect("overdue")), ["k1"]);
    assert_eq!(b.open_count("t"), 2);
    b.set_state("t", "k1", TaskState::Expired);
    assert!(b.overdue("t", 500, 9).expect("overdue").is_empty());
    let read = b.task("t", "k2").expect("read").expect("there");
    assert_eq!(read.justification, "{\"why\":1}");
    assert_eq!((read.candidate_roles, read.excluded_actors), (clerk(), vec!["ann".to_owned()]));
}

#[test]
fn lists_and_words_read_back() {
    let parts = vec!["a".to_owned(), "b".to_owned()];
    assert_eq!(join_list(&parts), "a,b");
    assert_eq!(split("a,b"), parts);
    assert!(split("").is_empty());
    for s in [TaskState::Open, TaskState::Claimed, TaskState::Completed, TaskState::Expired, TaskState::Escalated] {
        assert_eq!(task_state_from(s.as_str()).expect("word"), s);
    }
    assert!(task_state_from("done").is_err());
    for p in [Priority::Low, Priority::Normal, Priority::High, Priority::Urgent] {
        assert_eq!(priority_from(p.as_str()), p);
    }
    for e in [OnExpiry::Deny, OnExpiry::Escalate, OnExpiry::Proceed] {
        assert_eq!(expiry_from(expiry_str(e)), e);
    }
    assert!(fits(&clerk(), &vec!["x".to_owned(), "clerk".to_owned()]));
    assert!(!fits(&clerk(), &Vec::new()));
    assert!(check_eligible(&task("k", None), "bob", &clerk()).is_none());
    assert!(TaskState::Open.is_pending() && TaskState::Escalated.is_pending());
    assert!(!TaskState::Expired.is_pending());
}

fn timer(run: &str, at: i64) -> Timer {
    Timer {
        run: run.to_owned(),
        case: None,
        effect: "e".to_owned(),
        step: 4,
        phase: Phase::Compensating,
        fire_at: at,
    }
}

#[test]
fn a_due_timer_is_claimed_for_a_while() {
    let mut b = TimerBook::new();
    b.arm("t", &timer("r2", 200));
    b.arm("t", &timer("r1", 100));
    b.arm("t", &timer("r1", 999));
    assert_eq!(b.pending_count("t"), 2);
    assert!(b.claim_due("t", 99, 9).expect("claim").is_empty());
    let got = b.claim_due("t", 150, 9).expect("claim");
    assert_eq!(got.len(), 1);
    assert_eq!((got[0].run.as_str(), got[0].fire_at, got[0].step, got[0].phase), ("r1", 100, 4, Phase::Compensating));
    assert!(b.claim_due("t", 160, 9).expect("claim").is_empty(), "the claim holds");
    assert_eq!(b.claim_due("t", 150 + 61, 9).expect("claim").len(), 2, "the claim lapsed");
    b.disarm("t", "r1", "e");
    assert_eq!(b.pending("t", 9).expect("listing").len(), 1);
}

#[test]
fn a_tenant_runs_so_many_at_once() {
    let mut q = QuotaBook::new();
    q.reserve("t", "a", Some(1), 5).expect("first");
    q.reserve("t", "a", Some(1), 6).expect("the same run again");
    match q.reserve("t", "b", Some(1), 7) {
        Err(QuotaError::TooManyRuns { tenant, running }) => assert_eq!((tenant.as_str(), running), ("t", 1)),
        other => panic!("{other:?}"),
    }
    q.reserve("t", "b", None, 7).expect("unlimited");
    assert_eq!((q.running("t"), q.running("u")), (2, 0));
    q.release("t", "a");
    q.release("t", "a");
    assert_eq!(q.running("t"), 1);
    q.set_halt("t", Some("fire"));
    assert_eq!(q.halted("t").as_deref(), Some("fire"));
    q.set_halt("t", None);
    assert_eq!(q.halted("t"), None);
    q.accrue("t", "2026-01", Spend { tokens: 3, minor_units: 4 }).expect("spend");
    q.accrue("t", "2026-01", Spend { tokens: 5, minor_units: 6 }).expect("spend");
    assert_eq!(q.spent("t", "2026-01"), Spend { tokens: 8, minor_units: 10 });
    assert_eq!(q.spent("t", "2026-02"), Spend { tokens: 0, minor_units: 0 });
    assert_eq!((sql_amount(u64::MAX), sql_amount(7)), (i64::MAX, 7));
    assert_eq!((amount_of(-5), amount_of(7)), (0, 7));
}

fn left(n: u64) -> Verdict {
    Verdict::Left(Spend { tokens: n, minor_units: 0 })
}

#[test]
fn a_draw_lands_once() {
    let mut b = AuthorityBook::new();
    let ten = Spend { tokens: 10, minor_units: 0 };
    assert!(matches!(b.draw("t", "a", "k", ten, left(90)), Err(AuthorityError::Unknown(_))));
    b.issue("t", "a", "{\"tokens\":100}").expect("issue");
    b.issue("t", "a", "{\"tokens\":100}").expect("the same terms");
    assert!(matches!(b.issue("t", "a", "{}"), Err(AuthorityError::AlreadyIssued(id)) if id == "a"));
    let first = b.draw("t", "a", "k1", ten, left(100)).expect("draw");
    let again = b.draw("t", "a", "k1", ten, left(90)).expect("the same draw");
    assert_eq!((first.remaining.tokens, again.remaining.tokens, again.draws), (90, 90, 1));
    b.draw("t", "a", "k2", ten, left(80)).expect("an equal draw is another");
    let state = b.state("t", "a", &None).expect("read").expect("state");
    assert_eq!((state.drawn.tokens, state.draws), (20, 2));
    match b.draw("t", "a", "k3", ten, Verdict::Refused(AuthorityError::Denied("over the ceiling".to_owned()))) {
        Err(AuthorityError::Denied(why)) => assert_eq!(why, "over the ceiling"),
        other => panic!("{other:?}"),
    }
    b.revoke("t", "a", "lost", 7).expect("revoke");
    match b.draw("t", "a", "k4", ten, left(1)) {
        Err(AuthorityError::Revoked { id, reason }) => assert_eq!((id.as_str(), reason.as_str()), ("a", "lost")),
        other => panic!("{other:?}"),
    }
    match b.draw("t", "a", "k5", ten, Verdict::Unreadable("bad json".to_owned())) {
        Err(AuthorityError::Unavailable(m)) => assert_eq!(m, "stored authority is unreadable: bad json"),
        other => panic!("{other:?}"),
    }
    b.draw("t", "a", "k1", ten, Verdict::Unreadable("bad json".to_owned())).expect("it landed");
    assert!(matches!(
        b.state("t", "a", &Some("bad json".to_owned())),
        Err(StoreError::Backend(m)) if m == "stored authority is unreadable: bad json"
    ));
    assert!(b.state("u", "a", &Some("bad json".to_owned())).expect("read").is_none());
    assert_eq!(b.state("t", "a", &None).expect("read").expect("state").revoked, Some((7, "lost".to_owned())));
    assert_eq!(b.balance("u", "a").draws, 0);
    assert!(b.state("u", "a", &None).expect("read").is_none());
}

#[test]
fn a_delivery_never_moves_back() {
    let mut b = PushBook::new();
    let config = PushConfig {
        id: "p1".to_owned(),
        task: "k1".to_owned(),
        url: "https://x".to_owned(),
        token: Some("SECRET-REDACTED".to_owned()),
        authentication: Some(PushAuthentication { scheme: "Bearer".to_owned(), credentials: "c".to_owned() }),
    };
    b.put("t", &config, 3);
    assert_eq!(b.get("t", "k1", "p1").expect("there").authentication.expect("kept").scheme, "Bearer");
    assert_eq!(b.list("t", "k1").len(), 1);
    b.retry("t", "k1", "p1", 50, "timeout");
    assert!(b.due("t", 49, 9).expect("due").is_empty());
    let due = b.due("t", 50, 9).expect("due");
    assert_eq!((due[0].next_seq, due[0].attempts, due[0].last_error.as_deref()), (3, 1, Some("timeout")));
    let k = || ("t".to_owned(), ("k1".to_owned(), "p1".to_owned()));
    let mut row = b.rows.remove(&k()).expect("row");
    row.parked = true;
    b.rows.insert(k(), row);
    assert!(b.due("t", 50, 9).expect("due").is_empty(), "what is parked is not due");
    b.put("t", &config, 9);
    assert!(b.due("t", 99, 9).expect("due").is_empty());
    let mut row = b.rows.remove(&k()).expect("row");
    assert_eq!(row.next_seq, 3, "and keeps its place");
    row.parked = false;
    b.rows.insert(k(), row);
    b.advance("t", "k1", "p1", 7);
    b.advance("t", "k1", "p1", 5);
    let due = b.due("t", 50, 9).expect("due");
    assert_eq!((due[0].next_seq, due[0].attempts), (7, 0));
    b.put("t", &config, 1);
    assert_eq!(b.due("t", 50, 9).expect("due")[0].next_seq, 7, "registering again keeps the place");
    b.delete("t", "k1", "p1");
    assert!(b.get("t", "k1", "p1").is_none());
}

#[test]
fn what_is_published_stays() {
    let mut r = ManifestRegistry::new();
    let att = Some(Attestation { key_id: "k".to_owned(), signature: vec![0xab, 0x01] });
    r.publish_row("t", "bot", "1.0", Digest { bytes: [0x0f; 32] }, "name: bot", &att, Ok(PublishVerdict::Insert)).expect("publish");
    let signed = Some(Attestation { key_id: "k2".to_owned(), signature: vec![7] });
    let same = r
        .publish_row("t", "bot", "1.0", Digest { bytes: [0x0f; 32] }, "name: bot", &signed, Ok(PublishVerdict::AdoptAttestation))
        .expect("adopt");
    assert_eq!(same.bytes, [0x0f; 32]);
    assert_eq!(r.row("t", "bot", "1.0").expect("row").1.expect("signed").key_id, "k2");
    r.publish_row("t", "bot", "1.0", Digest { bytes: [0x0f; 32] }, "name: bot", &att, Ok(PublishVerdict::AdoptAttestation)).expect("adopt");
    let (yaml, a) = r.row("t", "bot", "1.0").expect("row");
    assert_eq!(yaml, "name: bot");
    assert_eq!(a.expect("signed").signature, vec![0xab, 0x01]);
    let (digest, _) = r.stored("t", "bot", "1.0").expect("read").expect("there");
    assert_eq!(digest, vec![0x0f; 32]);
    match r.publish_row("t", "bot", "1.0", Digest { bytes: [1; 32] }, "other", &None, Err(RegistryError::Refused("changed".to_owned()))) {
        Err(RegistryError::Refused(why)) => assert_eq!(why, "changed"),
        other => panic!("{other:?}"),
    }
    assert!(matches!(r.row("t", "bot", "2.0"), Err(RegistryError::NotFound { .. })));
    assert_eq!(r.versions("t", "bot"), ["1.0"]);
    assert_eq!(r.names("t"), ["bot"]);
    assert!(r.names("u").is_empty());
    assert_eq!(attestation_row(&stored_attestation("k", "ab01")), ("k".to_owned(), "ab01".to_owned()));
    assert!(stored_attestation("k", "xyz").expect("a key").signature.is_empty());
    assert!(stored_attestation("", "").is_none());
}
