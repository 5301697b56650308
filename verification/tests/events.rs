use agentplane::domain::{CorrelationKey, Phase, StoredId};
use agentplane::error::StoreError;
use agentplane::events::{EventBook, InboundEvent, Subscription, TargetedDelivery};
use agentplane::postgres_events::{decide_delivery, WaitRow};

fn key(value: &str) -> CorrelationKey {
    CorrelationKey::new("order".to_owned(), value.to_owned())
}

fn event(id: &str, kind: &str, value: &str) -> InboundEvent {
    InboundEvent {
        source: "mail".to_owned(),
        id: id.to_owned(),
        kind: kind.to_owned(),
        correlation: vec![key(value)],
        payload: format!("{{\"id\":\"{id}\"}}"),
    }
}

fn wait(run: &str, kind: &str, value: &str) -> Subscription {
    Subscription {
        run: run.to_owned(),
        case: None,
        effect: format!("e-{run}"),
        step: 3,
        phase: Phase::Forward,
        kind: kind.to_owned(),
        correlation: vec![key(value)],
    }
}

#[test]
fn an_event_waits_for_its_reader() {
    let mut b = EventBook::new();
    assert!(b.buffer("t", &event("1", "reply", "7"), 10));
    assert!(!b.buffer("t", &event("1", "reply", "7"), 11), "a second copy is the same event");
    assert!(b.claim_for("t", &wait("r", "other", "7"), 20).expect("claim").is_none());
    assert!(b.claim_for("t", &wait("r", "reply", "8"), 20).expect("claim").is_none());
    assert!(b.claim_for("u", &wait("r", "reply", "7"), 20).expect("claim").is_none());
    let got = b.claim_for("t", &wait("r", "reply", "7"), 20).expect("claim").expect("found");
    assert_eq!((got.event.id.as_str(), got.received_at), ("1", 10));
    assert_eq!(got.event.payload, "{\"id\":\"1\"}");
    assert!(b.claim_for("t", &wait("s", "reply", "7"), 21).expect("claim").is_none(), "one consumer");
    let again = b.claim_for("t", &wait("r", "reply", "7"), 22).expect("claim").expect("its own claim");
    assert_eq!(again.event.id, "1");
}

#[test]
fn the_oldest_event_goes_first() {
    let mut b = EventBook::new();
    b.buffer("t", &event("new", "reply", "7"), 20);
    b.buffer("t", &event("old", "reply", "7"), 10);
    let got = b.claim_for("t", &wait("r", "reply", "7"), 30).expect("claim").expect("found");
    assert_eq!(got.event.id, "old");
}

#[test]
fn an_unreadable_payload_is_refused() {
    let mut b = EventBook::new();
    let mut e = event("1", "reply", "7");
    e.payload = "{ not json".to_owned();
    b.buffer("t", &e, 10);
    assert!(matches!(b.claim_for("t", &wait("r", "reply", "7"), 20), Err(StoreError::Backend(_))));
}

#[test]
fn a_waiter_is_woken_once() {
    let mut b = EventBook::new();
    b.subscribe("t", &wait("late", "reply", "7"), 6);
    b.subscribe("t", &wait("early", "reply", "7"), 5);
    b.buffer("t", &event("1", "reply", "7"), 10);
    let got = b.match_waiter("t", &event("1", "reply", "7"), 11).expect("match").expect("waiting");
    assert_eq!((got.run.as_str(), got.step, got.phase), ("early", 3, Phase::Forward));
    assert!(b.match_waiter("t", &event("1", "reply", "7"), 12).expect("match").is_none());
    let left: Vec<String> = b.waiting("t", 9).expect("listing").into_iter().map(|s| s.run).collect();
    assert_eq!(left, ["late"]);
    b.unsubscribe("t", "late", "e-late");
    assert!(b.waiting("t", 9).expect("listing").is_empty());
}

#[test]
fn a_delivery_to_one_run() {
    let mut b = EventBook::new();
    match b.deliver_to("t", "r", &event("1", "reply", "7"), 10) {
        Ok(TargetedDelivery::NotWaiting) => {}
        other => panic!("{other:?}"),
    }
    b.subscribe("t", &wait("r", "reply", "7"), 5);
    match b.deliver_to("t", "r", &event("1", "reply", "7"), 11) {
        Ok(TargetedDelivery::Matched(s)) => assert_eq!(s.run, "r"),
        other => panic!("{other:?}"),
    }
    match b.deliver_to("t", "r", &event("1", "reply", "7"), 12) {
        Ok(TargetedDelivery::Matched(s)) => assert_eq!(s.run, "r", "its own event, again"),
        other => panic!("{other:?}"),
    }
    match b.deliver_to("t", "s", &event("1", "reply", "7"), 13) {
        Ok(TargetedDelivery::Duplicate) => {}
        other => panic!("{other:?}"),
    }
}

#[test]
fn what_nobody_claims_is_retired() {
    let mut b = EventBook::new();
    b.buffer("t", &event("1", "reply", "7"), 10);
    b.buffer("t", &event("2", "reply", "8"), 20);
    assert_eq!(b.sweep_unclaimed("t", 10, "no reader"), 1);
    assert_eq!(b.sweep_unclaimed("t", 10, "no reader"), 0);
    let dead = b.dead_letters("t", 9).expect("listing");
    assert_eq!(dead.len(), 1);
    assert_eq!((dead[0].event.id.as_str(), dead[0].reason.as_str(), dead[0].received_at), ("1", "no reader", 10));
    assert!(b.claim_for("t", &wait("r", "reply", "7"), 30).expect("claim").is_none());
    assert!(!b.buffer("t", &event("1", "reply", "7"), 40), "its identity outlives it");
    assert!(b.erase_payload("t", "mail", "1"));
    assert!(!b.erase_payload("t", "mail", "9"));
    let dead = b.dead_letters("t", 9).expect("listing");
    assert_eq!(dead[0].event.payload, "null");
}

#[test]
fn a_shared_delivery_is_decided_from_what_was_read() {
    let row = |effect: &str, value: &str| WaitRow {
        effect: StoredId { text: effect.to_owned(), fault: None },
        case: None,
        step: 2,
        phase: "forward".to_owned(),
        key: key(value),
    };
    let keys = vec![key("7")];
    match decide_delivery(&vec![row("e1", "7")], None, "r", "reply", &keys) {
        Ok(TargetedDelivery::Matched(s)) => assert_eq!((s.run.as_str(), s.effect.as_str(), s.step), ("r", "e1", 2)),
        other => panic!("{other:?}"),
    }
    match decide_delivery(&Vec::new(), None, "r", "reply", &keys) {
        Ok(TargetedDelivery::NotWaiting) => {}
        other => panic!("{other:?}"),
    }
    let mut bad = row("e1", "7");
    bad.effect.fault = Some("not an effect".to_owned());
    assert!(matches!(
        decide_delivery(&vec![bad], None, "r", "reply", &keys),
        Err(StoreError::Corrupt { .. })
    ));
}

#[test]
fn the_oldest_wait_is_woken_whatever_its_key() {
    let mut b = EventBook::new();
    b.subscribe("t", &wait("young", "reply", "7"), 5);
    b.subscribe("t", &wait("old", "reply", "8"), 1);
    let mut e = event("1", "reply", "7");
    e.correlation = vec![key("7"), key("8")];
    b.buffer("t", &e, 10);
    let got = b.match_waiter("t", &e, 11).expect("match").expect("waiting");
    assert_eq!(got.run, "old");
    assert!(b.check());
}

#[test]
fn an_ended_wait_keeps_its_claim_and_no_other_run_gets_it() {
    let mut b = EventBook::new();
    b.buffer("t", &event("1", "reply", "7"), 10);
    b.claim_for("t", &wait("r", "reply", "7"), 20).expect("claim").expect("found");
    assert_eq!(b.sweep_unclaimed("t", 99, "old"), 0);
    let again = b.claim_for("t", &wait("r", "reply", "7"), 21).expect("claim").expect("its own");
    assert_eq!(again.event.id, "1");
    assert!(b.claim_for("t", &wait("s", "reply", "7"), 22).expect("claim").is_none());
    assert!(b.check());
}
