use agentplane::admissions::AdmissionBook;
use agentplane::error::StoreError;
use agentplane::journal::{
    attested, lease_expiry, Append, Head, Journal, LeaseRow, Pointer, RecordFault, RecordKind, Ttl,
};
use agentplane::row::{Digest, Row};
use agentplane::store::{
    decode_operator, halt_from_row, hold_from_row, hold_row, HaltRow, LegalHold, Operator,
    RedbStore,
};

fn store() -> RedbStore {
    RedbStore::open_in_memory().expect("store")
}

fn digest_of(b: u8) -> Digest {
    Digest { bytes: [b; 32] }
}

fn record(run: &str, kind: RecordKind, hash: u8) -> Append {
    Append {
        run: run.to_owned(),
        kind,
        effect_key: None,
        case: None,
        body: vec![hash, 1, 2],
        hash: digest_of(hash),
        key_id: None,
        signature: None,
    }
}

fn secs(secs: u64) -> Ttl {
    Ttl { secs, nanos: 0 }
}

/// `origin` and `for_tenant` compose the same name whatever order they are
/// called in, and calling either twice changes nothing.
#[test]
fn checkpoint_origin_is_order_insensitive_and_idempotent() {
    let tenant_then_origin = RedbStore::open_in_memory()
        .expect("store")
        .for_tenant("acme".to_owned())
        .origin("plane-1".to_owned());
    let origin_then_tenant = RedbStore::open_in_memory()
        .expect("store")
        .origin("plane-1".to_owned())
        .for_tenant("acme".to_owned());
    let twice = RedbStore::open_in_memory()
        .expect("store")
        .origin("plane-1".to_owned())
        .for_tenant("acme".to_owned())
        .for_tenant("acme".to_owned());

    let a = tenant_then_origin.checkpoint().expect("checkpoint");
    let b = origin_then_tenant.checkpoint().expect("checkpoint");
    let c = twice.checkpoint().expect("checkpoint");
    assert_eq!(a.origin, "plane-1/acme");
    assert_eq!(b.origin, a.origin, "builder order changed the log's name");
    assert_eq!(c.origin, a.origin, "for_tenant is not idempotent");
}

/// A stored run id that does not parse is reported as corruption, not silently
/// thinned out of the listing. Each listing has a positive half first, so the
/// error comes from the garbage row rather than from a scan that refuses
/// everything.
#[test]
fn an_unparsable_run_id_is_reported_as_corruption_not_skipped() {
    let mut store = RedbStore::open_in_memory().expect("store");
    let stranded = "0190a000-0000-7000-8000-000000000001";

    // A legitimate expired lease and a legitimate outcome row.
    store.journal.leases.insert(
        ("default".to_owned(), stranded.to_owned()),
        LeaseRow { owner: "worker".to_owned(), epoch: 1, expires_at: 0, fault: None },
    );
    store.journal.by_outcome.insert(
        ("default".to_owned(), ("failed".to_owned(), 0)),
        Pointer { tenant: "default".to_owned(), run: stranded.to_owned(), fault: None },
    );
    assert_eq!(
        store.journal.abandoned_runs("default", 7, 10).expect("a clean scan"),
        vec![stranded]
    );
    assert_eq!(
        store.journal.runs_by_outcome("default", "failed", 10).expect("a clean scan"),
        vec![stranded]
    );

    // The garbage no correct writer produces.
    let fault = Some("invalid character".to_owned());
    store.journal.leases.insert(
        ("default".to_owned(), "not-a-run-id".to_owned()),
        LeaseRow { owner: "worker".to_owned(), epoch: 1, expires_at: 0, fault: fault.clone() },
    );
    store.journal.by_outcome.insert(
        ("default".to_owned(), ("failed".to_owned(), 1)),
        Pointer { tenant: "default".to_owned(), run: "not-a-run-id".to_owned(), fault },
    );

    let err = store
        .journal
        .abandoned_runs("default", 7, 10)
        .expect_err("an unparsable lease row must refuse the sweep, not vanish from it");
    assert!(
        matches!(err, StoreError::Corrupt { .. }),
        "the refusal must be Corrupt, so it is promoted past retry logic: {err:?}"
    );
    let err = store
        .journal
        .runs_by_outcome("default", "failed", 10)
        .expect_err("an unparsable outcome row must refuse the listing, not vanish from it");
    assert!(
        matches!(err, StoreError::Corrupt { .. }),
        "the refusal must be Corrupt, so it is promoted past retry logic: {err:?}"
    );
}

#[test]
fn a_pointer_outside_the_tenant_is_damage() {
    let mut j = Journal::new();
    j.by_outcome.insert(
        ("acme".to_owned(), ("failed".to_owned(), 0)),
        Pointer { tenant: "globex".to_owned(), run: "r".to_owned(), fault: None },
    );
    match j.runs_by_outcome("acme", "failed", 10) {
        Err(StoreError::Corrupt { seq: 0, detail }) => assert_eq!(
            detail,
            "run_by_outcome points at 'globex/r', which is outside tenant 'acme'"
        ),
        other => panic!("{other:?}"),
    }
}

#[test]
fn records_chain_and_read_back() {
    let mut j = Journal::new();
    let head = j.head("t", "r").expect("head");
    assert_eq!((head.seq, head.hash.bytes), (0, [0; 32]));
    let slots = j
        .append("t", 5, 1, &vec![record("r", RecordKind::Other, 1), record("r", RecordKind::Other, 2)])
        .expect("append");
    assert_eq!(slots.len(), 2);
    assert_eq!((slots[0].seq, slots[0].prev_hash.bytes), (1, [0; 32]));
    assert_eq!((slots[1].seq, slots[1].prev_hash.bytes), (2, [1; 32]));
    let head = j.head("t", "r").expect("head");
    assert_eq!((head.seq, head.hash.bytes), (2, [2; 32]));
    let rows = j.read("t", "r", 2).expect("read");
    assert_eq!(rows.len(), 1);
    assert_eq!(rows[0].body, vec![2, 1, 2]);
    assert_eq!(rows[0].prev_hash.bytes, [1; 32]);
    assert!(j.read("u", "r", 1).expect("another tenant").is_empty());
}

#[test]
fn a_batch_is_one_run() {
    let mut j = Journal::new();
    match j.append("t", 5, 1, &vec![record("r", RecordKind::Other, 1), record("s", RecordKind::Other, 2)]) {
        Err(StoreError::Backend(m)) => {
            assert_eq!(m, "batch spans runs r and s — a batch is one run's atomic unit");
        }
        other => panic!("{other:?}"),
    }
    assert_eq!(j.head("t", "r").expect("head").seq, 0);
}

#[test]
fn an_effect_starts_once() {
    let mut j = Journal::new();
    let mut start = record("r", RecordKind::EffectStarted, 1);
    start.effect_key = Some("e1".to_owned());
    j.append("t", 5, 1, &vec![start]).expect("first start");
    let mut again = record("r", RecordKind::EffectStarted, 2);
    again.effect_key = Some("e1".to_owned());
    match j.append("t", 5, 1, &vec![again]) {
        Err(StoreError::DuplicateEffect(e)) => assert_eq!(e, "e1"),
        other => panic!("{other:?}"),
    }
    assert_eq!(j.head("t", "r").expect("head").seq, 1);
}

#[test]
fn a_stale_epoch_is_fenced() {
    let mut j = Journal::new();
    let first = j.acquire("t", "r", "a", 100, secs(10)).expect("lease");
    assert_eq!((first.epoch, first.owner.as_str()), (1, "a"));
    match j.acquire("t", "r", "b", 105, secs(10)) {
        Err(StoreError::LeaseHeld { owner, epoch, remaining_secs, .. }) => {
            assert_eq!((owner.as_str(), epoch, remaining_secs), ("a", 1, 5));
        }
        other => panic!("{other:?}"),
    }
    let second = j.acquire("t", "r", "b", 110, secs(10)).expect("takeover");
    assert_eq!(second.epoch, 2);
    match j.append("t", 110, 1, &vec![record("r", RecordKind::Other, 1)]) {
        Err(StoreError::Fenced { run, held, current }) => {
            assert_eq!((run.as_str(), held, current), ("t/r", 1, 2));
        }
        other => panic!("{other:?}"),
    }
    assert!(j.fence("t", "r", 1).is_err());
    assert!(j.fence("t", "r", 2).is_ok());
    match j.renew("t", "r", "a", 1, 111, secs(10)) {
        Err(StoreError::LeaseNotHeld { run, epoch }) => {
            assert_eq!((run.as_str(), epoch), ("t/r", 1));
        }
        other => panic!("{other:?}"),
    }
    assert_eq!(j.renew("t", "r", "b", 2, 111, secs(10)).expect("renewal").epoch, 2);
    j.release_lease("t", "r", 2);
    assert!(j.abandoned_runs("t", 10_000, 9).expect("scan").is_empty());
}

#[test]
fn a_lapsed_lease_is_an_abandoned_run() {
    let mut j = Journal::new();
    j.acquire("t", "late", "a", 100, secs(10)).expect("lease");
    j.acquire("t", "early", "a", 90, secs(10)).expect("lease");
    j.acquire("u", "other", "a", 1, secs(10)).expect("lease");
    assert!(j.abandoned_runs("t", 99, 9).expect("scan").is_empty());
    assert_eq!(j.abandoned_runs("t", 200, 9).expect("scan"), vec!["early", "late"]);
    assert_eq!(j.abandoned_runs("t", 200, 1).expect("scan"), vec!["early"]);
}

#[test]
fn a_lease_ends_when_it_says() {
    assert_eq!(lease_expiry(100, Ttl { secs: 1, nanos: 500_000_000 }).expect("expiry"), 101);
    match lease_expiry(100, Ttl { secs: 0, nanos: 500_000_000 }) {
        Err(StoreError::Backend(m)) => assert!(m.starts_with("a lease TTL of 500ms is below"), "{m}"),
        other => panic!("{other:?}"),
    }
    match lease_expiry(u64::MAX, secs(2)) {
        Err(StoreError::Backend(m)) => assert!(m.starts_with("a lease TTL of 2s overflows"), "{m}"),
        other => panic!("{other:?}"),
    }
}

#[test]
fn a_sealed_run_is_frozen_and_logged() {
    let mut s = store();
    for (run, hash) in [("a", 1u8), ("b", 2), ("c", 3)] {
        s.journal
            .append("default", 5, 1, &vec![record(run, RecordKind::RunConcluded { outcome: "failed".to_owned() }, hash)])
            .expect("append");
        let leaf = s.journal.seal("default", run, 1, "failed", 6).expect("seal");
        assert_eq!(leaf.bytes, [hash; 32]);
    }
    match s.journal.append("default", 7, 1, &vec![record("a", RecordKind::Other, 9)]) {
        Err(StoreError::RunSealed { run, outcome }) => {
            assert_eq!((run.as_str(), outcome.as_str()), ("default/a", "failed"));
        }
        other => panic!("{other:?}"),
    }
    let c = s.checkpoint().expect("checkpoint");
    assert_eq!((c.origin.as_str(), c.size), ("agentplane", 3));
    assert_eq!(c.leaves.iter().map(|l| l.bytes[0]).collect::<Vec<_>>(), vec![1, 2, 3]);
    let i = s.inclusion_proof("b").expect("proof").expect("logged");
    assert_eq!((i.index, i.size, i.seal.bytes), (1, 3, [2; 32]));
    assert!(s.inclusion_proof("nobody").expect("proof").is_none());
    assert_eq!(s.consistency_proof(2).expect("proof").len(), 3);
    match s.consistency_proof(4) {
        Err(StoreError::Backend(m)) => assert_eq!(
            m,
            "a checkpoint of size 4 is larger than this log (3) — either it belongs to another plane, or runs were removed"
        ),
        other => panic!("{other:?}"),
    }
    assert_eq!(
        s.journal.runs_by_outcome("default", "failed", 2).expect("listing"),
        vec!["c", "b"]
    );

    // A removed run leaves a gap that the log shows.
    s.delete_run_for_test("b");
    let c = s.checkpoint().expect("checkpoint");
    assert_eq!(c.leaves.iter().map(|l| l.bytes[0]).collect::<Vec<_>>(), vec![1, 3]);
    assert!(s.journal.read("default", "b", 1).expect("read").is_empty());
    assert_eq!(s.inclusion_proof("c").expect("proof").expect("logged").index, 1);
    assert!(s.consistency_proof(3).is_err());
}

#[test]
fn a_damaged_leaf_is_refused() {
    let mut s = store();
    s.journal
        .append("default", 5, 1, &vec![record("a", RecordKind::Other, 1)])
        .expect("append");
    s.journal.seal("default", "a", 1, "failed", 6).expect("seal");
    let mut seal = s.journal.seals.remove(&("default".to_owned(), "a".to_owned())).expect("row");
    seal.head.pop();
    s.journal.seals.insert(("default".to_owned(), "a".to_owned()), seal);
    assert!(matches!(s.checkpoint(), Err(StoreError::Corrupt { seq: 0, .. })));
    assert!(matches!(s.inclusion_proof("a"), Err(StoreError::Corrupt { seq: 0, .. })));
    assert!(
        matches!(s.consistency_proof(9), Err(StoreError::Corrupt { seq: 0, .. })),
        "the leaf is read before the size is looked at"
    );
}

#[test]
fn an_edit_keeps_the_hash_it_does_not_match() {
    let mut s = store();
    s.journal
        .append("default", 5, 1, &vec![record("a", RecordKind::Other, 1)])
        .expect("append");
    s.tamper_for_test("a", 1, vec![9, 9]).expect("edit");
    s.tamper_for_test("a", 2, vec![9, 9]).expect("nothing there");
    let rows = s.journal.read("default", "a", 1).expect("read");
    assert_eq!(rows.len(), 1);
    assert_eq!((rows[0].body.clone(), rows[0].hash.bytes), (vec![9, 9], [1; 32]));
}

#[test]
fn the_history_of_a_case_crosses_runs() {
    let mut j = Journal::new();
    for (run, hash) in [("a", 1u8), ("b", 2)] {
        let mut r = record(run, RecordKind::Other, hash);
        r.case = Some("k".to_owned());
        j.append("t", 5, 1, &vec![record(run, RecordKind::Other, 50 + hash), r]).expect("append");
    }
    let rows = j.case_history("t", "k", 9).expect("history");
    assert_eq!(rows.iter().map(|r| r.hash.bytes[0]).collect::<Vec<_>>(), vec![1, 2]);
    assert_eq!(j.case_history("t", "k", 1).expect("history").len(), 1);
    assert!(j.case_history("u", "k", 9).expect("another tenant").is_empty());
}

#[test]
fn the_last_active_run_comes_first() {
    let mut j = Journal::new();
    for (run, at) in [("a", 10u64), ("b", 20), ("c", 30)] {
        j.append("t", at, 1, &vec![record(run, RecordKind::Other, 1)]).expect("append");
    }
    let page = j.recent_runs("t", &None, 2);
    assert_eq!(page.iter().map(|p| p.1.as_str()).collect::<Vec<_>>(), ["c", "b"]);
    let next = j.recent_runs("t", &Some((page[1].0, page[1].1.clone())), 2);
    assert_eq!(next.iter().map(|p| p.1.as_str()).collect::<Vec<_>>(), ["a"]);
}

#[test]
fn the_first_to_ask_stays_on_the_record() {
    let mut j = Journal::new();
    assert!(j.cancellation("t", "r").is_none());
    assert!(j.request_cancel("t", "r", "ann", "wrong order", 5));
    assert!(!j.request_cancel("t", "r", "bob", "me too", 6));
    let c = j.cancellation("t", "r").expect("asked");
    assert_eq!((c.actor.as_str(), c.reason.as_str()), ("ann", "wrong order"));
}

#[test]
fn a_row_reads_back_as_it_was_written() {
    let row = Row {
        body: b"body".to_vec(),
        prev_hash: digest_of(7),
        hash: digest_of(8),
        key_id: Some("clé".to_owned()),
        signature: Some(vec![1, 2, 3]),
    };
    let back = Row::decode(&row.encode()).expect("round trip");
    assert_eq!(back.body, row.body);
    assert_eq!((back.prev_hash.bytes, back.hash.bytes), ([7; 32], [8; 32]));
    assert_eq!(back.key_id.as_deref(), Some("clé"));
    assert_eq!(back.signature, Some(vec![1, 2, 3]));
    let mut short = row.encode();
    short.pop();
    assert!(matches!(Row::decode(&short), Err(StoreError::Corrupt { .. })));
    assert!(matches!(Row::decode(&[]), Err(StoreError::Corrupt { .. })));
}

#[test]
fn one_request_is_one_run() {
    let mut j = Journal::new();
    let mut book = AdmissionBook::new();
    let first_record = |run: &str| record(run, RecordKind::RunAdmitted { idempotency_key: Some("k".to_owned()) }, 1);
    book.append(&mut j, "t", 50, 1, &vec![first_record("r1")]).expect("admission");
    assert_eq!(book.admitted_as("t", "k").expect("lookup").as_deref(), Some("r1"));
    match book.append(&mut j, "t", 51, 1, &vec![first_record("r2")]) {
        Err(StoreError::DuplicateAdmission { key, run }) => {
            assert_eq!((key.as_str(), run.as_str()), ("k", "r1"));
        }
        other => panic!("{other:?}"),
    }
    assert_eq!(j.head("t", "r2").expect("head").seq, 0);
    assert!(book.admitted_as("u", "k").expect("lookup").is_none());
    assert_eq!(book.forget_admissions("t", 50), 0);
    assert_eq!(book.forget_admissions("t", 51), 1);
    assert!(book.admitted_as("t", "k").expect("lookup").is_none());
}

#[test]
fn a_handle_is_named_by_its_tenant() {
    let s = store().for_tenant("acme".to_owned()).signing_as("key-1".to_owned());
    assert_eq!(s.tenant(), "acme");
    assert_eq!(s.run_key("r"), "acme/r");
    assert_eq!(s.signer().as_deref(), Some("key-1"));
    assert_eq!(s.log_origin(), "agentplane/acme");
    assert!(!s.is_shared());
    assert_eq!(store().log_origin(), "agentplane");
    assert_eq!(store().signer(), None);
}

#[test]
fn an_act_nobody_can_be_named_for_is_damage() {
    let op = Operator { actor: "ann".to_owned(), basis: "oncall".to_owned() };
    let back = decode_operator(Ok(op.twin()), "quota_halted").expect("read");
    assert_eq!((back.actor.as_str(), back.basis.as_str()), ("ann", "oncall"));
    match decode_operator(Err("no such basis".to_owned()), "quota_halted") {
        Err(StoreError::Corrupt { seq: 0, detail }) => assert_eq!(
            detail,
            "quota_halted holds an act this build cannot attribute: no such basis"
        ),
        other => panic!("{other:?}"),
    }
    let hold = LegalHold { placed_at: 9, reason: "audit".to_owned(), by: op.twin() };
    let again = hold_from_row(9, hold_row(&hold));
    assert_eq!((again.placed_at, again.reason.as_str(), again.by.actor.as_str()), (9, "audit", "ann"));
    let halt = halt_from_row("all".to_owned(), HaltRow { reason: "fire".to_owned(), by: op, at: 3 });
    assert_eq!((halt.scope.as_str(), halt.reason.as_str(), halt.at), ("all", "fire", 3));
    assert_eq!(halt.by.basis, "oncall");
}

#[test]
fn an_altered_record_is_refused_where_it_stands() {
    let mut j = Journal::new();
    let batch = (1..=3).map(|h| record("r", RecordKind::Other, h)).collect();
    j.append("t", 1, 1, &batch).expect("append");
    let none = || vec![None, None, None];
    let rows = attested(j.scan("t", "r", 1), &none()).expect("whole");
    assert_eq!(rows.iter().map(|r| r.hash.bytes[0]).collect::<Vec<_>>(), [1, 2, 3]);
    j.tamper_for_test("t", "r", 2, vec![9]).expect("altered");
    let mut faults = none();
    faults[1] = Some(RecordFault { seq: 2, detail: "hash mismatch".to_owned() });
    faults[2] = Some(RecordFault { seq: 3, detail: "later".to_owned() });
    match attested(j.scan("t", "r", 1), &faults) {
        Err(StoreError::Corrupt { seq, detail }) => assert_eq!((seq, detail.as_str()), (2, "hash mismatch")),
        other => panic!("{other:?}"),
    }
    j.journal.insert(("t".to_owned(), ("r".to_owned(), 3)), vec![1]);
    let cut = j.scan("t", "r", 1);
    assert_eq!((cut.rows.len(), cut.damage.is_some()), (2, true));
    assert!(matches!(
        attested(cut, &vec![None, Some(RecordFault { seq: 2, detail: "hash mismatch".to_owned() })]),
        Err(StoreError::Corrupt { seq: 2, .. })
    ));
    assert!(matches!(attested(j.scan("t", "r", 1), &vec![None, None]), Err(StoreError::Corrupt { .. })));
    assert!(j.scan_case("t", "c", 9).rows.is_empty());
}

#[test]
fn a_broken_chain_is_told_from_a_whole_one() {
    let mut j = Journal::new();
    assert!(j.check_chains());
    for run in ["q", "r"] {
        j.append("t", 1, 1, &(1..=3).map(|h| record(run, RecordKind::Other, h)).collect()).expect("append");
    }
    j.append("u", 1, 1, &vec![record("r", RecordKind::Other, 9)]).expect("append");
    assert!(j.check_chains());
    let at = |seq| ("t".to_owned(), ("r".to_owned(), seq));
    let middle = j.journal.remove(&at(2)).expect("row");
    assert!(!j.check_chains(), "a gap");
    j.journal.insert(at(2), middle);
    assert!(j.check_chains());
    let first = j.journal.remove(&at(1)).expect("row");
    assert!(!j.check_chains(), "no beginning");
    j.journal.insert(at(1), first);
    let mut row = Row::decode(j.journal.get(&at(3)).expect("row")).expect("decodes");
    row.prev_hash = digest_of(8);
    j.journal.insert(at(3), row.encode());
    assert!(!j.check_chains(), "a record that follows another hash");
    j.journal.insert(at(3), vec![1, 2]);
    assert!(!j.check_chains(), "bytes that are no record");
}

#[test]
fn what_is_appended_is_read_behind_what_was_there() {
    let mut j = Journal::new();
    j.append("t", 1, 1, &vec![record("r", RecordKind::Other, 1)]).expect("append");
    let was = j.read("t", "r", 1).expect("read");
    let slots = j
        .append("t", 2, 1, &vec![record("r", RecordKind::Other, 2), record("r", RecordKind::Other, 3)])
        .expect("append");
    assert_eq!(slots.iter().map(|s| (s.seq, s.prev_hash.bytes[0])).collect::<Vec<_>>(), [(2, 1), (3, 2)]);
    let is = j.read("t", "r", 0).expect("read");
    assert_eq!((was.len(), is.len()), (1, 3));
    assert_eq!(is[0].hash.bytes, was[0].hash.bytes);
    assert_eq!(is[2].prev_hash.bytes, [2; 32]);
    let head = j.head("t", "r").expect("head");
    assert_eq!((head.seq, head.hash.bytes), (3, [3; 32]));
}

#[test]
fn a_second_start_is_a_duplicate_in_its_run_alone() {
    let mut j = Journal::new();
    let start = |run: &str, h| Append {
        effect_key: Some("e".to_owned()),
        ..record(run, RecordKind::EffectStarted, h)
    };
    j.append("t", 1, 1, &vec![start("r", 1)]).expect("first");
    assert!(matches!(j.append("t", 2, 1, &vec![start("r", 2)]), Err(StoreError::DuplicateEffect(e)) if e == "e"));
    assert_eq!(j.head("t", "r").expect("head").seq, 1);
    j.append("t", 3, 1, &vec![start("q", 2)]).expect("another run");
}

#[test]
fn the_first_seal_stands() {
    let mut j = Journal::new();
    j.append("t", 1, 1, &vec![record("r", RecordKind::Other, 7)]).expect("append");
    let first = j.seal("t", "r", 1, "failed", 2).expect("seal");
    let second = j.seal("t", "r", 1, "succeeded", 3).expect("again");
    assert_eq!((first.bytes, second.bytes), ([7; 32], [7; 32]));
    assert_eq!(j.log_leaves("t").expect("leaves").len(), 1);
    match j.append("t", 4, 1, &vec![record("r", RecordKind::Other, 8)]) {
        Err(StoreError::RunSealed { outcome, .. }) => assert_eq!(outcome, "failed"),
        other => panic!("{other:?}"),
    }
    assert!(j.check());
}

#[test]
fn a_batch_is_appended_on_the_head_it_was_sealed_on() {
    let mut j = Journal::new();
    let start = Head { seq: 0, hash: digest_of(0) };
    let first = vec![record("r", RecordKind::Other, 1)];
    assert_eq!(j.append_on("t", 5, 0, &first, &start).expect("append")[0].seq, 1);
    let second = vec![record("r", RecordKind::Other, 2)];
    match j.append_on("t", 6, 0, &second, &start) {
        Err(StoreError::Backend(m)) => assert_eq!(
            m,
            "the head of run r is not the one this batch was sealed on \u{2014} a record was written in between"
        ),
        other => panic!("{other:?}"),
    }
    let on = j.head("t", "r").expect("head");
    let slots = j.append_on("t", 6, 0, &second, &on).expect("append");
    assert_eq!((slots[0].seq, slots[0].prev_hash.bytes), (2, [1; 32]));
    let mut keys = AdmissionBook::new();
    assert!(keys.append_on(&mut j, "t", 7, 0, &vec![record("r", RecordKind::Other, 3)], &on).is_err());
    assert!(j.check() && j.check_chains());
}
