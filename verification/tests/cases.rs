use agentplane::cases::{age_secs, CaseBook, Correlation, Deadline};
use agentplane::domain::{
    deadline_state_from, is_outstanding, phase_from, phase_str, status_from, to_count, to_signed,
    to_unsigned, trigger_at, CaseStatus, CorrelationKey, DeadlineState, Phase,
};
use agentplane::error::StoreError;
use agentplane::row::Digest;

fn key(value: &str) -> CorrelationKey {
    CorrelationKey::new("order".to_owned(), value.to_owned())
}

fn open(b: &mut CaseBook, id: &str, value: &str, at: i64) {
    match b.correlate_or_open("t", "claim", &vec![key(value)], at, id.to_owned()) {
        Ok(Correlation::Opened(got)) => assert_eq!(got, id),
        other => panic!("{other:?}"),
    }
}

fn deadline(case: &str, name: &str, at: i64, warn: Option<i64>) -> Deadline {
    Deadline {
        case: case.to_owned(),
        name: name.to_owned(),
        resolved_at: at,
        calendar_digest: Digest { bytes: [4; 32] },
        warn_at: warn,
        state: DeadlineState::Pending,
    }
}

#[test]
fn later_messages_attach_to_the_case_they_belong_to() {
    let mut b = CaseBook::new();
    assert_eq!(b.correlate("t", &vec![key("7")]).expect("lookup"), None);
    open(&mut b, "c1", "7", 100);
    match b.correlate_or_open("t", "claim", &vec![key("8"), key("7")], 101, "c2".to_owned()) {
        Ok(Correlation::Attached(id)) => assert_eq!(id, "c1"),
        other => panic!("{other:?}"),
    }
    assert_eq!(b.correlate("t", &vec![key("8")]).expect("lookup"), None, "no key is added");
    assert_eq!(b.correlate("t", &vec![key("8"), key("7")]).expect("lookup").as_deref(), Some("c1"));
    assert_eq!(b.correlate("u", &vec![key("7")]).expect("lookup"), None);
    let c = b.case("t", "c1").expect("read").expect("open");
    assert_eq!((c.kind.as_str(), c.status, c.version, c.opened_at), ("claim", CaseStatus::Open, 0, 100));
    assert_eq!(c.correlation.iter().map(|k| k.shown()).collect::<Vec<_>>(), ["order:7"]);
    assert!(b.case("t", "nobody").expect("read").is_none());
    match b.correlate_or_open("t", "claim", &vec![key("9"), key("9")], 101, "c3".to_owned()) {
        Err(StoreError::Backend(m)) => {
            assert_eq!(m, "correlation key order:9 was claimed concurrently — retry");
        }
        other => panic!("{other:?}"),
    }
    assert_eq!(b.correlate("t", &vec![key("9")]).expect("lookup"), None);
}

#[test]
fn one_writer_per_version() {
    let mut b = CaseBook::new();
    open(&mut b, "c1", "7", 100);
    assert_eq!(b.put_state("t", "c1", 0, "{\"a\":1}").expect("write"), 1);
    match b.put_state("t", "c1", 0, "{}") {
        Err(StoreError::CaseConflict { case, expected, current }) => {
            assert_eq!((case.as_str(), expected, current), ("c1", 0, 1));
        }
        other => panic!("{other:?}"),
    }
    match b.put_state("t", "c9", 0, "{}") {
        Err(StoreError::NotFound(what)) => assert!(what.contains("c9"), "{what}"),
        other => panic!("{other:?}"),
    }
    let c = b.case("t", "c1").expect("read").expect("open");
    assert_eq!(c.state, "{\"a\":1}");
}

#[test]
fn an_unreadable_state_reads_as_it_always_has() {
    let mut b = CaseBook::new();
    open(&mut b, "c1", "7", 100);
    b.put_state("t", "c1", 0, "{ not json").expect("write");
    let c = b.case("t", "c1").expect("read").expect("open");
    assert_eq!(c.state, "null");
}

#[test]
fn runs_attach_once_and_in_order() {
    let mut b = CaseBook::new();
    open(&mut b, "c1", "7", 100);
    for run in ["r2", "r1", "r2"] {
        b.attach_run("t", "c1", run).expect("attach");
    }
    assert_eq!(b.case("t", "c1").expect("read").expect("open").runs, ["r2", "r1"]);
}

#[test]
fn closing_frees_the_keys() {
    let mut b = CaseBook::new();
    open(&mut b, "c1", "7", 100);
    b.register_deadline("t", &deadline("c1", "answer", 500, None));
    assert!(b.close("t", "c1").is_err(), "an obligation is outstanding");
    b.set_deadline_state("t", "c1", "answer", DeadlineState::Met).expect("met");
    b.close("t", "c1").expect("closed");
    assert_eq!(b.case("t", "c1").expect("read").expect("kept").status, CaseStatus::Closed);
    assert_eq!(b.correlate("t", &vec![key("7")]).expect("lookup"), None);
    open(&mut b, "c2", "7", 200);
    assert!(b.close("t", "nobody").is_err());
}

#[test]
fn the_first_registration_of_an_obligation_stands() {
    let mut b = CaseBook::new();
    open(&mut b, "c1", "7", 100);
    b.register_deadline("t", &deadline("c1", "answer", 500, Some(400)));
    b.register_deadline("t", &deadline("c1", "answer", 900, None));
    b.register_deadline("t", &deadline("c1", "ack", 300, None));
    let all = b.deadlines("t", "c1").expect("read");
    assert_eq!(all.iter().map(|d| (d.name.as_str(), d.resolved_at)).collect::<Vec<_>>(), [("ack", 300), ("answer", 500)]);
    assert_eq!(all[1].warn_at, Some(400));
    assert_eq!(all[1].calendar_digest.bytes, [4; 32]);
}

#[test]
fn what_is_due_is_found_until_it_is_resolved() {
    let mut b = CaseBook::new();
    open(&mut b, "c1", "7", 100);
    b.register_deadline("t", &deadline("c1", "answer", 500, Some(400)));
    b.register_deadline("t", &deadline("c1", "ack", 300, None));
    assert!(b.due("t", 299, 9).expect("scan").is_empty());
    let due = b.due("t", 400, 9).expect("scan");
    assert_eq!(due.iter().map(|d| d.name.as_str()).collect::<Vec<_>>(), ["ack", "answer"]);
    assert_eq!(b.due("t", 400, 1).expect("scan").len(), 1);
    b.set_deadline_state("t", "c1", "ack", DeadlineState::Breached).expect("marked");
    assert_eq!(b.due("t", 400, 9).expect("scan").len(), 1);
    assert!(b.set_deadline_state("t", "c1", "nothing", DeadlineState::Met).is_err());
    assert!(b.due("u", 9999, 9).expect("another tenant").is_empty());
}

#[test]
fn the_census_counts_what_is_open() {
    let mut b = CaseBook::new();
    open(&mut b, "c1", "7", 100);
    open(&mut b, "c2", "8", 150);
    b.register_deadline("t", &deadline("c1", "ack", 300, None));
    let c = b.census("t", 400);
    assert_eq!((c.open, c.oldest_age_secs, c.due), (2, Some(300), 1));
    assert_eq!(b.census("u", 400).oldest_age_secs, None);
    assert_eq!((age_secs(100, 90), age_secs(100, 160)), (0, 60));
}

#[test]
fn cases_are_listed_by_status() {
    let mut b = CaseBook::new();
    open(&mut b, "c1", "7", 100);
    open(&mut b, "c2", "8", 200);
    b.set_status("t", "c1", CaseStatus::Escalated).expect("status");
    let ids = |b: &CaseBook, s| -> Vec<String> {
        b.by_status("t", s, 9).expect("listing").into_iter().map(|c| c.id).collect()
    };
    assert_eq!(ids(&b, CaseStatus::Open), ["c2"]);
    assert_eq!(ids(&b, CaseStatus::Escalated), ["c1"]);
    b.set_status("t", "c2", CaseStatus::Closed).expect("closed");
    assert_eq!(ids(&b, CaseStatus::Closed), ["c2"]);
    assert!(b.set_status("t", "nobody", CaseStatus::Open).is_err());
}

#[test]
fn content_is_linked_to_its_case() {
    let mut b = CaseBook::new();
    open(&mut b, "c1", "7", 100);
    b.link_blob("t", "c1", &Digest { bytes: [9; 32] }, 5);
    b.link_blob("t", "c1", &Digest { bytes: [1; 32] }, 6);
    let got = b.blobs_of("t", "c1").expect("read");
    assert_eq!(got.iter().map(|d| d.bytes[0]).collect::<Vec<_>>(), [9, 1]);
    b.blobs.insert(("t".to_owned(), ("c1".to_owned(), (7, vec![1, 2]))), ());
    assert!(matches!(b.blobs_of("t", "c1"), Err(StoreError::Corrupt { .. })));
}

#[test]
fn words_read_back() {
    for s in [CaseStatus::Open, CaseStatus::AwaitingExternal, CaseStatus::AwaitingHuman, CaseStatus::Escalated, CaseStatus::Closed] {
        assert_eq!(status_from(s.as_str()).expect("word"), s);
    }
    for s in [DeadlineState::Pending, DeadlineState::Warned, DeadlineState::Breached, DeadlineState::Met, DeadlineState::Cancelled] {
        assert_eq!(deadline_state_from(s.as_str()).expect("word"), s);
    }
    for p in [Phase::Forward, Phase::Compensating] {
        assert_eq!(phase_from(phase_str(p)), p);
    }
    assert!(matches!(status_from("opened"), Err(StoreError::Corrupt { .. })));
    assert!(matches!(deadline_state_from(""), Err(StoreError::Corrupt { .. })));
    assert!(is_outstanding("pending") && is_outstanding("warned"));
    assert!(!is_outstanding("met") && !is_outstanding("breached"));
    assert_eq!((trigger_at(500, Some(400)), trigger_at(500, None), trigger_at(500, Some(600))), (400, 500, 500));
    assert_eq!((to_unsigned(to_signed(u64::MAX)), to_signed(7)), (u64::MAX, 7));
    assert_eq!((to_count(-1), to_count(3)), (u32::MAX, 3));
}

#[test]
fn a_status_of_closed_is_a_closing() {
    let mut b = CaseBook::new();
    open(&mut b, "c1", "7", 100);
    b.register_deadline("t", &deadline("c1", "ack", 300, None));
    match b.set_status("t", "c1", CaseStatus::Closed) {
        Err(StoreError::Backend(m)) => {
            assert_eq!(m, "case c1 has 1 open deadline(s); resolve or cancel them before closing");
        }
        other => panic!("{other:?}"),
    }
    b.set_deadline_state("t", "c1", "ack", DeadlineState::Met).expect("met");
    b.set_status("t", "c1", CaseStatus::AwaitingHuman).expect("status");
    assert_eq!(b.correlate("t", &vec![key("7")]).expect("lookup").as_deref(), Some("c1"));
    b.set_status("t", "c1", CaseStatus::Closed).expect("closed");
    assert_eq!(b.correlate("t", &vec![key("7")]).expect("lookup"), None);
    open(&mut b, "c2", "7", 200);
    assert!(matches!(b.set_status("t", "nobody", CaseStatus::Closed), Err(StoreError::NotFound(id)) if id == "nobody"));
}
