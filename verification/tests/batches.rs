use agentplane::batches::{
    is_open, outcome_from_row, outcome_to_row, BatchBook, ItemOutcome, ItemRow, Spend,
};
use agentplane::domain::StoredId;
use agentplane::error::StoreError;

fn must<T>(r: Result<T, StoreError>) -> T {
    match r {
        Ok(v) => v,
        Err(_) => panic!("refused"),
    }
}

/// Every outcome this store writes is one it reads back as the same value.
#[test]
fn every_written_outcome_decodes_to_the_value_that_wrote_it() {
    for outcome in [
        ItemOutcome::Succeeded,
        ItemOutcome::Failed("x".into()),
        ItemOutcome::Quarantined("x".into()),
        ItemOutcome::Suspended("x".into()),
        ItemOutcome::Exhausted("x".into()),
    ] {
        let (state, detail) = outcome_to_row(&outcome);
        assert_eq!(must(outcome_from_row(1, state, &detail)), Some(outcome));
    }
    assert_eq!(must(outcome_from_row(0, "", "")), None);
}

/// **An outcome this store cannot read is damage, not absence.**
#[test]
fn an_unreadable_item_outcome_is_refused_rather_than_defaulted() {
    for bad in ["", "Succeeded", "done", "succeeded "] {
        assert!(
            matches!(
                outcome_from_row(1, bad, "").err(),
                Some(StoreError::Corrupt { .. })
            ),
            "outcome '{bad}' decoded instead of refusing"
        );
    }
}

#[test]
fn a_waiting_item_is_open() {
    assert!(is_open(0, ""));
    assert!(is_open(1, "suspended"));
    assert!(is_open(1, "exhausted"));
    assert!(!is_open(1, "failed"));
    assert!(!is_open(1, "quarantined"));
    assert!(!is_open(1, "succeeded"));
}

#[test]
fn a_batch_runs_one_plan() {
    let mut book = BatchBook::new();
    must(book.open("t", "b", "d1"));
    must(book.open("t", "b", "d1"));
    match book.open("t", "b", "d2") {
        Err(StoreError::BatchPlanChanged { batch, stored, offered }) => {
            assert_eq!((batch.as_str(), stored.as_str(), offered.as_str()), ("b", "d1", "d2"));
        }
        _ => panic!("an edited plan was taken"),
    }
    assert_eq!(book.plan_digest("t", "b").as_deref(), Some("d1"));
    assert_eq!(book.plan_digest("u", "b"), None);
    assert!(!book.is_exhausted("t", "b"));
    must(book.mark_exhausted("t", "b"));
    assert!(book.is_exhausted("t", "b"));
    match book.mark_exhausted("u", "b") {
        Err(StoreError::NotFound(what)) => assert_eq!(what, "b"),
        _ => panic!("a mark over nothing"),
    }
}

#[test]
fn the_cursor_stops_at_a_waiting_item() {
    let mut book = BatchBook::new();
    let spend = Spend { tokens: 2, minor_units: 3 };
    for key in ["a", "b", "c", "d"] {
        must(book.reserve("t", "batch", key, &format!("run-{key}")));
    }
    assert_eq!(book.cursor("t", "batch"), None);
    must(book.record("t", "batch", "a", &ItemOutcome::Succeeded, spend));
    must(book.record("t", "batch", "b", &ItemOutcome::Suspended("w".into()), spend));
    must(book.record("t", "batch", "c", &ItemOutcome::Failed("no".into()), spend));
    assert_eq!(book.cursor("t", "batch").as_deref(), Some("a"));
    must(book.record("t", "batch", "b", &ItemOutcome::Quarantined("q".into()), spend));
    assert_eq!(book.cursor("t", "batch").as_deref(), Some("c"));
    must(book.record("t", "batch", "d", &ItemOutcome::Exhausted("e".into()), spend));
    assert_eq!(book.cursor("t", "batch").as_deref(), Some("c"));

    let c = must(book.census("t", "batch"));
    assert_eq!((c.succeeded, c.failed, c.quarantined), (1, 1, 1));
    assert_eq!((c.suspended, c.exhausted, c.in_flight), (0, 1, 0));
    assert_eq!(c.spend, Spend { tokens: 8, minor_units: 12 });

    let page = must(book.items("t", "batch", 3));
    let keys: Vec<&str> = page.iter().map(|i| i.key.as_str()).collect();
    assert_eq!(keys, ["a", "b", "c"]);
    assert_eq!(page[1].outcome, Some(ItemOutcome::Quarantined("q".into())));
    assert_eq!(page[2].run, "run-c");
}

#[test]
fn a_second_reservation_gets_the_first_run() {
    let mut book = BatchBook::new();
    let first = must(book.reserve("t", "b", "k", "r1"));
    assert_eq!((first.run.as_str(), first.outcome), ("r1", None));
    let again = must(book.reserve("t", "b", "k", "r2"));
    assert_eq!(again.run, "r1");
    match book.record("t", "b", "other", &ItemOutcome::Succeeded, Spend { tokens: 0, minor_units: 0 }) {
        Err(StoreError::NotFound(what)) => assert_eq!(what, "b/other"),
        _ => panic!("an outcome recorded over nothing"),
    }
}

#[test]
fn a_damaged_item_is_refused() {
    let mut book = BatchBook::new();
    let row = |outcome: &str, fault: Option<&str>| ItemRow {
        run: StoredId { text: "r".into(), fault: fault.map(|f| f.to_owned()) },
        outcome: outcome.into(),
        has_outcome: 1,
        detail: String::new(),
        spend: Spend { tokens: u64::MAX, minor_units: 0 },
    };
    book.items.insert(("t".into(), ("b".into(), "k".into())), row("done", None));
    match book.census("t", "b") {
        Err(StoreError::Corrupt { detail, .. }) => assert_eq!(detail, "unknown item outcome 'done'"),
        _ => panic!("damage counted"),
    }
    book.items.insert(("t".into(), ("b".into(), "k".into())), row("failed", Some("short")));
    match book.items("t", "b", 9) {
        Err(StoreError::Corrupt { detail, .. }) => assert_eq!(detail, "bad run id 'r': short"),
        _ => panic!("damage listed"),
    }
    book.items.insert(("t".into(), ("b".into(), "l".into())), row("failed", None));
    match book.census("t", "b") {
        Err(StoreError::Backend(m)) => assert_eq!(m, "batch spend overflow"),
        _ => panic!("an overflow counted"),
    }
    assert!(must(book.items("t", "b", 0)).is_empty());
}
