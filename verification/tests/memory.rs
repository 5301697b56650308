use agentplane::domain::Instant;
use agentplane::error::StoreError;
use agentplane::memory::{trust_rank, MemoryBook, MemoryItem, MemoryRef, Recall, Trust};
use agentplane::postgres_memory::{
    cascade_locks, derivatives_shared, forget_locks, graph_lock, hold_locks, id_lock, lifecycle_lock, locked_ids,
    recall_shared, remember_locks, remember_shared, subject_lock, subject_locks, sweep_locks,
    sweep_shared, version_shared, Lock,
};

fn item(id: &str, at: i64) -> MemoryItem {
    MemoryItem {
        id: id.to_owned(),
        version: 0,
        subject: "ann".to_owned(),
        purpose: "support".to_owned(),
        content: format!("content of {id}"),
        digest: format!("digest-{id}-{at}"),
        trust: Trust::Trusted,
        created_at: Instant::at_second(at),
        expires_at: None,
        superseded_at: None,
        access_retention_seconds: None,
        derived_from: Vec::new(),
    }
}

fn from(mut it: MemoryItem, sources: &[(&str, u64, i64)]) -> MemoryItem {
    for (id, version, at) in sources {
        it.derived_from.push(MemoryRef {
            id: (*id).to_owned(),
            version: *version,
            digest: format!("digest-{id}-{at}"),
        });
    }
    it
}

fn recall(book: &MemoryBook, limit: usize, as_of: Option<i64>) -> Vec<String> {
    let q = Recall { subject: "ann".to_owned(), purpose: None, limit, as_of: as_of.map(Instant::at_second) };
    book.recall("t", &q).into_iter().map(|i| i.id).collect()
}

fn says(r: Result<u64, StoreError>) -> String {
    match r {
        Err(StoreError::Backend(m)) => m,
        other => panic!("{other:?}"),
    }
}

#[test]
fn versions_count_up_and_the_old_one_is_superseded() {
    let mut b = MemoryBook::new();
    assert_eq!(b.remember("t", item("m", 10)).expect("first"), 1);
    assert_eq!(b.remember("t", item("m", 20)).expect("second"), 2);
    assert_eq!(b.version("t", "m", 1).expect("kept").superseded_at, Some(Instant::at_second(20)));
    assert_eq!(b.version("t", "m", 2).expect("kept").superseded_at, None);
    assert!(b.version("u", "m", 1).is_none());
    assert_eq!(recall(&b, 9, None), ["m"]);
    assert!(b.check());
}

#[test]
fn the_trusted_come_first_and_the_newest_of_them() {
    let mut b = MemoryBook::new();
    let mut loud = item("spam", 90);
    loud.trust = Trust::Untrusted;
    b.remember("t", loud).expect("spam");
    b.remember("t", item("old", 10)).expect("old");
    b.remember("t", item("new", 20)).expect("new");
    assert_eq!(recall(&b, 9, None), ["new", "old", "spam"]);
    assert_eq!(recall(&b, 2, None), ["new", "old"]);
    assert_eq!((trust_rank(Trust::Trusted), trust_rank(Trust::Untrusted)), (0, 1));
    assert_eq!(b.subject_ids("t", "ann"), ["new", "old", "spam"]);
}

#[test]
fn an_id_keeps_its_scope() {
    let mut b = MemoryBook::new();
    b.remember("t", item("m", 10)).expect("first");
    let mut moved = item("m", 20);
    moved.subject = "bob".to_owned();
    assert_eq!(
        says(b.remember("t", moved)),
        "memory id 'm' is scoped to subject 'ann' and purpose 'support'; use a new id instead of moving it to subject 'bob' and purpose 'support'"
    );
}

#[test]
fn a_source_must_be_there_unchanged_and_of_the_subject() {
    let mut b = MemoryBook::new();
    b.remember("t", item("a", 10)).expect("source");
    assert_eq!(
        says(b.remember("t", from(item("d", 20), &[("a", 7, 10)]))),
        "derived memory 'd' names missing source 'a' version 7"
    );
    assert_eq!(
        says(b.remember("t", from(item("d", 20), &[("a", 1, 11)]))),
        "derived memory 'd' names a changed source 'a' version 1"
    );
    let mut stray = from(item("d", 20), &[("a", 1, 10)]);
    stray.subject = "bob".to_owned();
    assert_eq!(
        says(b.remember("t", stray)),
        "derived memory 'd' must stay in source subject 'ann' rather than 'bob'"
    );
    b.remember("t", from(item("d", 20), &[("a", 1, 10)])).expect("derived");
    let d: Vec<String> = b.derivatives("t", "a").into_iter().map(|i| i.id).collect();
    assert_eq!(d, ["d"]);
    b.remember("t", item("d", 30)).expect("derived anew, from nothing");
    assert!(b.derivatives("t", "a").is_empty());
}

#[test]
fn a_forgotten_id_is_not_used_again() {
    let mut b = MemoryBook::new();
    b.remember("t", item("m", 10)).expect("first");
    b.forget("t", "m").expect("forgotten");
    assert!(b.version("t", "m", 1).is_none());
    assert_eq!(says(b.remember("t", item("m", 20))), "memory id 'm' was forgotten and cannot be reused");
    b.forget("t", "never").expect("nothing to forget");
    b.remember("t", item("never", 20)).expect("not a tombstone");
}

#[test]
fn a_hold_stops_every_erasure() {
    let mut b = MemoryBook::new();
    b.remember("t", item("a", 10)).expect("source");
    b.remember("t", from(item("b", 20), &[("a", 1, 10)])).expect("derived");
    match b.set_legal_hold("t", "missing", true) {
        Err(StoreError::Backend(m)) => assert_eq!(m, "cannot hold missing memory 'missing'"),
        other => panic!("{other:?}"),
    }
    b.set_legal_hold("t", "b", true).expect("held");
    assert!(b.legal_hold("t", "b"));
    for r in [b.forget("t", "b").map(|()| 0), b.forget_cascading("t", "a"), b.forget_subject("t", "ann")] {
        match r {
            Err(StoreError::Backend(m)) => assert_eq!(m, "memory 'b' is under legal hold"),
            other => panic!("{other:?}"),
        }
    }
    assert_eq!(recall(&b, 9, None), ["b", "a"]);
    b.set_legal_hold("t", "b", false).expect("released");
    assert_eq!(b.forget_subject("t", "ann").expect("erased"), 2);
    assert!(recall(&b, 9, None).is_empty());
    assert!(b.check());
}

#[test]
fn a_cascade_goes_through_a_tombstone() {
    let mut b = MemoryBook::new();
    b.remember("t", item("a", 10)).expect("a");
    b.remember("t", from(item("b", 20), &[("a", 1, 10)])).expect("b");
    b.remember("t", from(item("c", 30), &[("b", 1, 20)])).expect("c");
    b.remember("t", item("bystander", 40)).expect("bystander");
    b.forget("t", "b").expect("tombstone");
    assert_eq!(b.forget_cascading("t", "a").expect("cascade"), 2);
    assert_eq!(recall(&b, 9, None), ["bystander"]);
    assert_eq!(b.forget_cascading("t", "a").expect("again"), 0);
}

#[test]
fn a_cascade_spares_what_was_derived_anew() {
    let mut b = MemoryBook::new();
    b.remember("t", item("bad", 10)).expect("bad");
    b.remember("t", item("good", 11)).expect("good");
    b.remember("t", from(item("sum", 20), &[("bad", 1, 10)])).expect("v1");
    b.remember("t", from(item("sum", 30), &[("good", 1, 11)])).expect("v2");
    assert_eq!(b.forget_cascading("t", "bad").expect("cascade"), 2);
    assert!(b.version("t", "sum", 1).is_none());
    assert!(b.version("t", "sum", 2).is_some());
    assert_eq!(recall(&b, 9, None), ["sum", "good"]);
    assert!(b.check());
}

#[test]
fn the_ceiling_wins_over_the_window() {
    let mut b = MemoryBook::new();
    let mut w = item("w", 100);
    w.access_retention_seconds = Some(10);
    w.expires_at = Some(Instant::at_second(115));
    b.remember("t", w).expect("window");
    assert_eq!(recall(&b, 9, Some(109)), ["w"]);
    assert!(recall(&b, 9, Some(110)).is_empty());
    b.touch("t", &vec!["w".to_owned()], Instant::at_second(108));
    assert_eq!(recall(&b, 9, Some(114)), ["w"]);
    assert!(recall(&b, 9, Some(115)).is_empty());
    b.touch("t", &vec!["w".to_owned()], Instant::at_second(50));
    assert_eq!(recall(&b, 9, Some(114)), ["w"]);
    assert_eq!(b.sweep_expired("t", Instant::at_second(114)), 0);
    assert_eq!(b.sweep_expired("t", Instant::at_second(115)), 1);
    assert!(recall(&b, 9, None).is_empty());
}

#[test]
fn tables_that_disagree_are_noticed() {
    let mut b = MemoryBook::new();
    b.remember("t", item("m", 10)).expect("first");
    assert!(b.check());
    b.holds.insert(("t".to_owned(), "ghost".to_owned()), ());
    assert!(!b.check());
    b.holds.remove(&("t".to_owned(), "ghost".to_owned()));
    assert!(b.check());
    b.edges.insert(
        ("t".to_owned(), ("x".to_owned(), (1, ("y".to_owned(), 1)))),
        (),
    );
    assert!(!b.check());
}

#[test]
fn a_shared_write_locks_in_order() {
    assert_eq!(graph_lock("acmé"), "memory-graph:5:acmé");
    assert_eq!(lifecycle_lock("t"), "memory-lifecycle:1:t");
    assert_eq!(subject_lock("t", "ann"), "memory-subject:1:tann");
    assert_eq!(id_lock("t", "m"), "memory-id:1:tm");
    assert_ne!(id_lock("ab", "c"), id_lock("a", "bc"));
    let it = from(item("m", 10), &[("z", 1, 1), ("a", 1, 1), ("m", 1, 1), ("a", 2, 1)]);
    assert_eq!(locked_ids(&it), ["a", "m", "z"]);
    let plan = |locks: Vec<Lock>| -> Vec<(String, bool)> {
        locks.into_iter().map(|l| (l.name, l.shared)).collect()
    };
    let subject = subject_lock("t", &it.subject);
    assert_eq!(
        plan(remember_locks("t", &it)),
        [
            (graph_lock("t"), true),
            (subject, true),
            (id_lock("t", "a"), false),
            (id_lock("t", "m"), false),
            (id_lock("t", "z"), false),
        ]
    );
    let whole = [(lifecycle_lock("t"), false), (graph_lock("t"), false)];
    assert_eq!(plan(cascade_locks("t")), whole);
    assert_eq!(plan(sweep_locks("t")), whole);
    assert_eq!(plan(forget_locks("t", "m")), [(lifecycle_lock("t"), false), (id_lock("t", "m"), false)]);
    assert_eq!(
        plan(subject_locks("t", "ann")),
        [(lifecycle_lock("t"), false), (subject_lock("t", "ann"), false)]
    );
    assert_eq!(plan(hold_locks("t")), [(lifecycle_lock("t"), false)]);
}

#[test]
fn a_shared_version_fits_its_column() {
    let mut b = MemoryBook::new();
    assert_eq!(remember_shared(&mut b, "t", item("a", 10)).expect("first"), 1);
    assert_eq!(remember_shared(&mut b, "t", item("a", 11)).expect("second"), 2);
    assert_eq!(
        says(remember_shared(&mut b, "t", from(item("d", 20), &[("a", 1 << 63, 10)]))),
        "memory version 9223372036854775808 exceeds PostgreSQL BIGINT"
    );
    assert_eq!(
        says(remember_shared(&mut b, "t", from(item("d", 20), &[("a", 9, 10), ("a", 1 << 63, 10)]))),
        "derived memory 'd' names missing source 'a' version 9"
    );
    assert!(version_shared(&b, "t", "a", 1).expect("read").is_some());
    assert!(version_shared(&b, "t", "a", 1 << 63).is_err());
    let mut q = Recall { subject: "ann".to_owned(), purpose: None, limit: 3, as_of: None };
    assert_eq!(recall_shared(&b, "t", &q).expect("read").len(), 1);
    q.limit = usize::MAX;
    match recall_shared(&b, "t", &q) {
        Err(StoreError::Backend(m)) => assert_eq!(m, "memory recall limit exceeds BIGINT"),
        other => panic!("{other:?}"),
    }
}

#[test]
fn an_erasure_keeps_writers_out_and_writers_keep_to_themselves() {
    let clash = |a: &[Lock], b: &[Lock]| {
        a.iter().any(|x| b.iter().any(|y| x.name == y.name && !(x.shared && y.shared)))
    };
    let write = remember_locks("t", &from(item("m", 10), &[("a", 1, 1)]));
    let other = remember_locks("t", &item("z", 10));
    assert!(!clash(&write, &other), "two writes of other ids run at once");
    assert!(clash(&write, &remember_locks("t", &item("a", 10))), "a source is locked too");
    assert!(clash(&write, &cascade_locks("t")));
    assert!(clash(&write, &forget_locks("t", "a")));
    assert!(!clash(&write, &forget_locks("t", "z")));
    assert!(clash(&write, &subject_locks("t", &item("m", 10).subject)));
    assert!(!clash(&write, &hold_locks("t")));
    assert!(clash(&hold_locks("t"), &sweep_locks("t")));
    assert!(!clash(&cascade_locks("t"), &cascade_locks("u")));
}

fn at(secs: i64, millis: u32) -> Instant {
    Instant { secs, nanos: millis * 1_000_000 }
}

fn as_of(when: Instant) -> Recall {
    Recall { subject: "ann".to_owned(), purpose: None, limit: 9, as_of: Some(when) }
}

#[test]
fn a_life_ends_within_its_second() {
    let mut b = MemoryBook::new();
    let mut m = item("m", 1);
    m.expires_at = Some(at(10, 500));
    b.remember("t", m).expect("write");
    assert_eq!(b.recall("t", &as_of(at(10, 300))).len(), 1);
    assert!(b.recall("t", &as_of(at(10, 500))).is_empty());
    assert_eq!(b.sweep_expired("t", at(10, 499)), 0);
    assert_eq!(b.sweep_expired("t", at(10, 500)), 1);
    assert!(at(9, 999).is_no_later(at(10, 0)) && !at(10, 1).is_no_later(at(10, 0)));
}

#[test]
fn a_shared_life_ends_with_its_second() {
    let mut b = MemoryBook::new();
    let mut m = item("m", 1);
    m.expires_at = Some(at(10, 500));
    remember_shared(&mut b, "t", m).expect("write");
    assert_eq!(recall_shared(&b, "t", &as_of(at(9, 999))).expect("read").len(), 1);
    assert!(recall_shared(&b, "t", &as_of(at(10, 300))).expect("read").is_empty());
    assert_eq!(sweep_shared(&mut b, "t", at(9, 999)), 0);
    assert_eq!(sweep_shared(&mut b, "t", at(10, 0)), 1);
    assert!(b.check());
}

#[test]
fn shared_derivatives_come_newest_first() {
    let mut b = MemoryBook::new();
    b.remember("t", item("src", 1)).expect("source");
    for (id, when) in [("a", 20), ("b", 40), ("c", 30), ("d", 30)] {
        b.remember("t", from(item(id, when), &[("src", 1, 1)])).expect("derived");
    }
    let ids: Vec<String> = derivatives_shared(&b, "t", "src").into_iter().map(|i| i.id).collect();
    assert_eq!(ids, ["b", "c", "d", "a"]);
}
