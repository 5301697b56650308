//! Cases in a shared database: what it answers where its answer is not the one
//! that a single node's tables give.

use vstd::prelude::*;

use crate::cases::{
    case_closed, case_keys, case_opened, case_runs, cases_of, correlate_answer, deadline_moved,
    deadline_state_of, deadlines_of, first_open, runs_of, status_of, status_rows, status_set, unmet,
    unmet_in, with_status, BlobKey, Case, CaseBook, CaseModel, CaseState, Correlation, Deadline,
    DeadlineModel, DeadlineRow, DeadlineRowModel, DueName, RunSlot, StatusKey,
};
use crate::domain::{
    deadline_state_from, deadline_word, is_deadline_word, is_outstanding, is_status_word, keys_of,
    outstanding, parse_json, reading, status_from, status_word, CaseStatus, CorrelationKey,
    DeadlineState, Fault, IdModel, StoredId,
};
use crate::error::{Refusal, StoreError};
use crate::row::{digest, Digest};
use crate::table::{chosen, listed, page, Newest, Pick, Stamp};
use crate::text::{dec, decimal, join5, same, texts};
use crate::timers::{bad, corrupt};

verus! {

// ── Correlating ─────────────────────────────────────────────────────────────

/// What a message about some keys is answered: the case it is about.
pub open spec fn shared_correlate_answer(
    st: CaseState,
    t: Seq<char>,
    keys: Seq<(Seq<char>, Seq<char>)>,
) -> Result<Option<Seq<char>>, Refusal> {
    match first_open(st, t, keys, keys.len() as int) {
        None => Ok(None),
        Some(id) => match id.fault {
            Some(f) => Err(bad("bad case id"@, f)),
            None => Ok(Some(id.text)),
        },
    }
}

/// The open case that a message about some keys is about.
pub fn correlate_shared(book: &CaseBook, tenant: &str, keys: &Vec<CorrelationKey>) -> (r: Result<
    Option<String>,
    StoreError,
>)
    ensures
        shared_correlate_answer(book@, tenant@, keys_of(keys@)) == match r {
            Ok(Some(case)) => Ok::<Option<Seq<char>>, Refusal>(Some(case@)),
            Ok(None) => Ok::<Option<Seq<char>>, Refusal>(None),
            Err(e) => Err::<Option<Seq<char>>, Refusal>(e@),
        },
{
    match book.first_open(tenant, keys) {
        None => Ok(None),
        Some(id) => match &id.fault {
            Some(f) => Err(corrupt("bad case id", f)),
            None => Ok(Some(id.text.clone())),
        },
    }
}

/// What a message is answered whose keys nobody has and cannot be claimed.
pub open spec fn contended() -> Refusal {
    Refusal::Backend(
        "could not open or attach a case: the correlation key is being opened and closed concurrently"@,
    )
}

/// Attaches a message to the open case that it is about, or opens a case for it
/// under `fresh`. A list that names one key twice loses to itself, and is told
/// that the key is contended.
pub fn correlate_or_open_shared(
    book: &mut CaseBook,
    tenant: &str,
    kind: &str,
    keys: &Vec<CorrelationKey>,
    at: i64,
    fresh: String,
) -> (r: Result<Correlation, StoreError>)
    ensures
        old(book)@.wf() && !old(book)@.cases.contains_key((tenant@, fresh@)) ==> final(book)@.wf(),
        match shared_correlate_answer(old(book)@, tenant@, keys_of(keys@)) {
            Err(e) => r matches Err(g) && g@ == e && final(book)@ == old(book)@,
            Ok(Some(case)) => r matches Ok(Correlation::Attached(c)) && c@ == case && final(book)@
                == old(book)@,
            Ok(None) => if exists|i: int| crate::cases::repeats(keys_of(keys@), i) {
                r matches Err(e) && e@ == contended() && final(book)@ == old(book)@
            } else {
                r matches Ok(Correlation::Opened(c)) && c@ == fresh@ && final(book)@ == case_opened(
                    old(book)@,
                    tenant@,
                    fresh@,
                    kind@,
                    keys_of(keys@),
                    at,
                )
            },
        },
{
    match correlate_shared(book, tenant, keys) {
        Err(e) => {
            return Err(e);
        },
        Ok(Some(case)) => {
            return Ok(Correlation::Attached(case));
        },
        Ok(None) => {},
    }
    let ghost ks = keys_of(keys@);
    assert(correlate_answer(book@, tenant@, ks) == Ok::<Option<Seq<char>>, Refusal>(None));
    match book.correlate_or_open(tenant, kind, keys, at, fresh) {
        Ok(c) => Ok(c),
        Err(_) => {
            proof {
                let i = choose|i: int| #[trigger] crate::cases::first_repeat(ks, i);
                assert(crate::cases::repeats(ks, i));
            }
            Err(
                StoreError::Backend(
                    "could not open or attach a case: the correlation key is being opened and closed concurrently".to_owned(),
                ),
            )
        },
    }
}

// ── Reading a case ──────────────────────────────────────────────────────────

/// The first run of a case that is no run id, and what is wrong with it.
pub open spec fn bad_run(rows: Seq<(RunSlot, IdModel)>, i: int) -> bool {
    &&& 0 <= i < rows.len()
    &&& rows[i].1.fault is Some
    &&& forall|j: int| 0 <= j < i ==> (#[trigger] rows[j]).1.fault is None
}

/// How a case reads, given what its state parsed to. A status that is none comes
/// first, a state that does not parse next, then an instant that is none, and
/// last a run that is none.
pub open spec fn shared_case_read(
    st: CaseState,
    t: Seq<char>,
    case: Seq<char>,
    parsed: Result<Seq<char>, Seq<char>>,
) -> Result<CaseModel, Refusal> {
    let row = st.cases[(t, case)];
    let rows = case_runs(st, t, case);
    if !is_status_word(row.status) {
        Err(bad("unknown case status"@, row.status))
    } else {
        match parsed {
            Err(f) => Err(Refusal::Backend(f)),
            Ok(state) => match row.opened_fault {
                Some(f) => Err(bad("unrepresentable opened_at"@, f)),
                None => if exists|i: int| bad_run(rows, i) {
                    Err(bad("bad run id"@, rows[choose|i: int| bad_run(rows, i)].1.fault->0))
                } else {
                    Ok(
                        CaseModel {
                            id: case,
                            kind: row.kind,
                            status: status_of(row.status),
                            correlation: case_keys(st, t, case),
                            state,
                            version: row.version,
                            opened_at: row.opened_at,
                            runs: Seq::new(rows.len(), |i: int| rows[i].1.text),
                        },
                    )
                },
            },
        }
    }
}

/// What asking for a case answers, given what its state parsed to.
pub open spec fn shared_case_answer(
    st: CaseState,
    t: Seq<char>,
    case: Seq<char>,
    parsed: Result<Seq<char>, Seq<char>>,
) -> Result<Option<CaseModel>, Refusal> {
    if st.cases.contains_key((t, case)) {
        match shared_case_read(st, t, case, parsed) {
            Ok(c) => Ok(Some(c)),
            Err(e) => Err(e),
        }
    } else {
        Ok(None)
    }
}

struct OfCase<'a> {
    tenant: &'a str,
    case: &'a str,
}

impl<'a> Pick<(String, (String, u64)), StoredId> for OfCase<'a> {
    closed spec fn picks(&self, k: RunSlot, r: IdModel) -> bool {
        k.0 == self.tenant@ && k.1.0 == self.case@
    }

    fn test(&self, k: &(String, (String, u64)), r: &StoredId) -> (b: bool) {
        same(&k.0, self.tenant) && same(&k.1.0, self.case)
    }
}

/// The runs of a case, in the order they were attached, or what is wrong with the
/// first that is none.
fn runs_shared(book: &CaseBook, tenant: &str, case: &str) -> (r: Result<Vec<String>, StoreError>)
    ensures
        ({
            let rows = case_runs(book@, tenant@, case@);
            match r {
                Ok(runs) => (forall|i: int| !bad_run(rows, i)) && texts(runs@) == Seq::new(
                    rows.len(),
                    |i: int| rows[i].1.text,
                ),
                Err(e) => exists|i: int| #[trigger]
                    bad_run(rows, i) && e@ == bad("bad run id"@, rows[i].1.fault->0),
            }
        }),
{
    let keys = book.runs.select(
        &OfCase { tenant, case },
        usize::MAX,
        Ghost(runs_of(tenant@, case@)),
    );
    let ghost rows = case_runs(book@, tenant@, case@);
    let mut out: Vec<String> = Vec::new();
    let mut i: usize = 0;
    while i < keys.len()
        invariant
            i <= keys@.len(),
            keys@.len() == rows.len(),
            rows == case_runs(book@, tenant@, case@),
            out@.len() == i,
            forall|j: int|
                0 <= j < keys@.len() ==> (#[trigger] keys@[j])@ == rows[j].0
                    && book@.runs.contains_key(rows[j].0) && book@.runs[rows[j].0] == rows[j].1,
            forall|j: int| 0 <= j < i ==> (#[trigger] rows[j]).1.fault is None,
            forall|j: int| 0 <= j < i ==> (#[trigger] out@[j])@ == rows[j].1.text,
        decreases keys@.len() - i,
    {
        assert(keys@[i as int]@ == rows[i as int].0);
        match book.runs.get(&keys[i]) {
            Some(id) => {
                if let Some(f) = &id.fault {
                    assert(bad_run(rows, i as int));
                    return Err(corrupt("bad run id", f));
                }
                out.push(id.text.clone());
            },
            None => {
                return Ok(out);
            },
        }
        i = i + 1;
    }
    assert(texts(out@) =~= Seq::new(rows.len(), |i: int| rows[i].1.text));
    Ok(out)
}

proof fn lemma_bad_run_is_one(rows: Seq<(RunSlot, IdModel)>, a: int, b: int)
    requires
        bad_run(rows, a),
        bad_run(rows, b),
    ensures
        a == b,
{
}

/// A case, given what its state parsed to.
pub fn case_shared_with(
    book: &CaseBook,
    tenant: &str,
    id: &str,
    parsed: Result<String, String>,
) -> (r: Result<Option<Case>, StoreError>)
    ensures
        shared_case_answer(book@, tenant@, id@, reading(parsed)) == match r {
            Ok(Some(c)) => Ok::<Option<CaseModel>, Refusal>(Some(c@)),
            Ok(None) => Ok::<Option<CaseModel>, Refusal>(None),
            Err(e) => Err::<Option<CaseModel>, Refusal>(e@),
        },
{
    let row = match book.cases.get(&(tenant.to_owned(), id.to_owned())) {
        None => {
            return Ok(None);
        },
        Some(row) => row,
    };
    let ghost rows = case_runs(book@, tenant@, id@);
    let status = match status_from(&row.status) {
        Err(_) => {
            return Err(corrupt("unknown case status", &row.status));
        },
        Ok(status) => status,
    };
    let state = match parsed {
        Err(f) => {
            return Err(StoreError::Backend(f));
        },
        Ok(state) => state,
    };
    if let Some(f) = &row.opened_fault {
        return Err(corrupt("unrepresentable opened_at", f));
    }
    let runs = match runs_shared(book, tenant, id) {
        Err(e) => {
            proof {
                let i = choose|i: int| #[trigger]
                    bad_run(rows, i) && e@ == bad("bad run id"@, rows[i].1.fault->0);
                let j = choose|j: int| bad_run(rows, j);
                lemma_bad_run_is_one(rows, i, j);
            }
            return Err(e);
        },
        Ok(runs) => runs,
    };
    proof {
        crate::domain::law_status_words_differ(status, status_of(row@.status));
    }
    Ok(
        Some(
            Case {
                id: id.to_owned(),
                kind: row.kind.clone(),
                status,
                correlation: book.load_keys(tenant, id),
                state,
                version: row.version,
                opened_at: row.opened_at,
                runs,
            },
        ),
    )
}

/// A case. A state that does not parse is refused.
pub fn case_shared(book: &CaseBook, tenant: &str, id: &str) -> (r: Result<Option<Case>, StoreError>)
    ensures
        shared_case_answer(
            book@,
            tenant@,
            id@,
            crate::domain::json_read(book@.cases[(tenant@, id@)].state),
        ) == match r {
            Ok(Some(c)) => Ok::<Option<CaseModel>, Refusal>(Some(c@)),
            Ok(None) => Ok::<Option<CaseModel>, Refusal>(None),
            Err(e) => Err::<Option<CaseModel>, Refusal>(e@),
        },
{
    let parsed = match book.cases.get(&(tenant.to_owned(), id.to_owned())) {
        None => {
            return Ok(None);
        },
        Some(row) => parse_json(&row.state),
    };
    case_shared_with(book, tenant, id, parsed)
}

/// How the cases in the first `n` places of the worklist read, up to the first
/// that does not. A place whose case is not there is passed over.
pub open spec fn shared_worklist_read(
    st: CaseState,
    t: Seq<char>,
    rows: Seq<(StatusKey, Option<Seq<char>>)>,
    n: int,
) -> Result<Seq<CaseModel>, Refusal>
    decreases n,
{
    if n <= 0 {
        Ok(Seq::empty())
    } else {
        match shared_worklist_read(st, t, rows, n - 1) {
            Err(e) => Err(e),
            Ok(out) => match rows[n - 1].1 {
                Some(f) => Err(bad("bad case id"@, f)),
                None => {
                    let case = rows[n - 1].0.1.1.1;
                    match shared_case_answer(
                        st,
                        t,
                        case,
                        crate::domain::json_read(st.cases[(t, case)].state),
                    ) {
                        Err(e) => Err(e),
                        Ok(None) => Ok(out),
                        Ok(Some(c)) => Ok(out.push(c)),
                    }
                },
            },
        }
    }
}

proof fn lemma_worklist_refused(
    st: CaseState,
    t: Seq<char>,
    rows: Seq<(StatusKey, Option<Seq<char>>)>,
    n: int,
    m: int,
)
    requires
        n <= m,
        shared_worklist_read(st, t, rows, n) is Err,
    ensures
        shared_worklist_read(st, t, rows, m) == shared_worklist_read(st, t, rows, n),
    decreases m - n,
{
    if n < m {
        lemma_worklist_refused(st, t, rows, n, m - 1);
    }
}

struct WithStatus<'a> {
    tenant: &'a str,
    status: &'a str,
}

impl<'a> Pick<(String, (String, (Newest, String))), Fault> for WithStatus<'a> {
    closed spec fn picks(&self, k: StatusKey, r: Option<Seq<char>>) -> bool {
        k.0 == self.tenant@ && k.1.0 == self.status@
    }

    fn test(&self, k: &(String, (String, (Newest, String))), r: &Fault) -> (b: bool) {
        same(&k.0, self.tenant) && same(&k.1.0, self.status)
    }
}

/// What asking for the cases with a status answers.
pub open spec fn shared_worklist(st: CaseState, t: Seq<char>, status: CaseStatus, limit: usize) -> Result<
    Seq<CaseModel>,
    Refusal,
> {
    let rows = status_rows(st, t, status_word(status));
    shared_worklist_read(st, t, rows, page(rows.len(), limit))
}

/// The cases with a status, newest first and no more than `limit` of them.
pub fn by_status_shared(book: &CaseBook, tenant: &str, status: CaseStatus, limit: usize) -> (r:
    Result<Vec<Case>, StoreError>)
    ensures
        shared_worklist(book@, tenant@, status, limit) == match r {
            Ok(out) => Ok::<Seq<CaseModel>, Refusal>(cases_of(out@)),
            Err(e) => Err::<Seq<CaseModel>, Refusal>(e@),
        },
{
    let word = status.as_str();
    let found = book.by_status.select(
        &WithStatus { tenant, status: word },
        limit,
        Ghost(with_status(tenant@, word@)),
    );
    let ghost rows = status_rows(book@, tenant@, status_word(status));
    let mut out: Vec<Case> = Vec::new();
    let mut i: usize = 0;
    assert(cases_of(out@) =~= Seq::<CaseModel>::empty());
    while i < found.len()
        invariant
            i <= found@.len(),
            found@.len() == page(rows.len(), limit),
            rows == status_rows(book@, tenant@, status_word(status)),
            forall|j: int|
                0 <= j < found@.len() ==> (#[trigger] found@[j])@ == rows[j].0
                    && book@.by_status.contains_key(rows[j].0) && book@.by_status[rows[j].0]
                    == rows[j].1,
            shared_worklist_read(book@, tenant@, rows, i as int) == Ok::<Seq<CaseModel>, Refusal>(
                cases_of(out@),
            ),
        decreases found@.len() - i,
    {
        assert(found@[i as int]@ == rows[i as int].0);
        let id = &found[i].1.1.1;
        if let Some(fault) = book.by_status.get(&found[i]) {
            if let Some(f) = &fault.said {
                proof {
                    lemma_worklist_refused(book@, tenant@, rows, i + 1, found@.len() as int);
                }
                return Err(corrupt("bad case id", f));
            }
        }
        match case_shared(book, tenant, id) {
            Err(e) => {
                proof {
                    lemma_worklist_refused(book@, tenant@, rows, i + 1, found@.len() as int);
                }
                return Err(e);
            },
            Ok(None) => {},
            Ok(Some(c)) => {
                let ghost so_far = cases_of(out@);
                let ghost last = c@;
                out.push(c);
                assert(cases_of(out@) =~= so_far.push(last));
            },
        }
        i = i + 1;
    }
    Ok(out)
}

// ── Closing ─────────────────────────────────────────────────────────────────

pub open spec fn shared_unmet_text(case: Seq<char>, n: int) -> Seq<char> {
    "case "@ + case + " has "@ + decimal(n) + " unmet obligation(s) and cannot be closed"@
}

/// What closing a case is refused with: an obligation that is not met, and
/// nothing else.
pub open spec fn shared_close_refusal(st: CaseState, t: Seq<char>, case: Seq<char>) -> Option<
    Refusal,
> {
    if unmet(st, t, case) > 0 {
        Some(Refusal::Backend(shared_unmet_text(case, unmet(st, t, case) as int)))
    } else {
        None
    }
}

/// The tables after a case was closed. One that is not there changes nothing.
pub open spec fn shared_closed(st: CaseState, t: Seq<char>, case: Seq<char>) -> CaseState {
    if st.cases.contains_key((t, case)) {
        case_closed(st, t, case)
    } else {
        st
    }
}

struct UnmetOf<'a> {
    tenant: &'a str,
    case: &'a str,
}

impl<'a> Pick<(String, (String, String)), DeadlineRow> for UnmetOf<'a> {
    closed spec fn picks(&self, k: DueName, r: DeadlineRowModel) -> bool {
        k.0 == self.tenant@ && k.1.0 == self.case@ && outstanding(r.state)
    }

    fn test(&self, k: &(String, (String, String)), r: &DeadlineRow) -> (b: bool) {
        same(&k.0, self.tenant) && same(&k.1.0, self.case) && is_outstanding(&r.state)
    }
}

/// Closes a case and lets go of its keys. A case with an obligation that is not
/// met is not closed; a case that is not there is closed already.
pub fn close_shared(book: &mut CaseBook, tenant: &str, case: &str) -> (r: Result<(), StoreError>)
    ensures
        old(book)@.wf() ==> final(book)@.wf(),
        match r {
            Ok(_) => shared_close_refusal(old(book)@, tenant@, case@) is None && final(book)@
                == shared_closed(old(book)@, tenant@, case@),
            Err(e) => shared_close_refusal(old(book)@, tenant@, case@) == Some(e@) && final(book)@
                == old(book)@,
        },
{
    let n = book.deadlines.tally(&UnmetOf { tenant, case }, Ghost(unmet_in(tenant@, case@)));
    if n > 0 {
        return Err(
            StoreError::Backend(
                join5(
                    "case ",
                    case,
                    " has ",
                    &dec(n as u64),
                    " unmet obligation(s) and cannot be closed",
                ),
            ),
        );
    }
    match book.close(tenant, case) {
        Ok(_) => Ok(()),
        Err(_) => Ok(()),
    }
}

/// Gives a case a status. To be closed is to be closed in full.
pub fn set_status_shared(book: &mut CaseBook, tenant: &str, case: &str, status: CaseStatus) -> (r:
    Result<(), StoreError>)
    ensures
        old(book)@.wf() ==> final(book)@.wf(),
        match r {
            Ok(_) => if status == CaseStatus::Closed {
                shared_close_refusal(old(book)@, tenant@, case@) is None && final(book)@
                    == shared_closed(old(book)@, tenant@, case@)
            } else {
                old(book)@.cases.contains_key((tenant@, case@)) && final(book)@ == status_set(
                    old(book)@,
                    tenant@,
                    case@,
                    status_word(status),
                )
            },
            Err(e) => final(book)@ == old(book)@ && Some(e@) == if status == CaseStatus::Closed {
                shared_close_refusal(old(book)@, tenant@, case@)
            } else if old(book)@.cases.contains_key((tenant@, case@)) {
                None
            } else {
                Some(Refusal::NotFound(case@))
            },
        },
{
    match status {
        CaseStatus::Closed => close_shared(book, tenant, case),
        _ => book.set_status(tenant, case, status),
    }
}

// ── Obligations ─────────────────────────────────────────────────────────────

/// Gives an obligation a state. One that is not there is passed over.
pub fn set_deadline_state_shared(
    book: &mut CaseBook,
    tenant: &str,
    case: &str,
    name: &str,
    state: DeadlineState,
)
    ensures
        old(book)@.wf() ==> final(book)@.wf(),
        final(book)@ == if old(book)@.deadlines.contains_key((tenant@, (case@, name@))) {
            deadline_moved(old(book)@, tenant@, case@, name@, deadline_word(state))
        } else {
            old(book)@
        },
{
    let _ = book.set_deadline_state(tenant, case, name, state);
}

/// What an obligation's instants are refused with, where one is none.
pub open spec fn shared_instants_refused(row: DeadlineRowModel) -> Option<Refusal> {
    match (row.resolved_fault, row.warn_at, row.warn_fault) {
        (Some(f), _, _) => Some(bad("unrepresentable deadline"@, f)),
        (None, Some(_), Some(f)) => Some(bad("unrepresentable warn_at"@, f)),
        _ => None,
    }
}

/// How an obligation reads: a digest of another length is damage, and so are a
/// case id, an instant and a state that are none.
pub open spec fn shared_deadline_read(k: DueName, row: DeadlineRowModel) -> Result<
    DeadlineModel,
    Refusal,
> {
    if row.calendar_digest.len() != 32 {
        Err(bad("calendar digest"@, "not 32 bytes"@))
    } else if row.fault is Some {
        Err(bad("bad case id"@, row.fault->0))
    } else if shared_instants_refused(row) is Some {
        Err(shared_instants_refused(row)->0)
    } else if !is_deadline_word(row.state) {
        Err(bad("unknown deadline state"@, row.state))
    } else {
        Ok(
            DeadlineModel {
                case: k.1.0,
                name: k.1.1,
                resolved_at: row.resolved_at,
                calendar_digest: row.calendar_digest,
                warn_at: row.warn_at,
                state: deadline_state_of(row.state),
            },
        )
    }
}

/// Reads an obligation.
fn deadline_from(k: &(String, (String, String)), row: &DeadlineRow) -> (r: Result<
    Deadline,
    StoreError,
>)
    ensures
        shared_deadline_read(k@, row@) == match r {
            Ok(d) => Ok::<DeadlineModel, Refusal>(d@),
            Err(e) => Err::<DeadlineModel, Refusal>(e@),
        },
{
    let calendar_digest = match digest(row.calendar_digest.as_slice()) {
        Ok(d) => d,
        Err(_) => {
            return Err(corrupt("calendar digest", "not 32 bytes"));
        },
    };
    if let Some(f) = &row.fault {
        return Err(corrupt("bad case id", f));
    }
    if let Some(f) = &row.resolved_fault {
        return Err(corrupt("unrepresentable deadline", f));
    }
    if row.warn_at.is_some() {
        if let Some(f) = &row.warn_fault {
            return Err(corrupt("unrepresentable warn_at", f));
        }
    }
    match deadline_state_from(&row.state) {
        Err(_) => Err(corrupt("unknown deadline state", &row.state)),
        Ok(state) => {
            proof {
                crate::domain::law_deadline_words_differ(state, deadline_state_of(row@.state));
            }
            Ok(
                Deadline {
                    case: k.1.0.clone(),
                    name: k.1.1.clone(),
                    resolved_at: row.resolved_at,
                    calendar_digest,
                    warn_at: row.warn_at,
                    state,
                },
            )
        },
    }
}

/// How the first `n` obligations of a list read, up to the first that does not.
pub open spec fn shared_deadlines_read(st: CaseState, keys: Seq<DueName>, n: int) -> Result<
    Seq<DeadlineModel>,
    Refusal,
>
    decreases n,
{
    if n <= 0 {
        Ok(Seq::empty())
    } else {
        match shared_deadlines_read(st, keys, n - 1) {
            Err(e) => Err(e),
            Ok(out) => match shared_deadline_read(keys[n - 1], st.deadlines[keys[n - 1]]) {
                Err(e) => Err(e),
                Ok(d) => Ok(out.push(d)),
            },
        }
    }
}

proof fn lemma_deadlines_refused(st: CaseState, keys: Seq<DueName>, n: int, m: int)
    requires
        n <= m,
        shared_deadlines_read(st, keys, n) is Err,
    ensures
        shared_deadlines_read(st, keys, m) == shared_deadlines_read(st, keys, n),
    decreases m - n,
{
    if n < m {
        lemma_deadlines_refused(st, keys, n, m - 1);
    }
}

/// When each obligation of a case is due.
pub open spec fn due_of_case(t: Seq<char>, case: Seq<char>) -> spec_fn(
    (DueName, DeadlineRowModel),
) -> Option<i64> {
    |e: (DueName, DeadlineRowModel)|
        if e.0.0 == t && e.0.1.0 == case {
            Some(e.1.resolved_at)
        } else {
            None
        }
}

/// When each outstanding obligation is due that has come due or warns by now.
pub open spec fn due_or_warning(t: Seq<char>, now: i64) -> spec_fn(
    (DueName, DeadlineRowModel),
) -> Option<i64> {
    |e: (DueName, DeadlineRowModel)|
        if e.0.0 == t && outstanding(e.1.state) && (e.1.resolved_at <= now || (e.1.warn_at matches Some(
            w,
        ) && w <= now)) {
            Some(e.1.resolved_at)
        } else {
            None
        }
}

/// The names on a page of a list of obligations.
pub open spec fn paged(rows: Seq<((i64, DueName), ())>, limit: usize) -> Seq<DueName> {
    Seq::new(page(rows.len(), limit) as nat, |i: int| rows[i].0.1)
}

impl<'a> Stamp<(String, (String, String)), DeadlineRow> for OfCase<'a> {
    closed spec fn stamp(&self, k: DueName, r: DeadlineRowModel) -> Option<i64> {
        if k.0 == self.tenant@ && k.1.0 == self.case@ {
            Some(r.resolved_at)
        } else {
            None
        }
    }

    fn instant(&self, k: &(String, (String, String)), r: &DeadlineRow) -> (at: Option<i64>) {
        if same(&k.0, self.tenant) && same(&k.1.0, self.case) {
            Some(r.resolved_at)
        } else {
            None
        }
    }
}

struct DueOrWarning<'a> {
    tenant: &'a str,
    now: i64,
}

impl<'a> Stamp<(String, (String, String)), DeadlineRow> for DueOrWarning<'a> {
    closed spec fn stamp(&self, k: DueName, r: DeadlineRowModel) -> Option<i64> {
        due_or_warning(self.tenant@, self.now)((k, r))
    }

    fn instant(&self, k: &(String, (String, String)), r: &DeadlineRow) -> (at: Option<i64>) {
        let warns = match r.warn_at {
            Some(w) => w <= self.now,
            None => false,
        };
        if same(&k.0, self.tenant) && is_outstanding(&r.state) && (r.resolved_at <= self.now
            || warns) {
            Some(r.resolved_at)
        } else {
            None
        }
    }
}

/// Reads the obligations under some names.
fn collect(
    book: &CaseBook,
    keys: &Vec<(String, (String, String))>,
    want: Ghost<Seq<DueName>>,
) -> (r: Result<Vec<Deadline>, StoreError>)
    requires
        keys@.len() == want@.len(),
        forall|i: int|
            0 <= i < keys@.len() ==> (#[trigger] keys@[i])@ == want@[i]
                && book@.deadlines.contains_key(want@[i]),
    ensures
        shared_deadlines_read(book@, want@, want@.len() as int) == match r {
            Ok(out) => Ok::<Seq<DeadlineModel>, Refusal>(deadlines_of(out@)),
            Err(e) => Err::<Seq<DeadlineModel>, Refusal>(e@),
        },
{
    let mut out: Vec<Deadline> = Vec::new();
    let mut i: usize = 0;
    assert(deadlines_of(out@) =~= Seq::<DeadlineModel>::empty());
    while i < keys.len()
        invariant
            i <= keys@.len(),
            keys@.len() == want@.len(),
            forall|j: int|
                0 <= j < keys@.len() ==> (#[trigger] keys@[j])@ == want@[j]
                    && book@.deadlines.contains_key(want@[j]),
            shared_deadlines_read(book@, want@, i as int) == Ok::<Seq<DeadlineModel>, Refusal>(
                deadlines_of(out@),
            ),
        decreases keys@.len() - i,
    {
        assert(keys@[i as int]@ == want@[i as int]);
        match book.deadlines.get(&keys[i]) {
            Some(row) => match deadline_from(&keys[i], row) {
                Ok(d) => {
                    let ghost so_far = deadlines_of(out@);
                    let ghost last = d@;
                    out.push(d);
                    assert(deadlines_of(out@) =~= so_far.push(last));
                },
                Err(e) => {
                    proof {
                        lemma_deadlines_refused(book@, want@, i + 1, want@.len() as int);
                    }
                    return Err(e);
                },
            },
            None => {},
        }
        i = i + 1;
    }
    Ok(out)
}

/// How a page of obligations reads that are listed by an instant.
pub open spec fn shared_page(
    st: CaseState,
    f: spec_fn((DueName, DeadlineRowModel)) -> Option<i64>,
    limit: usize,
) -> Result<Seq<DeadlineModel>, Refusal> {
    let keys = paged(
        listed::<(String, (String, String)), DeadlineRowModel>(st.deadlines, f),
        limit,
    );
    shared_deadlines_read(st, keys, keys.len() as int)
}

/// The obligations of a case, by when they are due.
pub fn deadlines_shared(book: &CaseBook, tenant: &str, case: &str) -> (r: Result<
    Vec<Deadline>,
    StoreError,
>)
    ensures
        shared_page(book@, due_of_case(tenant@, case@), usize::MAX) == match r {
            Ok(out) => Ok::<Seq<DeadlineModel>, Refusal>(deadlines_of(out@)),
            Err(e) => Err::<Seq<DeadlineModel>, Refusal>(e@),
        },
{
    let ghost f = due_of_case(tenant@, case@);
    let keys = book.deadlines.list(&OfCase { tenant, case }, usize::MAX, Ghost(f));
    collect(
        book,
        &keys,
        Ghost(
            paged(
                listed::<(String, (String, String)), DeadlineRowModel>(book@.deadlines, f),
                usize::MAX,
            ),
        ),
    )
}

/// The outstanding obligations that have come due or warn by now, the earliest
/// due first and no more than `limit` of them.
pub fn due_shared(book: &CaseBook, tenant: &str, now: i64, limit: usize) -> (r: Result<
    Vec<Deadline>,
    StoreError,
>)
    ensures
        shared_page(book@, due_or_warning(tenant@, now), limit) == match r {
            Ok(out) => Ok::<Seq<DeadlineModel>, Refusal>(deadlines_of(out@)),
            Err(e) => Err::<Seq<DeadlineModel>, Refusal>(e@),
        },
{
    let ghost f = due_or_warning(tenant@, now);
    let keys = book.deadlines.list(&DueOrWarning { tenant, now }, limit, Ghost(f));
    collect(
        book,
        &keys,
        Ghost(
            paged(
                listed::<(String, (String, String)), DeadlineRowModel>(book@.deadlines, f),
                limit,
            ),
        ),
    )
}

// ── Blobs ───────────────────────────────────────────────────────────────────

/// The links of a case to some content.
pub open spec fn links_to(t: Seq<char>, case: Seq<char>, content: Seq<u8>) -> spec_fn(
    (BlobKey, ()),
) -> bool {
    |e: (BlobKey, ())| e.0.0 == t && e.0.1.0 == case && e.0.1.1.1 == content
}

/// The tables after content was linked to a case. The same content is linked
/// once, when it first was.
pub open spec fn blob_linked(
    st: CaseState,
    t: Seq<char>,
    case: Seq<char>,
    content: Seq<u8>,
    at: i64,
) -> CaseState {
    if chosen::<(String, (String, (i64, Vec<u8>))), ()>(
        st.blobs,
        links_to(t, case, content),
    ).len() > 0 {
        st
    } else {
        CaseState { blobs: st.blobs.insert((t, (case, (at, content))), ()), ..st }
    }
}

struct LinksTo<'a> {
    tenant: &'a str,
    case: &'a str,
    digest: &'a Digest,
}

impl<'a> Pick<(String, (String, (i64, Vec<u8>))), ()> for LinksTo<'a> {
    closed spec fn picks(&self, k: BlobKey, r: ()) -> bool {
        k.0 == self.tenant@ && k.1.0 == self.case@ && k.1.1.1 == self.digest@
    }

    fn test(&self, k: &(String, (String, (i64, Vec<u8>))), r: &()) -> (b: bool) {
        same(&k.0, self.tenant) && same(&k.1.0, self.case) && match digest(k.1.1.1.as_slice()) {
            Ok(d) => d.same(self.digest),
            Err(_) => false,
        }
    }
}

/// Links content to a case.
pub fn link_blob_shared(book: &mut CaseBook, tenant: &str, case: &str, digest: &Digest, at: i64)
    ensures
        old(book)@.wf() ==> final(book)@.wf(),
        final(book)@ == blob_linked(old(book)@, tenant@, case@, digest@, at),
{
    let n = book.blobs.tally(
        &LinksTo { tenant, case, digest },
        Ghost(links_to(tenant@, case@, digest@)),
    );
    if n == 0 {
        book.link_blob(tenant, case, digest, at);
    }
}

// ── Laws ────────────────────────────────────────────────────────────────────

/// Where nothing is damaged and every state parses, a shared database reads a case
/// as a single node does.
pub proof fn law_cases_read_alike(
    st: CaseState,
    t: Seq<char>,
    case: Seq<char>,
    parsed: Result<Seq<char>, Seq<char>>,
)
    requires
        crate::cases::case_answer(st, t, case, parsed) is Ok,
        parsed is Ok,
    ensures
        shared_case_answer(st, t, case, parsed) == crate::cases::case_answer(st, t, case, parsed),
{
    if st.cases.contains_key((t, case)) {
        let rows = case_runs(st, t, case);
        lemma_runs_read(rows, rows.len() as int);
        assert(forall|i: int| !bad_run(rows, i));
        assert(Seq::new(rows.len(), |i: int| rows[i].1.text) =~= crate::cases::runs_read(
            rows,
            rows.len() as int,
        )->Ok_0);
    }
}

proof fn lemma_runs_read(rows: Seq<(RunSlot, IdModel)>, n: int)
    requires
        0 <= n <= rows.len(),
        crate::cases::runs_read(rows, n) is Ok,
    ensures
        crate::cases::runs_read(rows, n)->Ok_0.len() == n,
        forall|i: int|
            0 <= i < n ==> (#[trigger] rows[i]).1.fault is None && crate::cases::runs_read(
                rows,
                n,
            )->Ok_0[i] == rows[i].1.text,
    decreases n,
{
    if n > 0 {
        lemma_runs_read(rows, n - 1);
    }
}

/// Closing a case that is there and has nothing unmet is the same everywhere.
pub proof fn law_closing_is_one(st: CaseState, t: Seq<char>, case: Seq<char>)
    requires
        st.cases.contains_key((t, case)),
    ensures
        shared_close_refusal(st, t, case) is None <==> crate::cases::close_refusal(
            st,
            t,
            case,
        ) is None,
        shared_closed(st, t, case) == case_closed(st, t, case),
{
}

} // verus!
