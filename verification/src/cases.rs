//! Cases: the matters that runs are about, their keys and their obligations.
//!
//! Two shapes carry the correctness. The open keys are a map from key to case,
//! so two cases open under one business key cannot be written down. And the
//! obligations still outstanding are kept by the instant at which each first
//! needs attention, so that the sweep finds what is due without reading the
//! rest.

use vstd::prelude::*;

use crate::cases_laws::{
    law_attaching_agrees, law_closing_agrees, law_deadline_moves_agree, law_linking_agrees,
    law_opening_agrees,
    law_putting_agrees, law_registering_agrees, law_status_moves_agree,
};
use crate::domain::{
    bad_instant, deadline_state_from, first_attention, is_outstanding, keys_of, no_instant,
    outstanding, parse_json, reading, status_from, trigger_at, value_or_null, CaseStatus,
    CorrelationKey, DeadlineState, Fault, IdModel, StoredId,
};
use crate::error::{Refusal, StoreError};
use crate::row::{digest, Digest};
use crate::table::{chosen, every, page, Newest, Pick, Table};
use crate::text::{copied, dec, join3, join4, join5, said, same};

verus! {

// ── What is stored ──────────────────────────────────────────────────────────

/// A case as it is stored.
#[derive(Debug)]
pub struct CaseRow {
    pub kind: String,
    pub status: String,
    /// The state, as JSON text.
    pub state: String,
    pub version: u64,
    pub opened_at: i64,
    /// What is wrong with that instant, where it is none.
    pub opened_fault: Option<String>,
}

/// What a [`CaseRow`] says.
pub struct CaseRowModel {
    pub kind: Seq<char>,
    pub status: Seq<char>,
    pub state: Seq<char>,
    pub version: u64,
    pub opened_at: i64,
    pub opened_fault: Option<Seq<char>>,
}

impl View for CaseRow {
    type V = CaseRowModel;

    open spec fn view(&self) -> CaseRowModel {
        CaseRowModel {
            kind: self.kind@,
            status: self.status@,
            state: self.state@,
            version: self.version,
            opened_at: self.opened_at,
            opened_fault: said(self.opened_fault),
        }
    }
}

impl CaseRow {
    fn twin(&self) -> (r: CaseRow)
        ensures
            r@ == self@,
    {
        CaseRow {
            kind: self.kind.clone(),
            status: self.status.clone(),
            state: self.state.clone(),
            version: self.version,
            opened_at: self.opened_at,
            opened_fault: copied(&self.opened_fault),
        }
    }
}

/// An obligation as it is stored.
#[derive(Debug)]
pub struct DeadlineRow {
    pub resolved_at: i64,
    pub calendar_digest: Vec<u8>,
    pub warn_at: Option<i64>,
    pub state: String,
    /// What is wrong with the case id the row is under, where it is none.
    pub fault: Option<String>,
    /// What is wrong with the instant it is due at, where it is none.
    pub resolved_fault: Option<String>,
    /// What is wrong with the instant it warns at, where it is none.
    pub warn_fault: Option<String>,
}

/// What a [`DeadlineRow`] says.
pub struct DeadlineRowModel {
    pub resolved_at: i64,
    pub calendar_digest: Seq<u8>,
    pub warn_at: Option<i64>,
    pub state: Seq<char>,
    pub fault: Option<Seq<char>>,
    pub resolved_fault: Option<Seq<char>>,
    pub warn_fault: Option<Seq<char>>,
}

impl View for DeadlineRow {
    type V = DeadlineRowModel;

    open spec fn view(&self) -> DeadlineRowModel {
        DeadlineRowModel {
            resolved_at: self.resolved_at,
            calendar_digest: self.calendar_digest@,
            warn_at: self.warn_at,
            state: self.state@,
            fault: said(self.fault),
            resolved_fault: said(self.resolved_fault),
            warn_fault: said(self.warn_fault),
        }
    }
}

// ── What is read ────────────────────────────────────────────────────────────

/// A case.
#[derive(Debug)]
pub struct Case {
    pub id: String,
    pub kind: String,
    pub status: CaseStatus,
    pub correlation: Vec<CorrelationKey>,
    /// The state, as JSON text.
    pub state: String,
    pub version: u64,
    pub opened_at: i64,
    pub runs: Vec<String>,
}

/// What a [`Case`] says.
#[verifier::ext_equal]
pub struct CaseModel {
    pub id: Seq<char>,
    pub kind: Seq<char>,
    pub status: CaseStatus,
    pub correlation: Seq<(Seq<char>, Seq<char>)>,
    pub state: Seq<char>,
    pub version: u64,
    pub opened_at: i64,
    pub runs: Seq<Seq<char>>,
}

impl View for Case {
    type V = CaseModel;

    open spec fn view(&self) -> CaseModel {
        CaseModel {
            id: self.id@,
            kind: self.kind@,
            status: self.status,
            correlation: keys_of(self.correlation@),
            state: self.state@,
            version: self.version,
            opened_at: self.opened_at,
            runs: crate::text::texts(self.runs@),
        }
    }
}

/// An obligation of a case.
#[derive(Debug)]
pub struct Deadline {
    pub case: String,
    pub name: String,
    pub resolved_at: i64,
    pub calendar_digest: Digest,
    pub warn_at: Option<i64>,
    pub state: DeadlineState,
}

/// What a [`Deadline`] says.
#[verifier::ext_equal]
pub struct DeadlineModel {
    pub case: Seq<char>,
    pub name: Seq<char>,
    pub resolved_at: i64,
    pub calendar_digest: Seq<u8>,
    pub warn_at: Option<i64>,
    pub state: DeadlineState,
}

impl View for Deadline {
    type V = DeadlineModel;

    open spec fn view(&self) -> DeadlineModel {
        DeadlineModel {
            case: self.case@,
            name: self.name@,
            resolved_at: self.resolved_at,
            calendar_digest: self.calendar_digest@,
            warn_at: self.warn_at,
            state: self.state,
        }
    }
}

/// What a list of obligations says.
pub open spec fn deadlines_of(v: Seq<Deadline>) -> Seq<DeadlineModel> {
    Seq::new(v.len(), |i: int| v[i]@)
}

/// What became of a message about some keys.
#[derive(Debug)]
pub enum Correlation {
    /// It is about a case that is open.
    Attached(String),
    /// It opened a case.
    Opened(String),
}

/// What the open cases come to.
#[derive(Debug)]
pub struct CaseCensus {
    pub open: u64,
    pub oldest_age_secs: Option<u64>,
    pub due: u64,
}

// ── The tables ──────────────────────────────────────────────────────────────

/// A tenant's case.
pub type CaseKey = (Seq<char>, Seq<char>);

/// A tenant's correlation key.
pub type OpenKey = (Seq<char>, (Seq<char>, Seq<char>));

/// A key that a case ever claimed.
pub type AllKey = (Seq<char>, (Seq<char>, (Seq<char>, Seq<char>)));

/// A blob of a case, by when it was written.
pub type BlobKey = (Seq<char>, (Seq<char>, (i64, Seq<u8>)));

/// A run of a case, in the order they were attached.
pub type RunSlot = (Seq<char>, (Seq<char>, u64));

/// A run of a case, by its id.
pub type RunSeen = (Seq<char>, (Seq<char>, Seq<char>));

/// An obligation of a case.
pub type DueName = (Seq<char>, (Seq<char>, Seq<char>));

/// An outstanding obligation, by when it first needs attention.
pub type DueKey = (Seq<char>, (i64, (Seq<char>, Seq<char>)));

/// A case that is not closed, by when it was opened.
pub type OpenSlot = (Seq<char>, (i64, Seq<char>));

/// A case by its status, newest first.
pub type StatusKey = (Seq<char>, (Seq<char>, (i64, Seq<char>)));

/// What the case tables hold.
#[verifier::ext_equal]
pub struct CaseState {
    pub cases: Map<CaseKey, CaseRowModel>,
    pub corr_open: Map<OpenKey, IdModel>,
    pub corr_all: Map<AllKey, ()>,
    pub blobs: Map<BlobKey, ()>,
    pub runs: Map<RunSlot, IdModel>,
    pub run_seen: Map<RunSeen, u64>,
    pub deadlines: Map<DueName, DeadlineRowModel>,
    pub due: Map<DueKey, i64>,
    pub open: Map<OpenSlot, Option<Seq<char>>>,
    pub by_status: Map<StatusKey, Option<Seq<char>>>,
}

/// The cases of a plane.
pub struct CaseBook {
    pub cases: Table<(String, String), CaseRow>,
    pub corr_open: Table<(String, (String, String)), StoredId>,
    pub corr_all: Table<(String, (String, (String, String))), ()>,
    pub blobs: Table<(String, (String, (i64, Vec<u8>))), ()>,
    pub runs: Table<(String, (String, u64)), StoredId>,
    pub run_seen: Table<(String, (String, String)), u64>,
    pub deadlines: Table<(String, (String, String)), DeadlineRow>,
    pub due: Table<(String, (i64, (String, String))), i64>,
    pub open: Table<(String, (i64, String)), Fault>,
    pub by_status: Table<(String, (String, (Newest, String))), Fault>,
}

impl View for CaseBook {
    type V = CaseState;

    open spec fn view(&self) -> CaseState {
        CaseState {
            cases: self.cases@,
            corr_open: self.corr_open@,
            corr_all: self.corr_all@,
            blobs: self.blobs@,
            runs: self.runs@,
            run_seen: self.run_seen@,
            deadlines: self.deadlines@,
            due: self.due@,
            open: self.open@,
            by_status: self.by_status@,
        }
    }
}

/// Tables with no cases.
pub open spec fn no_cases() -> CaseState {
    CaseState {
        cases: Map::empty(),
        corr_open: Map::empty(),
        corr_all: Map::empty(),
        blobs: Map::empty(),
        runs: Map::empty(),
        run_seen: Map::empty(),
        deadlines: Map::empty(),
        due: Map::empty(),
        open: Map::empty(),
        by_status: Map::empty(),
    }
}

impl CaseState {
    /// The open list has exactly the cases that are not closed.
    pub open spec fn open_agrees(self) -> bool {
        forall|k: OpenSlot| #[trigger]
            self.open.contains_key(k) <==> {
                &&& self.cases.contains_key((k.0, k.1.1))
                &&& self.cases[(k.0, k.1.1)].status != "closed"@
                &&& self.cases[(k.0, k.1.1)].opened_at == k.1.0
            }
    }

    /// The worklist has each case once, under the status it has.
    pub open spec fn status_agrees(self) -> bool {
        forall|k: StatusKey| #[trigger]
            self.by_status.contains_key(k) <==> {
                &&& self.cases.contains_key((k.0, k.1.1.1))
                &&& self.cases[(k.0, k.1.1.1)].status == k.1.0
                &&& self.cases[(k.0, k.1.1.1)].opened_at == k.1.1.0
            }
    }

    /// The due list has exactly the obligations that are outstanding, each under
    /// the instant at which it first needs attention.
    pub open spec fn due_agrees(self) -> bool {
        forall|k: DueKey| #[trigger]
            self.due.contains_key(k) <==> {
                let d = (k.0, k.1.1);
                &&& self.deadlines.contains_key(d)
                &&& outstanding(self.deadlines[d].state)
                &&& k.1.0 == first_attention(self.deadlines[d].resolved_at, self.deadlines[d].warn_at)
            }
    }

    /// The due list says when each of them is due.
    pub open spec fn due_says_when(self) -> bool {
        forall|k: DueKey| #[trigger]
            self.due.contains_key(k) ==> self.due[k] == self.deadlines[(k.0, k.1.1)].resolved_at
    }

    /// A run is attached to a case in one place.
    pub open spec fn runs_agree(self) -> bool {
        &&& forall|k: RunSlot| #[trigger]
            self.runs.contains_key(k) ==> {
                let s = (k.0, (k.1.0, self.runs[k].text));
                self.run_seen.contains_key(s) && self.run_seen[s] == k.1.1
            }
        &&& forall|s: RunSeen| #[trigger]
            self.run_seen.contains_key(s) ==> {
                let k = (s.0, (s.1.0, self.run_seen[s]));
                self.runs.contains_key(k) && self.runs[k].text == s.1.1
            }
    }

    /// A key that is open was claimed by the case that has it.
    pub open spec fn keys_agree(self) -> bool {
        forall|k: OpenKey| #[trigger]
            self.corr_open.contains_key(k) ==> self.corr_all.contains_key(
                (k.0, (self.corr_open[k].text, k.1)),
            )
    }

    /// The open keys are those of cases that are not closed.
    pub open spec fn keys_are_open(self) -> bool {
        forall|k: OpenKey| #[trigger]
            self.corr_open.contains_key(k) ==> {
                let c = (k.0, self.corr_open[k].text);
                self.cases.contains_key(c) && self.cases[c].status != "closed"@
            }
    }

    /// The tables agree with each other.
    pub open spec fn wf(self) -> bool {
        &&& self.open_agrees()
        &&& self.status_agrees()
        &&& self.due_agrees()
        &&& self.due_says_when()
        &&& self.runs_agree()
        &&& self.keys_agree()
        &&& self.keys_are_open()
    }
}

// ── What the operations do ──────────────────────────────────────────────────

/// The open case under the first of the first `n` keys that has one.
pub open spec fn first_open(st: CaseState, t: Seq<char>, keys: Seq<(Seq<char>, Seq<char>)>, n: int) -> Option<
    IdModel,
>
    decreases n,
{
    if n <= 0 {
        None
    } else {
        match first_open(st, t, keys, n - 1) {
            Some(id) => Some(id),
            None => if st.corr_open.contains_key((t, keys[n - 1])) {
                Some(st.corr_open[(t, keys[n - 1])])
            } else {
                None
            },
        }
    }
}

proof fn lemma_open_stays(
    st: CaseState,
    t: Seq<char>,
    keys: Seq<(Seq<char>, Seq<char>)>,
    n: int,
    m: int,
)
    requires
        n <= m,
        first_open(st, t, keys, n) is Some,
    ensures
        first_open(st, t, keys, m) == first_open(st, t, keys, n),
    decreases m - n,
{
    if n < m {
        lemma_open_stays(st, t, keys, n, m - 1);
    }
}

pub open spec fn bad_case_text(id: Seq<char>, fault: Seq<char>) -> Seq<char> {
    "bad case id '"@ + id + "': "@ + fault
}

/// How a stored case id reads.
pub open spec fn case_id_read(id: IdModel) -> Result<Seq<char>, Refusal> {
    match id.fault {
        Some(f) => Err(Refusal::Corrupt { seq: 0, detail: bad_case_text(id.text, f) }),
        None => Ok(id.text),
    }
}

/// What a message about some keys is answered: the case it is about.
pub open spec fn correlate_answer(
    st: CaseState,
    t: Seq<char>,
    keys: Seq<(Seq<char>, Seq<char>)>,
) -> Result<Option<Seq<char>>, Refusal> {
    match first_open(st, t, keys, keys.len() as int) {
        None => Ok(None),
        Some(id) => match case_id_read(id) {
            Ok(case) => Ok(Some(case)),
            Err(e) => Err(e),
        },
    }
}

pub open spec fn key_taken_text(k: (Seq<char>, Seq<char>)) -> Seq<char> {
    "correlation key "@ + crate::domain::key_shown(k) + " was claimed concurrently — retry"@
}

/// Whether the key at `i` is one that came before it.
pub open spec fn repeats(keys: Seq<(Seq<char>, Seq<char>)>, i: int) -> bool {
    0 <= i < keys.len() && keys.take(i).contains(keys[i])
}

/// Whether the key at `i` is the first that repeats one before it.
pub open spec fn first_repeat(keys: Seq<(Seq<char>, Seq<char>)>, i: int) -> bool {
    repeats(keys, i) && forall|j: int| 0 <= j < i ==> !#[trigger] repeats(keys, j)
}

/// The open keys after a case claimed the first `n` of some.
pub open spec fn keys_claimed(
    m: Map<OpenKey, IdModel>,
    t: Seq<char>,
    case: Seq<char>,
    keys: Seq<(Seq<char>, Seq<char>)>,
    n: int,
) -> Map<OpenKey, IdModel>
    decreases n,
{
    if n <= 0 {
        m
    } else {
        keys_claimed(m, t, case, keys, n - 1).insert(
            (t, keys[n - 1]),
            crate::domain::good_id(case),
        )
    }
}

/// The keys ever claimed after a case claimed the first `n` of some.
pub open spec fn keys_recorded(
    m: Map<AllKey, ()>,
    t: Seq<char>,
    case: Seq<char>,
    keys: Seq<(Seq<char>, Seq<char>)>,
    n: int,
) -> Map<AllKey, ()>
    decreases n,
{
    if n <= 0 {
        m
    } else {
        keys_recorded(m, t, case, keys, n - 1).insert((t, (case, keys[n - 1])), ())
    }
}

/// The tables after a case was opened.
pub open spec fn case_opened(
    st: CaseState,
    t: Seq<char>,
    case: Seq<char>,
    kind: Seq<char>,
    keys: Seq<(Seq<char>, Seq<char>)>,
    at: i64,
) -> CaseState {
    CaseState {
        cases: st.cases.insert(
            (t, case),
            CaseRowModel {
                kind,
                status: "open"@,
                state: "null"@,
                version: 0,
                opened_at: at,
                opened_fault: None,
            },
        ),
        corr_open: keys_claimed(st.corr_open, t, case, keys, keys.len() as int),
        corr_all: keys_recorded(st.corr_all, t, case, keys, keys.len() as int),
        open: st.open.insert((t, (at, case)), None),
        by_status: st.by_status.insert((t, ("open"@, (at, case))), None),
        ..st
    }
}

/// The keys of a case.
pub open spec fn of_case(t: Seq<char>, case: Seq<char>) -> spec_fn((AllKey, ())) -> bool {
    |e: (AllKey, ())| e.0.0 == t && e.0.1.0 == case
}

/// Every key that a case ever claimed, in order.
pub open spec fn case_keys(st: CaseState, t: Seq<char>, case: Seq<char>) -> Seq<
    (Seq<char>, Seq<char>),
> {
    let rows = chosen::<(String, (String, (String, String))), ()>(st.corr_all, of_case(t, case));
    Seq::new(rows.len(), |i: int| rows[i].0.1.1)
}

/// The runs of a case.
pub open spec fn runs_of(t: Seq<char>, case: Seq<char>) -> spec_fn((RunSlot, IdModel)) -> bool {
    |e: (RunSlot, IdModel)| e.0.0 == t && e.0.1.0 == case
}

/// The runs of a case, in the order they were attached.
pub open spec fn case_runs(st: CaseState, t: Seq<char>, case: Seq<char>) -> Seq<
    (RunSlot, IdModel),
> {
    chosen::<(String, (String, u64)), IdModel>(st.runs, runs_of(t, case))
}

pub open spec fn bad_run_text(id: Seq<char>, fault: Seq<char>) -> Seq<char> {
    "bad run id '"@ + id + "': "@ + fault
}

/// How the first `n` runs read, up to the first that is no run id.
pub open spec fn runs_read(rows: Seq<(RunSlot, IdModel)>, n: int) -> Result<
    Seq<Seq<char>>,
    Refusal,
>
    decreases n,
{
    if n <= 0 {
        Ok(Seq::empty())
    } else {
        match runs_read(rows, n - 1) {
            Err(e) => Err(e),
            Ok(out) => match rows[n - 1].1.fault {
                Some(f) => Err(
                    Refusal::Corrupt { seq: 0, detail: bad_run_text(rows[n - 1].1.text, f) },
                ),
                None => Ok(out.push(rows[n - 1].1.text)),
            },
        }
    }
}

proof fn lemma_runs_refused(rows: Seq<(RunSlot, IdModel)>, n: int, m: int)
    requires
        n <= m,
        runs_read(rows, n) is Err,
    ensures
        runs_read(rows, m) == runs_read(rows, n),
    decreases m - n,
{
    if n < m {
        lemma_runs_refused(rows, n, m - 1);
    }
}

/// The status that a word stands for.
pub open spec fn status_of(s: Seq<char>) -> CaseStatus {
    if s == "open"@ {
        CaseStatus::Open
    } else if s == "awaiting_external"@ {
        CaseStatus::AwaitingExternal
    } else if s == "awaiting_human"@ {
        CaseStatus::AwaitingHuman
    } else if s == "escalated"@ {
        CaseStatus::Escalated
    } else {
        CaseStatus::Closed
    }
}

/// How a case reads, given what its state parsed to: a run id that is none is
/// damage, and so are a status and an instant that are none.
pub open spec fn case_read(
    st: CaseState,
    t: Seq<char>,
    case: Seq<char>,
    parsed: Result<Seq<char>, Seq<char>>,
) -> Result<CaseModel, Refusal> {
    let row = st.cases[(t, case)];
    let rows = case_runs(st, t, case);
    match runs_read(rows, rows.len() as int) {
        Err(e) => Err(e),
        Ok(runs) => if !crate::domain::is_status_word(row.status) {
            Err(
                Refusal::Corrupt { seq: 0, detail: crate::domain::bad_status_text(row.status) },
            )
        } else {
            match row.opened_fault {
                Some(f) => Err(bad_instant(row.opened_at, f)),
                None => Ok(
                    CaseModel {
                        id: case,
                        kind: row.kind,
                        status: status_of(row.status),
                        correlation: case_keys(st, t, case),
                        state: crate::domain::json_or_null(parsed),
                        version: row.version,
                        opened_at: row.opened_at,
                        runs,
                    },
                ),
            }
        },
    }
}

/// What asking for a case answers, given what its state parsed to.
pub open spec fn case_answer(
    st: CaseState,
    t: Seq<char>,
    case: Seq<char>,
    parsed: Result<Seq<char>, Seq<char>>,
) -> Result<Option<CaseModel>, Refusal> {
    if st.cases.contains_key((t, case)) {
        match case_read(st, t, case, parsed) {
            Ok(c) => Ok(Some(c)),
            Err(e) => Err(e),
        }
    } else {
        Ok(None)
    }
}

/// The next place in the list of a case's runs, where there is one.
pub open spec fn next_slot(rows: Seq<(RunSlot, IdModel)>) -> int {
    if rows.len() == 0 {
        1
    } else {
        rows.last().0.1.1 + 1
    }
}

/// The tables after a run was attached to a case. Attaching it again changes
/// nothing.
pub open spec fn run_attached(st: CaseState, t: Seq<char>, case: Seq<char>, run: Seq<char>) -> CaseState {
    if st.run_seen.contains_key((t, (case, run))) {
        st
    } else {
        let next = next_slot(case_runs(st, t, case)) as u64;
        CaseState {
            runs: st.runs.insert((t, (case, next)), crate::domain::good_id(run)),
            run_seen: st.run_seen.insert((t, (case, run)), next),
            ..st
        }
    }
}

/// Whether there is no place left for a run that is to be attached.
pub open spec fn runs_full(st: CaseState, t: Seq<char>, case: Seq<char>, run: Seq<char>) -> bool {
    !st.run_seen.contains_key((t, (case, run))) && next_slot(case_runs(st, t, case)) > u64::MAX
}

/// The blobs of a case.
pub open spec fn blobs_in(t: Seq<char>, case: Seq<char>) -> spec_fn((BlobKey, ())) -> bool {
    |e: (BlobKey, ())| e.0.0 == t && e.0.1.0 == case
}

/// The blob links of a case, by when they were written.
pub open spec fn blob_rows(st: CaseState, t: Seq<char>, case: Seq<char>) -> Seq<(BlobKey, ())> {
    chosen::<(String, (String, (i64, Vec<u8>))), ()>(st.blobs, blobs_in(t, case))
}

/// The digests in the first `n` links, each where it first occurs, up to the
/// first that is none. The same bytes linked twice are one artifact.
pub open spec fn blobs_read(rows: Seq<(BlobKey, ())>, n: int) -> Result<Seq<Seq<u8>>, Refusal>
    decreases n,
{
    if n <= 0 {
        Ok(Seq::empty())
    } else {
        match blobs_read(rows, n - 1) {
            Err(e) => Err(e),
            Ok(out) => if rows[n - 1].0.1.1.1.len() != 32 {
                Err(Refusal::Corrupt { seq: 0, detail: "a linked blob digest is not 32 bytes"@ })
            } else if out.contains(rows[n - 1].0.1.1.1) {
                Ok(out)
            } else {
                Ok(out.push(rows[n - 1].0.1.1.1))
            },
        }
    }
}

proof fn lemma_blobs_refused(rows: Seq<(BlobKey, ())>, n: int, m: int)
    requires
        n <= m,
        blobs_read(rows, n) is Err,
    ensures
        blobs_read(rows, m) == blobs_read(rows, n),
    decreases m - n,
{
    if n < m {
        lemma_blobs_refused(rows, n, m - 1);
    }
}

/// What a list of digests says.
pub open spec fn digests_of(v: Seq<Digest>) -> Seq<Seq<u8>> {
    Seq::new(v.len(), |i: int| v[i]@)
}

/// What writing a case's state from an expected version is refused with.
pub open spec fn put_refusal(st: CaseState, t: Seq<char>, case: Seq<char>, expected: u64) -> Option<
    Refusal,
> {
    if !st.cases.contains_key((t, case)) {
        Some(Refusal::NotFound(case))
    } else if st.cases[(t, case)].version != expected {
        Some(
            Refusal::CaseConflict { case, expected, current: st.cases[(t, case)].version },
        )
    } else if expected == u64::MAX {
        Some(Refusal::Backend("case version overflow"@))
    } else {
        None
    }
}

/// The tables after a case's state was written.
pub open spec fn state_put(st: CaseState, t: Seq<char>, case: Seq<char>, state: Seq<char>) -> CaseState {
    let row = st.cases[(t, case)];
    CaseState {
        cases: st.cases.insert(
            (t, case),
            CaseRowModel { state, version: (row.version + 1) as u64, ..row },
        ),
        ..st
    }
}

/// The tables after a case got a status, its keys untouched.
pub open spec fn status_set(st: CaseState, t: Seq<char>, case: Seq<char>, now: Seq<char>) -> CaseState {
    let row = st.cases[(t, case)];
    let at = row.opened_at;
    CaseState {
        cases: st.cases.insert((t, case), CaseRowModel { status: now, ..row }),
        by_status: if row.status == now {
            st.by_status
        } else {
            st.by_status.remove((t, (row.status, (at, case)))).insert(
                (t, (now, (at, case))),
                None,
            )
        },
        open: if row.status != "closed"@ && now == "closed"@ {
            st.open.remove((t, (at, case)))
        } else if row.status == "closed"@ && now != "closed"@ {
            st.open.insert((t, (at, case)), row.opened_fault)
        } else {
            st.open
        },
        ..st
    }
}

/// The obligations of a case.
pub open spec fn deadlines_in(t: Seq<char>, case: Seq<char>) -> spec_fn(
    (DueName, DeadlineRowModel),
) -> bool {
    |e: (DueName, DeadlineRowModel)| e.0.0 == t && e.0.1.0 == case
}

/// The obligations of a case that are still outstanding.
pub open spec fn unmet_in(t: Seq<char>, case: Seq<char>) -> spec_fn(
    (DueName, DeadlineRowModel),
) -> bool {
    |e: (DueName, DeadlineRowModel)| e.0.0 == t && e.0.1.0 == case && outstanding(e.1.state)
}

/// How many obligations of a case are still outstanding.
pub open spec fn unmet(st: CaseState, t: Seq<char>, case: Seq<char>) -> nat {
    chosen::<(String, (String, String)), DeadlineRowModel>(st.deadlines, unmet_in(t, case)).len()
}

pub open spec fn unmet_text(case: Seq<char>, n: int) -> Seq<char> {
    "case "@ + case + " has "@ + crate::text::decimal(n)
        + " open deadline(s); resolve or cancel them before closing"@
}

/// What closing a case is refused with: an obligation that is not met comes
/// first.
pub open spec fn close_refusal(st: CaseState, t: Seq<char>, case: Seq<char>) -> Option<Refusal> {
    if unmet(st, t, case) > 0 {
        Some(Refusal::Backend(unmet_text(case, unmet(st, t, case) as int)))
    } else if !st.cases.contains_key((t, case)) {
        Some(Refusal::NotFound(case))
    } else {
        None
    }
}

/// The open keys after a case let go of those that are still its own.
pub open spec fn keys_released(st: CaseState, t: Seq<char>, case: Seq<char>) -> Map<OpenKey, IdModel> {
    Map::new(
        |k: OpenKey|
            st.corr_open.contains_key(k) && !(k.0 == t && st.corr_all.contains_key(
                (t, (case, k.1)),
            ) && st.corr_open[k].text == case),
        |k: OpenKey| st.corr_open[k],
    )
}

/// The tables after a case was closed.
pub open spec fn case_closed(st: CaseState, t: Seq<char>, case: Seq<char>) -> CaseState {
    CaseState {
        corr_open: keys_released(st, t, case),
        ..status_set(st, t, case, "closed"@)
    }
}

/// The row of an obligation.
pub open spec fn deadline_row(d: DeadlineModel) -> DeadlineRowModel {
    DeadlineRowModel {
        resolved_at: d.resolved_at,
        calendar_digest: d.calendar_digest,
        warn_at: d.warn_at,
        state: crate::domain::deadline_word(d.state),
        fault: None,
        resolved_fault: None,
        warn_fault: None,
    }
}

/// The tables after an obligation was registered. The first registration under a
/// name stands.
pub open spec fn deadline_registered(st: CaseState, t: Seq<char>, d: DeadlineModel) -> CaseState {
    if st.deadlines.contains_key((t, (d.case, d.name))) {
        st
    } else {
        CaseState {
            deadlines: st.deadlines.insert((t, (d.case, d.name)), deadline_row(d)),
            due: if outstanding(crate::domain::deadline_word(d.state)) {
                st.due.insert(
                    (t, (first_attention(d.resolved_at, d.warn_at), (d.case, d.name))),
                    d.resolved_at,
                )
            } else {
                st.due
            },
            ..st
        }
    }
}

/// The tables after an obligation got a state.
pub open spec fn deadline_moved(
    st: CaseState,
    t: Seq<char>,
    case: Seq<char>,
    name: Seq<char>,
    to: Seq<char>,
) -> CaseState {
    let row = st.deadlines[(t, (case, name))];
    let at: DueKey = (t, (first_attention(row.resolved_at, row.warn_at), (case, name)));
    CaseState {
        deadlines: st.deadlines.insert((t, (case, name)), DeadlineRowModel { state: to, ..row }),
        due: if outstanding(row.state) && !outstanding(to) {
            st.due.remove(at)
        } else if !outstanding(row.state) && outstanding(to) {
            st.due.insert(at, row.resolved_at)
        } else {
            st.due
        },
        ..st
    }
}

/// The state that a word stands for.
pub open spec fn deadline_state_of(s: Seq<char>) -> DeadlineState {
    if s == "pending"@ {
        DeadlineState::Pending
    } else if s == "warned"@ {
        DeadlineState::Warned
    } else if s == "breached"@ {
        DeadlineState::Breached
    } else if s == "met"@ {
        DeadlineState::Met
    } else {
        DeadlineState::Cancelled
    }
}

/// What an obligation's instants are refused with, where one is none: the one
/// it is due at comes first.
pub open spec fn instants_refused(row: DeadlineRowModel) -> Option<Refusal> {
    match (row.resolved_fault, row.warn_at, row.warn_fault) {
        (Some(f), _, _) => Some(bad_instant(row.resolved_at, f)),
        (None, Some(at), Some(f)) => Some(bad_instant(at, f)),
        _ => None,
    }
}

/// How an obligation reads: a digest of another length is damage, and so are a
/// case id, an instant and a state that are none.
pub open spec fn deadline_read(case: Seq<char>, name: Seq<char>, row: DeadlineRowModel) -> Result<
    DeadlineModel,
    Refusal,
> {
    if row.calendar_digest.len() != 32 {
        Err(Refusal::Corrupt { seq: 0, detail: "stored calendar digest is not 32 bytes"@ })
    } else if row.fault is Some {
        Err(Refusal::Corrupt { seq: 0, detail: bad_case_text(case, row.fault->0) })
    } else if instants_refused(row) is Some {
        Err(instants_refused(row)->0)
    } else if !crate::domain::is_deadline_word(row.state) {
        Err(Refusal::Corrupt { seq: 0, detail: crate::domain::bad_deadline_text(row.state) })
    } else {
        Ok(
            DeadlineModel {
                case,
                name,
                resolved_at: row.resolved_at,
                calendar_digest: row.calendar_digest,
                warn_at: row.warn_at,
                state: deadline_state_of(row.state),
            },
        )
    }
}

/// How the first `n` obligations read, up to the first that does not.
pub open spec fn deadlines_read(rows: Seq<(DueName, DeadlineRowModel)>, n: int) -> Result<
    Seq<DeadlineModel>,
    Refusal,
>
    decreases n,
{
    if n <= 0 {
        Ok(Seq::empty())
    } else {
        match deadlines_read(rows, n - 1) {
            Err(e) => Err(e),
            Ok(out) => match deadline_read(
                rows[n - 1].0.1.0,
                rows[n - 1].0.1.1,
                rows[n - 1].1,
            ) {
                Err(e) => Err(e),
                Ok(d) => Ok(out.push(d)),
            },
        }
    }
}

proof fn lemma_deadlines_refused(rows: Seq<(DueName, DeadlineRowModel)>, n: int, m: int)
    requires
        n <= m,
        deadlines_read(rows, n) is Err,
    ensures
        deadlines_read(rows, m) == deadlines_read(rows, n),
    decreases m - n,
{
    if n < m {
        lemma_deadlines_refused(rows, n, m - 1);
    }
}

/// A list with an obligation put behind everything that is due no later.
pub open spec fn placed_by_time(s: Seq<DeadlineModel>, d: DeadlineModel) -> Seq<DeadlineModel>
    decreases s.len(),
{
    if s.len() == 0 || s.last().resolved_at <= d.resolved_at {
        s.push(d)
    } else {
        placed_by_time(s.drop_last(), d).push(s.last())
    }
}

/// A list by when each is due; what is due at one instant keeps its order.
pub open spec fn by_time(s: Seq<DeadlineModel>) -> Seq<DeadlineModel>
    decreases s.len(),
{
    if s.len() == 0 {
        Seq::empty()
    } else {
        placed_by_time(by_time(s.drop_last()), s.last())
    }
}

/// An obligation is put right behind the last that is due no later.
proof fn lemma_place(s: Seq<DeadlineModel>, d: DeadlineModel, p: int)
    requires
        0 <= p <= s.len(),
        p == 0 || s[p - 1].resolved_at <= d.resolved_at,
        forall|i: int| p <= i < s.len() ==> (#[trigger] s[i]).resolved_at > d.resolved_at,
    ensures
        placed_by_time(s, d) == s.insert(p, d),
    decreases s.len(),
{
    if p == s.len() {
        assert(s.insert(p, d) =~= s.push(d));
    } else {
        assert(s.last() == s[s.len() - 1]);
        let r = s.drop_last();
        assert forall|i: int| p <= i < r.len() implies (#[trigger] r[i]).resolved_at
            > d.resolved_at by {
            assert(r[i] == s[i]);
        }
        lemma_place(r, d, p);
        assert(r.insert(p, d).push(s.last()) =~= s.insert(p, d));
    }
}

/// The outstanding obligations that need attention by now.
pub open spec fn needing(st: CaseState, t: Seq<char>, now: i64) -> spec_fn((DueKey, i64)) -> bool {
    |e: (DueKey, i64)| e.0.0 == t && e.0.1.0 <= now && st.deadlines.contains_key((t, e.0.1.1))
}

/// Their rows, the longest waiting first and no more than `limit` of them.
pub open spec fn due_rows(st: CaseState, t: Seq<char>, now: i64, limit: usize) -> Seq<
    (DueName, DeadlineRowModel),
> {
    let rows = chosen::<(String, (i64, (String, String))), i64>(st.due, needing(st, t, now));
    Seq::new(
        page(rows.len(), limit) as nat,
        |i: int| ((t, rows[i].0.1.1), st.deadlines[(t, rows[i].0.1.1)]),
    )
}

/// The obligations that are due, not those that have merely warned.
pub open spec fn due_by(t: Seq<char>, now: i64) -> spec_fn((DueKey, i64)) -> bool {
    |e: (DueKey, i64)| e.0.0 == t && e.0.1.0 <= now && e.1 <= now
}

/// The cases of a tenant that are not closed.
pub open spec fn open_in(t: Seq<char>) -> spec_fn((OpenSlot, Option<Seq<char>>)) -> bool {
    |e: (OpenSlot, Option<Seq<char>>)| e.0.0 == t
}

/// How long the case in a place of the open list has been open. One whose
/// instant is none counts as opened now.
pub open spec fn open_age(e: (OpenSlot, Option<Seq<char>>), now: i64) -> int {
    if e.1 is Some {
        0
    } else {
        age(e.0.1.0, now)
    }
}

/// How long ago, never less than nothing.
pub open spec fn age(from: i64, now: i64) -> int {
    if now > from {
        now - from
    } else {
        0
    }
}

/// The cases with a status, newest first.
pub open spec fn with_status(t: Seq<char>, s: Seq<char>) -> spec_fn(
    (StatusKey, Option<Seq<char>>),
) -> bool {
    |e: (StatusKey, Option<Seq<char>>)| e.0.0 == t && e.0.1.0 == s
}

/// Where the worklist has the cases with a status.
pub open spec fn status_rows(st: CaseState, t: Seq<char>, s: Seq<char>) -> Seq<
    (StatusKey, Option<Seq<char>>),
> {
    chosen::<(String, (String, (Newest, String))), Option<Seq<char>>>(
        st.by_status,
        with_status(t, s),
    )
}

/// How the cases in the first `n` places of the worklist read, up to the first
/// that does not. A place whose case is not there is passed over.
pub open spec fn worklist_read(
    st: CaseState,
    t: Seq<char>,
    rows: Seq<(StatusKey, Option<Seq<char>>)>,
    n: int,
) -> Result<Seq<CaseModel>, Refusal>
    decreases n,
{
    if n <= 0 {
        Ok(Seq::empty())
    } else {
        match worklist_read(st, t, rows, n - 1) {
            Err(e) => Err(e),
            Ok(out) => match rows[n - 1].1 {
                Some(f) => Err(
                    Refusal::Corrupt { seq: 0, detail: bad_case_text(rows[n - 1].0.1.1.1, f) },
                ),
                None => {
                    let case = rows[n - 1].0.1.1.1;
                    if !st.cases.contains_key((t, case)) {
                        Ok(out)
                    } else {
                        match case_read(
                            st,
                            t,
                            case,
                            crate::domain::json_read(st.cases[(t, case)].state),
                        ) {
                            Err(e) => Err(e),
                            Ok(c) => Ok(out.push(c)),
                        }
                    }
                },
            },
        }
    }
}

proof fn lemma_worklist_refused(
    st: CaseState,
    t: Seq<char>,
    rows: Seq<(StatusKey, Option<Seq<char>>)>,
    n: int,
    m: int,
)
    requires
        n <= m,
        worklist_read(st, t, rows, n) is Err,
    ensures
        worklist_read(st, t, rows, m) == worklist_read(st, t, rows, n),
    decreases m - n,
{
    if n < m {
        lemma_worklist_refused(st, t, rows, n, m - 1);
    }
}

/// What asking for the cases with a status answers.
pub open spec fn by_status_answer(st: CaseState, t: Seq<char>, status: CaseStatus, limit: usize) -> Result<
    Seq<CaseModel>,
    Refusal,
> {
    let rows = status_rows(st, t, crate::domain::status_word(status));
    worklist_read(st, t, rows, page(rows.len(), limit))
}

/// What asking for the obligations of a case answers.
pub open spec fn deadlines_answer(st: CaseState, t: Seq<char>, case: Seq<char>) -> Result<
    Seq<DeadlineModel>,
    Refusal,
> {
    let rows = chosen::<(String, (String, String)), DeadlineRowModel>(
        st.deadlines,
        deadlines_in(t, case),
    );
    match deadlines_read(rows, rows.len() as int) {
        Ok(all) => Ok(by_time(all)),
        Err(e) => Err(e),
    }
}

/// What asking for the obligations that need attention answers.
pub open spec fn due_answer(st: CaseState, t: Seq<char>, now: i64, limit: usize) -> Result<
    Seq<DeadlineModel>,
    Refusal,
> {
    let rows = due_rows(st, t, now, limit);
    match deadlines_read(rows, rows.len() as int) {
        Ok(all) => Ok(by_time(all)),
        Err(e) => Err(e),
    }
}

/// What asking for the blobs of a case answers.
pub open spec fn blobs_answer(st: CaseState, t: Seq<char>, case: Seq<char>) -> Result<
    Seq<Seq<u8>>,
    Refusal,
> {
    blobs_read(blob_rows(st, t, case), blob_rows(st, t, case).len() as int)
}

/// The tables after a blob was linked to a case.
pub open spec fn blob_added(
    st: CaseState,
    t: Seq<char>,
    case: Seq<char>,
    digest: Seq<u8>,
    at: i64,
) -> CaseState {
    CaseState { blobs: st.blobs.insert((t, (case, (at, digest))), ()), ..st }
}

/// Whether this is the census of a tenant's cases.
pub open spec fn censused(st: CaseState, t: Seq<char>, now: i64, c: CaseCensus) -> bool {
    let open = chosen::<(String, (i64, String)), Option<Seq<char>>>(st.open, open_in(t));
    &&& c.open == open.len()
    &&& match c.oldest_age_secs {
        Some(a) => open.len() > 0 && a == open_age(open[0], now),
        None => open.len() == 0,
    }
    &&& c.due == chosen::<(String, (i64, (String, String))), i64>(st.due, due_by(t, now)).len()
}

/// What a list of cases says.
pub open spec fn cases_of(v: Seq<Case>) -> Seq<CaseModel> {
    Seq::new(v.len(), |i: int| v[i]@)
}

// ── The choices ─────────────────────────────────────────────────────────────

struct OfCase<'a> {
    tenant: &'a str,
    case: &'a str,
}

impl<'a> Pick<(String, (String, (String, String))), ()> for OfCase<'a> {
    closed spec fn picks(&self, k: AllKey, r: ()) -> bool {
        k.0 == self.tenant@ && k.1.0 == self.case@
    }

    fn test(&self, k: &(String, (String, (String, String))), r: &()) -> (b: bool) {
        same(&k.0, self.tenant) && same(&k.1.0, self.case)
    }
}

impl<'a> Pick<(String, (String, u64)), StoredId> for OfCase<'a> {
    closed spec fn picks(&self, k: RunSlot, r: IdModel) -> bool {
        k.0 == self.tenant@ && k.1.0 == self.case@
    }

    fn test(&self, k: &(String, (String, u64)), r: &StoredId) -> (b: bool) {
        same(&k.0, self.tenant) && same(&k.1.0, self.case)
    }
}

impl<'a> Pick<(String, (String, (i64, Vec<u8>))), ()> for OfCase<'a> {
    closed spec fn picks(&self, k: BlobKey, r: ()) -> bool {
        k.0 == self.tenant@ && k.1.0 == self.case@
    }

    fn test(&self, k: &(String, (String, (i64, Vec<u8>))), r: &()) -> (b: bool) {
        same(&k.0, self.tenant) && same(&k.1.0, self.case)
    }
}

impl<'a> Pick<(String, (String, String)), DeadlineRow> for OfCase<'a> {
    closed spec fn picks(&self, k: DueName, r: DeadlineRowModel) -> bool {
        k.0 == self.tenant@ && k.1.0 == self.case@
    }

    fn test(&self, k: &(String, (String, String)), r: &DeadlineRow) -> (b: bool) {
        same(&k.0, self.tenant) && same(&k.1.0, self.case)
    }
}

struct UnmetOf<'a> {
    tenant: &'a str,
    case: &'a str,
}

impl<'a> Pick<(String, (String, String)), DeadlineRow> for UnmetOf<'a> {
    closed spec fn picks(&self, k: DueName, r: DeadlineRowModel) -> bool {
        k.0 == self.tenant@ && k.1.0 == self.case@ && outstanding(r.state)
    }

    fn test(&self, k: &(String, (String, String)), r: &DeadlineRow) -> (b: bool) {
        same(&k.0, self.tenant) && same(&k.1.0, self.case) && is_outstanding(&r.state)
    }
}

/// The open keys that a case still has.
struct KeyOf<'a> {
    tenant: &'a str,
    case: &'a str,
    all: &'a Table<(String, (String, (String, String))), ()>,
}

impl<'a> Pick<(String, (String, String)), StoredId> for KeyOf<'a> {
    closed spec fn picks(&self, k: OpenKey, r: IdModel) -> bool {
        k.0 == self.tenant@ && self.all@.contains_key((self.tenant@, (self.case@, k.1))) && r.text
            == self.case@
    }

    fn test(&self, k: &(String, (String, String)), r: &StoredId) -> (b: bool) {
        same(&k.0, self.tenant) && self.all.contains(
            &(
                self.tenant.to_owned(),
                (self.case.to_owned(), (k.1.0.clone(), k.1.1.clone())),
            ),
        ) && same(&r.text, self.case)
    }
}

struct Needing<'a> {
    tenant: &'a str,
    now: i64,
    deadlines: &'a Table<(String, (String, String)), DeadlineRow>,
}

impl<'a> Pick<(String, (i64, (String, String))), i64> for Needing<'a> {
    closed spec fn picks(&self, k: DueKey, r: i64) -> bool {
        k.0 == self.tenant@ && k.1.0 <= self.now && self.deadlines@.contains_key(
            (self.tenant@, k.1.1),
        )
    }

    fn test(&self, k: &(String, (i64, (String, String))), r: &i64) -> (b: bool) {
        same(&k.0, self.tenant) && k.1.0 <= self.now && self.deadlines.contains(
            &(self.tenant.to_owned(), (k.1.1.0.clone(), k.1.1.1.clone())),
        )
    }
}

struct DueBy<'a> {
    tenant: &'a str,
    now: i64,
}

impl<'a> Pick<(String, (i64, (String, String))), i64> for DueBy<'a> {
    closed spec fn picks(&self, k: DueKey, r: i64) -> bool {
        k.0 == self.tenant@ && k.1.0 <= self.now && r <= self.now
    }

    fn test(&self, k: &(String, (i64, (String, String))), r: &i64) -> (b: bool) {
        same(&k.0, self.tenant) && k.1.0 <= self.now && *r <= self.now
    }
}

struct OpenIn<'a> {
    tenant: &'a str,
}

impl<'a> Pick<(String, (i64, String)), Fault> for OpenIn<'a> {
    closed spec fn picks(&self, k: OpenSlot, r: Option<Seq<char>>) -> bool {
        k.0 == self.tenant@
    }

    fn test(&self, k: &(String, (i64, String)), r: &Fault) -> (b: bool) {
        same(&k.0, self.tenant)
    }
}

struct WithStatus<'a> {
    tenant: &'a str,
    status: &'a str,
}

impl<'a> Pick<(String, (String, (Newest, String))), Fault> for WithStatus<'a> {
    closed spec fn picks(&self, k: StatusKey, r: Option<Seq<char>>) -> bool {
        k.0 == self.tenant@ && k.1.0 == self.status@
    }

    fn test(&self, k: &(String, (String, (Newest, String))), r: &Fault) -> (b: bool) {
        same(&k.0, self.tenant) && same(&k.1.0, self.status)
    }
}

// ── Reading ─────────────────────────────────────────────────────────────────

/// Reads a stored case id.
fn parse_case_id(id: &StoredId) -> (r: Result<String, StoreError>)
    ensures
        case_id_read(id@) == match r {
            Ok(case) => Ok::<Seq<char>, Refusal>(case@),
            Err(e) => Err::<Seq<char>, Refusal>(e@),
        },
{
    match &id.fault {
        Some(f) => Err(
            StoreError::Corrupt { seq: 0, detail: join4("bad case id '", &id.text, "': ", f) },
        ),
        None => Ok(id.text.clone()),
    }
}

/// Reads an obligation.
fn build_deadline(case: &str, name: &str, row: &DeadlineRow) -> (r: Result<Deadline, StoreError>)
    ensures
        deadline_read(case@, name@, row@) == match r {
            Ok(d) => Ok::<DeadlineModel, Refusal>(d@),
            Err(e) => Err::<DeadlineModel, Refusal>(e@),
        },
{
    let calendar_digest = match digest(row.calendar_digest.as_slice()) {
        Ok(d) => d,
        Err(_) => {
            return Err(
                StoreError::Corrupt {
                    seq: 0,
                    detail: "stored calendar digest is not 32 bytes".to_owned(),
                },
            );
        },
    };
    if let Some(f) = &row.fault {
        return Err(StoreError::Corrupt { seq: 0, detail: join4("bad case id '", case, "': ", f) });
    }
    if let Some(f) = &row.resolved_fault {
        return Err(no_instant(row.resolved_at, f));
    }
    if let Some(at) = row.warn_at {
        if let Some(f) = &row.warn_fault {
            return Err(no_instant(at, f));
        }
    }
    match deadline_state_from(&row.state) {
        Err(e) => Err(e),
        Ok(state) => {
            proof {
                crate::domain::law_deadline_words_differ(state, deadline_state_of(row@.state));
            }
            Ok(
                Deadline {
                    case: case.to_owned(),
                    name: name.to_owned(),
                    resolved_at: row.resolved_at,
                    calendar_digest,
                    warn_at: row.warn_at,
                    state,
                },
            )
        },
    }
}

/// Puts an obligation behind everything that is due no later.
fn place(out: &mut Vec<Deadline>, d: Deadline)
    ensures
        deadlines_of(final(out)@) == placed_by_time(deadlines_of(old(out)@), d@),
{
    let ghost before = deadlines_of(out@);
    let ghost dm = d@;
    let mut p: usize = out.len();
    while p > 0 && out[p - 1].resolved_at > d.resolved_at
        invariant
            p <= out@.len(),
            before == deadlines_of(out@),
            forall|i: int| p <= i < before.len() ==> (#[trigger] before[i]).resolved_at > dm.resolved_at,
            dm == d@,
        decreases p,
    {
        assert(before[p - 1] == out@[p - 1]@);
        p = p - 1;
    }
    proof {
        if p > 0 {
            assert(before[p - 1] == out@[p - 1]@);
        }
        lemma_place(before, dm, p as int);
    }
    out.insert(p, d);
    assert(deadlines_of(out@) =~= before.insert(p as int, dm));
}

/// How long ago, in seconds.
pub fn age_secs(from: i64, now: i64) -> (s: u64)
    ensures
        s == age(from, now),
{
    if now > from {
        let d: i128 = now as i128 - from as i128;
        d as u64
    } else {
        0
    }
}

impl CaseBook {
    /// Tables with no cases.
    pub fn new() -> (b: CaseBook)
        ensures
            b@ == no_cases(),
            b@.wf(),
    {
        CaseBook {
            cases: Table::new(),
            corr_open: Table::new(),
            corr_all: Table::new(),
            blobs: Table::new(),
            runs: Table::new(),
            run_seen: Table::new(),
            deadlines: Table::new(),
            due: Table::new(),
            open: Table::new(),
            by_status: Table::new(),
        }
    }

    /// The open case under the first of the keys that has one.
    pub(crate) fn first_open(&self, tenant: &str, keys: &Vec<CorrelationKey>) -> (r: Option<&StoredId>)
        ensures
            first_open(self@, tenant@, keys_of(keys@), keys@.len() as int) == match r {
                Some(id) => Some(id@),
                None => None,
            },
    {
        let ghost ks = keys_of(keys@);
        let mut i: usize = 0;
        while i < keys.len()
            invariant
                i <= keys@.len(),
                ks == keys_of(keys@),
                first_open(self@, tenant@, ks, i as int) is None,
            decreases keys@.len() - i,
        {
            let k = &keys[i];
            assert(ks[i as int] == k@);
            if let Some(id) = self.corr_open.get(
                &(tenant.to_owned(), (k.namespace.clone(), k.value.clone())),
            ) {
                proof {
                    assert(first_open(self@, tenant@, ks, i + 1) == Some(id@));
                    lemma_open_stays(self@, tenant@, ks, i + 1, ks.len() as int);
                }
                return Some(id);
            }
            i = i + 1;
        }
        None
    }

    /// The open case that a message about some keys is about.
    pub fn correlate(&self, tenant: &str, keys: &Vec<CorrelationKey>) -> (r: Result<
        Option<String>,
        StoreError,
    >)
        ensures
            correlate_answer(self@, tenant@, keys_of(keys@)) == match r {
                Ok(Some(case)) => Ok::<Option<Seq<char>>, Refusal>(Some(case@)),
                Ok(None) => Ok::<Option<Seq<char>>, Refusal>(None),
                Err(e) => Err::<Option<Seq<char>>, Refusal>(e@),
            },
    {
        match self.first_open(tenant, keys) {
            None => Ok(None),
            Some(id) => match parse_case_id(id) {
                Ok(case) => Ok(Some(case)),
                Err(e) => Err(e),
            },
        }
    }

    /// Attaches a message to the open case that it is about, or opens a case for
    /// it under `fresh`. A list that names one key twice is refused.
    pub fn correlate_or_open(
        &mut self,
        tenant: &str,
        kind: &str,
        keys: &Vec<CorrelationKey>,
        at: i64,
        fresh: String,
    ) -> (r: Result<Correlation, StoreError>)
        ensures
            old(self)@.wf() && !old(self)@.cases.contains_key((tenant@, fresh@))
                ==> final(self)@.wf(),
            match correlate_answer(old(self)@, tenant@, keys_of(keys@)) {
                Err(e) => r matches Err(g) && g@ == e && final(self)@ == old(self)@,
                Ok(Some(case)) => r matches Ok(Correlation::Attached(c)) && c@ == case
                    && final(self)@ == old(self)@,
                Ok(None) => match r {
                    Ok(Correlation::Opened(c)) => c@ == fresh@ && final(self)@ == case_opened(
                        old(self)@,
                        tenant@,
                        fresh@,
                        kind@,
                        keys_of(keys@),
                        at,
                    ) && forall|i: int| !#[trigger] repeats(keys_of(keys@), i),
                    Err(e) => final(self)@ == old(self)@ && exists|i: int| #[trigger]
                        first_repeat(keys_of(keys@), i) && e@ == Refusal::Backend(
                            key_taken_text(keys_of(keys@)[i]),
                        ),
                    _ => false,
                },
            },
    {
        match self.correlate(tenant, keys) {
            Err(e) => {
                return Err(e);
            },
            Ok(Some(case)) => {
                return Ok(Correlation::Attached(case));
            },
            Ok(None) => {},
        }
        let ghost ks = keys_of(keys@);
        if let Some(i) = first_repeated(keys) {
            return Err(
                StoreError::Backend(
                    join3(
                        "correlation key ",
                        &keys[i].shown(),
                        " was claimed concurrently — retry",
                    ),
                ),
            );
        }
        let ghost before = self@;
        proof {
            if before.wf() && !before.cases.contains_key((tenant@, fresh@)) {
                law_opening_agrees(before, tenant@, fresh@, kind@, ks, at);
            }
        }
        let row = CaseRow {
            kind: kind.to_owned(),
            status: "open".to_owned(),
            state: "null".to_owned(),
            version: 0,
            opened_at: at,
            opened_fault: None,
        };
        self.cases.insert((tenant.to_owned(), fresh.clone()), row);
        let ghost opened = self@;
        let mut i: usize = 0;
        while i < keys.len()
            invariant
                i <= keys@.len(),
                ks == keys_of(keys@),
                self@ == (CaseState {
                    corr_open: keys_claimed(before.corr_open, tenant@, fresh@, ks, i as int),
                    corr_all: keys_recorded(before.corr_all, tenant@, fresh@, ks, i as int),
                    ..opened
                }),
            decreases keys@.len() - i,
        {
            let k = &keys[i];
            assert(ks[i as int] == k@);
            let id = StoredId { text: fresh.clone(), fault: None };
            assert(id@ == crate::domain::good_id(fresh@));
            self.corr_open.insert(
                (tenant.to_owned(), (k.namespace.clone(), k.value.clone())),
                id,
            );
            self.corr_all.insert(
                (tenant.to_owned(), (fresh.clone(), (k.namespace.clone(), k.value.clone()))),
                (),
            );
            i = i + 1;
        }
        self.open.insert((tenant.to_owned(), (at, fresh.clone())), Fault { said: None });
        self.by_status.insert(
            (tenant.to_owned(), ("open".to_owned(), (Newest(at), fresh.clone()))),
            Fault { said: None },
        );
        assert(self@ =~= case_opened(before, tenant@, fresh@, kind@, ks, at));
        Ok(Correlation::Opened(fresh))
    }

    /// Every key that a case ever claimed, in order.
    pub(crate) fn load_keys(&self, tenant: &str, case: &str) -> (out: Vec<CorrelationKey>)
        ensures
            keys_of(out@) == case_keys(self@, tenant@, case@),
    {
        let keys = self.corr_all.select(
            &OfCase { tenant, case },
            usize::MAX,
            Ghost(of_case(tenant@, case@)),
        );
        let ghost want = case_keys(self@, tenant@, case@);
        let mut out: Vec<CorrelationKey> = Vec::new();
        let mut i: usize = 0;
        while i < keys.len()
            invariant
                i <= keys@.len(),
                keys@.len() == want.len(),
                out@.len() == i,
                forall|j: int| 0 <= j < keys@.len() ==> (#[trigger] keys@[j])@.1.1 == want[j],
                forall|j: int| 0 <= j < i ==> (#[trigger] out@[j])@ == want[j],
            decreases keys@.len() - i,
        {
            assert(keys@[i as int]@.1.1 == want[i as int]);
            out.push(CorrelationKey::new(keys[i].1.1.0.clone(), keys[i].1.1.1.clone()));
            i = i + 1;
        }
        assert(keys_of(out@) =~= want);
        out
    }

    /// The runs of a case, in the order they were attached.
    fn load_runs(&self, tenant: &str, case: &str) -> (r: Result<Vec<String>, StoreError>)
        ensures
            runs_read(
                case_runs(self@, tenant@, case@),
                case_runs(self@, tenant@, case@).len() as int,
            ) == match r {
                Ok(runs) => Ok::<Seq<Seq<char>>, Refusal>(crate::text::texts(runs@)),
                Err(e) => Err::<Seq<Seq<char>>, Refusal>(e@),
            },
    {
        let keys = self.runs.select(
            &OfCase { tenant, case },
            usize::MAX,
            Ghost(runs_of(tenant@, case@)),
        );
        let ghost rows = case_runs(self@, tenant@, case@);
        let mut out: Vec<String> = Vec::new();
        let mut i: usize = 0;
        assert(crate::text::texts(out@) =~= Seq::<Seq<char>>::empty());
        while i < keys.len()
            invariant
                i <= keys@.len(),
                keys@.len() == rows.len(),
                rows == case_runs(self@, tenant@, case@),
                forall|j: int|
                    0 <= j < keys@.len() ==> (#[trigger] keys@[j])@ == rows[j].0
                        && self@.runs.contains_key(rows[j].0) && self@.runs[rows[j].0]
                        == rows[j].1,
                runs_read(rows, i as int) == Ok::<Seq<Seq<char>>, Refusal>(
                    crate::text::texts(out@),
                ),
            decreases keys@.len() - i,
        {
            assert(keys@[i as int]@ == rows[i as int].0);
            match self.runs.get(&keys[i]) {
                Some(id) => {
                    if let Some(f) = &id.fault {
                        proof {
                            lemma_runs_refused(rows, i + 1, rows.len() as int);
                        }
                        return Err(
                            StoreError::Corrupt {
                                seq: 0,
                                detail: join4("bad run id '", &id.text, "': ", f),
                            },
                        );
                    }
                    let ghost so_far = crate::text::texts(out@);
                    out.push(id.text.clone());
                    assert(crate::text::texts(out@) =~= so_far.push(id@.text));
                },
                None => {},
            }
            i = i + 1;
        }
        Ok(out)
    }

    /// A case, given what its state parsed to.
    pub fn case_with(&self, tenant: &str, id: &str, parsed: Result<String, String>) -> (r: Result<
        Option<Case>,
        StoreError,
    >)
        ensures
            case_answer(self@, tenant@, id@, reading(parsed)) == match r {
                Ok(Some(c)) => Ok::<Option<CaseModel>, Refusal>(Some(c@)),
                Ok(None) => Ok::<Option<CaseModel>, Refusal>(None),
                Err(e) => Err::<Option<CaseModel>, Refusal>(e@),
            },
    {
        let row = match self.cases.get(&(tenant.to_owned(), id.to_owned())) {
            None => {
                return Ok(None);
            },
            Some(row) => row,
        };
        let correlation = self.load_keys(tenant, id);
        let runs = match self.load_runs(tenant, id) {
            Err(e) => {
                return Err(e);
            },
            Ok(runs) => runs,
        };
        match status_from(&row.status) {
            Err(e) => Err(e),
            Ok(status) => {
                if let Some(f) = &row.opened_fault {
                    return Err(no_instant(row.opened_at, f));
                }
                proof {
                    crate::domain::law_status_words_differ(status, status_of(row@.status));
                }
                Ok(
                    Some(
                        Case {
                            id: id.to_owned(),
                            kind: row.kind.clone(),
                            status,
                            correlation,
                            state: value_or_null(parsed),
                            version: row.version,
                            opened_at: row.opened_at,
                            runs,
                        },
                    ),
                )
            },
        }
    }

    /// A case. A state that does not parse reads as null.
    pub fn case(&self, tenant: &str, id: &str) -> (r: Result<Option<Case>, StoreError>)
        ensures
            case_answer(
                self@,
                tenant@,
                id@,
                crate::domain::json_read(self@.cases[(tenant@, id@)].state),
            ) == match r {
                Ok(Some(c)) => Ok::<Option<CaseModel>, Refusal>(Some(c@)),
                Ok(None) => Ok::<Option<CaseModel>, Refusal>(None),
                Err(e) => Err::<Option<CaseModel>, Refusal>(e@),
            },
    {
        let parsed = match self.cases.get(&(tenant.to_owned(), id.to_owned())) {
            None => {
                return Ok(None);
            },
            Some(row) => parse_json(&row.state),
        };
        self.case_with(tenant, id, parsed)
    }

    /// Attaches a run to a case, behind those that are attached.
    pub fn attach_run(&mut self, tenant: &str, case: &str, run: &str) -> (r: Result<(), StoreError>)
        ensures
            old(self)@.wf() ==> final(self)@.wf(),
            match r {
                Ok(_) => !runs_full(old(self)@, tenant@, case@, run@) && final(self)@
                    == run_attached(old(self)@, tenant@, case@, run@),
                Err(e) => runs_full(old(self)@, tenant@, case@, run@) && e@ == Refusal::Backend(
                    "case run sequence overflow"@,
                ) && final(self)@ == old(self)@,
            },
    {
        let seen = (tenant.to_owned(), (case.to_owned(), run.to_owned()));
        if self.run_seen.contains(&seen) {
            return Ok(());
        }
        let keys = self.runs.select(
            &OfCase { tenant, case },
            usize::MAX,
            Ghost(runs_of(tenant@, case@)),
        );
        let ghost rows = case_runs(self@, tenant@, case@);
        let mut next: u64 = 1;
        let n = keys.len();
        if n > 0 {
            assert(keys@[n - 1]@ == rows[n - 1].0);
            let last: u64 = keys[n - 1].1.1;
            if last == u64::MAX {
                return Err(StoreError::Backend("case run sequence overflow".to_owned()));
            }
            next = last + 1;
        }
        let id = StoredId { text: run.to_owned(), fault: None };
        assert(id@ == crate::domain::good_id(run@));
        proof {
            if self@.wf() {
                law_attaching_agrees(self@, tenant@, case@, run@);
            }
        }
        self.runs.insert((tenant.to_owned(), (case.to_owned(), next)), id);
        self.run_seen.insert(seen, next);
        Ok(())
    }

    /// Links a blob to a case.
    pub fn link_blob(&mut self, tenant: &str, case: &str, digest: &Digest, at: i64)
        ensures
            old(self)@.wf() ==> final(self)@.wf(),
            final(self)@ == blob_added(old(self)@, tenant@, case@, digest@, at),
    {
        let bytes = vstd::slice::slice_to_vec(digest.bytes.as_slice());
        assert(bytes@ =~= digest@);
        let ghost st = self@;
        self.blobs.insert((tenant.to_owned(), (case.to_owned(), (at, bytes))), ());
        proof {
            if st.wf() {
                law_linking_agrees(st, tenant@, case@, digest@, at);
            }
        }
    }

    /// The blobs that a case produced, in the order they were first written.
    pub fn blobs_of(&self, tenant: &str, case: &str) -> (r: Result<Vec<Digest>, StoreError>)
        ensures
            blobs_answer(self@, tenant@, case@) == match r {
                Ok(out) => Ok::<Seq<Seq<u8>>, Refusal>(digests_of(out@)),
                Err(e) => Err::<Seq<Seq<u8>>, Refusal>(e@),
            },
    {
        let keys = self.blobs.select(
            &OfCase { tenant, case },
            usize::MAX,
            Ghost(blobs_in(tenant@, case@)),
        );
        let ghost rows = blob_rows(self@, tenant@, case@);
        let mut out: Vec<Digest> = Vec::new();
        let mut seen: Table<Vec<u8>, ()> = Table::new();
        let mut i: usize = 0;
        assert(digests_of(out@) =~= Seq::<Seq<u8>>::empty());
        while i < keys.len()
            invariant
                i <= keys@.len(),
                keys@.len() == rows.len(),
                rows == blob_rows(self@, tenant@, case@),
                forall|j: int| 0 <= j < keys@.len() ==> (#[trigger] keys@[j])@ == rows[j].0,
                blobs_read(rows, i as int) == Ok::<Seq<Seq<u8>>, Refusal>(digests_of(out@)),
                forall|d: Seq<u8>| #[trigger]
                    seen@.contains_key(d) <==> digests_of(out@).contains(d),
            decreases keys@.len() - i,
        {
            assert(keys@[i as int]@ == rows[i as int].0);
            let raw = &keys[i].1.1.1;
            assert(raw@ == rows[i as int].0.1.1.1);
            match digest(raw.as_slice()) {
                Err(_) => {
                    proof {
                        lemma_blobs_refused(rows, i + 1, rows.len() as int);
                    }
                    return Err(
                        StoreError::Corrupt {
                            seq: 0,
                            detail: "a linked blob digest is not 32 bytes".to_owned(),
                        },
                    );
                },
                Ok(d) => {
                    if !seen.contains(raw) {
                        let ghost so_far = digests_of(out@);
                        let ghost before = seen@;
                        seen.insert(vstd::slice::slice_to_vec(raw.as_slice()), ());
                        out.push(d);
                        assert(digests_of(out@) =~= so_far.push(raw@));
                        assert forall|x: Seq<u8>| #[trigger]
                            seen@.contains_key(x) <==> digests_of(out@).contains(x) by {
                            assert(before.contains_key(x) <==> so_far.contains(x));
                            let all = digests_of(out@);
                            if so_far.contains(x) {
                                let j = choose|j: int| 0 <= j < so_far.len() && so_far[j] == x;
                                assert(all[j] == x);
                            }
                            if x == raw@ {
                                assert(all[so_far.len() as int] == x);
                            }
                            if all.contains(x) {
                                let j = choose|j: int| 0 <= j < all.len() && all[j] == x;
                                if j < so_far.len() {
                                    assert(so_far[j] == x);
                                }
                            }
                        }
                    }
                },
            }
            i = i + 1;
        }
        Ok(out)
    }

    /// Writes a case's state, if its version is the one the caller read.
    pub fn put_state(&mut self, tenant: &str, case: &str, expected: u64, state: &str) -> (r: Result<
        u64,
        StoreError,
    >)
        ensures
            old(self)@.wf() ==> final(self)@.wf(),
            match r {
                Ok(next) => put_refusal(old(self)@, tenant@, case@, expected) is None && next
                    == expected + 1 && final(self)@ == state_put(
                    old(self)@,
                    tenant@,
                    case@,
                    state@,
                ),
                Err(e) => put_refusal(old(self)@, tenant@, case@, expected) == Some(e@) && final(self)@ == old(self)@,
            },
    {
        let key = (tenant.to_owned(), case.to_owned());
        let mut row = match self.cases.get(&key) {
            None => {
                return Err(StoreError::NotFound(case.to_owned()));
            },
            Some(row) => row.twin(),
        };
        if row.version != expected {
            return Err(
                StoreError::CaseConflict {
                    case: case.to_owned(),
                    expected,
                    current: row.version,
                },
            );
        }
        if expected == u64::MAX {
            return Err(StoreError::Backend("case version overflow".to_owned()));
        }
        proof {
            if self@.wf() {
                law_putting_agrees(self@, tenant@, case@, state@);
            }
        }
        row.state = state.to_owned();
        row.version = expected + 1;
        self.cases.insert(key, row);
        Ok(expected + 1)
    }

    /// Moves a case to a status, in its row and in the lists that follow it.
    fn reindex_status(&mut self, tenant: &str, case: &str, now: &str) -> (r: Result<(), StoreError>)
        ensures
            old(self)@.wf() && now@ != "closed"@ ==> final(self)@.wf(),
            match r {
                Ok(_) => old(self)@.cases.contains_key((tenant@, case@)) && final(self)@
                    == status_set(old(self)@, tenant@, case@, now@),
                Err(e) => !old(self)@.cases.contains_key((tenant@, case@)) && e@
                    == Refusal::NotFound(case@) && final(self)@ == old(self)@,
            },
    {
        let ghost before = self@;
        let key = (tenant.to_owned(), case.to_owned());
        let mut row = match self.cases.get(&key) {
            None => {
                return Err(StoreError::NotFound(case.to_owned()));
            },
            Some(row) => row.twin(),
        };
        let was = row.status.clone();
        let at: i64 = row.opened_at;
        let opened = Fault { said: copied(&row.opened_fault) };
        row.status = now.to_owned();
        self.cases.insert(key, row);
        if !same(&was, now) {
            let _ = self.by_status.remove(
                &(tenant.to_owned(), (was.clone(), (Newest(at), case.to_owned()))),
            );
            self.by_status.insert(
                (tenant.to_owned(), (now.to_owned(), (Newest(at), case.to_owned()))),
                Fault { said: None },
            );
            let was_closed = same(&was, "closed");
            let now_closed = same(now, "closed");
            if !was_closed && now_closed {
                let _ = self.open.remove(&(tenant.to_owned(), (at, case.to_owned())));
            } else if was_closed && !now_closed {
                self.open.insert((tenant.to_owned(), (at, case.to_owned())), opened);
            }
        }
        assert(self@ =~= status_set(before, tenant@, case@, now@));
        proof {
            if before.wf() && now@ != "closed"@ {
                law_status_moves_agree(before, tenant@, case@, now@);
            }
        }
        Ok(())
    }

    /// Closes a case and lets go of its keys. A case with an obligation that is
    /// not met is not closed.
    pub fn close(&mut self, tenant: &str, case: &str) -> (r: Result<(), StoreError>)
        ensures
            old(self)@.wf() ==> final(self)@.wf(),
            match r {
                Ok(_) => close_refusal(old(self)@, tenant@, case@) is None && final(self)@
                    == case_closed(old(self)@, tenant@, case@),
                Err(e) => close_refusal(old(self)@, tenant@, case@) == Some(e@) && final(self)@
                    == old(self)@,
            },
    {
        let ghost before = self@;
        let n = self.deadlines.tally(
            &UnmetOf { tenant, case },
            Ghost(unmet_in(tenant@, case@)),
        );
        if n > 0 {
            return Err(
                StoreError::Backend(
                    join5(
                        "case ",
                        case,
                        " has ",
                        &dec(n as u64),
                        " open deadline(s); resolve or cancel them before closing",
                    ),
                ),
            );
        }
        match self.reindex_status(tenant, case, "closed") {
            Err(e) => Err(e),
            Ok(_) => {
                self.corr_open.drop_where(&KeyOf { tenant, case, all: &self.corr_all });
                assert(self@.corr_open =~= keys_released(before, tenant@, case@));
                assert(self@ =~= case_closed(before, tenant@, case@));
                proof {
                    if before.wf() {
                        law_closing_agrees(before, tenant@, case@);
                    }
                }
                Ok(())
            },
        }
    }

    /// Gives a case a status. To be closed is to be closed in full: the
    /// obligations are checked and the keys are let go, so that no new matter
    /// attaches to a case that is closed.
    pub fn set_status(&mut self, tenant: &str, case: &str, status: CaseStatus) -> (r: Result<
        (),
        StoreError,
    >)
        ensures
            old(self)@.wf() ==> final(self)@.wf(),
            match r {
                Ok(_) => if status == CaseStatus::Closed {
                    close_refusal(old(self)@, tenant@, case@) is None && final(self)@
                        == case_closed(old(self)@, tenant@, case@)
                } else {
                    old(self)@.cases.contains_key((tenant@, case@)) && final(self)@ == status_set(
                        old(self)@,
                        tenant@,
                        case@,
                        crate::domain::status_word(status),
                    )
                },
                Err(e) => final(self)@ == old(self)@ && Some(e@) == if status
                    == CaseStatus::Closed {
                    close_refusal(old(self)@, tenant@, case@)
                } else if old(self)@.cases.contains_key((tenant@, case@)) {
                    None
                } else {
                    Some(Refusal::NotFound(case@))
                },
            },
    {
        proof {
            if status != CaseStatus::Closed {
                crate::domain::law_status_words_differ(status, CaseStatus::Closed);
            }
        }
        match status {
            CaseStatus::Closed => self.close(tenant, case),
            _ => self.reindex_status(tenant, case, status.as_str()),
        }
    }

    /// Registers an obligation. The first registration under a name stands.
    pub fn register_deadline(&mut self, tenant: &str, deadline: &Deadline)
        ensures
            final(self)@ == deadline_registered(old(self)@, tenant@, deadline@),
            old(self)@.wf() ==> final(self)@.wf(),
    {
        proof {
            if self@.wf() {
                law_registering_agrees(self@, tenant@, deadline@);
            }
        }
        let key = (tenant.to_owned(), (deadline.case.clone(), deadline.name.clone()));
        if self.deadlines.contains(&key) {
            return ;
        }
        let state = deadline.state.as_str();
        let bytes = vstd::slice::slice_to_vec(deadline.calendar_digest.bytes.as_slice());
        assert(bytes@ =~= deadline.calendar_digest@);
        let row = DeadlineRow {
            resolved_at: deadline.resolved_at,
            calendar_digest: bytes,
            warn_at: deadline.warn_at,
            state: state.to_owned(),
            fault: None,
            resolved_fault: None,
            warn_fault: None,
        };
        assert(row@ == deadline_row(deadline@));
        self.deadlines.insert(key, row);
        if is_outstanding(state) {
            self.due.insert(
                (
                    tenant.to_owned(),
                    (
                        trigger_at(deadline.resolved_at, deadline.warn_at),
                        (deadline.case.clone(), deadline.name.clone()),
                    ),
                ),
                deadline.resolved_at,
            );
        }
    }

    /// The obligations of a case, by when they are due.
    pub fn deadlines(&self, tenant: &str, case: &str) -> (r: Result<Vec<Deadline>, StoreError>)
        ensures
            deadlines_answer(self@, tenant@, case@) == match r {
                Ok(out) => Ok::<Seq<DeadlineModel>, Refusal>(deadlines_of(out@)),
                Err(e) => Err::<Seq<DeadlineModel>, Refusal>(e@),
            },
    {
        let keys = self.deadlines.select(
            &OfCase { tenant, case },
            usize::MAX,
            Ghost(deadlines_in(tenant@, case@)),
        );
        self.collect(
            &keys,
            Ghost(
                chosen::<(String, (String, String)), DeadlineRowModel>(
                    self@.deadlines,
                    deadlines_in(tenant@, case@),
                ),
            ),
        )
    }

    /// Reads the obligations under some names, and puts them by when they are
    /// due.
    fn collect(
        &self,
        keys: &Vec<(String, (String, String))>,
        rows: Ghost<Seq<(DueName, DeadlineRowModel)>>,
    ) -> (r: Result<Vec<Deadline>, StoreError>)
        requires
            keys@.len() == rows@.len(),
            forall|i: int|
                0 <= i < keys@.len() ==> (#[trigger] keys@[i])@ == rows@[i].0
                    && self@.deadlines.contains_key(rows@[i].0) && self@.deadlines[rows@[i].0]
                    == rows@[i].1,
        ensures
            match r {
                Ok(out) => deadlines_read(rows@, rows@.len() as int) is Ok && deadlines_of(out@)
                    == by_time(deadlines_read(rows@, rows@.len() as int)->Ok_0),
                Err(e) => deadlines_read(rows@, rows@.len() as int) == Err::<
                    Seq<DeadlineModel>,
                    Refusal,
                >(e@),
            },
    {
        let mut out: Vec<Deadline> = Vec::new();
        let mut i: usize = 0;
        let ghost mut so_far: Seq<DeadlineModel> = Seq::empty();
        assert(deadlines_of(out@) =~= Seq::<DeadlineModel>::empty());
        assert forall|j: int| 0 <= j < keys@.len() implies (#[trigger] keys@[j])@ == rows@[j].0
            && self@.deadlines.contains_key(rows@[j].0) && self@.deadlines[rows@[j].0]
            == rows@[j].1 by {
            let _row = rows@[j];
        }
        while i < keys.len()
            invariant
                i <= keys@.len(),
                keys@.len() == rows@.len(),
                forall|j: int|
                    0 <= j < keys@.len() ==> (#[trigger] keys@[j])@ == rows@[j].0
                        && self@.deadlines.contains_key(rows@[j].0) && self@.deadlines[rows@[j].0]
                        == rows@[j].1,
                deadlines_read(rows@, i as int) == Ok::<Seq<DeadlineModel>, Refusal>(so_far),
                deadlines_of(out@) == by_time(so_far),
            decreases keys@.len() - i,
        {
            assert(keys@[i as int]@ == rows@[i as int].0);
            match self.deadlines.get(&keys[i]) {
                Some(row) => {
                    match build_deadline(&keys[i].1.0, &keys[i].1.1, row) {
                        Err(e) => {
                            proof {
                                lemma_deadlines_refused(rows@, i + 1, rows@.len() as int);
                            }
                            return Err(e);
                        },
                        Ok(d) => {
                            let ghost dm = d@;
                            place(&mut out, d);
                            proof {
                                assert(so_far.push(dm).drop_last() =~= so_far);
                                so_far = so_far.push(dm);
                            }
                        },
                    }
                },
                None => {},
            }
            i = i + 1;
        }
        Ok(out)
    }

    /// Gives an obligation a state.
    pub fn set_deadline_state(
        &mut self,
        tenant: &str,
        case: &str,
        name: &str,
        state: DeadlineState,
    ) -> (r: Result<(), StoreError>)
        ensures
            old(self)@.wf() ==> final(self)@.wf(),
            match r {
                Ok(_) => old(self)@.deadlines.contains_key((tenant@, (case@, name@))) && final(self)@ == deadline_moved(
                    old(self)@,
                    tenant@,
                    case@,
                    name@,
                    crate::domain::deadline_word(state),
                ),
                Err(e) => !old(self)@.deadlines.contains_key((tenant@, (case@, name@))) && e@
                    == Refusal::NotFound(case@ + "/"@ + name@) && final(self)@ == old(self)@,
            },
    {
        let ghost before = self@;
        let key = (tenant.to_owned(), (case.to_owned(), name.to_owned()));
        let to = state.as_str();
        let (row, was) = match self.deadlines.get(&key) {
            None => {
                return Err(StoreError::NotFound(join3(case, "/", name)));
            },
            Some(row) => (
                DeadlineRow {
                    resolved_at: row.resolved_at,
                    calendar_digest: vstd::slice::slice_to_vec(row.calendar_digest.as_slice()),
                    warn_at: row.warn_at,
                    state: to.to_owned(),
                    fault: copied(&row.fault),
                    resolved_fault: copied(&row.resolved_fault),
                    warn_fault: copied(&row.warn_fault),
                },
                is_outstanding(&row.state),
            ),
        };
        let resolved_at: i64 = row.resolved_at;
        let at = (
            tenant.to_owned(),
            (trigger_at(resolved_at, row.warn_at), (case.to_owned(), name.to_owned())),
        );
        assert(row@ == DeadlineRowModel { state: to@, ..before.deadlines[key@] });
        self.deadlines.insert(key, row);
        let now = is_outstanding(to);
        if was && !now {
            let _ = self.due.remove(&at);
        } else if !was && now {
            self.due.insert(at, resolved_at);
        }
        assert(self@ =~= deadline_moved(before, tenant@, case@, name@, to@));
        proof {
            if before.wf() {
                law_deadline_moves_agree(before, tenant@, case@, name@, to@);
            }
        }
        Ok(())
    }

    /// How many cases are open, how old the oldest is and how many obligations
    /// are due.
    pub fn census(&self, tenant: &str, now: i64) -> (c: CaseCensus)
        ensures
            censused(self@, tenant@, now, c),
    {
        let open = self.open.select(
            &OpenIn { tenant },
            usize::MAX,
            Ghost(open_in(tenant@)),
        );
        let due = self.due.tally(&DueBy { tenant, now }, Ghost(due_by(tenant@, now)));
        let ghost rows = chosen::<(String, (i64, String)), Option<Seq<char>>>(
            self@.open,
            open_in(tenant@),
        );
        let oldest_age_secs = if open.len() > 0 {
            assert(open@[0]@ == rows[0].0);
            match self.open.get(&open[0]) {
                Some(Fault { said: Some(_) }) => Some(0),
                _ => Some(age_secs(open[0].1.0, now)),
            }
        } else {
            None
        };
        CaseCensus { open: open.len() as u64, oldest_age_secs, due: due as u64 }
    }

    /// The outstanding obligations that need attention by now, no more than
    /// `limit` of them. The longest waiting are taken; they come by when they
    /// are due.
    pub fn due(&self, tenant: &str, now: i64, limit: usize) -> (r: Result<
        Vec<Deadline>,
        StoreError,
    >)
        ensures
            due_answer(self@, tenant@, now, limit) == match r {
                Ok(out) => Ok::<Seq<DeadlineModel>, Refusal>(deadlines_of(out@)),
                Err(e) => Err::<Seq<DeadlineModel>, Refusal>(e@),
            },
    {
        let ghost f = needing(self@, tenant@, now);
        let found = self.due.select(
            &Needing { tenant, now, deadlines: &self.deadlines },
            limit,
            Ghost(f),
        );
        let ghost rows = due_rows(self@, tenant@, now, limit);
        let ghost picks = chosen::<(String, (i64, (String, String))), i64>(self@.due, f);
        proof {
            crate::table::lemma_chosen::<(String, (i64, (String, String))), i64>(self@.due, f);
            assert forall|j: int| 0 <= j < rows.len() implies self@.deadlines.contains_key(
                (#[trigger] rows[j]).0,
            ) by {
                assert(f(picks[j]));
            }
        }
        let mut keys: Vec<(String, (String, String))> = Vec::new();
        let mut i: usize = 0;
        while i < found.len()
            invariant
                i <= found@.len(),
                found@.len() == rows.len(),
                rows == due_rows(self@, tenant@, now, limit),
                picks == chosen::<(String, (i64, (String, String))), i64>(
                    self@.due,
                    needing(self@, tenant@, now),
                ),
                keys@.len() == i,
                forall|j: int| 0 <= j < found@.len() ==> (#[trigger] found@[j])@ == picks[j].0,
                forall|j: int| 0 <= j < i ==> (#[trigger] keys@[j])@ == rows[j].0,
            decreases found@.len() - i,
        {
            assert(found@[i as int]@ == picks[i as int].0);
            keys.push(
                (tenant.to_owned(), (found[i].1.1.0.clone(), found[i].1.1.1.clone())),
            );
            i = i + 1;
        }
        self.collect(&keys, Ghost(rows))
    }

    /// The cases with a status, newest first and no more than `limit` of them.
    pub fn by_status(&self, tenant: &str, status: CaseStatus, limit: usize) -> (r: Result<
        Vec<Case>,
        StoreError,
    >)
        ensures
            by_status_answer(self@, tenant@, status, limit) == match r {
                Ok(out) => Ok::<Seq<CaseModel>, Refusal>(cases_of(out@)),
                Err(e) => Err::<Seq<CaseModel>, Refusal>(e@),
            },
    {
        let word = status.as_str();
        let found = self.by_status.select(
            &WithStatus { tenant, status: word },
            limit,
            Ghost(with_status(tenant@, word@)),
        );
        let ghost rows = status_rows(self@, tenant@, crate::domain::status_word(status));
        let mut out: Vec<Case> = Vec::new();
        let mut i: usize = 0;
        assert(cases_of(out@) =~= Seq::<CaseModel>::empty());
        while i < found.len()
            invariant
                i <= found@.len(),
                found@.len() == page(rows.len(), limit),
                rows == status_rows(self@, tenant@, crate::domain::status_word(status)),
                forall|j: int|
                    0 <= j < found@.len() ==> (#[trigger] found@[j])@ == rows[j].0
                        && self@.by_status.contains_key(rows[j].0) && self@.by_status[rows[j].0]
                        == rows[j].1,
                worklist_read(self@, tenant@, rows, i as int) == Ok::<Seq<CaseModel>, Refusal>(
                    cases_of(out@),
                ),
            decreases found@.len() - i,
        {
            assert(found@[i as int]@ == rows[i as int].0);
            let id = &found[i].1.1.1;
            if let Some(fault) = self.by_status.get(&found[i]) {
                if let Some(f) = &fault.said {
                    proof {
                        lemma_worklist_refused(self@, tenant@, rows, i + 1, found@.len() as int);
                    }
                    return Err(
                        StoreError::Corrupt {
                            seq: 0,
                            detail: join4("bad case id '", id, "': ", f),
                        },
                    );
                }
            }
            match self.case(tenant, id) {
                Err(e) => {
                    proof {
                        lemma_worklist_refused(self@, tenant@, rows, i + 1, found@.len() as int);
                    }
                    return Err(e);
                },
                Ok(None) => {},
                Ok(Some(c)) => {
                    let ghost so_far = cases_of(out@);
                    let ghost last = c@;
                    out.push(c);
                    assert(cases_of(out@) =~= so_far.push(last));
                },
            }
            i = i + 1;
        }
        Ok(out)
    }
}

/// The first key that repeats one before it.
fn first_repeated(keys: &Vec<CorrelationKey>) -> (r: Option<usize>)
    ensures
        match r {
            Some(i) => i < keys@.len() && first_repeat(keys_of(keys@), i as int),
            None => forall|i: int| !#[trigger] repeats(keys_of(keys@), i),
        },
{
    let ghost ks = keys_of(keys@);
    let mut i: usize = 0;
    while i < keys.len()
        invariant
            i <= keys@.len(),
            ks == keys_of(keys@),
            forall|j: int| 0 <= j < i ==> !#[trigger] repeats(ks, j),
        decreases keys@.len() - i,
    {
        let mut j: usize = 0;
        assert(ks[i as int] == keys@[i as int]@);
        while j < i
            invariant
                j <= i < keys@.len(),
                ks == keys_of(keys@),
                ks[i as int] == keys@[i as int]@,
                forall|m: int| 0 <= m < i ==> !#[trigger] repeats(ks, m),
                forall|m: int| 0 <= m < j ==> #[trigger] ks[m] != ks[i as int],
            decreases i - j,
        {
            if same(&keys[j].namespace, &keys[i].namespace) && same(
                &keys[j].value,
                &keys[i].value,
            ) {
                assert(ks[j as int] == keys@[j as int]@);
                assert(ks.take(i as int)[j as int] == ks[i as int]);
                assert(repeats(ks, i as int));
                return Some(i);
            }
            assert(ks[j as int] == keys@[j as int]@);
            j = j + 1;
        }
        assert(!repeats(ks, i as int)) by {
            if repeats(ks, i as int) {
                let s = ks.take(i as int);
                let m = choose|m: int| 0 <= m < s.len() && s[m] == ks[i as int];
                assert(ks[m] == ks[i as int]);
            }
        }
        i = i + 1;
    }
    None
}

// ── Checking tables that come from outside ──────────────────────────────────

/// Whether a case stands in the lists that follow its status.
spec fn case_right(st: CaseState) -> spec_fn((CaseKey, CaseRowModel)) -> bool {
    |e: (CaseKey, CaseRowModel)|
        {
            &&& e.1.status != "closed"@ ==> st.open.contains_key((e.0.0, (e.1.opened_at, e.0.1)))
            &&& st.by_status.contains_key((e.0.0, (e.1.status, (e.1.opened_at, e.0.1))))
        }
}

/// Whether a place in the open list is rightly there.
spec fn open_right(st: CaseState) -> spec_fn((OpenSlot, Option<Seq<char>>)) -> bool {
    |e: (OpenSlot, Option<Seq<char>>)|
        {
            let c = (e.0.0, e.0.1.1);
            &&& st.cases.contains_key(c)
            &&& st.cases[c].status != "closed"@
            &&& st.cases[c].opened_at == e.0.1.0
        }
}

/// Whether a place in the worklist is rightly there.
spec fn status_right(st: CaseState) -> spec_fn((StatusKey, Option<Seq<char>>)) -> bool {
    |e: (StatusKey, Option<Seq<char>>)|
        {
            let c = (e.0.0, e.0.1.1.1);
            &&& st.cases.contains_key(c)
            &&& st.cases[c].status == e.0.1.0
            &&& st.cases[c].opened_at == e.0.1.1.0
        }
}

/// Whether an obligation stands in the due list where it should.
spec fn deadline_right(st: CaseState) -> spec_fn((DueName, DeadlineRowModel)) -> bool {
    |e: (DueName, DeadlineRowModel)|
        outstanding(e.1.state) ==> st.due.contains_key(
            (e.0.0, (first_attention(e.1.resolved_at, e.1.warn_at), e.0.1)),
        )
}

/// Whether a place in the due list is rightly there.
spec fn due_right(st: CaseState) -> spec_fn((DueKey, i64)) -> bool {
    |e: (DueKey, i64)|
        {
            let d = (e.0.0, e.0.1.1);
            &&& st.deadlines.contains_key(d)
            &&& outstanding(st.deadlines[d].state)
            &&& e.0.1.0 == first_attention(st.deadlines[d].resolved_at, st.deadlines[d].warn_at)
            &&& e.1 == st.deadlines[d].resolved_at
        }
}

/// Whether an attached run is found by its id.
spec fn run_right(st: CaseState) -> spec_fn((RunSlot, IdModel)) -> bool {
    |e: (RunSlot, IdModel)|
        {
            let s = (e.0.0, (e.0.1.0, e.1.text));
            st.run_seen.contains_key(s) && st.run_seen[s] == e.0.1.1
        }
}

/// Whether a run that is found by its id is attached.
spec fn seen_right(st: CaseState) -> spec_fn((RunSeen, u64)) -> bool {
    |e: (RunSeen, u64)|
        {
            let k = (e.0.0, (e.0.1.0, e.1));
            st.runs.contains_key(k) && st.runs[k].text == e.0.1.1
        }
}

/// Whether an open key was claimed by the case that has it, and that case is not
/// closed.
spec fn key_right(st: CaseState) -> spec_fn((OpenKey, IdModel)) -> bool {
    |e: (OpenKey, IdModel)|
        {
            &&& st.corr_all.contains_key((e.0.0, (e.1.text, e.0.1)))
            &&& st.cases.contains_key((e.0.0, e.1.text))
            &&& st.cases[(e.0.0, e.1.text)].status != "closed"@
        }
}

/// The rows that are as they should be.
struct Right<'a> {
    book: &'a CaseBook,
}

impl<'a> Pick<(String, String), CaseRow> for Right<'a> {
    closed spec fn picks(&self, k: CaseKey, r: CaseRowModel) -> bool {
        case_right(self.book@)((k, r))
    }

    fn test(&self, k: &(String, String), r: &CaseRow) -> (b: bool) {
        (same(&r.status, "closed") || self.book.open.contains(
            &(k.0.clone(), (r.opened_at, k.1.clone())),
        )) && self.book.by_status.contains(
            &(k.0.clone(), (r.status.clone(), (Newest(r.opened_at), k.1.clone()))),
        )
    }
}

impl<'a> Pick<(String, (i64, String)), Fault> for Right<'a> {
    closed spec fn picks(&self, k: OpenSlot, r: Option<Seq<char>>) -> bool {
        open_right(self.book@)((k, r))
    }

    fn test(&self, k: &(String, (i64, String)), r: &Fault) -> (b: bool) {
        match self.book.cases.get(&(k.0.clone(), k.1.1.clone())) {
            Some(row) => !same(&row.status, "closed") && row.opened_at == k.1.0,
            None => false,
        }
    }
}

impl<'a> Pick<(String, (String, (Newest, String))), Fault> for Right<'a> {
    closed spec fn picks(&self, k: StatusKey, r: Option<Seq<char>>) -> bool {
        status_right(self.book@)((k, r))
    }

    fn test(&self, k: &(String, (String, (Newest, String))), r: &Fault) -> (b: bool) {
        match self.book.cases.get(&(k.0.clone(), k.1.1.1.clone())) {
            Some(row) => same(&row.status, &k.1.0) && row.opened_at == k.1.1.0.0,
            None => false,
        }
    }
}

impl<'a> Pick<(String, (String, String)), DeadlineRow> for Right<'a> {
    closed spec fn picks(&self, k: DueName, r: DeadlineRowModel) -> bool {
        deadline_right(self.book@)((k, r))
    }

    fn test(&self, k: &(String, (String, String)), r: &DeadlineRow) -> (b: bool) {
        !is_outstanding(&r.state) || self.book.due.contains(
            &(
                k.0.clone(),
                (trigger_at(r.resolved_at, r.warn_at), (k.1.0.clone(), k.1.1.clone())),
            ),
        )
    }
}

impl<'a> Pick<(String, (i64, (String, String))), i64> for Right<'a> {
    closed spec fn picks(&self, k: DueKey, r: i64) -> bool {
        due_right(self.book@)((k, r))
    }

    fn test(&self, k: &(String, (i64, (String, String))), r: &i64) -> (b: bool) {
        match self.book.deadlines.get(&(k.0.clone(), (k.1.1.0.clone(), k.1.1.1.clone()))) {
            Some(row) => is_outstanding(&row.state) && k.1.0 == trigger_at(
                row.resolved_at,
                row.warn_at,
            ) && *r == row.resolved_at,
            None => false,
        }
    }
}

impl<'a> Pick<(String, (String, u64)), StoredId> for Right<'a> {
    closed spec fn picks(&self, k: RunSlot, r: IdModel) -> bool {
        run_right(self.book@)((k, r))
    }

    fn test(&self, k: &(String, (String, u64)), r: &StoredId) -> (b: bool) {
        match self.book.run_seen.get(&(k.0.clone(), (k.1.0.clone(), r.text.clone()))) {
            Some(seq) => *seq == k.1.1,
            None => false,
        }
    }
}

impl<'a> Pick<(String, (String, String)), u64> for Right<'a> {
    closed spec fn picks(&self, k: RunSeen, r: u64) -> bool {
        seen_right(self.book@)((k, r))
    }

    fn test(&self, k: &(String, (String, String)), r: &u64) -> (b: bool) {
        match self.book.runs.get(&(k.0.clone(), (k.1.0.clone(), *r))) {
            Some(id) => same(&id.text, &k.1.1),
            None => false,
        }
    }
}

impl<'a> Pick<(String, (String, String)), StoredId> for Right<'a> {
    closed spec fn picks(&self, k: OpenKey, r: IdModel) -> bool {
        key_right(self.book@)((k, r))
    }

    fn test(&self, k: &(String, (String, String)), r: &StoredId) -> (b: bool) {
        match self.book.cases.get(&(k.0.clone(), r.text.clone())) {
            Some(row) => !same(&row.status, "closed") && self.book.corr_all.contains(
                &(k.0.clone(), (r.text.clone(), (k.1.0.clone(), k.1.1.clone()))),
            ),
            None => false,
        }
    }
}

proof fn lemma_cases_checked(st: CaseState)
    ensures
        st.open_agrees() && st.status_agrees() <==> {
            &&& every(st.cases, case_right(st))
            &&& every(st.open, open_right(st))
            &&& every(st.by_status, status_right(st))
        },
{
    if st.open_agrees() && st.status_agrees() {
        assert forall|k: CaseKey| #[trigger] st.cases.dom().contains(k) implies case_right(st)(
            (k, st.cases[k]),
        ) by {
            let row = st.cases[k];
            let o: OpenSlot = (k.0, (row.opened_at, k.1));
            let w: StatusKey = (k.0, (row.status, (row.opened_at, k.1)));
            assert(k == (o.0, o.1.1));
            let _there = st.open.contains_key(o);
            let _there = st.by_status.contains_key(w);
        }
        assert forall|k: OpenSlot| #[trigger] st.open.dom().contains(k) implies open_right(st)(
            (k, st.open[k]),
        ) by {
            assert(st.open.contains_key(k));
        }
        assert forall|k: StatusKey| #[trigger] st.by_status.dom().contains(k) implies status_right(
            st,
        )((k, st.by_status[k])) by {
            assert(st.by_status.contains_key(k));
        }
    }
    if every(st.cases, case_right(st)) && every(st.open, open_right(st)) && every(
        st.by_status,
        status_right(st),
    ) {
        assert forall|k: OpenSlot| #[trigger] st.open.contains_key(k) <==> {
            &&& st.cases.contains_key((k.0, k.1.1))
            &&& st.cases[(k.0, k.1.1)].status != "closed"@
            &&& st.cases[(k.0, k.1.1)].opened_at == k.1.0
        } by {
            if st.open.contains_key(k) {
                assert(st.open.dom().contains(k));
            }
            if st.cases.contains_key((k.0, k.1.1)) {
                assert(st.cases.dom().contains((k.0, k.1.1)));
            }
        }
        assert forall|k: StatusKey| #[trigger] st.by_status.contains_key(k) <==> {
            &&& st.cases.contains_key((k.0, k.1.1.1))
            &&& st.cases[(k.0, k.1.1.1)].status == k.1.0
            &&& st.cases[(k.0, k.1.1.1)].opened_at == k.1.1.0
        } by {
            if st.by_status.contains_key(k) {
                assert(st.by_status.dom().contains(k));
            }
            if st.cases.contains_key((k.0, k.1.1.1)) {
                assert(st.cases.dom().contains((k.0, k.1.1.1)));
            }
        }
    }
}

proof fn lemma_due_checked(st: CaseState)
    ensures
        st.due_agrees() && st.due_says_when() <==> every(st.deadlines, deadline_right(st)) && every(
            st.due,
            due_right(st),
        ),
{
    if st.due_agrees() && st.due_says_when() {
        assert forall|d: DueName| #[trigger] st.deadlines.dom().contains(d) implies deadline_right(
            st,
        )((d, st.deadlines[d])) by {
            let row = st.deadlines[d];
            let k: DueKey = (d.0, (first_attention(row.resolved_at, row.warn_at), d.1));
            assert(d == (k.0, k.1.1));
            let _there = st.due.contains_key(k);
        }
        assert forall|k: DueKey| #[trigger] st.due.dom().contains(k) implies due_right(st)(
            (k, st.due[k]),
        ) by {
            assert(st.due.contains_key(k));
        }
    }
    if every(st.deadlines, deadline_right(st)) && every(st.due, due_right(st)) {
        assert forall|k: DueKey| #[trigger] st.due.contains_key(k) <==> {
            let d = (k.0, k.1.1);
            &&& st.deadlines.contains_key(d)
            &&& outstanding(st.deadlines[d].state)
            &&& k.1.0 == first_attention(st.deadlines[d].resolved_at, st.deadlines[d].warn_at)
        } by {
            let d = (k.0, k.1.1);
            if st.due.contains_key(k) {
                assert(st.due.dom().contains(k));
            }
            if st.deadlines.contains_key(d) {
                assert(st.deadlines.dom().contains(d));
            }
        }
        assert forall|k: DueKey| #[trigger] st.due.contains_key(k) implies st.due[k]
            == st.deadlines[(k.0, k.1.1)].resolved_at by {
            assert(st.due.dom().contains(k));
        }
    }
}

proof fn lemma_runs_checked(st: CaseState)
    ensures
        st.runs_agree() <==> every(st.runs, run_right(st)) && every(st.run_seen, seen_right(st)),
        st.keys_agree() && st.keys_are_open() <==> every(st.corr_open, key_right(st)),
{
    assert(forall|k: RunSlot| #[trigger] st.runs.contains_key(k) == st.runs.dom().contains(k));
    assert(forall|k: RunSlot|
        st.runs.contains_key(k) == #[trigger] st.runs.dom().contains(k));
    assert(forall|k: RunSeen|
        #[trigger] st.run_seen.contains_key(k) == st.run_seen.dom().contains(k));
    assert(forall|k: RunSeen|
        st.run_seen.contains_key(k) == #[trigger] st.run_seen.dom().contains(k));
    assert(forall|k: OpenKey|
        #[trigger] st.corr_open.contains_key(k) == st.corr_open.dom().contains(k));
    assert(forall|k: OpenKey|
        st.corr_open.contains_key(k) == #[trigger] st.corr_open.dom().contains(k));
}

impl CaseBook {
    /// Whether the tables agree with each other. Tables that were read from
    /// outside are checked before anything is asked of them.
    pub fn check(&self) -> (b: bool)
        ensures
            b == self@.wf(),
    {
        let right = Right { book: self };
        let ghost st = self@;
        proof {
            lemma_cases_checked(st);
            lemma_due_checked(st);
            lemma_runs_checked(st);
        }
        let a = self.cases.all(&right, Ghost(case_right(st)));
        let b = self.open.all(&right, Ghost(open_right(st)));
        let c = self.by_status.all(&right, Ghost(status_right(st)));
        let d = self.deadlines.all(&right, Ghost(deadline_right(st)));
        let e = self.due.all(&right, Ghost(due_right(st)));
        let f = self.runs.all(&right, Ghost(run_right(st)));
        let g = self.run_seen.all(&right, Ghost(seen_right(st)));
        let h = self.corr_open.all(&right, Ghost(key_right(st)));
        a && b && c && d && e && f && g && h
    }
}

} // verus!
