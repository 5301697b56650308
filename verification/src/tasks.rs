//! Tasks for people: who may take one, who holds it, and when it is overdue.
//!
//! Eligibility comes before availability. Somebody who may not take a task is
//! told so, and learns nothing of whether it could be had.

use vstd::prelude::*;
use vstd::string::StrSliceExecFns;

use crate::domain::{parse_json, reading, IdModel, StoredId};
use crate::error::{Refusal, StoreError};
use crate::table::{chosen, listed, page, Pick, Stamp, Table};
use crate::text::{copied, join3, said, same, texts};

verus! {

// ── Lists in one column ─────────────────────────────────────────────────────

/// The pieces of a text between commas.
pub open spec fn pieces(s: Seq<char>) -> Seq<Seq<char>>
    decreases s.len(),
{
    if s.len() == 0 {
        seq![Seq::empty()]
    } else {
        let p = pieces(s.drop_last());
        if s.last() == ',' {
            p.push(Seq::empty())
        } else {
            p.update(p.len() - 1, p.last().push(s.last()))
        }
    }
}

/// A list that was kept in one column. An empty column is an empty list.
pub open spec fn split_text(s: Seq<char>) -> Seq<Seq<char>> {
    if s.len() == 0 {
        Seq::empty()
    } else {
        pieces(s)
    }
}

/// The first `n` of a list, in one column.
pub open spec fn joined(parts: Seq<Seq<char>>, n: int) -> Seq<char>
    decreases n,
{
    if n <= 0 {
        Seq::empty()
    } else if n == 1 {
        parts[0]
    } else {
        joined(parts, n - 1).push(',') + parts[n - 1]
    }
}

proof fn lemma_pieces_some(s: Seq<char>)
    ensures
        pieces(s).len() > 0,
    decreases s.len(),
{
    if s.len() > 0 {
        lemma_pieces_some(s.drop_last());
    }
}

/// Reads a list back from one column.
pub fn split(s: &str) -> (out: Vec<String>)
    ensures
        texts(out@) == split_text(s@),
{
    let n = s.unicode_len();
    let mut out: Vec<String> = Vec::new();
    if n == 0 {
        assert(texts(out@) =~= split_text(s@));
        return out;
    }
    let mut start: usize = 0;
    let mut i: usize = 0;
    assert(s@.take(0) =~= Seq::<char>::empty());
    assert(s@.subrange(0, 0) =~= Seq::<char>::empty());
    assert(texts(out@).push(s@.subrange(0, 0)) =~= pieces(s@.take(0)));
    while i < n
        invariant
            n == s@.len(),
            start <= i <= n,
            texts(out@).push(s@.subrange(start as int, i as int)) == pieces(s@.take(i as int)),
        decreases n - i,
    {
        let ghost before = s@.take(i as int);
        let ghost after = s@.take(i + 1);
        let ghost so_far = texts(out@);
        assert(after.drop_last() =~= before);
        assert(after.last() == s@[i as int]);
        if s.get_char(i) == ',' {
            let piece = s.substring_char(start, i).to_owned();
            out.push(piece);
            assert(texts(out@) =~= so_far.push(s@.subrange(start as int, i as int)));
            start = i + 1;
            assert(s@.subrange(start as int, i + 1) =~= Seq::<char>::empty());
            assert(texts(out@).push(s@.subrange(start as int, i + 1)) =~= pieces(after));
        } else {
            let ghost p = pieces(before);
            assert(p.last() == s@.subrange(start as int, i as int));
            assert(p.last().push(s@[i as int]) =~= s@.subrange(start as int, i + 1));
            assert(texts(out@).push(s@.subrange(start as int, i + 1)) =~= p.update(
                p.len() - 1,
                p.last().push(s@[i as int]),
            ));
        }
        i = i + 1;
    }
    let ghost so_far = texts(out@);
    out.push(s.substring_char(start, n).to_owned());
    assert(s@.take(n as int) =~= s@);
    assert(texts(out@) =~= so_far.push(s@.subrange(start as int, n as int)));
    out
}

/// Writes a list into one column.
pub fn join_list(parts: &Vec<String>) -> (s: String)
    ensures
        s@ == joined(texts(parts@), parts@.len() as int),
{
    let mut s = String::new();
    let mut i: usize = 0;
    let ghost all = texts(parts@);
    assert(s@ =~= Seq::<char>::empty());
    while i < parts.len()
        invariant
            i <= parts@.len(),
            all == texts(parts@),
            s@ == joined(all, i as int),
        decreases parts@.len() - i,
    {
        let ghost before = s@;
        assert(all[i as int] == parts@[i as int]@);
        if i > 0 {
            s.append(",");
            proof {
                reveal_strlit(",");
                assert(","@ =~= seq![',']);
                assert(s@ =~= before.push(','));
            }
        }
        s.append(parts[i].as_str());
        assert(s@ =~= joined(all, i + 1));
        i = i + 1;
    }
    s
}

/// A text without commas is one piece, and goes on the last piece of what comes
/// before it.
proof fn lemma_pieces_append(a: Seq<char>, b: Seq<char>)
    requires
        !b.contains(','),
    ensures
        pieces(a + b) == pieces(a).update(pieces(a).len() - 1, pieces(a).last() + b),
    decreases b.len(),
{
    lemma_pieces_some(a);
    if b.len() == 0 {
        assert(a + b =~= a);
        assert(pieces(a).last() + b =~= pieces(a).last());
        assert(pieces(a).update(pieces(a).len() - 1, pieces(a).last()) =~= pieces(a));
    } else {
        let d = b.drop_last();
        assert(!d.contains(',')) by {
            if d.contains(',') {
                let i = choose|i: int| 0 <= i < d.len() && d[i] == ',';
                assert(b[i] == ',');
            }
        }
        assert(b.last() != ',') by {
            if b.last() == ',' {
                assert(b[b.len() - 1] == ',');
            }
        }
        lemma_pieces_append(a, d);
        assert((a + b).drop_last() =~= a + d);
        assert((a + b).last() == b.last());
        let p = pieces(a);
        let q = pieces(a + d);
        assert(q.last() == p.last() + d);
        assert((p.last() + d).push(b.last()) =~= p.last() + b);
        assert(q.update(q.len() - 1, q.last().push(b.last())) =~= p.update(
            p.len() - 1,
            p.last() + b,
        ));
    }
}

proof fn lemma_joined_pieces(parts: Seq<Seq<char>>, n: int)
    requires
        0 < n <= parts.len(),
        forall|i: int| 0 <= i < parts.len() ==> !(#[trigger] parts[i]).contains(','),
    ensures
        pieces(joined(parts, n)) == parts.take(n),
    decreases n,
{
    if n == 1 {
        lemma_pieces_append(Seq::empty(), parts[0]);
        assert(Seq::<char>::empty() + parts[0] =~= parts[0]);
        assert(pieces(parts[0]) =~= parts.take(1));
    } else {
        lemma_joined_pieces(parts, n - 1);
        let a = joined(parts, n - 1).push(',');
        assert(a.drop_last() =~= joined(parts, n - 1));
        assert(pieces(a) == parts.take(n - 1).push(Seq::empty()));
        lemma_pieces_append(a, parts[n - 1]);
        assert(Seq::<char>::empty() + parts[n - 1] =~= parts[n - 1]);
        assert(pieces(joined(parts, n)) =~= parts.take(n));
    }
}

/// A list whose members have no commas reads back from its column as it was,
/// unless it is the list of one empty member.
pub proof fn law_list_round_trip(parts: Seq<Seq<char>>)
    requires
        forall|i: int| 0 <= i < parts.len() ==> !(#[trigger] parts[i]).contains(','),
        parts != seq![Seq::<char>::empty()],
    ensures
        split_text(joined(parts, parts.len() as int)) == parts,
{
    let n = parts.len() as int;
    if n > 0 {
        lemma_joined_pieces(parts, n);
        assert(parts.take(n) =~= parts);
        if joined(parts, n).len() == 0 {
            if n == 1 {
                assert(parts[0] =~= Seq::<char>::empty());
                assert(parts =~= seq![Seq::<char>::empty()]);
            }
        }
    } else {
        assert(parts =~= Seq::<Seq<char>>::empty());
    }
}

// ── Words ───────────────────────────────────────────────────────────────────

/// Where a task stands.
#[derive(Clone, Copy, Debug, PartialEq, Eq, Structural)]
pub enum TaskState {
    Open,
    Claimed,
    Completed,
    Expired,
    Escalated,
}

/// The word a task state is stored as.
pub open spec fn task_word(s: TaskState) -> Seq<char> {
    match s {
        TaskState::Open => "open"@,
        TaskState::Claimed => "claimed"@,
        TaskState::Completed => "completed"@,
        TaskState::Expired => "expired"@,
        TaskState::Escalated => "escalated"@,
    }
}

/// Whether a task of this state still waits for somebody.
pub open spec fn pending(s: TaskState) -> bool {
    s == TaskState::Open || s == TaskState::Claimed || s == TaskState::Escalated
}

proof fn reveal_task_words()
    ensures
        "open"@.len() == 4,
        "claimed"@.len() == 7,
        "claimed"@[0] == 'c',
        "completed"@.len() == 9,
        "completed"@[0] == 'c',
        "expired"@.len() == 7,
        "expired"@[0] == 'e',
        "escalated"@.len() == 9,
        "escalated"@[0] == 'e',
{
    reveal_strlit("open");
    reveal_strlit("claimed");
    reveal_strlit("completed");
    reveal_strlit("expired");
    reveal_strlit("escalated");
}

/// Every task state has a word of its own.
pub proof fn law_task_words_differ(a: TaskState, b: TaskState)
    ensures
        task_word(a) == task_word(b) ==> a == b,
{
    reveal_task_words();
}

impl TaskState {
    /// The word the state is stored as.
    pub fn as_str(self) -> (s: &'static str)
        ensures
            s@ == task_word(self),
    {
        match self {
            TaskState::Open => "open",
            TaskState::Claimed => "claimed",
            TaskState::Completed => "completed",
            TaskState::Expired => "expired",
            TaskState::Escalated => "escalated",
        }
    }

    /// Whether a task of this state still waits for somebody.
    pub fn is_pending(self) -> (b: bool)
        ensures
            b == pending(self),
    {
        matches!(self, TaskState::Open | TaskState::Claimed | TaskState::Escalated)
    }
}

/// The state a word stands for, where it is one.
pub open spec fn task_state_of(s: Seq<char>) -> Option<TaskState> {
    if s == "open"@ {
        Some(TaskState::Open)
    } else if s == "claimed"@ {
        Some(TaskState::Claimed)
    } else if s == "completed"@ {
        Some(TaskState::Completed)
    } else if s == "expired"@ {
        Some(TaskState::Expired)
    } else if s == "escalated"@ {
        Some(TaskState::Escalated)
    } else {
        None
    }
}

/// A task state reads back as it was written.
pub proof fn law_task_state_round_trip(s: TaskState)
    ensures
        task_state_of(task_word(s)) == Some(s),
{
    reveal_task_words();
}

pub open spec fn bad(what: Seq<char>, value: Seq<char>) -> Refusal {
    Refusal::Corrupt { seq: 0, detail: what + ": "@ + value }
}

fn corrupt(what: &str, value: &str) -> (e: StoreError)
    ensures
        e@ == bad(what@, value@),
{
    StoreError::Corrupt { seq: 0, detail: join3(what, ": ", value) }
}

/// Reads a task state back.
pub fn task_state_from(s: &str) -> (r: Result<TaskState, StoreError>)
    ensures
        match r {
            Ok(state) => task_state_of(s@) == Some(state),
            Err(e) => task_state_of(s@) is None && e@ == bad("unknown task state"@, s@),
        },
{
    if same(s, "open") {
        Ok(TaskState::Open)
    } else if same(s, "claimed") {
        Ok(TaskState::Claimed)
    } else if same(s, "completed") {
        Ok(TaskState::Completed)
    } else if same(s, "expired") {
        Ok(TaskState::Expired)
    } else if same(s, "escalated") {
        Ok(TaskState::Escalated)
    } else {
        Err(corrupt("unknown task state", s))
    }
}

/// How pressing a task is.
#[derive(Clone, Copy, Debug, PartialEq, Eq, Structural)]
pub enum Priority {
    Low,
    Normal,
    High,
    Urgent,
}

/// The word a priority is stored as.
pub open spec fn priority_word(p: Priority) -> Seq<char> {
    match p {
        Priority::Low => "low"@,
        Priority::Normal => "normal"@,
        Priority::High => "high"@,
        Priority::Urgent => "urgent"@,
    }
}

impl Priority {
    /// The word the priority is stored as.
    pub fn as_str(self) -> (s: &'static str)
        ensures
            s@ == priority_word(self),
    {
        match self {
            Priority::Low => "low",
            Priority::Normal => "normal",
            Priority::High => "high",
            Priority::Urgent => "urgent",
        }
    }
}

/// The priority a word stands for. One that is none is a normal one.
pub open spec fn priority_of(s: Seq<char>) -> Priority {
    if s == "low"@ {
        Priority::Low
    } else if s == "high"@ {
        Priority::High
    } else if s == "urgent"@ {
        Priority::Urgent
    } else {
        Priority::Normal
    }
}

/// Reads a priority back.
pub fn priority_from(s: &str) -> (p: Priority)
    ensures
        p == priority_of(s@),
{
    if same(s, "low") {
        Priority::Low
    } else if same(s, "high") {
        Priority::High
    } else if same(s, "urgent") {
        Priority::Urgent
    } else {
        Priority::Normal
    }
}

/// A priority reads back as it was written.
pub proof fn law_priority_round_trip(p: Priority)
    ensures
        priority_of(priority_word(p)) == p,
{
    reveal_strlit("low");
    reveal_strlit("normal");
    reveal_strlit("high");
    reveal_strlit("urgent");
    assert("low"@.len() == 3 && "normal"@.len() == 6 && "high"@.len() == 4);
    assert("urgent"@.len() == 6 && "urgent"@[0] == 'u' && "normal"@[0] == 'n');
}

/// What is decided in advance for a task that nobody answers.
#[derive(Clone, Copy, Debug, PartialEq, Eq, Structural)]
pub enum OnExpiry {
    Deny,
    Escalate,
    Proceed,
}

/// The word an expiry policy is stored as.
pub open spec fn expiry_word(e: OnExpiry) -> Seq<char> {
    match e {
        OnExpiry::Deny => "deny"@,
        OnExpiry::Escalate => "escalate"@,
        OnExpiry::Proceed => "proceed"@,
    }
}

/// The word an expiry policy is stored as.
pub fn expiry_str(e: OnExpiry) -> (s: &'static str)
    ensures
        s@ == expiry_word(e),
{
    match e {
        OnExpiry::Deny => "deny",
        OnExpiry::Escalate => "escalate",
        OnExpiry::Proceed => "proceed",
    }
}

/// The policy a word stands for. One that is none denies.
pub open spec fn expiry_of(s: Seq<char>) -> OnExpiry {
    if s == "escalate"@ {
        OnExpiry::Escalate
    } else if s == "proceed"@ {
        OnExpiry::Proceed
    } else {
        OnExpiry::Deny
    }
}

/// Reads an expiry policy back.
pub fn expiry_from(s: &str) -> (e: OnExpiry)
    ensures
        e == expiry_of(s@),
{
    if same(s, "escalate") {
        OnExpiry::Escalate
    } else if same(s, "proceed") {
        OnExpiry::Proceed
    } else {
        OnExpiry::Deny
    }
}

/// An expiry policy reads back as it was written.
pub proof fn law_expiry_round_trip(e: OnExpiry)
    ensures
        expiry_of(expiry_word(e)) == e,
{
    reveal_strlit("deny");
    reveal_strlit("escalate");
    reveal_strlit("proceed");
    assert("deny"@.len() == 4 && "escalate"@.len() == 8 && "proceed"@.len() == 7);
}

// ── Tasks ───────────────────────────────────────────────────────────────────

/// A task for somebody.
#[derive(Debug)]
pub struct Task {
    pub id: String,
    pub run: String,
    pub case: Option<String>,
    pub kind: String,
    /// Why it is asked, as JSON text.
    pub justification: String,
    pub candidate_roles: Vec<String>,
    pub excluded_actors: Vec<String>,
    pub assignee: Option<String>,
    pub priority: Priority,
    pub state: TaskState,
    pub on_expiry: OnExpiry,
    pub created_at: i64,
    pub due_at: Option<i64>,
}

/// What a [`Task`] says.
#[verifier::ext_equal]
pub struct TaskModel {
    pub id: Seq<char>,
    pub run: Seq<char>,
    pub case: Option<Seq<char>>,
    pub kind: Seq<char>,
    pub justification: Seq<char>,
    pub candidate_roles: Seq<Seq<char>>,
    pub excluded_actors: Seq<Seq<char>>,
    pub assignee: Option<Seq<char>>,
    pub priority: Priority,
    pub state: TaskState,
    pub on_expiry: OnExpiry,
    pub created_at: i64,
    pub due_at: Option<i64>,
}

impl View for Task {
    type V = TaskModel;

    open spec fn view(&self) -> TaskModel {
        TaskModel {
            id: self.id@,
            run: self.run@,
            case: said(self.case),
            kind: self.kind@,
            justification: self.justification@,
            candidate_roles: texts(self.candidate_roles@),
            excluded_actors: texts(self.excluded_actors@),
            assignee: said(self.assignee),
            priority: self.priority,
            state: self.state,
            on_expiry: self.on_expiry,
            created_at: self.created_at,
            due_at: self.due_at,
        }
    }
}

/// What a list of tasks says.
pub open spec fn tasks_of(v: Seq<Task>) -> Seq<TaskModel> {
    Seq::new(v.len(), |i: int| v[i]@)
}

/// A task as it is stored, under its id.
#[derive(Debug)]
pub struct TaskRow {
    pub run: StoredId,
    pub case: Option<StoredId>,
    pub kind: String,
    pub justification: String,
    pub candidate_roles: String,
    pub excluded_actors: String,
    pub assignee: Option<String>,
    pub priority: String,
    pub state: String,
    pub on_expiry: String,
    pub created_at: i64,
    pub due_at: Option<i64>,
    /// What is wrong with the id the row is under, where it is none.
    pub fault: Option<String>,
    /// What is wrong with the instant it was created at, where it is none.
    pub created_fault: Option<String>,
    /// What is wrong with the instant it is due at, where it is none.
    pub due_fault: Option<String>,
}

/// What a [`TaskRow`] says.
pub struct TaskRowModel {
    pub run: IdModel,
    pub case: Option<IdModel>,
    pub kind: Seq<char>,
    pub justification: Seq<char>,
    pub candidate_roles: Seq<char>,
    pub excluded_actors: Seq<char>,
    pub assignee: Option<Seq<char>>,
    pub priority: Seq<char>,
    pub state: Seq<char>,
    pub on_expiry: Seq<char>,
    pub created_at: i64,
    pub due_at: Option<i64>,
    pub fault: Option<Seq<char>>,
    pub created_fault: Option<Seq<char>>,
    pub due_fault: Option<Seq<char>>,
}

impl View for TaskRow {
    type V = TaskRowModel;

    open spec fn view(&self) -> TaskRowModel {
        TaskRowModel {
            run: self.run@,
            case: match self.case {
                Some(c) => Some(c@),
                None => None,
            },
            kind: self.kind@,
            justification: self.justification@,
            candidate_roles: self.candidate_roles@,
            excluded_actors: self.excluded_actors@,
            assignee: said(self.assignee),
            priority: self.priority@,
            state: self.state@,
            on_expiry: self.on_expiry@,
            created_at: self.created_at,
            due_at: self.due_at,
            fault: said(self.fault),
            created_fault: said(self.created_fault),
            due_fault: said(self.due_fault),
        }
    }
}

impl TaskRow {
    fn twin(&self) -> (r: TaskRow)
        ensures
            r@ == self@,
    {
        TaskRow {
            run: self.run.twin(),
            case: match &self.case {
                Some(c) => Some(c.twin()),
                None => None,
            },
            kind: self.kind.clone(),
            justification: self.justification.clone(),
            candidate_roles: self.candidate_roles.clone(),
            excluded_actors: self.excluded_actors.clone(),
            assignee: copied(&self.assignee),
            priority: self.priority.clone(),
            state: self.state.clone(),
            on_expiry: self.on_expiry.clone(),
            created_at: self.created_at,
            due_at: self.due_at,
            fault: copied(&self.fault),
            created_fault: copied(&self.created_fault),
            due_fault: copied(&self.due_fault),
        }
    }
}

/// The row of a task.
pub open spec fn task_row(t: TaskModel) -> TaskRowModel {
    TaskRowModel {
        run: crate::domain::good_id(t.run),
        case: match t.case {
            Some(c) => Some(crate::domain::good_id(c)),
            None => None,
        },
        kind: t.kind,
        justification: t.justification,
        candidate_roles: joined(t.candidate_roles, t.candidate_roles.len() as int),
        excluded_actors: joined(t.excluded_actors, t.excluded_actors.len() as int),
        assignee: t.assignee,
        priority: priority_word(t.priority),
        state: task_word(t.state),
        on_expiry: expiry_word(t.on_expiry),
        created_at: t.created_at,
        due_at: t.due_at,
        fault: None,
        created_fault: None,
        due_fault: None,
    }
}

/// What a task's ids are refused with, where one is none: the task's own comes
/// first, the run's next and the case's last.
pub open spec fn ids_refused(row: TaskRowModel) -> Option<Refusal> {
    match (row.fault, row.run.fault, row.case) {
        (Some(f), _, _) => Some(bad("bad task id"@, f)),
        (None, Some(f), _) => Some(bad("bad run id"@, f)),
        (None, None, Some(IdModel { text: _, fault: Some(f) })) => Some(bad("bad case id"@, f)),
        _ => None,
    }
}

/// What a task's instants are refused with, where one is none.
pub open spec fn instants_refused(row: TaskRowModel) -> Option<Refusal> {
    match (row.created_fault, row.due_at, row.due_fault) {
        (Some(f), _, _) => Some(bad("unrepresentable created_at"@, f)),
        (None, Some(_), Some(f)) => Some(bad("unrepresentable due_at"@, f)),
        _ => None,
    }
}

/// How a task reads, given what its justification parsed to. An id that is none
/// is damage; then comes a justification that does not parse, then a state that
/// is none, and then an instant that is none.
pub open spec fn task_read(
    id: Seq<char>,
    row: TaskRowModel,
    parsed: Result<Seq<char>, Seq<char>>,
) -> Result<TaskModel, Refusal> {
    if ids_refused(row) is Some {
        Err(ids_refused(row)->0)
    } else {
        match parsed {
            Err(f) => Err(Refusal::Backend(f)),
            Ok(justification) => match task_state_of(row.state) {
                None => Err(bad("unknown task state"@, row.state)),
                Some(state) => if instants_refused(row) is Some {
                    Err(instants_refused(row)->0)
                } else {
                    Ok(
                        TaskModel {
                            id,
                            run: row.run.text,
                            case: match row.case {
                                Some(c) => Some(c.text),
                                None => None,
                            },
                            kind: row.kind,
                            justification,
                            candidate_roles: split_text(row.candidate_roles),
                            excluded_actors: split_text(row.excluded_actors),
                            assignee: row.assignee,
                            priority: priority_of(row.priority),
                            state,
                            on_expiry: expiry_of(row.on_expiry),
                            created_at: row.created_at,
                            due_at: row.due_at,
                        },
                    )
                },
            },
        }
    }
}

/// Reads a task, given what its justification parsed to.
pub fn task_from(id: &str, row: &TaskRow, parsed: Result<String, String>) -> (r: Result<
    Task,
    StoreError,
>)
    ensures
        task_read(id@, row@, reading(parsed)) == match r {
            Ok(t) => Ok::<TaskModel, Refusal>(t@),
            Err(e) => Err::<TaskModel, Refusal>(e@),
        },
{
    if let Some(f) = &row.fault {
        return Err(corrupt("bad task id", f));
    }
    if let Some(f) = &row.run.fault {
        return Err(corrupt("bad run id", f));
    }
    let case = match &row.case {
        Some(c) => {
            if let Some(f) = &c.fault {
                return Err(corrupt("bad case id", f));
            }
            Some(c.text.clone())
        },
        None => None,
    };
    let justification = match parsed {
        Err(f) => {
            return Err(StoreError::Backend(f));
        },
        Ok(text) => text,
    };
    let state = match task_state_from(&row.state) {
        Err(e) => {
            return Err(e);
        },
        Ok(state) => state,
    };
    if let Some(f) = &row.created_fault {
        return Err(corrupt("unrepresentable created_at", f));
    }
    if row.due_at.is_some() {
        if let Some(f) = &row.due_fault {
            return Err(corrupt("unrepresentable due_at", f));
        }
    }
    Ok(
        Task {
            id: id.to_owned(),
            run: row.run.text.clone(),
            case,
            kind: row.kind.clone(),
            justification,
            candidate_roles: split(&row.candidate_roles),
            excluded_actors: split(&row.excluded_actors),
            assignee: copied(&row.assignee),
            priority: priority_from(&row.priority),
            state,
            on_expiry: expiry_from(&row.on_expiry),
            created_at: row.created_at,
            due_at: row.due_at,
        },
    )
}

// ── Claims ──────────────────────────────────────────────────────────────────

/// A refusal of a claim.
#[derive(Debug)]
pub enum ClaimError {
    NotFound(String),
    /// The actor is barred from the task, as one who asked for what it decides.
    Excluded { actor: String },
    /// The actor has none of the roles that may answer it.
    WrongRole { actor: String },
    /// The task waits for nobody.
    NotPending { task: String, state: TaskState },
    /// Somebody else holds it.
    AlreadyClaimed { task: String, holder: String },
    /// The one who is named does not hold it.
    NotHeld { task: String, actor: String },
    Store(StoreError),
}

/// What a [`ClaimError`] says.
pub enum ClaimRefusal {
    NotFound(Seq<char>),
    Excluded { actor: Seq<char> },
    WrongRole { actor: Seq<char> },
    NotPending { task: Seq<char>, state: TaskState },
    AlreadyClaimed { task: Seq<char>, holder: Seq<char> },
    NotHeld { task: Seq<char>, actor: Seq<char> },
    Store(Refusal),
}

impl View for ClaimError {
    type V = ClaimRefusal;

    open spec fn view(&self) -> ClaimRefusal {
        match self {
            ClaimError::NotFound(id) => ClaimRefusal::NotFound(id@),
            ClaimError::Excluded { actor } => ClaimRefusal::Excluded { actor: actor@ },
            ClaimError::WrongRole { actor } => ClaimRefusal::WrongRole { actor: actor@ },
            ClaimError::NotPending { task, state } => ClaimRefusal::NotPending {
                task: task@,
                state: *state,
            },
            ClaimError::AlreadyClaimed { task, holder } => ClaimRefusal::AlreadyClaimed {
                task: task@,
                holder: holder@,
            },
            ClaimError::NotHeld { task, actor } => ClaimRefusal::NotHeld {
                task: task@,
                actor: actor@,
            },
            ClaimError::Store(e) => ClaimRefusal::Store(e@),
        }
    }
}

/// Whether some role is among both. A task that names no roles is for everybody.
pub open spec fn role_fits(candidates: Seq<Seq<char>>, roles: Seq<Seq<char>>) -> bool {
    candidates.len() == 0 || exists|i: int|
        0 <= i < candidates.len() && roles.contains(#[trigger] candidates[i])
}

/// What taking a task is refused with before it is asked who holds it.
pub open spec fn ineligible(t: TaskModel, actor: Seq<char>, roles: Seq<Seq<char>>) -> Option<
    ClaimRefusal,
> {
    if t.excluded_actors.contains(actor) {
        Some(ClaimRefusal::Excluded { actor })
    } else if !role_fits(t.candidate_roles, roles) {
        Some(ClaimRefusal::WrongRole { actor })
    } else if !pending(t.state) {
        Some(ClaimRefusal::NotPending { task: t.id, state: t.state })
    } else {
        None
    }
}

/// Whether a text is in a list.
fn listed_in(v: &Vec<String>, s: &str) -> (b: bool)
    ensures
        b == texts(v@).contains(s@),
{
    let mut i: usize = 0;
    while i < v.len()
        invariant
            i <= v@.len(),
            forall|j: int| 0 <= j < i ==> (#[trigger] v@[j])@ != s@,
        decreases v@.len() - i,
    {
        if same(&v[i], s) {
            assert(texts(v@)[i as int] == s@);
            return true;
        }
        i = i + 1;
    }
    proof {
        if texts(v@).contains(s@) {
            let j = choose|j: int| 0 <= j < texts(v@).len() && #[trigger] texts(v@)[j] == s@;
            assert(v@[j]@ == s@);
        }
    }
    false
}

/// Whether somebody with these roles may take a task for those.
pub fn fits(candidates: &Vec<String>, roles: &Vec<String>) -> (b: bool)
    ensures
        b == role_fits(texts(candidates@), texts(roles@)),
{
    if candidates.len() == 0 {
        return true;
    }
    let mut i: usize = 0;
    while i < candidates.len()
        invariant
            i <= candidates@.len(),
            candidates@.len() > 0,
            forall|j: int|
                0 <= j < i ==> !texts(roles@).contains(#[trigger] texts(candidates@)[j]),
        decreases candidates@.len() - i,
    {
        assert(texts(candidates@)[i as int] == candidates@[i as int]@);
        if listed_in(roles, &candidates[i]) {
            return true;
        }
        i = i + 1;
    }
    false
}

/// Whether somebody may take a task, before it is asked who holds it.
pub fn check_eligible(t: &Task, actor: &str, roles: &Vec<String>) -> (r: Option<ClaimError>)
    ensures
        ineligible(t@, actor@, texts(roles@)) == match r {
            Some(e) => Some(e@),
            None => None,
        },
{
    if listed_in(&t.excluded_actors, actor) {
        return Some(ClaimError::Excluded { actor: actor.to_owned() });
    }
    if !fits(&t.candidate_roles, roles) {
        return Some(ClaimError::WrongRole { actor: actor.to_owned() });
    }
    if !t.state.is_pending() {
        return Some(ClaimError::NotPending { task: t.id.clone(), state: t.state });
    }
    None
}

/// A tenant's task.
pub type TaskKey = (Seq<char>, Seq<char>);

/// The tasks of a plane.
pub struct TaskBook {
    pub tasks: Table<(String, String), TaskRow>,
}

impl View for TaskBook {
    type V = Map<TaskKey, TaskRowModel>;

    open spec fn view(&self) -> Map<TaskKey, TaskRowModel> {
        self.tasks@
    }
}

/// A row that somebody holds.
pub open spec fn held_row(row: TaskRowModel, actor: Seq<char>) -> TaskRowModel {
    TaskRowModel { assignee: Some(actor), state: "claimed"@, ..row }
}

/// What claiming a task answers.
pub open spec fn claim_answer(
    m: Map<TaskKey, TaskRowModel>,
    k: TaskKey,
    actor: Seq<char>,
    roles: Seq<Seq<char>>,
    parsed: Result<Seq<char>, Seq<char>>,
) -> Result<TaskModel, ClaimRefusal> {
    if !m.contains_key(k) {
        Err(ClaimRefusal::NotFound(k.1))
    } else {
        match task_read(k.1, m[k], parsed) {
            Err(e) => Err(ClaimRefusal::Store(e)),
            Ok(t) => match ineligible(t, actor, roles) {
                Some(e) => Err(e),
                None => match m[k].assignee {
                    Some(holder) if holder != actor => Err(
                        ClaimRefusal::AlreadyClaimed { task: k.1, holder },
                    ),
                    _ => Ok(
                        TaskModel { assignee: Some(actor), state: TaskState::Claimed, ..t },
                    ),
                },
            },
        }
    }
}

/// What taking a task over from somebody answers.
pub open spec fn take_over_answer(
    m: Map<TaskKey, TaskRowModel>,
    k: TaskKey,
    from: Seq<char>,
    actor: Seq<char>,
    roles: Seq<Seq<char>>,
    parsed: Result<Seq<char>, Seq<char>>,
) -> Result<TaskModel, ClaimRefusal> {
    if !m.contains_key(k) {
        Err(ClaimRefusal::NotFound(k.1))
    } else {
        match task_read(k.1, m[k], parsed) {
            Err(e) => Err(ClaimRefusal::Store(e)),
            Ok(t) => match ineligible(t, actor, roles) {
                Some(e) => Err(e),
                None => if holds(m[k], from) {
                    Ok(TaskModel { assignee: Some(actor), state: TaskState::Claimed, ..t })
                } else {
                    Err(ClaimRefusal::NotHeld { task: k.1, actor: from })
                },
            },
        }
    }
}

/// Whether somebody holds a task.
pub open spec fn holds(row: TaskRowModel, actor: Seq<char>) -> bool {
    row.assignee == Some(actor) && row.state == "claimed"@
}

/// What a task's justification parses to.
pub open spec fn parsed_of(m: Map<TaskKey, TaskRowModel>, k: TaskKey) -> Result<
    Seq<char>,
    Seq<char>,
> {
    crate::domain::json_read(m[k].justification)
}

/// How the first `n` tasks read, up to the first that does not.
pub open spec fn tasks_read(m: Map<TaskKey, TaskRowModel>, keys: Seq<TaskKey>, n: int) -> Result<
    Seq<TaskModel>,
    Refusal,
>
    decreases n,
{
    if n <= 0 {
        Ok(Seq::empty())
    } else {
        match tasks_read(m, keys, n - 1) {
            Err(e) => Err(e),
            Ok(out) => match task_read(keys[n - 1].1, m[keys[n - 1]], parsed_of(m, keys[n - 1])) {
                Err(e) => Err(e),
                Ok(t) => Ok(out.push(t)),
            },
        }
    }
}

proof fn lemma_tasks_refused(m: Map<TaskKey, TaskRowModel>, keys: Seq<TaskKey>, n: int, len: int)
    requires
        n <= len,
        tasks_read(m, keys, n) is Err,
    ensures
        tasks_read(m, keys, len) == tasks_read(m, keys, n),
    decreases len - n,
{
    if n < len {
        lemma_tasks_refused(m, keys, n, len - 1);
    }
}

/// The keys on a page of a list.
pub open spec fn paged(rows: Seq<((i64, TaskKey), ())>, limit: usize) -> Seq<TaskKey> {
    Seq::new(page(rows.len(), limit) as nat, |i: int| rows[i].0.1)
}

/// Whether a stored state still waits for somebody.
pub open spec fn pending_word(s: Seq<char>) -> bool {
    s == "open"@ || s == "claimed"@ || s == "escalated"@
}

/// When each task that is free was made.
pub open spec fn free_in(t: Seq<char>) -> spec_fn((TaskKey, TaskRowModel)) -> Option<i64> {
    |e: (TaskKey, TaskRowModel)|
        if e.0.0 == t && (e.1.state == "open"@ || e.1.state == "escalated"@) {
            Some(e.1.created_at)
        } else {
            None
        }
}

/// When each task of a case was made.
pub open spec fn of_case(t: Seq<char>, case: Seq<char>) -> spec_fn(
    (TaskKey, TaskRowModel),
) -> Option<i64> {
    |e: (TaskKey, TaskRowModel)|
        if e.0.0 == t && (e.1.case matches Some(c) && c.text == case) {
            Some(e.1.created_at)
        } else {
            None
        }
}

/// When each task that is overdue was due.
pub open spec fn overdue_in(t: Seq<char>, now: i64) -> spec_fn((TaskKey, TaskRowModel)) -> Option<
    i64,
> {
    |e: (TaskKey, TaskRowModel)|
        if e.0.0 == t && pending_word(e.1.state) && (e.1.due_at matches Some(d) && d <= now) {
            e.1.due_at
        } else {
            None
        }
}

/// The tasks that still wait for somebody.
pub open spec fn waiting_in(t: Seq<char>) -> spec_fn((TaskKey, TaskRowModel)) -> bool {
    |e: (TaskKey, TaskRowModel)| e.0.0 == t && pending_word(e.1.state)
}

/// Those of some tasks that somebody with these roles may take.
pub open spec fn fitting(tasks: Seq<TaskModel>, roles: Seq<Seq<char>>) -> Seq<TaskModel> {
    tasks.filter(|t: TaskModel| role_fits(t.candidate_roles, roles))
}

/// What asking for the queue of somebody with these roles answers.
pub open spec fn queue_answer(
    m: Map<TaskKey, TaskRowModel>,
    t: Seq<char>,
    roles: Seq<Seq<char>>,
    limit: usize,
) -> Result<Seq<TaskModel>, Refusal> {
    let keys = paged(listed::<(String, String), TaskRowModel>(m, free_in(t)), limit);
    match tasks_read(m, keys, keys.len() as int) {
        Ok(all) => Ok(fitting(all, roles)),
        Err(e) => Err(e),
    }
}

/// What asking for the tasks of a case answers.
pub open spec fn of_case_answer(m: Map<TaskKey, TaskRowModel>, t: Seq<char>, case: Seq<char>) -> Result<
    Seq<TaskModel>,
    Refusal,
> {
    let keys = paged(listed::<(String, String), TaskRowModel>(m, of_case(t, case)), usize::MAX);
    tasks_read(m, keys, keys.len() as int)
}

/// What asking for the tasks that are overdue answers.
pub open spec fn overdue_answer(
    m: Map<TaskKey, TaskRowModel>,
    t: Seq<char>,
    now: i64,
    limit: usize,
) -> Result<Seq<TaskModel>, Refusal> {
    let keys = paged(listed::<(String, String), TaskRowModel>(m, overdue_in(t, now)), limit);
    tasks_read(m, keys, keys.len() as int)
}

/// How many tasks of a tenant still wait for somebody.
pub open spec fn waiting_count(m: Map<TaskKey, TaskRowModel>, t: Seq<char>) -> nat {
    chosen::<(String, String), TaskRowModel>(m, waiting_in(t)).len()
}

/// The tasks after one was opened, unless it is there already.
pub open spec fn opened(m: Map<TaskKey, TaskRowModel>, t: Seq<char>, task: TaskModel) -> Map<
    TaskKey,
    TaskRowModel,
> {
    if m.contains_key((t, task.id)) {
        m
    } else {
        m.insert((t, task.id), task_row(task))
    }
}

/// A row that nobody holds any more.
pub open spec fn freed_row(row: TaskRowModel) -> TaskRowModel {
    TaskRowModel { assignee: None, state: "open"@, ..row }
}

/// The tasks after one was given a state. One that is not there stays away.
pub open spec fn state_given(m: Map<TaskKey, TaskRowModel>, k: TaskKey, state: TaskState) -> Map<
    TaskKey,
    TaskRowModel,
> {
    if m.contains_key(k) {
        m.insert(k, TaskRowModel { state: task_word(state), ..m[k] })
    } else {
        m
    }
}

struct FreeIn<'a> {
    tenant: &'a str,
}

impl<'a> Stamp<(String, String), TaskRow> for FreeIn<'a> {
    closed spec fn stamp(&self, k: TaskKey, r: TaskRowModel) -> Option<i64> {
        if k.0 == self.tenant@ && (r.state == "open"@ || r.state == "escalated"@) {
            Some(r.created_at)
        } else {
            None
        }
    }

    fn instant(&self, k: &(String, String), r: &TaskRow) -> (at: Option<i64>) {
        if same(&k.0, self.tenant) && (same(&r.state, "open") || same(&r.state, "escalated")) {
            Some(r.created_at)
        } else {
            None
        }
    }
}

struct OfCase<'a> {
    tenant: &'a str,
    case: &'a str,
}

impl<'a> Stamp<(String, String), TaskRow> for OfCase<'a> {
    closed spec fn stamp(&self, k: TaskKey, r: TaskRowModel) -> Option<i64> {
        if k.0 == self.tenant@ && (r.case matches Some(c) && c.text == self.case@) {
            Some(r.created_at)
        } else {
            None
        }
    }

    fn instant(&self, k: &(String, String), r: &TaskRow) -> (at: Option<i64>) {
        let ours = match &r.case {
            Some(c) => same(&c.text, self.case),
            None => false,
        };
        if same(&k.0, self.tenant) && ours {
            Some(r.created_at)
        } else {
            None
        }
    }
}

fn is_pending_word(s: &str) -> (b: bool)
    ensures
        b == pending_word(s@),
{
    same(s, "open") || same(s, "claimed") || same(s, "escalated")
}

struct OverdueIn<'a> {
    tenant: &'a str,
    now: i64,
}

impl<'a> Stamp<(String, String), TaskRow> for OverdueIn<'a> {
    closed spec fn stamp(&self, k: TaskKey, r: TaskRowModel) -> Option<i64> {
        if k.0 == self.tenant@ && pending_word(r.state) && (r.due_at matches Some(d) && d
            <= self.now) {
            r.due_at
        } else {
            None
        }
    }

    fn instant(&self, k: &(String, String), r: &TaskRow) -> (at: Option<i64>) {
        match r.due_at {
            Some(d) => if same(&k.0, self.tenant) && is_pending_word(&r.state) && d <= self.now {
                Some(d)
            } else {
                None
            },
            None => None,
        }
    }
}

struct WaitingIn<'a> {
    tenant: &'a str,
}

impl<'a> Pick<(String, String), TaskRow> for WaitingIn<'a> {
    closed spec fn picks(&self, k: TaskKey, r: TaskRowModel) -> bool {
        k.0 == self.tenant@ && pending_word(r.state)
    }

    fn test(&self, k: &(String, String), r: &TaskRow) -> (b: bool) {
        same(&k.0, self.tenant) && is_pending_word(&r.state)
    }
}

impl TaskBook {
    /// No tasks.
    pub fn new() -> (b: TaskBook)
        ensures
            b@ == Map::<TaskKey, TaskRowModel>::empty(),
    {
        TaskBook { tasks: Table::new() }
    }

    /// Opens a task, unless it is open already, and answers with the task as it
    /// stands.
    pub fn open(&mut self, tenant: &str, task: &Task) -> (r: Result<Task, StoreError>)
        ensures
            ({
                let k = (tenant@, task@.id);
                &&& final(self)@ == opened(old(self)@, tenant@, task@)
                &&& task_read(task@.id, final(self)@[k], parsed_of(final(self)@, k)) == match r {
                    Ok(t) => Ok::<TaskModel, Refusal>(t@),
                    Err(e) => Err::<TaskModel, Refusal>(e@),
                }
            }),
    {
        let key = (tenant.to_owned(), task.id.clone());
        if !self.tasks.contains(&key) {
            let row = TaskRow {
                run: StoredId { text: task.run.clone(), fault: None },
                case: match &task.case {
                    Some(c) => Some(StoredId { text: c.clone(), fault: None }),
                    None => None,
                },
                kind: task.kind.clone(),
                justification: task.justification.clone(),
                candidate_roles: join_list(&task.candidate_roles),
                excluded_actors: join_list(&task.excluded_actors),
                assignee: copied(&task.assignee),
                priority: task.priority.as_str().to_owned(),
                state: task.state.as_str().to_owned(),
                on_expiry: expiry_str(task.on_expiry).to_owned(),
                created_at: task.created_at,
                due_at: task.due_at,
                fault: None,
                created_fault: None,
                due_fault: None,
            };
            assert(row@ == task_row(task@));
            self.tasks.insert((tenant.to_owned(), task.id.clone()), row);
        }
        match self.tasks.get(&key) {
            Some(row) => task_from(&task.id, row, parse_json(&row.justification)),
            None => Err(StoreError::NotFound(task.id.clone())),
        }
    }

    /// A task.
    pub fn task(&self, tenant: &str, id: &str) -> (r: Result<Option<Task>, StoreError>)
        ensures
            ({
                let k = (tenant@, id@);
                match r {
                    Ok(None) => !self@.contains_key(k),
                    Ok(Some(t)) => self@.contains_key(k) && task_read(
                        id@,
                        self@[k],
                        parsed_of(self@, k),
                    ) == Ok::<TaskModel, Refusal>(t@),
                    Err(e) => self@.contains_key(k) && task_read(
                        id@,
                        self@[k],
                        parsed_of(self@, k),
                    ) == Err::<TaskModel, Refusal>(e@),
                }
            }),
    {
        match self.tasks.get(&(tenant.to_owned(), id.to_owned())) {
            None => Ok(None),
            Some(row) => match task_from(id, row, parse_json(&row.justification)) {
                Ok(t) => Ok(Some(t)),
                Err(e) => Err(e),
            },
        }
    }

    /// What a task's justification parses to.
    fn parsed(&self, tenant: &str, id: &str) -> (r: Result<String, String>)
        ensures
            self@.contains_key((tenant@, id@)) ==> reading(r) == parsed_of(
                self@,
                (tenant@, id@),
            ),
    {
        match self.tasks.get(&(tenant.to_owned(), id.to_owned())) {
            Some(row) => parse_json(&row.justification),
            None => Err(String::new()),
        }
    }

    /// Gives a task to somebody.
    fn hand(&mut self, tenant: &str, id: &str, actor: &str)
        requires
            old(self)@.contains_key((tenant@, id@)),
        ensures
            final(self)@ == old(self)@.insert(
                (tenant@, id@),
                held_row(old(self)@[(tenant@, id@)], actor@),
            ),
    {
        let key = (tenant.to_owned(), id.to_owned());
        let mut row = match self.tasks.get(&key) {
            Some(row) => row.twin(),
            None => {
                return ;
            },
        };
        row.assignee = Some(actor.to_owned());
        row.state = "claimed".to_owned();
        self.tasks.insert(key, row);
    }

    /// Claims a task for somebody, given what its justification parsed to.
    pub fn claim_with(
        &mut self,
        tenant: &str,
        id: &str,
        actor: &str,
        roles: &Vec<String>,
        parsed: Result<String, String>,
    ) -> (r: Result<Task, ClaimError>)
        ensures
            ({
                let k = (tenant@, id@);
                &&& claim_answer(old(self)@, k, actor@, texts(roles@), reading(parsed)) == match r {
                    Ok(t) => Ok::<TaskModel, ClaimRefusal>(t@),
                    Err(e) => Err::<TaskModel, ClaimRefusal>(e@),
                }
                &&& final(self)@ == if r is Ok {
                    old(self)@.insert(k, held_row(old(self)@[k], actor@))
                } else {
                    old(self)@
                }
            }),
    {
        let key = (tenant.to_owned(), id.to_owned());
        let mut task = match self.tasks.get(&key) {
            None => {
                return Err(ClaimError::NotFound(id.to_owned()));
            },
            Some(row) => match task_from(id, row, parsed) {
                Err(e) => {
                    return Err(ClaimError::Store(e));
                },
                Ok(task) => task,
            },
        };
        if let Some(e) = check_eligible(&task, actor, roles) {
            return Err(e);
        }
        if let Some(holder) = &task.assignee {
            if !same(holder, actor) {
                return Err(
                    ClaimError::AlreadyClaimed { task: id.to_owned(), holder: holder.clone() },
                );
            }
        }
        self.hand(tenant, id, actor);
        task.assignee = Some(actor.to_owned());
        task.state = TaskState::Claimed;
        Ok(task)
    }

    /// Claims a task for somebody. Whoever holds it may claim it again.
    pub fn claim(&mut self, tenant: &str, id: &str, actor: &str, roles: &Vec<String>) -> (r: Result<
        Task,
        ClaimError,
    >)
        ensures
            ({
                let k = (tenant@, id@);
                &&& claim_answer(
                    old(self)@,
                    k,
                    actor@,
                    texts(roles@),
                    parsed_of(old(self)@, k),
                ) == match r {
                    Ok(t) => Ok::<TaskModel, ClaimRefusal>(t@),
                    Err(e) => Err::<TaskModel, ClaimRefusal>(e@),
                }
                &&& final(self)@ == if r is Ok {
                    old(self)@.insert(k, held_row(old(self)@[k], actor@))
                } else {
                    old(self)@
                }
            }),
    {
        let parsed = self.parsed(tenant, id);
        self.claim_with(tenant, id, actor, roles, parsed)
    }

    /// Takes a task over from the one who is named, given what its justification
    /// parsed to.
    pub fn take_over_with(
        &mut self,
        tenant: &str,
        id: &str,
        from: &str,
        actor: &str,
        roles: &Vec<String>,
        parsed: Result<String, String>,
    ) -> (r: Result<Task, ClaimError>)
        ensures
            ({
                let k = (tenant@, id@);
                &&& take_over_answer(
                    old(self)@,
                    k,
                    from@,
                    actor@,
                    texts(roles@),
                    reading(parsed),
                ) == match r {
                    Ok(t) => Ok::<TaskModel, ClaimRefusal>(t@),
                    Err(e) => Err::<TaskModel, ClaimRefusal>(e@),
                }
                &&& final(self)@ == if r is Ok {
                    old(self)@.insert(k, held_row(old(self)@[k], actor@))
                } else {
                    old(self)@
                }
            }),
    {
        let key = (tenant.to_owned(), id.to_owned());
        let (mut task, held) = match self.tasks.get(&key) {
            None => {
                return Err(ClaimError::NotFound(id.to_owned()));
            },
            Some(row) => match task_from(id, row, parsed) {
                Err(e) => {
                    return Err(ClaimError::Store(e));
                },
                Ok(task) => (task, holds_row(row, from)),
            },
        };
        if let Some(e) = check_eligible(&task, actor, roles) {
            return Err(e);
        }
        if !held {
            return Err(ClaimError::NotHeld { task: id.to_owned(), actor: from.to_owned() });
        }
        self.hand(tenant, id, actor);
        task.assignee = Some(actor.to_owned());
        task.state = TaskState::Claimed;
        Ok(task)
    }

    /// Takes a task over from the one who is named, if they still hold it.
    pub fn take_over(
        &mut self,
        tenant: &str,
        id: &str,
        from: &str,
        actor: &str,
        roles: &Vec<String>,
    ) -> (r: Result<Task, ClaimError>)
        ensures
            ({
                let k = (tenant@, id@);
                &&& take_over_answer(
                    old(self)@,
                    k,
                    from@,
                    actor@,
                    texts(roles@),
                    parsed_of(old(self)@, k),
                ) == match r {
                    Ok(t) => Ok::<TaskModel, ClaimRefusal>(t@),
                    Err(e) => Err::<TaskModel, ClaimRefusal>(e@),
                }
                &&& final(self)@ == if r is Ok {
                    old(self)@.insert(k, held_row(old(self)@[k], actor@))
                } else {
                    old(self)@
                }
            }),
    {
        let parsed = self.parsed(tenant, id);
        self.take_over_with(tenant, id, from, actor, roles, parsed)
    }

    /// Lets go of a task. Only whoever holds it can.
    pub fn release(&mut self, tenant: &str, id: &str, actor: &str) -> (r: Result<(), ClaimError>)
        ensures
            ({
                let k = (tenant@, id@);
                let held = old(self)@.contains_key(k) && holds(old(self)@[k], actor@);
                match r {
                    Ok(_) => held && final(self)@ == old(self)@.insert(k, freed_row(old(self)@[k])),
                    Err(e) => !held && e@ == (ClaimRefusal::NotHeld { task: id@, actor: actor@ })
                        && final(self)@ == old(self)@,
                }
            }),
    {
        let key = (tenant.to_owned(), id.to_owned());
        let held = match self.tasks.get(&key) {
            Some(row) => if holds_row(row, actor) {
                Some(row.twin())
            } else {
                None
            },
            None => None,
        };
        let mut row = match held {
            Some(row) => row,
            None => {
                return Err(ClaimError::NotHeld { task: id.to_owned(), actor: actor.to_owned() });
            },
        };
        row.assignee = None;
        row.state = "open".to_owned();
        self.tasks.insert(key, row);
        Ok(())
    }

    /// Gives a task a state. A task that is not there stays away.
    pub fn set_state(&mut self, tenant: &str, id: &str, state: TaskState)
        ensures
            final(self)@ == state_given(old(self)@, (tenant@, id@), state),
    {
        let key = (tenant.to_owned(), id.to_owned());
        let mut row = match self.tasks.get(&key) {
            Some(row) => row.twin(),
            None => {
                return ;
            },
        };
        row.state = state.as_str().to_owned();
        self.tasks.insert(key, row);
    }

    /// Reads the tasks under some keys.
    fn collect(&self, keys: &Vec<(String, String)>, want: Ghost<Seq<TaskKey>>) -> (r: Result<
        Vec<Task>,
        StoreError,
    >)
        requires
            keys@.len() == want@.len(),
            forall|i: int|
                0 <= i < keys@.len() ==> (#[trigger] keys@[i])@ == want@[i] && self@.contains_key(
                    want@[i],
                ),
        ensures
            tasks_read(self@, want@, want@.len() as int) == match r {
                Ok(out) => Ok::<Seq<TaskModel>, Refusal>(tasks_of(out@)),
                Err(e) => Err::<Seq<TaskModel>, Refusal>(e@),
            },
    {
        let mut out: Vec<Task> = Vec::new();
        let mut i: usize = 0;
        assert(tasks_of(out@) =~= Seq::<TaskModel>::empty());
        assert forall|j: int| 0 <= j < keys@.len() implies self@.contains_key(
            #[trigger] want@[j],
        ) by {
            assert(keys@[j]@ == want@[j]);
        }
        while i < keys.len()
            invariant
                i <= keys@.len(),
                keys@.len() == want@.len(),
                forall|j: int| 0 <= j < keys@.len() ==> (#[trigger] keys@[j])@ == want@[j],
                forall|j: int| 0 <= j < keys@.len() ==> self@.contains_key(#[trigger] want@[j]),
                tasks_read(self@, want@, i as int) == Ok::<Seq<TaskModel>, Refusal>(
                    tasks_of(out@),
                ),
            decreases keys@.len() - i,
        {
            assert(keys@[i as int]@ == want@[i as int]);
            match self.tasks.get(&keys[i]) {
                Some(row) => {
                    match task_from(&keys[i].1, row, parse_json(&row.justification)) {
                        Ok(t) => {
                            let ghost so_far = tasks_of(out@);
                            let ghost last = t@;
                            out.push(t);
                            assert(tasks_of(out@) =~= so_far.push(last));
                        },
                        Err(e) => {
                            proof {
                                lemma_tasks_refused(self@, want@, i + 1, want@.len() as int);
                            }
                            return Err(e);
                        },
                    }
                },
                None => {},
            }
            i = i + 1;
        }
        Ok(out)
    }

    /// The free tasks that somebody with these roles may take: the `limit`
    /// oldest are looked at, and those that fit are given.
    pub fn queue(&self, tenant: &str, roles: &Vec<String>, limit: usize) -> (r: Result<
        Vec<Task>,
        StoreError,
    >)
        ensures
            queue_answer(self@, tenant@, texts(roles@), limit) == match r {
                Ok(out) => Ok::<Seq<TaskModel>, Refusal>(tasks_of(out@)),
                Err(e) => Err::<Seq<TaskModel>, Refusal>(e@),
            },
    {
        let keys = self.tasks.list(&FreeIn { tenant }, limit, Ghost(free_in(tenant@)));
        let ghost want = paged(
            listed::<(String, String), TaskRowModel>(self@, free_in(tenant@)),
            limit,
        );
        match self.collect(&keys, Ghost(want)) {
            Err(e) => Err(e),
            Ok(all) => Ok(keep_fitting(all, roles)),
        }
    }

    /// The tasks of a case, the oldest first.
    pub fn for_case(&self, tenant: &str, case: &str) -> (r: Result<Vec<Task>, StoreError>)
        ensures
            of_case_answer(self@, tenant@, case@) == match r {
                Ok(out) => Ok::<Seq<TaskModel>, Refusal>(tasks_of(out@)),
                Err(e) => Err::<Seq<TaskModel>, Refusal>(e@),
            },
            listed::<(String, String), TaskRowModel>(self@, of_case(tenant@, case@)).len()
                <= usize::MAX,
    {
        let keys = self.tasks.list(
            &OfCase { tenant, case },
            usize::MAX,
            Ghost(of_case(tenant@, case@)),
        );
        self.collect(
            &keys,
            Ghost(
                paged(
                    listed::<(String, String), TaskRowModel>(self@, of_case(tenant@, case@)),
                    usize::MAX,
                ),
            ),
        )
    }

    /// How many tasks still wait for somebody.
    pub fn open_count(&self, tenant: &str) -> (n: u64)
        ensures
            n == waiting_count(self@, tenant@),
    {
        self.tasks.tally(&WaitingIn { tenant }, Ghost(waiting_in(tenant@))) as u64
    }

    /// The tasks whose window closed with nobody having answered, the longest
    /// overdue first and no more than `limit` of them.
    pub fn overdue(&self, tenant: &str, now: i64, limit: usize) -> (r: Result<
        Vec<Task>,
        StoreError,
    >)
        ensures
            overdue_answer(self@, tenant@, now, limit) == match r {
                Ok(out) => Ok::<Seq<TaskModel>, Refusal>(tasks_of(out@)),
                Err(e) => Err::<Seq<TaskModel>, Refusal>(e@),
            },
    {
        let keys = self.tasks.list(
            &OverdueIn { tenant, now },
            limit,
            Ghost(overdue_in(tenant@, now)),
        );
        self.collect(
            &keys,
            Ghost(
                paged(
                    listed::<(String, String), TaskRowModel>(self@, overdue_in(tenant@, now)),
                    limit,
                ),
            ),
        )
    }
}

/// Whether somebody holds a task.
fn holds_row(row: &TaskRow, actor: &str) -> (b: bool)
    ensures
        b == holds(row@, actor@),
{
    let theirs = match &row.assignee {
        Some(a) => same(a, actor),
        None => false,
    };
    theirs && same(&row.state, "claimed")
}

/// Keeps the tasks that somebody with these roles may take.
fn keep_fitting(all: Vec<Task>, roles: &Vec<String>) -> (out: Vec<Task>)
    ensures
        tasks_of(out@) == fitting(tasks_of(all@), texts(roles@)),
{
    let mut rest = all;
    let mut out: Vec<Task> = Vec::new();
    let ghost whole = tasks_of(all@);
    let ghost rule = |t: TaskModel| role_fits(t.candidate_roles, texts(roles@));
    let ghost mut taken: int = 0;
    proof {
        reveal(Seq::filter);
        assert(whole.take(0).filter(rule) =~= Seq::<TaskModel>::empty());
        assert(whole.subrange(0, whole.len() as int) =~= whole);
    }
    assert(tasks_of(out@) =~= Seq::<TaskModel>::empty());
    while rest.len() > 0
        invariant
            0 <= taken <= whole.len(),
            tasks_of(rest@) == whole.subrange(taken, whole.len() as int),
            tasks_of(out@) == whole.take(taken).filter(rule),
            rule == (|t: TaskModel| role_fits(t.candidate_roles, texts(roles@))),
        decreases rest@.len(),
    {
        let ghost before = tasks_of(rest@);
        let ghost so_far = tasks_of(out@);
        proof {
            assert(before.len() == rest@.len());
            crate::table::lemma_filter_step(whole, rule, taken);
        }
        let ghost whole_rest = rest@;
        let t = rest.remove(0);
        assert forall|j: int| 0 <= j < rest@.len() implies rest@[j] == whole_rest[j + 1] by {}
        assert forall|j: int| 0 <= j < rest@.len() implies #[trigger] tasks_of(rest@)[j] == whole[
            taken + 1 + j
        ] by {
            assert(before[j + 1] == whole_rest[j + 1]@);
            assert(before[j + 1] == whole[taken + j + 1]);
        }
        assert(t@ == before[0]);
        assert(t@ == whole[taken]);
        assert(tasks_of(rest@) =~= whole.subrange(taken + 1, whole.len() as int));
        let ghost tm = t@;
        if fits(&t.candidate_roles, roles) {
            out.push(t);
            assert(tasks_of(out@) =~= so_far.push(tm));
        }
        proof {
            taken = taken + 1;
        }
    }
    assert(tasks_of(rest@).len() == 0);
    assert(whole.take(taken) =~= whole);
    out
}

// ── Laws ────────────────────────────────────────────────────────────────────

/// Four eyes: somebody who is excluded from a task never gets it, neither by
/// claiming it nor by taking it over.
pub proof fn law_excluded_actor_never_holds(
    m: Map<TaskKey, TaskRowModel>,
    k: TaskKey,
    from: Seq<char>,
    actor: Seq<char>,
    roles: Seq<Seq<char>>,
    parsed: Result<Seq<char>, Seq<char>>,
)
    requires
        m.contains_key(k),
        split_text(m[k].excluded_actors).contains(actor),
    ensures
        claim_answer(m, k, actor, roles, parsed) is Err,
        take_over_answer(m, k, from, actor, roles, parsed) is Err,
{
}

/// Eligibility comes first: somebody who may not take a task is told that, no
/// matter who holds it and whether it still waits.
pub proof fn law_eligibility_comes_first(
    m: Map<TaskKey, TaskRowModel>,
    k: TaskKey,
    actor: Seq<char>,
    roles: Seq<Seq<char>>,
    parsed: Result<Seq<char>, Seq<char>>,
    t: TaskModel,
)
    requires
        m.contains_key(k),
        task_read(k.1, m[k], parsed) == Ok::<TaskModel, Refusal>(t),
        !role_fits(t.candidate_roles, roles),
    ensures
        claim_answer(m, k, actor, roles, parsed) == Err::<TaskModel, ClaimRefusal>(
            if t.excluded_actors.contains(actor) {
                ClaimRefusal::Excluded { actor }
            } else {
                ClaimRefusal::WrongRole { actor }
            },
        ),
{
}

/// A task has one holder: once somebody has claimed it, anybody else who could
/// have is told who holds it, and the holder may claim it again.
pub proof fn law_one_holder(
    m: Map<TaskKey, TaskRowModel>,
    k: TaskKey,
    actor: Seq<char>,
    other: Seq<char>,
    roles: Seq<Seq<char>>,
    parsed: Result<Seq<char>, Seq<char>>,
)
    requires
        claim_answer(m, k, actor, roles, parsed) is Ok,
        claim_answer(m, k, other, roles, parsed) is Ok,
        actor != other,
    ensures
        ({
            let after = m.insert(k, held_row(m[k], actor));
            &&& holds(after[k], actor)
            &&& claim_answer(after, k, other, roles, parsed) == Err::<TaskModel, ClaimRefusal>(
                ClaimRefusal::AlreadyClaimed { task: k.1, holder: actor },
            )
            &&& claim_answer(after, k, actor, roles, parsed) is Ok
        }),
{
    reveal_task_words();
}

/// A task is taken over only from the one who holds it: a view that is out of
/// date displaces nobody.
pub proof fn law_take_over_needs_the_holder(
    m: Map<TaskKey, TaskRowModel>,
    k: TaskKey,
    from: Seq<char>,
    actor: Seq<char>,
    roles: Seq<Seq<char>>,
    parsed: Result<Seq<char>, Seq<char>>,
)
    requires
        m.contains_key(k),
        m[k].assignee != Some(from),
    ensures
        take_over_answer(m, k, from, actor, roles, parsed) is Err,
{
}

/// Every task that the sweep takes to be overdue still waits for somebody and
/// was due by now.
pub proof fn law_overdue_is_pending(
    m: Map<TaskKey, TaskRowModel>,
    t: Seq<char>,
    now: i64,
    i: int,
)
    requires
        crate::table::stamped::<(String, String), TaskRowModel>(
            m,
            overdue_in(t, now),
        ).dom().finite(),
        0 <= i < listed::<(String, String), TaskRowModel>(m, overdue_in(t, now)).len(),
    ensures
        ({
            let k = listed::<(String, String), TaskRowModel>(m, overdue_in(t, now))[i].0.1;
            &&& m.contains_key(k)
            &&& k.0 == t
            &&& pending_word(m[k].state)
            &&& m[k].due_at matches Some(d)
            &&& d <= now
        }),
{
    let s = crate::table::stamped::<(String, String), TaskRowModel>(m, overdue_in(t, now));
    crate::table::lemma_walk::<(i64, (String, String)), ()>(s);
    let w = listed::<(String, String), TaskRowModel>(m, overdue_in(t, now));
    crate::table::lemma_entry::<(i64, (String, String)), ()>(w, i);
    assert(s.contains_key(w[i].0));
}

} // verus!
