//! The words a plane stores its states as, and reading them back.

use vstd::prelude::*;

use crate::error::{Refusal, StoreError};
use crate::text::{join3, said, same};

verus! {

/// A key by which messages about one matter find each other.
#[derive(Debug)]
pub struct CorrelationKey {
    pub namespace: String,
    pub value: String,
}

impl View for CorrelationKey {
    type V = (Seq<char>, Seq<char>);

    open spec fn view(&self) -> (Seq<char>, Seq<char>) {
        (self.namespace@, self.value@)
    }
}

/// What a list of correlation keys says.
pub open spec fn keys_of(keys: Seq<CorrelationKey>) -> Seq<(Seq<char>, Seq<char>)> {
    Seq::new(keys.len(), |i: int| keys[i]@)
}

/// How a correlation key is shown.
pub open spec fn key_shown(k: (Seq<char>, Seq<char>)) -> Seq<char> {
    k.0 + ":"@ + k.1
}

impl CorrelationKey {
    /// A key from its two parts.
    pub fn new(namespace: String, value: String) -> (k: CorrelationKey)
        ensures
            k@ == (namespace@, value@),
    {
        CorrelationKey { namespace, value }
    }

    /// A second copy of the key.
    pub fn twin(&self) -> (k: CorrelationKey)
        ensures
            k@ == self@,
    {
        CorrelationKey { namespace: self.namespace.clone(), value: self.value.clone() }
    }

    /// How the key is shown.
    pub fn shown(&self) -> (s: String)
        ensures
            s@ == key_shown(self@),
    {
        join3(&self.namespace, ":", &self.value)
    }
}

/// A second copy of a list of keys.
pub fn twin_keys(keys: &Vec<CorrelationKey>) -> (out: Vec<CorrelationKey>)
    ensures
        keys_of(out@) == keys_of(keys@),
{
    let mut out: Vec<CorrelationKey> = Vec::new();
    let mut i: usize = 0;
    while i < keys.len()
        invariant
            i <= keys@.len(),
            out@.len() == i,
            forall|j: int| 0 <= j < i ==> (#[trigger] out@[j])@ == keys@[j]@,
        decreases keys@.len() - i,
    {
        out.push(keys[i].twin());
        i = i + 1;
    }
    assert(keys_of(out@) =~= keys_of(keys@));
    out
}

/// An id as it is stored, and what is wrong with it where it is not one.
#[derive(Debug)]
pub struct StoredId {
    pub text: String,
    pub fault: Option<String>,
}

/// What a [`StoredId`] says.
#[verifier::ext_equal]
pub struct IdModel {
    pub text: Seq<char>,
    pub fault: Option<Seq<char>>,
}

impl View for StoredId {
    type V = IdModel;

    open spec fn view(&self) -> IdModel {
        IdModel {
            text: self.text@,
            fault: match self.fault {
                Some(f) => Some(f@),
                None => None,
            },
        }
    }
}

impl StoredId {
    /// A second copy of the id.
    pub fn twin(&self) -> (id: StoredId)
        ensures
            id@ == self@,
    {
        StoredId {
            text: self.text.clone(),
            fault: match &self.fault {
                Some(f) => Some(f.clone()),
                None => None,
            },
        }
    }
}

/// What is wrong with the id or the instant that a row is under, where it is
/// none.
#[derive(Debug)]
pub struct Fault {
    pub said: Option<String>,
}

impl View for Fault {
    type V = Option<Seq<char>>;

    open spec fn view(&self) -> Option<Seq<char>> {
        said(self.said)
    }
}

/// An id that is one.
pub open spec fn good_id(text: Seq<char>) -> IdModel {
    IdModel { text, fault: None }
}

// ── Cases ───────────────────────────────────────────────────────────────────

/// Where a case stands.
#[derive(Debug, Clone, Copy, PartialEq, Eq, Structural)]
pub enum CaseStatus {
    Open,
    AwaitingExternal,
    AwaitingHuman,
    Escalated,
    Closed,
}

/// The word a case status is stored as.
pub open spec fn status_word(status: CaseStatus) -> Seq<char> {
    match status {
        CaseStatus::Open => "open"@,
        CaseStatus::AwaitingExternal => "awaiting_external"@,
        CaseStatus::AwaitingHuman => "awaiting_human"@,
        CaseStatus::Escalated => "escalated"@,
        CaseStatus::Closed => "closed"@,
    }
}

proof fn reveal_status_words()
    ensures
        "open"@ == seq!['o', 'p', 'e', 'n'],
        "awaiting_external"@.len() == 17,
        "awaiting_human"@.len() == 14,
        "escalated"@.len() == 9,
        "closed"@.len() == 6,
{
    reveal_strlit("open");
    reveal_strlit("awaiting_external");
    reveal_strlit("awaiting_human");
    reveal_strlit("escalated");
    reveal_strlit("closed");
    assert("open"@ =~= seq!['o', 'p', 'e', 'n']);
}

/// Every case status has a word of its own.
pub proof fn law_status_words_differ(a: CaseStatus, b: CaseStatus)
    ensures
        status_word(a) == status_word(b) ==> a == b,
{
    reveal_status_words();
}

impl CaseStatus {
    /// The word the status is stored as.
    pub fn as_str(self) -> (s: &'static str)
        ensures
            s@ == status_word(self),
    {
        match self {
            CaseStatus::Open => "open",
            CaseStatus::AwaitingExternal => "awaiting_external",
            CaseStatus::AwaitingHuman => "awaiting_human",
            CaseStatus::Escalated => "escalated",
            CaseStatus::Closed => "closed",
        }
    }
}

pub open spec fn bad_status_text(s: Seq<char>) -> Seq<char> {
    "unknown case status '"@ + s + "'"@
}

/// Whether a word is that of some case status.
pub open spec fn is_status_word(s: Seq<char>) -> bool {
    exists|status: CaseStatus| #[trigger] status_word(status) == s
}

/// Reads a case status back.
pub fn status_from(s: &str) -> (r: Result<CaseStatus, StoreError>)
    ensures
        match r {
            Ok(status) => status_word(status) == s@,
            Err(e) => !is_status_word(s@) && e@ == (Refusal::Corrupt {
                seq: 0,
                detail: bad_status_text(s@),
            }),
        },
{
    if same(s, "open") {
        Ok(CaseStatus::Open)
    } else if same(s, "awaiting_external") {
        Ok(CaseStatus::AwaitingExternal)
    } else if same(s, "awaiting_human") {
        Ok(CaseStatus::AwaitingHuman)
    } else if same(s, "escalated") {
        Ok(CaseStatus::Escalated)
    } else if same(s, "closed") {
        Ok(CaseStatus::Closed)
    } else {
        Err(StoreError::Corrupt { seq: 0, detail: join3("unknown case status '", s, "'") })
    }
}

// ── Deadlines ───────────────────────────────────────────────────────────────

/// Where an obligation stands.
#[derive(Debug, Clone, Copy, PartialEq, Eq, Structural)]
pub enum DeadlineState {
    Pending,
    Warned,
    Breached,
    Met,
    Cancelled,
}

/// The word a deadline state is stored as.
pub open spec fn deadline_word(state: DeadlineState) -> Seq<char> {
    match state {
        DeadlineState::Pending => "pending"@,
        DeadlineState::Warned => "warned"@,
        DeadlineState::Breached => "breached"@,
        DeadlineState::Met => "met"@,
        DeadlineState::Cancelled => "cancelled"@,
    }
}

proof fn reveal_deadline_words()
    ensures
        "pending"@.len() == 7,
        "warned"@.len() == 6,
        "breached"@.len() == 8,
        "met"@.len() == 3,
        "cancelled"@.len() == 9,
{
    reveal_strlit("pending");
    reveal_strlit("warned");
    reveal_strlit("breached");
    reveal_strlit("met");
    reveal_strlit("cancelled");
}

/// Every deadline state has a word of its own.
pub proof fn law_deadline_words_differ(a: DeadlineState, b: DeadlineState)
    ensures
        deadline_word(a) == deadline_word(b) ==> a == b,
{
    reveal_deadline_words();
}

impl DeadlineState {
    /// The word the state is stored as.
    pub fn as_str(self) -> (s: &'static str)
        ensures
            s@ == deadline_word(self),
    {
        match self {
            DeadlineState::Pending => "pending",
            DeadlineState::Warned => "warned",
            DeadlineState::Breached => "breached",
            DeadlineState::Met => "met",
            DeadlineState::Cancelled => "cancelled",
        }
    }
}

pub open spec fn bad_deadline_text(s: Seq<char>) -> Seq<char> {
    "unknown deadline state '"@ + s + "'"@
}

/// Whether a word is that of some deadline state.
pub open spec fn is_deadline_word(s: Seq<char>) -> bool {
    exists|state: DeadlineState| #[trigger] deadline_word(state) == s
}

/// Reads a deadline state back.
pub fn deadline_state_from(s: &str) -> (r: Result<DeadlineState, StoreError>)
    ensures
        match r {
            Ok(state) => deadline_word(state) == s@,
            Err(e) => !is_deadline_word(s@) && e@ == (Refusal::Corrupt {
                seq: 0,
                detail: bad_deadline_text(s@),
            }),
        },
{
    if same(s, "pending") {
        Ok(DeadlineState::Pending)
    } else if same(s, "warned") {
        Ok(DeadlineState::Warned)
    } else if same(s, "breached") {
        Ok(DeadlineState::Breached)
    } else if same(s, "met") {
        Ok(DeadlineState::Met)
    } else if same(s, "cancelled") {
        Ok(DeadlineState::Cancelled)
    } else {
        Err(StoreError::Corrupt { seq: 0, detail: join3("unknown deadline state '", s, "'") })
    }
}

/// Whether an obligation of this state still blocks closure and is looked at by
/// the sweep.
pub open spec fn outstanding(state: Seq<char>) -> bool {
    state == "pending"@ || state == "warned"@
}

/// Whether an obligation of this state is still outstanding.
pub fn is_outstanding(state: &str) -> (b: bool)
    ensures
        b == outstanding(state@),
{
    same(state, "pending") || same(state, "warned")
}

/// When an obligation first needs attention: at its warning or at its due
/// instant, whichever comes first.
pub open spec fn first_attention(resolved_at: i64, warn_at: Option<i64>) -> i64 {
    match warn_at {
        Some(w) => if w < resolved_at {
            w
        } else {
            resolved_at
        },
        None => resolved_at,
    }
}

/// When an obligation first needs attention.
pub fn trigger_at(resolved_at: i64, warn_at: Option<i64>) -> (t: i64)
    ensures
        t == first_attention(resolved_at, warn_at),
{
    match warn_at {
        Some(w) => if w < resolved_at {
            w
        } else {
            resolved_at
        },
        None => resolved_at,
    }
}

// ── Phases ──────────────────────────────────────────────────────────────────

/// Whether a step runs forward or undoes one.
#[derive(Debug, Clone, Copy, PartialEq, Eq, Structural)]
pub enum Phase {
    Forward,
    Compensating,
}

/// The word a phase is stored as.
pub open spec fn phase_word(phase: Phase) -> Seq<char> {
    match phase {
        Phase::Forward => "forward"@,
        Phase::Compensating => "compensating"@,
    }
}

/// The word a phase is stored as.
pub fn phase_str(phase: Phase) -> (s: &'static str)
    ensures
        s@ == phase_word(phase),
{
    match phase {
        Phase::Forward => "forward",
        Phase::Compensating => "compensating",
    }
}

/// The phase a word stands for. Any word but one is forward.
pub open spec fn phase_of(s: Seq<char>) -> Phase {
    if s == "compensating"@ {
        Phase::Compensating
    } else {
        Phase::Forward
    }
}

/// Reads a phase back.
pub fn phase_from(s: &str) -> (phase: Phase)
    ensures
        phase == phase_of(s@),
{
    if same(s, "compensating") {
        Phase::Compensating
    } else {
        Phase::Forward
    }
}

/// A phase reads back as what was written.
pub proof fn law_phase_round_trip(phase: Phase)
    ensures
        phase_of(phase_word(phase)) == phase,
{
    reveal_strlit("forward");
    reveal_strlit("compensating");
    assert("forward"@.len() != "compensating"@.len());
}

// ── Numbers ─────────────────────────────────────────────────────────────────

/// A number in the signed form it is kept in: the same 64 bits.
pub open spec fn signed(n: u64) -> i64 {
    if n <= i64::MAX {
        n as i64
    } else {
        (n - 0x1_0000_0000_0000_0000) as i64
    }
}

/// A number read back from the signed form.
pub open spec fn unsigned(n: i64) -> u64 {
    if n >= 0 {
        n as u64
    } else {
        (n + 0x1_0000_0000_0000_0000) as u64
    }
}

/// A count read back from the signed form.
pub open spec fn unsigned_count(n: i32) -> u32 {
    if n >= 0 {
        n as u32
    } else {
        (n + 0x1_0000_0000) as u32
    }
}

/// The signed form of a number differs from it by a whole turn of its bits at most,
/// and so does a count.
pub proof fn law_signed_keeps_the_bits(n: u64, c: i32)
    ensures
        signed(n) == n || signed(n) == n - 0x1_0000_0000_0000_0000,
        unsigned_count(c) == c || unsigned_count(c) == c + 0x1_0000_0000,
{
}

/// Every number reads back as it was.
pub proof fn law_signed_round_trip(n: u64)
    ensures
        unsigned(signed(n)) == n,
{
}

/// Writes a number in the signed form.
pub fn to_signed(n: u64) -> (r: i64)
    ensures
        r == signed(n),
{
    if n <= i64::MAX as u64 {
        n as i64
    } else {
        let wide: i128 = n as i128 - 0x1_0000_0000_0000_0000i128;
        wide as i64
    }
}

/// Reads a number back from the signed form.
pub fn to_unsigned(n: i64) -> (r: u64)
    ensures
        r == unsigned(n),
{
    if n >= 0 {
        n as u64
    } else {
        let wide: i128 = n as i128 + 0x1_0000_0000_0000_0000i128;
        wide as u64
    }
}

/// Reads a count back from the signed form.
pub fn to_count(n: i32) -> (r: u32)
    ensures
        r == unsigned_count(n),
{
    if n >= 0 {
        n as u32
    } else {
        let wide: i64 = n as i64 + 0x1_0000_0000i64;
        wide as u32
    }
}

// ── Structured values ───────────────────────────────────────────────────────

/// What `serde_json` makes of a text: the value it parses to, printed, or what
/// it says of a text that is none.
pub uninterp spec fn json_read(text: Seq<char>) -> Result<Seq<char>, Seq<char>>;

/// What is said of a text that was read, or not.
pub open spec fn reading(r: Result<String, String>) -> Result<Seq<char>, Seq<char>> {
    match r {
        Ok(s) => Ok(s@),
        Err(e) => Err(e@),
    }
}

/// `serde_json::from_str` into a `Value`: the value as `Value`'s `to_string`
/// prints it, or what the parser's error says. Both depend on the text alone;
/// nothing more is claimed of either.
#[verifier::external_body]
pub(crate) fn parse_json(text: &str) -> (r: Result<String, String>)
    ensures
        reading(r) == json_read(text@),
{
    match serde_json::from_str::<serde_json::Value>(text) {
        Ok(value) => Ok(value.to_string()),
        Err(e) => Err(e.to_string()),
    }
}

/// What a stored value reads back as: its own text, or null where it does not
/// parse.
pub open spec fn json_or_null(parsed: Result<Seq<char>, Seq<char>>) -> Seq<char> {
    match parsed {
        Ok(text) => text,
        Err(_) => "null"@,
    }
}

/// What is read back of a value, given what its text parsed to.
pub fn value_or_null(parsed: Result<String, String>) -> (s: String)
    ensures
        s@ == json_or_null(reading(parsed)),
{
    match parsed {
        Ok(text) => text,
        Err(_) => "null".to_owned(),
    }
}

/// What an instant that is none is refused with.
pub open spec fn bad_instant(at: i64, fault: Seq<char>) -> Refusal {
    Refusal::Corrupt {
        seq: 0,
        detail: "unrepresentable timestamp "@ + crate::text::signed_decimal(at as int) + ": "@
            + fault,
    }
}

/// Refuses an instant that is none.
pub fn no_instant(at: i64, fault: &str) -> (e: StoreError)
    ensures
        e@ == bad_instant(at, fault@),
{
    StoreError::Corrupt {
        seq: 0,
        detail: crate::text::join4(
            "unrepresentable timestamp ",
            &crate::text::dec_signed(at),
            ": ",
            fault,
        ),
    }
}

/// An instant: whole seconds since time began, and nanoseconds into the second.
#[derive(Debug, Clone, Copy, PartialEq, Eq, Structural)]
pub struct Instant {
    pub secs: i64,
    pub nanos: u32,
}

/// Whether one instant is no later than another.
pub open spec fn no_later(a: Instant, b: Instant) -> bool {
    a.secs < b.secs || a.secs == b.secs && a.nanos <= b.nanos
}

/// The instant at which a second begins.
pub open spec fn on_the_second(secs: i64) -> Instant {
    Instant { secs, nanos: 0 }
}

impl Instant {
    /// The instant at which a second begins.
    pub fn at_second(secs: i64) -> (i: Instant)
        ensures
            i == on_the_second(secs),
    {
        Instant { secs, nanos: 0 }
    }

    /// Whether this instant is no later than another.
    pub fn is_no_later(self, other: Instant) -> (b: bool)
        ensures
            b == no_later(self, other),
    {
        self.secs < other.secs || (self.secs == other.secs && self.nanos <= other.nanos)
    }
}

} // verus!
