//! The journal: hash-chained records, fenced by leases and frozen by seals.
//!
//! Two guarantees live in the shape of the tables rather than in a code path.
//! *Exactly-once*: the start of an effect is a key, so a second start of one
//! effect in one run has nowhere to go. *Fencing*: the lease epoch is checked
//! by the operation that writes, so there is no gap for a displaced writer.

use vstd::prelude::*;

use crate::domain::Fault;
use crate::error::{Refusal, StoreError};
use crate::journal_laws::{
    activity_agrees, batch_fits, chained, chains_agree, hash_before, indexes_agree, is_chain,
    law_append_keeps_chains, law_appending_agrees, law_blank_journal_agrees, law_leasing_agrees,
    law_sealing_agrees, lemma_chains_carry_over, lemma_indexes_carry_over, log_agrees,
    outcomes_agree, pointers_agree,
};
use crate::row::{decoded, digest, encoded, zero_digest, Digest, Row, RowModel};
use crate::table::{every, has_key, in_order, Key, Pick, Table};
use crate::text::{join3, join4, join5, said, same, texts};

verus! {

/// What kind of record an append carries, as far as the journal reads it.
#[derive(Debug)]
pub enum RecordKind {
    /// An effect is about to be performed.
    EffectStarted,
    /// The run ended this way.
    RunConcluded { outcome: String },
    /// The run was let in, perhaps under a key that admits one run only.
    RunAdmitted { idempotency_key: Option<String> },
    /// Anything else.
    Other,
}

/// What a [`RecordKind`] says.
pub enum KindModel {
    EffectStarted,
    RunConcluded { outcome: Seq<char> },
    RunAdmitted { idempotency_key: Option<Seq<char>> },
    Other,
}

impl View for RecordKind {
    type V = KindModel;

    open spec fn view(&self) -> KindModel {
        match self {
            RecordKind::EffectStarted => KindModel::EffectStarted,
            RecordKind::RunConcluded { outcome } => KindModel::RunConcluded { outcome: outcome@ },
            RecordKind::RunAdmitted { idempotency_key } => KindModel::RunAdmitted {
                idempotency_key: said(*idempotency_key),
            },
            RecordKind::Other => KindModel::Other,
        }
    }
}

/// A record to append: its bytes and chain hash, with what the indexes need.
#[derive(Debug)]
pub struct Append {
    pub run: String,
    pub kind: RecordKind,
    pub effect_key: Option<String>,
    pub case: Option<String>,
    pub body: Vec<u8>,
    pub hash: Digest,
    pub key_id: Option<String>,
    pub signature: Option<Vec<u8>>,
}

/// What an [`Append`] says.
pub struct AppendModel {
    pub run: Seq<char>,
    pub kind: KindModel,
    pub effect_key: Option<Seq<char>>,
    pub case: Option<Seq<char>>,
    pub body: Seq<u8>,
    pub hash: Seq<u8>,
    pub key_id: Option<Seq<char>>,
    pub signature: Option<Seq<u8>>,
}

impl View for Append {
    type V = AppendModel;

    open spec fn view(&self) -> AppendModel {
        AppendModel {
            run: self.run@,
            kind: self.kind@,
            effect_key: said(self.effect_key),
            case: said(self.case),
            body: self.body@,
            hash: self.hash@,
            key_id: said(self.key_id),
            signature: match self.signature {
                Some(s) => Some(s@),
                None => None,
            },
        }
    }
}

/// What a batch says.
pub open spec fn batch_of(batch: Seq<Append>) -> Seq<AppendModel> {
    Seq::new(batch.len(), |i: int| batch[i]@)
}

/// Where the store put a record: its position and the hash it follows.
#[derive(Debug)]
pub struct Slot {
    pub seq: u64,
    pub prev_hash: Digest,
}

/// The last record of a chain.
#[derive(Debug)]
pub struct Head {
    pub seq: u64,
    pub hash: Digest,
}

/// What a [`Head`] says.
pub struct HeadModel {
    pub seq: u64,
    pub hash: Seq<u8>,
}

impl View for Head {
    type V = HeadModel;

    open spec fn view(&self) -> HeadModel {
        HeadModel { seq: self.seq, hash: self.hash@ }
    }
}

/// The head of a chain with no records.
pub open spec fn genesis() -> HeadModel {
    HeadModel { seq: 0, hash: zero_digest() }
}

/// Who holds a run, in which epoch, until when.
#[derive(Debug)]
pub struct LeaseRow {
    /// Empty once the lease is released.
    pub owner: String,
    pub epoch: u64,
    pub expires_at: u64,
    /// Why the stored id is not a run id, where it is not one.
    pub fault: Option<String>,
}

/// What a [`LeaseRow`] says.
#[verifier::ext_equal]
pub struct LeaseModel {
    pub owner: Seq<char>,
    pub epoch: u64,
    pub expires_at: u64,
    pub fault: Option<Seq<char>>,
}

impl View for LeaseRow {
    type V = LeaseModel;

    open spec fn view(&self) -> LeaseModel {
        LeaseModel {
            owner: self.owner@,
            epoch: self.epoch,
            expires_at: self.expires_at,
            fault: said(self.fault),
        }
    }
}

/// How a run ended when it was sealed, and the hash its chain froze at.
#[derive(Debug)]
pub struct SealRow {
    pub outcome: String,
    pub head: Vec<u8>,
    pub sealed_at: u64,
}

/// What a [`SealRow`] says.
#[verifier::ext_equal]
pub struct SealModel {
    pub outcome: Seq<char>,
    pub head: Seq<u8>,
    pub sealed_at: u64,
}

impl View for SealRow {
    type V = SealModel;

    open spec fn view(&self) -> SealModel {
        SealModel { outcome: self.outcome@, head: self.head@, sealed_at: self.sealed_at }
    }
}

/// A run that an index row points at.
#[derive(Debug)]
pub struct Pointer {
    pub tenant: String,
    pub run: String,
    /// Why the stored id is not a run id, where it is not one.
    pub fault: Option<String>,
}

/// What a [`Pointer`] says.
#[verifier::ext_equal]
pub struct PointerModel {
    pub tenant: Seq<char>,
    pub run: Seq<char>,
    pub fault: Option<Seq<char>>,
}

impl View for Pointer {
    type V = PointerModel;

    open spec fn view(&self) -> PointerModel {
        PointerModel { tenant: self.tenant@, run: self.run@, fault: said(self.fault) }
    }
}

/// How a run last concluded, and when in the order of conclusions.
#[derive(Debug)]
pub struct OutcomeRow {
    pub outcome: String,
    pub ordinal: u64,
}

/// What an [`OutcomeRow`] says.
#[verifier::ext_equal]
pub struct OutcomeModel {
    pub outcome: Seq<char>,
    pub ordinal: u64,
}

impl View for OutcomeRow {
    type V = OutcomeModel;

    open spec fn view(&self) -> OutcomeModel {
        OutcomeModel { outcome: self.outcome@, ordinal: self.ordinal }
    }
}

/// An operator's request to stop a run.
#[derive(Debug)]
pub struct Cancellation {
    pub actor: String,
    pub reason: String,
    pub requested_at: u64,
}

/// What a [`Cancellation`] says.
#[verifier::ext_equal]
pub struct CancelModel {
    pub actor: Seq<char>,
    pub reason: Seq<char>,
    pub requested_at: u64,
}

impl View for Cancellation {
    type V = CancelModel;

    open spec fn view(&self) -> CancelModel {
        CancelModel {
            actor: self.actor@,
            reason: self.reason@,
            requested_at: self.requested_at,
        }
    }
}

/// A tenant and a run.
pub type RunName = (Seq<char>, Seq<char>);

/// A tenant, a run and a position in its chain.
pub type Position = (Seq<char>, (Seq<char>, u64));

/// Everything the journal holds.
#[verifier::ext_equal]
pub struct JournalState {
    /// Every record, as its bytes.
    pub journal: Map<Position, Seq<u8>>,
    /// The records of each case.
    pub by_case: Map<(Seq<char>, (Seq<char>, (Seq<char>, u64))), ()>,
    /// Where each effect of a run was started.
    pub once: Map<(Seq<char>, (Seq<char>, Seq<char>)), u64>,
    pub leases: Map<RunName, LeaseModel>,
    pub seals: Map<RunName, SealModel>,
    /// Concluded runs by how they ended and when.
    pub by_outcome: Map<(Seq<char>, (Seq<char>, u64)), PointerModel>,
    /// How each run last concluded.
    pub outcomes: Map<RunName, OutcomeModel>,
    /// Runs by their last append, with what is wrong with an id that is no run's.
    pub activity: Map<(Seq<char>, (u64, Seq<char>)), Option<Seq<char>>>,
    /// When each run was last appended to.
    pub last_activity: Map<RunName, u64>,
    /// Sealed runs in the order in which they entered the log.
    pub seal_log: Map<(Seq<char>, u64), Seq<char>>,
    pub cancels: Map<RunName, CancelModel>,
    /// The next position in each tenant's log.
    pub next_log_index: Map<Seq<char>, u64>,
    /// The next ordinal of each tenant's conclusions.
    pub next_conclusion: Map<Seq<char>, u64>,
}

/// The next number a counter hands out.
pub open spec fn upcoming(counters: Map<Seq<char>, u64>, t: Seq<char>) -> u64 {
    if counters.contains_key(t) {
        counters[t]
    } else {
        0
    }
}

/// The name a run is stored under.
pub open spec fn run_key(t: Seq<char>, run: Seq<char>) -> Seq<char> {
    t + "/"@ + run
}

/// The name a run is stored under.
pub fn key_of(tenant: &str, run: &str) -> (s: String)
    ensures
        s@ == run_key(tenant@, run@),
{
    join3(tenant, "/", run)
}

// ── The head of a chain ─────────────────────────────────────────────────────

/// Whether a position is the last of its chain.
pub open spec fn is_last(st: JournalState, name: RunName, seq: u64) -> bool {
    &&& st.journal.contains_key((name.0, (name.1, seq)))
    &&& forall|s: u64| #[trigger] st.journal.contains_key((name.0, (name.1, s))) ==> s <= seq
}

/// The last record of a run, genesis where there is none, or what is wrong with
/// the bytes of the last one.
pub open spec fn head_of(st: JournalState, name: RunName) -> Result<HeadModel, Refusal> {
    if exists|s: u64| is_last(st, name, s) {
        let seq = choose|s: u64| is_last(st, name, s);
        match decoded(st.journal[(name.0, (name.1, seq))]) {
            Ok(row) => Ok(HeadModel { seq, hash: row.hash }),
            Err(why) => Err(why),
        }
    } else {
        Ok(genesis())
    }
}

// ── Appending ───────────────────────────────────────────────────────────────

/// Why a writer of this epoch may not write to a run, if it may not.
pub open spec fn fence_refusal(st: JournalState, name: RunName, epoch: u64) -> Option<Refusal> {
    if st.leases.contains_key(name) && st.leases[name].epoch != epoch {
        Some(
            Refusal::Fenced {
                run: run_key(name.0, name.1),
                held: epoch,
                current: st.leases[name].epoch,
            },
        )
    } else {
        None
    }
}

pub open spec fn spans_text(run: Seq<char>, other: Seq<char>) -> Seq<char> {
    "batch spans runs "@ + run + " and "@ + other + " — a batch is one run's atomic unit"@
}

/// Whether the first `n` records are of one run.
pub open spec fn one_run(batch: Seq<AppendModel>, n: int) -> bool {
    forall|i: int| 0 <= i < n ==> (#[trigger] batch[i]).run == batch[0].run
}

/// The effect that a record starts, if it starts one.
pub open spec fn started(a: AppendModel) -> Option<Seq<char>> {
    if a.kind is EffectStarted {
        a.effect_key
    } else {
        None
    }
}

/// Whether a record starts an effect that was started before it.
pub open spec fn repeats(st: JournalState, t: Seq<char>, batch: Seq<AppendModel>, i: int) -> bool {
    started(batch[i]) matches Some(e) && (st.once.contains_key((t, (batch[0].run, e)))
        || exists|j: int| 0 <= j < i && started(#[trigger] batch[j]) == Some(e))
}

/// The first repeated effect among the first `n` records.
pub open spec fn first_repeat(
    st: JournalState,
    t: Seq<char>,
    batch: Seq<AppendModel>,
    n: int,
) -> Option<Seq<char>>
    decreases n,
{
    if n <= 0 {
        None
    } else {
        match first_repeat(st, t, batch, n - 1) {
            Some(e) => Some(e),
            None => if repeats(st, t, batch, n - 1) {
                started(batch[n - 1])
            } else {
                None
            },
        }
    }
}

/// Why a batch cannot be appended, if it cannot.
pub open spec fn append_refusal(
    st: JournalState,
    t: Seq<char>,
    epoch: u64,
    batch: Seq<AppendModel>,
) -> Option<Refusal> {
    let name = (t, batch[0].run);
    if batch.len() == 0 {
        None
    } else if exists|i: int| strays(batch, i) {
        let i = choose|i: int| strays(batch, i);
        Some(Refusal::Backend(spans_text(batch[0].run, batch[i].run)))
    } else {
        match fence_refusal(st, name, epoch) {
            Some(why) => Some(why),
            None => if st.seals.contains_key(name) {
                Some(
                    Refusal::RunSealed {
                        run: run_key(name.0, name.1),
                        outcome: st.seals[name].outcome,
                    },
                )
            } else {
                match head_of(st, name) {
                    Err(why) => Some(why),
                    Ok(head) => if head.seq + batch.len() > u64::MAX {
                        Some(Refusal::Backend("journal sequence overflow"@))
                    } else if upcoming(st.next_conclusion, t) + batch.len() > u64::MAX {
                        Some(Refusal::Backend("conclusion ordinal overflow"@))
                    } else {
                        match first_repeat(st, t, batch, batch.len() as int) {
                            Some(e) => Some(Refusal::DuplicateEffect(e)),
                            None => None,
                        }
                    },
                }
            },
        }
    }
}

/// Whether a record is the first that is not of the batch's run.
pub open spec fn strays(batch: Seq<AppendModel>, i: int) -> bool {
    0 <= i < batch.len() && one_run(batch, i) && batch[i].run != batch[0].run
}

/// The row a record is stored as.
pub open spec fn row_of(a: AppendModel, prev: Seq<u8>) -> RowModel {
    RowModel {
        body: a.body,
        prev_hash: prev,
        hash: a.hash,
        key_id: a.key_id,
        signature: a.signature,
    }
}

/// The state once a run has concluded: the last conclusion replaces the one
/// before it.
pub open spec fn with_conclusion(st: JournalState, name: RunName, outcome: Seq<char>) -> JournalState {
    let ordinal = upcoming(st.next_conclusion, name.0);
    let dropped = if st.outcomes.contains_key(name) {
        st.by_outcome.remove(
            (name.0, (st.outcomes[name].outcome, st.outcomes[name].ordinal)),
        )
    } else {
        st.by_outcome
    };
    JournalState {
        by_outcome: dropped.insert(
            (name.0, (outcome, ordinal)),
            PointerModel { tenant: name.0, run: name.1, fault: None },
        ),
        outcomes: st.outcomes.insert(name, OutcomeModel { outcome, ordinal }),
        next_conclusion: st.next_conclusion.insert(name.0, (ordinal + 1) as u64),
        ..st
    }
}

/// The state once a record stands at a position of a chain.
pub open spec fn with_record(
    st: JournalState,
    name: RunName,
    seq: u64,
    prev: Seq<u8>,
    a: AppendModel,
) -> JournalState {
    let st1 = JournalState {
        journal: st.journal.insert((name.0, (name.1, seq)), encoded(row_of(a, prev))),
        by_case: match a.case {
            Some(c) => st.by_case.insert((name.0, (c, (name.1, seq))), ()),
            None => st.by_case,
        },
        once: match started(a) {
            Some(e) => st.once.insert((name.0, (name.1, e)), seq),
            None => st.once,
        },
        ..st
    };
    match a.kind {
        KindModel::RunConcluded { outcome } => with_conclusion(st1, name, outcome),
        _ => st1,
    }
}

/// The hash that record `i` of a batch follows.
pub open spec fn prev_of(head: HeadModel, batch: Seq<AppendModel>, i: int) -> Seq<u8> {
    if i == 0 {
        head.hash
    } else {
        batch[i - 1].hash
    }
}

/// The state once the first `n` records of a batch stand.
pub open spec fn with_records(
    st: JournalState,
    name: RunName,
    head: HeadModel,
    batch: Seq<AppendModel>,
    n: int,
) -> JournalState
    decreases n,
{
    if n <= 0 {
        st
    } else {
        with_record(
            with_records(st, name, head, batch, n - 1),
            name,
            (head.seq + n) as u64,
            prev_of(head, batch, n - 1),
            batch[n - 1],
        )
    }
}

/// The state once a run is known to have been active at `now`.
pub open spec fn with_activity(st: JournalState, name: RunName, now: u64) -> JournalState {
    let dropped = if st.last_activity.contains_key(name) {
        st.activity.remove((name.0, (st.last_activity[name], name.1)))
    } else {
        st.activity
    };
    JournalState {
        activity: dropped.insert((name.0, (now, name.1)), None),
        last_activity: st.last_activity.insert(name, now),
        ..st
    }
}

/// The state once a batch is appended.
pub open spec fn appended(
    st: JournalState,
    t: Seq<char>,
    now: u64,
    batch: Seq<AppendModel>,
) -> JournalState {
    let name = (t, batch[0].run);
    if batch.len() == 0 {
        st
    } else {
        with_activity(
            with_records(st, name, head_of(st, name)->Ok_0, batch, batch.len() as int),
            name,
            now,
        )
    }
}

pub open spec fn moved_text(run: Seq<char>) -> Seq<char> {
    "the head of run "@ + run
        + " is not the one this batch was sealed on — a record was written in between"@
}

/// Why a batch that was sealed on a head cannot be appended, if it cannot: where
/// nothing else stands against it, the head has to be that one still.
pub open spec fn sealed_append_refusal(
    st: JournalState,
    t: Seq<char>,
    epoch: u64,
    batch: Seq<AppendModel>,
    on: HeadModel,
) -> Option<Refusal> {
    match append_refusal(st, t, epoch, batch) {
        Some(why) => Some(why),
        None => if batch.len() > 0 && head_of(st, (t, batch[0].run))->Ok_0 != on {
            Some(Refusal::Backend(moved_text(batch[0].run)))
        } else {
            None
        },
    }
}

// ── Leases ──────────────────────────────────────────────────────────────────

/// How long a lease is asked for. Leases keep whole seconds; the rest is only
/// ever shown.
#[derive(Debug, Clone, Copy)]
pub struct Ttl {
    pub secs: u64,
    pub nanos: u32,
}

impl Ttl {
    /// Whether the parts are those of a duration.
    pub open spec fn proper(self) -> bool {
        self.nanos < 1_000_000_000
    }
}

/// How the standard library shows a duration.
pub uninterp spec fn duration_shown(secs: u64, nanos: u32) -> Seq<char>;

/// `std::time::Duration`'s `Debug`: the text is a function of the duration.
#[verifier::external_body]
fn show_duration(secs: u64, nanos: u32) -> (s: String)
    requires
        nanos < 1_000_000_000,
    ensures
        s@ == duration_shown(secs, nanos),
{
    format!("{:?}", std::time::Duration::new(secs, nanos))
}

pub open spec fn ttl_short_text(ttl: Ttl) -> Seq<char> {
    "a lease TTL of "@ + duration_shown(ttl.secs, ttl.nanos)
        + " is below this store's whole-second granularity and would round to zero — pass at least one second, or use the runtime's lease_ttl which enforces its own minimum"@
}

pub open spec fn ttl_long_text(ttl: Ttl) -> Seq<char> {
    "a lease TTL of "@ + duration_shown(ttl.secs, ttl.nanos)
        + " overflows the expiry instant — the lease would wrap into the past and read as already expired"@
}

/// When a lease taken at `now` ends, or why it cannot be taken: a lease of less
/// than a second is refused rather than lengthened, and one past the last
/// instant is refused rather than wrapped.
pub open spec fn expiry(now: u64, ttl: Ttl) -> Result<u64, Refusal> {
    if ttl.secs == 0 {
        Err(Refusal::Backend(ttl_short_text(ttl)))
    } else if now + ttl.secs > u64::MAX {
        Err(Refusal::Backend(ttl_long_text(ttl)))
    } else {
        Ok((now + ttl.secs) as u64)
    }
}

/// When a lease taken at `now` ends.
pub fn lease_expiry(now: u64, ttl: Ttl) -> (r: Result<u64, StoreError>)
    requires
        ttl.proper(),
    ensures
        match r {
            Ok(at) => expiry(now, ttl) == Ok::<u64, Refusal>(at),
            Err(e) => expiry(now, ttl) == Err::<u64, Refusal>(e@),
        },
{
    if ttl.secs == 0 {
        return Err(
            StoreError::Backend(
                join3(
                    "a lease TTL of ",
                    &show_duration(ttl.secs, ttl.nanos),
                    " is below this store's whole-second granularity and would round to zero — pass at least one second, or use the runtime's lease_ttl which enforces its own minimum",
                ),
            ),
        );
    }
    match now.checked_add(ttl.secs) {
        Some(at) => Ok(at),
        None => Err(
            StoreError::Backend(
                join3(
                    "a lease TTL of ",
                    &show_duration(ttl.secs, ttl.nanos),
                    " overflows the expiry instant — the lease would wrap into the past and read as already expired",
                ),
            ),
        ),
    }
}

/// A granted lease.
#[derive(Debug)]
pub struct Lease {
    pub run: String,
    pub owner: String,
    pub epoch: u64,
}

/// What claiming a run gives: an epoch, or why the claim is refused. A lapsed
/// lease is claimed in the next epoch by anyone, its last holder included; a
/// live one is claimed by nobody.
pub open spec fn claim(
    st: JournalState,
    name: RunName,
    now: u64,
    ttl: Ttl,
) -> Result<u64, Refusal> {
    match expiry(now, ttl) {
        Err(why) => Err(why),
        Ok(at) => if !st.leases.contains_key(name) {
            Ok(1)
        } else if st.leases[name].expires_at > now {
            Err(
                Refusal::LeaseHeld {
                    run: run_key(name.0, name.1),
                    owner: st.leases[name].owner,
                    epoch: st.leases[name].epoch,
                    remaining_secs: (st.leases[name].expires_at - now) as u64,
                },
            )
        } else if st.leases[name].epoch == u64::MAX {
            Err(Refusal::Backend("lease epoch overflow"@))
        } else {
            Ok((st.leases[name].epoch + 1) as u64)
        },
    }
}

/// The state once a run is leased.
pub open spec fn with_lease(
    st: JournalState,
    name: RunName,
    owner: Seq<char>,
    epoch: u64,
    expires_at: u64,
) -> JournalState {
    JournalState {
        leases: st.leases.insert(name, LeaseModel { owner, epoch, expires_at, fault: None }),
        ..st
    }
}

/// Whether a lease is live and held by exactly this owner in this epoch.
pub open spec fn holds_lease(
    st: JournalState,
    name: RunName,
    owner: Seq<char>,
    epoch: u64,
    now: u64,
) -> bool {
    &&& st.leases.contains_key(name)
    &&& st.leases[name].owner == owner
    &&& st.leases[name].epoch == epoch
    &&& st.leases[name].expires_at > now
}

/// The state once a lease is given back. The row stays, with its epoch: a
/// writer that was fenced stays fenced.
pub open spec fn released(st: JournalState, name: RunName, epoch: u64) -> JournalState {
    if st.leases.contains_key(name) && st.leases[name].epoch == epoch {
        with_lease(st, name, Seq::empty(), epoch, 0)
    } else {
        st
    }
}

/// Whether a run was left behind: held by somebody who stopped renewing.
pub open spec fn stranded(st: JournalState, t: Seq<char>, now: u64, run: Seq<char>) -> bool {
    &&& st.leases.contains_key((t, run))
    &&& st.leases[(t, run)].owner.len() > 0
    &&& st.leases[(t, run)].expires_at <= now
}

pub open spec fn bad_lease_text(run: Seq<char>, fault: Seq<char>) -> Seq<char> {
    "run_lease holds an unparsable run id '"@ + run + "': "@ + fault
}

/// Whether these are the runs left behind, the longest stranded first, cut at
/// the limit.
pub open spec fn oldest_stranded(
    st: JournalState,
    t: Seq<char>,
    now: u64,
    limit: usize,
    out: Seq<Seq<char>>,
) -> bool {
    &&& out.len() <= limit
    &&& forall|i: int| 0 <= i < out.len() ==> stranded(st, t, now, #[trigger] out[i])
    &&& forall|i: int, j: int|
        0 <= i < j < out.len() ==> staler(st, t, #[trigger] out[i], #[trigger] out[j])
    &&& forall|run: Seq<char>| #[trigger]
        stranded(st, t, now, run) ==> out.contains(run) || (out.len() == limit && forall|i: int|
            0 <= i < out.len() ==> staler(st, t, #[trigger] out[i], run))
}

/// The order of recovery: by expiry, and by id among equals.
pub open spec fn staler(st: JournalState, t: Seq<char>, a: Seq<char>, b: Seq<char>) -> bool {
    <(u64, String)>::precedes(
        (st.leases[(t, a)].expires_at, a),
        (st.leases[(t, b)].expires_at, b),
    )
}

// ── Sealing ─────────────────────────────────────────────────────────────────

/// The state once a run is sealed: its chain is frozen and it enters the log.
/// The first seal stands.
pub open spec fn with_seal(
    st: JournalState,
    name: RunName,
    outcome: Seq<char>,
    head: Seq<u8>,
    now: u64,
) -> JournalState {
    let index = upcoming(st.next_log_index, name.0);
    if st.seals.contains_key(name) {
        st
    } else {
        JournalState {
            seals: st.seals.insert(name, SealModel { outcome, head, sealed_at: now }),
            seal_log: st.seal_log.insert((name.0, index), name.1),
            next_log_index: st.next_log_index.insert(name.0, (index + 1) as u64),
            ..st
        }
    }
}

/// Why a run cannot be sealed, if it cannot.
pub open spec fn seal_refusal(st: JournalState, name: RunName, epoch: u64) -> Option<Refusal> {
    match fence_refusal(st, name, epoch) {
        Some(why) => Some(why),
        None => match head_of(st, name) {
            Err(why) => Some(why),
            Ok(head) => if !st.seals.contains_key(name) && upcoming(st.next_log_index, name.0)
                == u64::MAX {
                Some(Refusal::Backend("log position overflow"@))
            } else {
                None
            },
        },
    }
}

/// The request to stop a run, if there is one.
pub open spec fn cancel_of(st: JournalState, name: RunName) -> Option<CancelModel> {
    if st.cancels.contains_key(name) {
        Some(st.cancels[name])
    } else {
        None
    }
}

/// The state once somebody asked to stop a run. The first request stands.
pub open spec fn cancel_asked(st: JournalState, name: RunName, c: CancelModel) -> JournalState {
    if st.cancels.contains_key(name) {
        st
    } else {
        JournalState { cancels: st.cancels.insert(name, c), ..st }
    }
}

/// Whether a position of a tenant's log is taken by a run that is still sealed.
pub open spec fn logged(st: JournalState, t: Seq<char>, index: u64) -> bool {
    st.seal_log.contains_key((t, index)) && st.seals.contains_key((t, st.seal_log[(t, index)]))
}

/// Whether these are all the taken positions of a tenant's log, in order.
pub open spec fn log_order(st: JournalState, t: Seq<char>, at: Seq<u64>) -> bool {
    &&& forall|i: int| 0 <= i < at.len() ==> logged(st, t, #[trigger] at[i])
    &&& forall|i: int, j: int| 0 <= i < j < at.len() ==> #[trigger] at[i] < #[trigger] at[j]
    &&& forall|index: u64| #[trigger] logged(st, t, index) ==> at.contains(index)
}

/// The order of a tenant's log is one.
pub proof fn lemma_log_order_is_one(st: JournalState, t: Seq<char>, a: Seq<u64>, b: Seq<u64>)
    requires
        log_order(st, t, a),
        log_order(st, t, b),
    ensures
        a == b,
{
    lemma_log_prefix(st, t, a, b, a.len() as int);
    lemma_log_prefix(st, t, b, a, b.len() as int);
    assert(a =~= b);
}

proof fn lemma_log_prefix(st: JournalState, t: Seq<char>, a: Seq<u64>, b: Seq<u64>, n: int)
    requires
        log_order(st, t, a),
        log_order(st, t, b),
        0 <= n <= a.len(),
    ensures
        n <= b.len(),
        forall|i: int| 0 <= i < n ==> a[i] == b[i],
    decreases n,
{
    if n > 0 {
        let i = n - 1;
        lemma_log_prefix(st, t, a, b, i);
        assert(logged(st, t, a[i]));
        let m = choose|m: int| 0 <= m < b.len() && b[m] == a[i];
        if m < i {
            assert(a[m] == b[m]);
        }
        assert(logged(st, t, b[i]));
        let p = choose|p: int| 0 <= p < a.len() && a[p] == b[i];
        if p < i {
            assert(b[p] == a[p]);
        }
    }
}

/// The chain head of the run at a position of the log.
pub open spec fn leaf(st: JournalState, t: Seq<char>, index: u64) -> Seq<u8> {
    st.seals[(t, st.seal_log[(t, index)])].head
}

// ── Listings ────────────────────────────────────────────────────────────────

/// Whether an index row gives a run of the tenant.
pub open spec fn sound(t: Seq<char>, p: PointerModel) -> bool {
    p.tenant == t && p.fault is None
}

/// What is wrong with an index row that does not.
pub open spec fn unsound_refusal(t: Seq<char>, p: PointerModel) -> Refusal {
    Refusal::Corrupt {
        seq: 0,
        detail: if p.tenant != t {
            "run_by_outcome points at '"@ + run_key(p.tenant, p.run)
                + "', which is outside tenant '"@ + t + "'"@
        } else {
            "run_by_outcome holds an unparsable run id '"@ + p.run + "': "@ + p.fault->0
        },
    }
}

/// Whether these are the newest conclusions of an outcome, newest first, cut at
/// the limit.
pub open spec fn newest(
    st: JournalState,
    t: Seq<char>,
    outcome: Seq<char>,
    limit: usize,
    at: Seq<u64>,
) -> bool {
    &&& at.len() <= limit
    &&& forall|i: int|
        0 <= i < at.len() ==> st.by_outcome.contains_key((t, (outcome, #[trigger] at[i])))
    &&& forall|i: int, j: int| 0 <= i < j < at.len() ==> #[trigger] at[i] > #[trigger] at[j]
    &&& forall|n: u64| #[trigger]
        st.by_outcome.contains_key((t, (outcome, n))) ==> at.contains(n) || (at.len() == limit
            && forall|i: int| 0 <= i < at.len() ==> #[trigger] at[i] > n)
}

/// Whether a page of runs may show an activity row.
pub open spec fn shown(
    st: JournalState,
    t: Seq<char>,
    after: Option<(u64, Seq<char>)>,
    k: (u64, Seq<char>),
) -> bool {
    &&& st.activity.contains_key((t, k))
    &&& st.activity[(t, k)] is None
    &&& after matches Some(cursor) ==> <(u64, String)>::precedes(k, cursor)
}

/// Whether this is the page of the runs active most lately, below the cursor.
pub open spec fn recent(
    st: JournalState,
    t: Seq<char>,
    after: Option<(u64, Seq<char>)>,
    limit: usize,
    out: Seq<(u64, Seq<char>)>,
) -> bool {
    &&& out.len() <= limit
    &&& forall|i: int| 0 <= i < out.len() ==> shown(st, t, after, #[trigger] out[i])
    &&& forall|i: int, j: int|
        0 <= i < j < out.len() ==> <(u64, String)>::precedes(#[trigger] out[j], #[trigger] out[i])
    &&& forall|k: (u64, Seq<char>)| #[trigger]
        shown(st, t, after, k) ==> out.contains(k) || (out.len() == limit && forall|i: int|
            0 <= i < out.len() ==> <(u64, String)>::precedes(k, #[trigger] out[i]))
}

/// Whether these are the positions of a chain from one on, in order.
pub open spec fn chain_from(st: JournalState, name: RunName, from: u64, at: Seq<u64>) -> bool {
    &&& forall|i: int|
        0 <= i < at.len() ==> st.journal.contains_key((name.0, (name.1, #[trigger] at[i])))
            && at[i] >= from
    &&& forall|i: int, j: int| 0 <= i < j < at.len() ==> #[trigger] at[i] < #[trigger] at[j]
    &&& forall|s: u64| #[trigger]
        st.journal.contains_key((name.0, (name.1, s))) && s >= from ==> at.contains(s)
}

/// The bytes stored at these positions.
pub open spec fn bytes_at(st: JournalState, t: Seq<char>, at: Seq<(Seq<char>, u64)>) -> Seq<
    Seq<u8>,
> {
    Seq::new(at.len(), |i: int| st.journal[(t, at[i])])
}

/// The positions of one run.
pub open spec fn of_run(run: Seq<char>, at: Seq<u64>) -> Seq<(Seq<char>, u64)> {
    Seq::new(at.len(), |i: int| (run, at[i]))
}

/// Whether reading stored rows in order gives these rows, or stops at the first
/// one that does not decode.
pub open spec fn read_back(stored: Seq<Seq<u8>>, r: Result<Seq<RowModel>, Refusal>) -> bool {
    match r {
        Ok(rows) => rows.len() == stored.len() && forall|i: int|
            0 <= i < rows.len() ==> decoded(#[trigger] stored[i]) == Ok::<RowModel, Refusal>(
                rows[i],
            ),
        Err(why) => exists|i: int|
            {
                &&& 0 <= i < stored.len()
                &&& decoded(#[trigger] stored[i]) == Err::<RowModel, Refusal>(why)
                &&& forall|j: int| 0 <= j < i ==> decoded(#[trigger] stored[j]) is Ok
            },
    }
}

/// What was read of some stored rows: those before the first that does not
/// decode, and what is wrong with that one.
#[derive(Debug)]
pub struct Scan {
    pub rows: Vec<Row>,
    pub damage: Option<StoreError>,
}

/// What a [`Scan`] says.
pub struct ScanModel {
    pub rows: Seq<RowModel>,
    pub damage: Option<Refusal>,
}

impl View for Scan {
    type V = ScanModel;

    open spec fn view(&self) -> ScanModel {
        ScanModel {
            rows: Seq::new(self.rows@.len(), |i: int| self.rows@[i]@),
            damage: match self.damage {
                Some(e) => Some(e@),
                None => None,
            },
        }
    }
}

/// Whether a scan is what these stored rows read as.
pub open spec fn scanned(stored: Seq<Seq<u8>>, s: ScanModel) -> bool {
    &&& s.rows.len() <= stored.len()
    &&& forall|i: int|
        0 <= i < s.rows.len() ==> decoded(#[trigger] stored[i]) == Ok::<RowModel, Refusal>(
            s.rows[i],
        )
    &&& match s.damage {
        None => s.rows.len() == stored.len(),
        Some(why) => s.rows.len() < stored.len() && decoded(stored[s.rows.len() as int]) == Err::<
            RowModel,
            Refusal,
        >(why),
    }
}

/// A scan of stored rows reads them back: all of them, or up to the damage.
pub proof fn lemma_scan_reads_back(stored: Seq<Seq<u8>>, s: ScanModel)
    requires
        scanned(stored, s),
    ensures
        read_back(
            stored,
            match s.damage {
                Some(why) => Err::<Seq<RowModel>, Refusal>(why),
                None => Ok::<Seq<RowModel>, Refusal>(s.rows),
            },
        ),
{
    if s.damage is Some {
        let i = s.rows.len() as int;
        assert(decoded(stored[i]) == Err::<RowModel, Refusal>(s.damage->0));
    }
}

/// What recomputing a record's hash from its bytes found wrong with it.
#[derive(Debug)]
pub struct RecordFault {
    pub seq: u64,
    pub detail: String,
}

/// What the record is refused with.
pub open spec fn fault_refusal(fault: RecordFault) -> Refusal {
    Refusal::Corrupt { seq: fault.seq, detail: fault.detail@ }
}

/// Whether the record at `i` is the first whose hash does not hold.
pub open spec fn first_fault(faults: Seq<Option<RecordFault>>, i: int) -> bool {
    &&& 0 <= i < faults.len()
    &&& faults[i] is Some
    &&& forall|j: int| 0 <= j < i ==> (#[trigger] faults[j]) is None
}

/// What a scan comes to, given for each of its rows whether the hash that was
/// recomputed from its bytes is the one it carries. A record that was altered is
/// refused where it stands, before anything behind it is looked at.
pub fn attested(scan: Scan, faults: &Vec<Option<RecordFault>>) -> (r: Result<Vec<Row>, StoreError>)
    requires
        faults@.len() == scan.rows@.len(),
    ensures
        match r {
            Ok(rows) => rows@ == scan.rows@ && scan.damage is None && forall|i: int|
                0 <= i < faults@.len() ==> (#[trigger] faults@[i]) is None,
            Err(e) => if exists|i: int| first_fault(faults@, i) {
                exists|i: int| #[trigger]
                    first_fault(faults@, i) && e@ == fault_refusal(faults@[i]->0)
            } else {
                scan@.damage == Some(e@)
            },
        },
{
    let mut i: usize = 0;
    while i < faults.len()
        invariant
            i <= faults@.len(),
            forall|j: int| 0 <= j < i ==> (#[trigger] faults@[j]) is None,
        decreases faults@.len() - i,
    {
        if let Some(f) = &faults[i] {
            assert(first_fault(faults@, i as int));
            return Err(StoreError::Corrupt { seq: f.seq, detail: f.detail.clone() });
        }
        i = i + 1;
    }
    match scan.damage {
        Some(e) => Err(e),
        None => Ok(scan.rows),
    }
}

/// What a read gave.
pub open spec fn rows_of(r: Result<Vec<Row>, StoreError>) -> Result<Seq<RowModel>, Refusal> {
    match r {
        Ok(rows) => Ok(Seq::new(rows@.len(), |i: int| rows@[i]@)),
        Err(e) => Err(e@),
    }
}

/// Whether a record of a case is stored.
pub open spec fn in_case(
    st: JournalState,
    t: Seq<char>,
    case: Seq<char>,
    at: (Seq<char>, u64),
) -> bool {
    st.by_case.contains_key((t, (case, at))) && st.journal.contains_key((t, at))
}

/// Whether these are the first records of a case, by run and position, cut at
/// the limit.
pub open spec fn case_page(
    st: JournalState,
    t: Seq<char>,
    case: Seq<char>,
    limit: usize,
    at: Seq<(Seq<char>, u64)>,
) -> bool {
    &&& at.len() <= limit
    &&& forall|i: int| 0 <= i < at.len() ==> in_case(st, t, case, #[trigger] at[i])
    &&& forall|i: int, j: int|
        0 <= i < j < at.len() ==> <(String, u64)>::precedes(#[trigger] at[i], #[trigger] at[j])
    &&& forall|k: (Seq<char>, u64)| #[trigger]
        in_case(st, t, case, k) ==> at.contains(k) || (at.len() == limit && forall|i: int|
            0 <= i < at.len() ==> <(String, u64)>::precedes(#[trigger] at[i], k))
}

/// What a page of activity says.
pub open spec fn moments(out: Seq<(u64, String)>) -> Seq<(u64, Seq<char>)> {
    Seq::new(out.len(), |i: int| out[i]@)
}

/// What a list of positions says.
pub open spec fn places(at: Seq<(String, u64)>) -> Seq<(Seq<char>, u64)> {
    Seq::new(at.len(), |i: int| at[i]@)
}

/// The journal of a plane. The tables are open to whatever loads them from
/// storage and writes them back.
pub struct Journal {
    pub journal: Table<(String, (String, u64)), Vec<u8>>,
    pub by_case: Table<(String, (String, (String, u64))), ()>,
    pub once: Table<(String, (String, String)), u64>,
    pub leases: Table<(String, String), LeaseRow>,
    pub seals: Table<(String, String), SealRow>,
    pub by_outcome: Table<(String, (String, u64)), Pointer>,
    pub outcomes: Table<(String, String), OutcomeRow>,
    pub activity: Table<(String, (u64, String)), Fault>,
    pub last_activity: Table<(String, String), u64>,
    pub seal_log: Table<(String, u64), String>,
    pub cancels: Table<(String, String), Cancellation>,
    pub next_log_index: Table<String, u64>,
    pub next_conclusion: Table<String, u64>,
}

impl View for Journal {
    type V = JournalState;

    open spec fn view(&self) -> JournalState {
        JournalState {
            journal: self.journal@,
            by_case: self.by_case@,
            once: self.once@,
            leases: self.leases@,
            seals: self.seals@,
            by_outcome: self.by_outcome@,
            outcomes: self.outcomes@,
            activity: self.activity@,
            last_activity: self.last_activity@,
            seal_log: self.seal_log@,
            cancels: self.cancels@,
            next_log_index: self.next_log_index@,
            next_conclusion: self.next_conclusion@,
        }
    }
}

/// A journal before its first record.
pub open spec fn blank_journal() -> JournalState {
    JournalState {
        journal: Map::empty(),
        by_case: Map::empty(),
        once: Map::empty(),
        leases: Map::empty(),
        seals: Map::empty(),
        by_outcome: Map::empty(),
        outcomes: Map::empty(),
        activity: Map::empty(),
        last_activity: Map::empty(),
        seal_log: Map::empty(),
        cancels: Map::empty(),
        next_log_index: Map::empty(),
        next_conclusion: Map::empty(),
    }
}

/// The records of one run.
struct OfRun<'a> {
    tenant: &'a str,
    run: &'a str,
}

impl<'a> Pick<(String, (String, u64)), Vec<u8>> for OfRun<'a> {
    closed spec fn picks(&self, k: Position, r: Seq<u8>) -> bool {
        k.0 == self.tenant@ && k.1.0 == self.run@
    }

    fn test(&self, k: &(String, (String, u64)), r: &Vec<u8>) -> (b: bool) {
        same(&k.0, self.tenant) && same(&k.1.0, self.run)
    }
}

/// The last position of a chain is one position.
proof fn lemma_last_unique(st: JournalState, name: RunName, a: u64)
    requires
        is_last(st, name, a),
    ensures
        head_of(st, name) == match decoded(st.journal[(name.0, (name.1, a))]) {
            Ok(row) => Ok::<HeadModel, Refusal>(HeadModel { seq: a, hash: row.hash }),
            Err(why) => Err::<HeadModel, Refusal>(why),
        },
{
    let b = choose|s: u64| is_last(st, name, s);
    assert(is_last(st, name, b));
    assert(st.journal.contains_key((name.0, (name.1, b))));
    assert(st.journal.contains_key((name.0, (name.1, a))));
    assert(a == b);
}

proof fn lemma_first_repeat(st: JournalState, t: Seq<char>, batch: Seq<AppendModel>, i: int, n: int)
    requires
        0 <= i < n,
        first_repeat(st, t, batch, i) is None,
        repeats(st, t, batch, i),
    ensures
        first_repeat(st, t, batch, n) == started(batch[i]),
    decreases n,
{
    if n > i + 1 {
        lemma_first_repeat(st, t, batch, i, n - 1);
    }
}

proof fn lemma_one_stray(batch: Seq<AppendModel>, i: int)
    requires
        strays(batch, i),
    ensures
        (choose|j: int| strays(batch, j)) == i,
{
    let j = choose|j: int| strays(batch, j);
    assert(strays(batch, j));
    if j < i {
        assert(batch[j].run == batch[0].run);
    } else if i < j {
        assert(batch[i].run == batch[0].run);
    }
}

/// What the records of a batch do not touch stays as it was, and the ordinals
/// they hand out are bounded by their number.
proof fn lemma_records_frame(
    st: JournalState,
    name: RunName,
    head: HeadModel,
    batch: Seq<AppendModel>,
    n: int,
)
    requires
        0 <= n <= batch.len(),
        upcoming(st.next_conclusion, name.0) + n <= u64::MAX,
    ensures
        ({
            let st2 = with_records(st, name, head, batch, n);
            &&& st2.leases == st.leases
            &&& st2.seals == st.seals
            &&& st2.activity == st.activity
            &&& st2.last_activity == st.last_activity
            &&& st2.seal_log == st.seal_log
            &&& st2.cancels == st.cancels
            &&& st2.next_log_index == st.next_log_index
            &&& upcoming(st.next_conclusion, name.0) <= upcoming(st2.next_conclusion, name.0)
                <= upcoming(st.next_conclusion, name.0) + n
        }),
    decreases n,
{
    if n > 0 {
        lemma_records_frame(st, name, head, batch, n - 1);
    }
}

impl Journal {
    /// A journal with no records.
    pub fn new() -> (j: Journal)
        ensures
            j@ == blank_journal(),
            indexes_agree(j@),
            chains_agree(j@),
    {
        proof {
            law_blank_journal_agrees((Seq::empty(), Seq::empty()));
        }
        Journal {
            journal: Table::new(),
            by_case: Table::new(),
            once: Table::new(),
            leases: Table::new(),
            seals: Table::new(),
            by_outcome: Table::new(),
            outcomes: Table::new(),
            activity: Table::new(),
            last_activity: Table::new(),
            seal_log: Table::new(),
            cancels: Table::new(),
            next_log_index: Table::new(),
            next_conclusion: Table::new(),
        }
    }

    /// The last record of a run, or genesis.
    pub fn head(&self, tenant: &str, run: &str) -> (r: Result<Head, StoreError>)
        ensures
            match r {
                Ok(h) => head_of(self@, (tenant@, run@)) == Ok::<HeadModel, Refusal>(h@),
                Err(e) => head_of(self@, (tenant@, run@)) == Err::<HeadModel, Refusal>(e@),
            },
    {
        let ghost name = (tenant@, run@);
        let n = self.journal.len();
        let ghost e = self.journal.entries();
        let mut last: Option<usize> = None;
        let mut i: usize = 0;
        while i < n
            invariant
                i <= n,
                n == e.len(),
                e == self.journal.entries(),
                name == (tenant@, run@),
                in_order::<(String, (String, u64)), Seq<u8>>(e),
                match last {
                    Some(p) => p < i && e[p as int].0.0 == name.0 && e[p as int].0.1.0 == name.1,
                    None => true,
                },
                forall|j: int|
                    0 <= j < i && (#[trigger] e[j]).0.0 == name.0 && e[j].0.1.0 == name.1
                        ==> last is Some && j <= last->0,
            decreases n - i,
        {
            let k = self.journal.key_at(i);
            if same(&k.0, tenant) && same(&k.1.0, run) {
                last = Some(i);
            }
            i = i + 1;
        }
        match last {
            None => {
                proof {
                    if exists|s: u64| is_last(self@, name, s) {
                        let s = choose|s: u64| is_last(self@, name, s);
                        assert(self.journal@.contains_key((name.0, (name.1, s))));
                        let j = choose|j: int|
                            0 <= j < e.len() && (#[trigger] e[j]).0 == (name.0, (name.1, s));
                        assert(e[j].0.0 == name.0);
                    }
                }
                Ok(Head { seq: 0, hash: Digest::zero() })
            },
            Some(p) => {
                let seq = self.journal.key_at(p).1.1;
                proof {
                    assert(self.journal@.contains_key(e[p as int].0));
                    assert forall|s: u64| #[trigger]
                        self@.journal.contains_key((name.0, (name.1, s))) implies s <= seq by {
                        assert(self.journal@.contains_key((name.0, (name.1, s))));
                        let j = choose|j: int|
                            0 <= j < e.len() && (#[trigger] e[j]).0 == (name.0, (name.1, s));
                        assert(e[j].0.0 == name.0);
                        if j < p {
                            assert(<(String, (String, u64))>::precedes(e[j].0, e[p as int].0));
                            String::lemma_irreflexive(name.0);
                            String::lemma_irreflexive(name.1);
                        }
                    }
                    assert(is_last(self@, name, seq));
                    lemma_last_unique(self@, name, seq);
                }
                match Row::decode(self.journal.row_at(p).as_slice()) {
                    Ok(row) => Ok(Head { seq, hash: row.hash }),
                    Err(why) => Err(why),
                }
            },
        }
    }

    /// Refuses a writer whose epoch is not the lease's.
    pub fn fence(&self, tenant: &str, run: &str, epoch: u64) -> (r: Result<(), StoreError>)
        ensures
            match r {
                Ok(()) => fence_refusal(self@, (tenant@, run@), epoch) is None,
                Err(e) => fence_refusal(self@, (tenant@, run@), epoch) == Some(e@),
            },
    {
        match self.leases.get(&(tenant.to_owned(), run.to_owned())) {
            Some(lease) => {
                if lease.epoch != epoch {
                    return Err(
                        StoreError::Fenced {
                            run: key_of(tenant, run),
                            held: epoch,
                            current: lease.epoch,
                        },
                    );
                }
                Ok(())
            },
            None => Ok(()),
        }
    }

    /// Refuses a batch that starts an effect a second time.
    fn check_starts(&self, tenant: &str, batch: &Vec<Append>) -> (r: Result<(), StoreError>)
        requires
            batch@.len() > 0,
        ensures
            match r {
                Ok(()) => first_repeat(
                    self@,
                    tenant@,
                    batch_of(batch@),
                    batch@.len() as int,
                ) is None,
                Err(e) => first_repeat(
                    self@,
                    tenant@,
                    batch_of(batch@),
                    batch@.len() as int,
                ) matches Some(x) && e@ == Refusal::DuplicateEffect(x),
            },
    {
        let ghost b = batch_of(batch@);
        let mut seen: Table<String, ()> = Table::new();
        let mut i: usize = 0;
        while i < batch.len()
            invariant
                i <= batch@.len(),
                batch@.len() > 0,
                b == batch_of(batch@),
                first_repeat(self@, tenant@, b, i as int) is None,
                forall|x: Seq<char>| #[trigger]
                    seen@.contains_key(x) <==> exists|j: int|
                        0 <= j < i && started(#[trigger] b[j]) == Some(x),
            decreases batch@.len() - i,
        {
            let a = &batch[i];
            assert(b[i as int] == a@);
            assert(b[0] == batch@[0]@);
            let starts = match &a.kind {
                RecordKind::EffectStarted => true,
                _ => false,
            };
            let ghost seen0 = seen@;
            if starts {
                match &a.effect_key {
                    Some(key) => {
                        if seen.contains(key) || self.once.contains(
                            &(tenant.to_owned(), (batch[0].run.clone(), key.clone())),
                        ) {
                            proof {
                                assert(repeats(self@, tenant@, b, i as int));
                                lemma_first_repeat(
                                    self@,
                                    tenant@,
                                    b,
                                    i as int,
                                    b.len() as int,
                                );
                            }
                            return Err(StoreError::DuplicateEffect(key.clone()));
                        }
                        seen.insert(key.clone(), ());
                    },
                    None => {},
                }
            }
            proof {
                assert forall|x: Seq<char>| #[trigger] seen@.contains_key(x) <==> exists|j: int|
                    0 <= j < i + 1 && started(#[trigger] b[j]) == Some(x) by {
                    if started(b[i as int]) == Some(x) {
                        assert(seen@.contains_key(x));
                    }
                    if seen0.contains_key(x) {
                        let j = choose|j: int| 0 <= j < i && started(#[trigger] b[j]) == Some(x);
                        assert(started(b[j]) == Some(x));
                    }
                    if exists|j: int| 0 <= j < i + 1 && started(#[trigger] b[j]) == Some(x) {
                        let j = choose|j: int|
                            0 <= j < i + 1 && started(#[trigger] b[j]) == Some(x);
                        if j < i {
                            assert(seen0.contains_key(x));
                        }
                    }
                }
            }
            i = i + 1;
        }
        Ok(())
    }

    /// Writes one record and the index rows that derive from it.
    fn write(
        &mut self,
        tenant: &str,
        run: &str,
        seq: u64,
        prev: Digest,
        a: &Append,
    )
        requires
            upcoming(old(self)@.next_conclusion, tenant@) < u64::MAX,
        ensures
            final(self)@ == with_record(old(self)@, (tenant@, run@), seq, prev@, a@),
    {
        let row = Row {
            body: vstd::slice::slice_to_vec(a.body.as_slice()),
            prev_hash: prev,
            hash: a.hash,
            key_id: match &a.key_id {
                Some(k) => Some(k.clone()),
                None => None,
            },
            signature: match &a.signature {
                Some(s) => Some(vstd::slice::slice_to_vec(s.as_slice())),
                None => None,
            },
        };
        assert(row@ =~= row_of(a@, prev@));
        self.journal.insert((tenant.to_owned(), (run.to_owned(), seq)), row.encode());
        match &a.case {
            Some(case) => {
                self.by_case.insert(
                    (tenant.to_owned(), (case.clone(), (run.to_owned(), seq))),
                    (),
                );
            },
            None => {},
        }
        match &a.kind {
            RecordKind::EffectStarted => {
                match &a.effect_key {
                    Some(key) => {
                        self.once.insert(
                            (tenant.to_owned(), (run.to_owned(), key.clone())),
                            seq,
                        );
                    },
                    None => {},
                }
            },
            RecordKind::RunConcluded { outcome } => {
                self.conclude(tenant, run, outcome);
            },
            _ => {},
        }
    }

    /// Moves a run to its new place in the outcome index.
    fn conclude(&mut self, tenant: &str, run: &str, outcome: &String)
        requires
            upcoming(old(self)@.next_conclusion, tenant@) < u64::MAX,
        ensures
            final(self)@ == with_conclusion(old(self)@, (tenant@, run@), outcome@),
    {
        let name = (tenant.to_owned(), run.to_owned());
        let prior = match self.outcomes.get(&name) {
            Some(row) => Some((row.outcome.clone(), row.ordinal)),
            None => None,
        };
        match prior {
            Some((was, ordinal)) => {
                let _ = self.by_outcome.remove(&(tenant.to_owned(), (was, ordinal)));
            },
            None => {},
        }
        let ordinal: u64 = match self.next_conclusion.get(&tenant.to_owned()) {
            Some(n) => *n,
            None => 0,
        };
        self.by_outcome.insert(
            (tenant.to_owned(), (outcome.clone(), ordinal)),
            Pointer { tenant: tenant.to_owned(), run: run.to_owned(), fault: None },
        );
        self.outcomes.insert(name, OutcomeRow { outcome: outcome.clone(), ordinal });
        self.next_conclusion.insert(tenant.to_owned(), ordinal + 1);
    }

    /// Whether a batch can be appended, and if not, why.
    pub fn check_append(&self, tenant: &str, epoch: u64, batch: &Vec<Append>) -> (r: Result<
        (),
        StoreError,
    >)
        ensures
            append_refusal(self@, tenant@, epoch, batch_of(batch@)) == match r {
                Ok(_) => None::<Refusal>,
                Err(e) => Some(e@),
            },
    {
        let ghost b = batch_of(batch@);
        if batch.len() == 0 {
            return Ok(());
        }
        let run = batch[0].run.clone();
        let ghost name = (tenant@, run@);
        assert(b[0] == batch@[0]@);
        let mut i: usize = 0;
        while i < batch.len()
            invariant
                i <= batch@.len(),
                batch@.len() > 0,
                b == batch_of(batch@),
                run@ == b[0].run,
                one_run(b, i as int),
            decreases batch@.len() - i,
        {
            assert(b[i as int] == batch@[i as int]@);
            if batch[i].run != run {
                proof {
                    assert(strays(b, i as int));
                    lemma_one_stray(b, i as int);
                }
                return Err(
                    StoreError::Backend(
                        join5(
                            "batch spans runs ",
                            &run,
                            " and ",
                            &batch[i].run,
                            " — a batch is one run's atomic unit",
                        ),
                    ),
                );
            }
            i = i + 1;
        }
        assert(forall|j: int| !strays(b, j));
        match self.fence(tenant, &run, epoch) {
            Ok(()) => {},
            Err(e) => {
                return Err(e);
            },
        }
        match self.seals.get(&(tenant.to_owned(), run.clone())) {
            Some(seal) => {
                return Err(
                    StoreError::RunSealed {
                        run: key_of(tenant, &run),
                        outcome: seal.outcome.clone(),
                    },
                );
            },
            None => {},
        }
        let head = match self.head(tenant, &run) {
            Ok(head) => head,
            Err(e) => {
                return Err(e);
            },
        };
        let n: u64 = batch.len() as u64;
        if head.seq > u64::MAX - n {
            return Err(StoreError::Backend("journal sequence overflow".to_owned()));
        }
        let next: u64 = match self.next_conclusion.get(&tenant.to_owned()) {
            Some(x) => *x,
            None => 0,
        };
        if next > u64::MAX - n {
            return Err(StoreError::Backend("conclusion ordinal overflow".to_owned()));
        }
        match self.check_starts(tenant, batch) {
            Ok(()) => {},
            Err(e) => {
                return Err(e);
            },
        }
        Ok(())
    }

    /// Writes down that a run was active.
    pub(crate) fn touch(&mut self, tenant: &str, run: &str, now: u64)
        ensures
            final(self)@ == with_activity(old(self)@, (tenant@, run@), now),
    {
        let name = (tenant.to_owned(), run.to_owned());
        let before = match self.last_activity.get(&name) {
            Some(at) => Some(*at),
            None => None,
        };
        if let Some(at) = before {
            let _ = self.activity.remove(&(tenant.to_owned(), (at, run.to_owned())));
        }
        self.activity.insert((tenant.to_owned(), (now, run.to_owned())), Fault { said: None });
        self.last_activity.insert(name, now);
    }

    /// Appends a batch to one run's chain, all of it or none of it.
    ///
    /// The records get the positions after the head and follow one another's
    /// hashes. A batch over several runs, a stale epoch, a sealed run and a
    /// second start of an effect are refused. So is a batch that would run a
    /// position or an ordinal past the largest number.
    pub fn append(&mut self, tenant: &str, now: u64, epoch: u64, batch: &Vec<Append>) -> (r: Result<
        Vec<Slot>,
        StoreError,
    >)
        ensures
            indexes_agree(old(self)@) ==> indexes_agree(final(self)@),
            chains_agree(old(self)@) && batch_fits(batch_of(batch@)) ==> chains_agree(
                final(self)@,
            ),
            match append_refusal(old(self)@, tenant@, epoch, batch_of(batch@)) {
                Some(why) => r matches Err(e) && e@ == why && final(self)@ == old(self)@,
                None => {
                    &&& final(self)@ == appended(old(self)@, tenant@, now, batch_of(batch@))
                    &&& r matches Ok(slots) && slots@.len() == batch@.len() && forall|i: int|
                        0 <= i < batch@.len() ==> {
                            let head = head_of(
                                old(self)@,
                                (tenant@, batch_of(batch@)[0].run),
                            )->Ok_0;
                            &&& (#[trigger] slots@[i]).seq == head.seq + i + 1
                            &&& slots@[i].prev_hash@ == prev_of(head, batch_of(batch@), i)
                        }
                },
            },
    {
        let ghost st = self@;
        let ghost b = batch_of(batch@);
        let mut slots: Vec<Slot> = Vec::new();
        match self.check_append(tenant, epoch, batch) {
            Ok(()) => {},
            Err(e) => {
                return Err(e);
            },
        }
        if batch.len() == 0 {
            return Ok(slots);
        }
        proof {
            if indexes_agree(st) {
                law_appending_agrees(st, tenant@, now, epoch, b);
            }
            if chains_agree(st) && batch_fits(b) {
                law_append_keeps_chains(st, tenant@, now, epoch, b);
            }
        }
        let run = batch[0].run.clone();
        let ghost name = (tenant@, run@);
        assert(b[0] == batch@[0]@);
        let head = match self.head(tenant, &run) {
            Ok(head) => head,
            Err(e) => {
                return Err(e);
            },
        };
        let n: u64 = batch.len() as u64;
        let ghost h = head@;
        let mut prev = head.hash;
        let mut i: usize = 0;
        while i < batch.len()
            invariant
                i <= batch@.len(),
                batch@.len() > 0,
                n == batch@.len(),
                b == batch_of(batch@),
                h == head@,
                name == (tenant@, run@),
                h.seq + batch@.len() <= u64::MAX,
                upcoming(st.next_conclusion, tenant@) + batch@.len() <= u64::MAX,
                prev@ == prev_of(h, b, i as int),
                slots@.len() == i,
                forall|j: int|
                    0 <= j < i ==> (#[trigger] slots@[j]).seq == h.seq + j + 1
                        && slots@[j].prev_hash@ == prev_of(h, b, j),
                self@ == with_records(st, name, h, b, i as int),
            decreases batch@.len() - i,
        {
            proof {
                lemma_records_frame(st, name, h, b, i as int);
            }
            assert(b[i as int] == batch@[i as int]@);
            let seq: u64 = head.seq + (i as u64) + 1;
            self.write(tenant, &run, seq, prev, &batch[i]);
            slots.push(Slot { seq, prev_hash: prev });
            prev = batch[i].hash;
            i = i + 1;
        }
        self.touch(tenant, &run, now);
        Ok(slots)
    }

    /// Whether the head of a batch's run is still the one it was sealed on.
    pub fn check_head(&self, tenant: &str, batch: &Vec<Append>, on: &Head) -> (r: Result<
        (),
        StoreError,
    >)
        ensures
            ({
                let b = batch_of(batch@);
                match r {
                    Ok(_) => b.len() == 0 || head_of(self@, (tenant@, b[0].run)) == Ok::<
                        HeadModel,
                        Refusal,
                    >(on@),
                    Err(e) => b.len() > 0 && match head_of(self@, (tenant@, b[0].run)) {
                        Err(why) => e@ == why,
                        Ok(head) => head != on@ && e@ == Refusal::Backend(moved_text(b[0].run)),
                    },
                }
            }),
    {
        if batch.len() == 0 {
            return Ok(());
        }
        assert(batch_of(batch@)[0] == batch@[0]@);
        match self.head(tenant, &batch[0].run) {
            Err(e) => Err(e),
            Ok(head) => if head.seq == on.seq && head.hash.same(&on.hash) {
                Ok(())
            } else {
                Err(
                    StoreError::Backend(
                        join3(
                            "the head of run ",
                            &batch[0].run,
                            " is not the one this batch was sealed on — a record was written in between",
                        ),
                    ),
                )
            },
        }
    }

    /// Appends a batch whose records were sealed on a head, where that is the
    /// head still: a record that was written in between would leave the first of
    /// them following a hash that it was not sealed on.
    pub fn append_on(
        &mut self,
        tenant: &str,
        now: u64,
        epoch: u64,
        batch: &Vec<Append>,
        on: &Head,
    ) -> (r: Result<Vec<Slot>, StoreError>)
        ensures
            indexes_agree(old(self)@) ==> indexes_agree(final(self)@),
            chains_agree(old(self)@) && batch_fits(batch_of(batch@)) ==> chains_agree(
                final(self)@,
            ),
            match sealed_append_refusal(old(self)@, tenant@, epoch, batch_of(batch@), on@) {
                Some(why) => r matches Err(e) && e@ == why && final(self)@ == old(self)@,
                None => {
                    &&& final(self)@ == appended(old(self)@, tenant@, now, batch_of(batch@))
                    &&& r matches Ok(slots) && slots@.len() == batch@.len() && forall|i: int|
                        0 <= i < batch@.len() ==> {
                            &&& (#[trigger] slots@[i]).seq == on.seq + i + 1
                            &&& slots@[i].prev_hash@ == prev_of(on@, batch_of(batch@), i)
                        }
                },
            },
    {
        match self.check_append(tenant, epoch, batch) {
            Err(e) => {
                return Err(e);
            },
            Ok(_) => {},
        }
        match self.check_head(tenant, batch, on) {
            Err(e) => {
                return Err(e);
            },
            Ok(_) => {},
        }
        self.append(tenant, now, epoch, batch)
    }

    /// Claims a run. A claim never renews: the holder of a live lease is
    /// refused like everybody else.
    pub fn acquire(&mut self, tenant: &str, run: &str, owner: &str, now: u64, ttl: Ttl) -> (r: Result<
        Lease,
        StoreError,
    >)
        requires
            ttl.proper(),
        ensures
            indexes_agree(old(self)@) ==> indexes_agree(final(self)@),
            chains_agree(old(self)@) ==> chains_agree(final(self)@),
            match claim(old(self)@, (tenant@, run@), now, ttl) {
                Err(why) => r matches Err(e) && e@ == why && final(self)@ == old(self)@,
                Ok(epoch) => {
                    &&& r matches Ok(l) && l.run@ == run@ && l.owner@ == owner@ && l.epoch == epoch
                    &&& final(self)@ == with_lease(
                        old(self)@,
                        (tenant@, run@),
                        owner@,
                        epoch,
                        (now + ttl.secs) as u64,
                    )
                },
            },
    {
        let expires_at: u64 = match lease_expiry(now, ttl) {
            Ok(at) => at,
            Err(e) => {
                return Err(e);
            },
        };
        let name = (tenant.to_owned(), run.to_owned());
        let epoch: u64 = match self.leases.get(&name) {
            None => 1,
            Some(lease) => {
                if lease.expires_at > now {
                    return Err(
                        StoreError::LeaseHeld {
                            run: key_of(tenant, run),
                            owner: lease.owner.clone(),
                            epoch: lease.epoch,
                            remaining_secs: lease.expires_at - now,
                        },
                    );
                }
                if lease.epoch == u64::MAX {
                    return Err(StoreError::Backend("lease epoch overflow".to_owned()));
                }
                lease.epoch + 1
            },
        };
        proof {
            if indexes_agree(self@) {
                law_leasing_agrees(self@, (tenant@, run@), owner@, epoch, expires_at);
            }
            if chains_agree(self@) {
                lemma_chains_carry_over(
                    self@,
                    with_lease(self@, (tenant@, run@), owner@, epoch, expires_at),
                );
            }
        }
        self.leases.insert(
            name,
            LeaseRow { owner: owner.to_owned(), epoch, expires_at, fault: None },
        );
        Ok(Lease { run: run.to_owned(), owner: owner.to_owned(), epoch })
    }

    /// Extends a lease that is still held by exactly this owner in this epoch.
    /// A renewal never claims.
    pub fn renew(
        &mut self,
        tenant: &str,
        run: &str,
        owner: &str,
        epoch: u64,
        now: u64,
        ttl: Ttl,
    ) -> (r: Result<Lease, StoreError>)
        requires
            ttl.proper(),
        ensures
            indexes_agree(old(self)@) ==> indexes_agree(final(self)@),
            chains_agree(old(self)@) ==> chains_agree(final(self)@),
            match expiry(now, ttl) {
                Err(why) => r matches Err(e) && e@ == why && final(self)@ == old(self)@,
                Ok(at) => if holds_lease(old(self)@, (tenant@, run@), owner@, epoch, now) {
                    &&& r matches Ok(l) && l.run@ == run@ && l.owner@ == owner@ && l.epoch == epoch
                    &&& final(self)@ == with_lease(
                        old(self)@,
                        (tenant@, run@),
                        owner@,
                        epoch,
                        at,
                    )
                } else {
                    r matches Err(e) && e@ == (Refusal::LeaseNotHeld {
                        run: run_key(tenant@, run@),
                        epoch,
                    }) && final(self)@ == old(self)@
                },
            },
    {
        let expires_at: u64 = match lease_expiry(now, ttl) {
            Ok(at) => at,
            Err(e) => {
                return Err(e);
            },
        };
        let name = (tenant.to_owned(), run.to_owned());
        let held = match self.leases.get(&name) {
            Some(lease) => same(&lease.owner, owner) && lease.epoch == epoch && lease.expires_at
                > now,
            None => false,
        };
        if !held {
            return Err(StoreError::LeaseNotHeld { run: key_of(tenant, run), epoch });
        }
        proof {
            if indexes_agree(self@) {
                law_leasing_agrees(self@, (tenant@, run@), owner@, epoch, expires_at);
            }
            if chains_agree(self@) {
                lemma_chains_carry_over(
                    self@,
                    with_lease(self@, (tenant@, run@), owner@, epoch, expires_at),
                );
            }
        }
        self.leases.insert(
            name,
            LeaseRow { owner: owner.to_owned(), epoch, expires_at, fault: None },
        );
        Ok(Lease { run: run.to_owned(), owner: owner.to_owned(), epoch })
    }

    /// Gives a lease back. Only the epoch that holds it can.
    pub fn release_lease(&mut self, tenant: &str, run: &str, epoch: u64)
        ensures
            final(self)@ == released(old(self)@, (tenant@, run@), epoch),
            indexes_agree(old(self)@) ==> indexes_agree(final(self)@),
            chains_agree(old(self)@) ==> chains_agree(final(self)@),
    {
        proof {
            if indexes_agree(self@) {
                law_leasing_agrees(self@, (tenant@, run@), Seq::empty(), epoch, 0);
            }
            if chains_agree(self@) {
                lemma_chains_carry_over(self@, released(self@, (tenant@, run@), epoch));
            }
        }
        let name = (tenant.to_owned(), run.to_owned());
        let held = match self.leases.get(&name) {
            Some(lease) => lease.epoch == epoch,
            None => false,
        };
        if held {
            self.leases.insert(
                name,
                LeaseRow { owner: String::new(), epoch, expires_at: 0, fault: None },
            );
        }
    }

    /// The runs whose holders stopped renewing, the longest stranded first.
    /// A stored id that is not a run id is reported, not skipped: a stranded
    /// run that is missing here is never recovered.
    pub fn abandoned_runs(&self, tenant: &str, now: u64, limit: usize) -> (r: Result<
        Vec<String>,
        StoreError,
    >)
        ensures
            match r {
                Ok(out) => {
                    &&& oldest_stranded(self@, tenant@, now, limit, texts(out@))
                    &&& forall|run: Seq<char>| #[trigger]
                        stranded(self@, tenant@, now, run) ==> self@.leases[(
                            tenant@,
                            run,
                        )].fault is None
                },
                Err(e) => exists|run: Seq<char>|
                    {
                        &&& #[trigger] stranded(self@, tenant@, now, run)
                        &&& self@.leases[(tenant@, run)].fault matches Some(fault) && e@ == (
                        Refusal::Corrupt { seq: 0, detail: bad_lease_text(run, fault) })
                        &&& forall|other: Seq<char>| #[trigger]
                            stranded(self@, tenant@, now, other) && self@.leases[(
                                tenant@,
                                other,
                            )].fault is Some ==> !crate::table::text_before(other, run)
                    },
            },
    {
        let ghost st = self@;
        let ghost t = tenant@;
        let mut found: Table<(u64, String), ()> = Table::new();
        let n = self.leases.len();
        let ghost e = self.leases.entries();
        let mut i: usize = 0;
        while i < n
            invariant
                i <= n,
                n == e.len(),
                e == self.leases.entries(),
                st == self@,
                t == tenant@,
                in_order::<(String, String), LeaseModel>(e),
                forall|j: int|
                    0 <= j < n ==> st.leases.contains_key((#[trigger] e[j]).0) && st.leases[e[j].0]
                        == e[j].1,
                forall|k: RunName| #[trigger] st.leases.contains_key(k) ==> has_key(e, k),
                forall|k: (u64, Seq<char>)| #[trigger]
                    found@.contains_key(k) ==> stranded(st, t, now, k.1) && k.0 == st.leases[(
                        t,
                        k.1,
                    )].expires_at && st.leases[(t, k.1)].fault is None,
                forall|j: int|
                    0 <= j < i && (#[trigger] e[j]).0.0 == t && stranded(st, t, now, e[j].0.1)
                        ==> found@.contains_key((e[j].1.expires_at, e[j].0.1)),
            decreases n - i,
        {
            let k = self.leases.key_at(i);
            let row = self.leases.row_at(i);
            assert(st.leases.contains_key(e[i as int].0));
            if same(&k.0, tenant) && !same(&row.owner, "") && row.expires_at <= now {
                proof {
                    reveal_strlit("");
                    assert(row@.owner =~= ""@ <==> row@.owner.len() == 0);
                }
                match &row.fault {
                    Some(fault) => {
                        proof {
                            let run = k@.1;
                            assert(stranded(st, t, now, run));
                            assert forall|other: Seq<char>| #[trigger]
                                stranded(st, t, now, other) && st.leases[(
                                    t,
                                    other,
                                )].fault is Some implies !crate::table::text_before(other, run) by {
                                assert(st.leases.contains_key((t, other)));
                                let j = choose|j: int|
                                    0 <= j < e.len() && (#[trigger] e[j]).0 == (t, other);
                                String::lemma_irreflexive(other);
                                String::lemma_irreflexive(t);
                                if j < i {
                                    assert(found@.contains_key((e[j].1.expires_at, e[j].0.1)));
                                } else if j > i {
                                    assert(<(String, String)>::precedes(e[i as int].0, e[j].0));
                                    if crate::table::text_before(other, run) {
                                        String::lemma_transitive(other, run, other);
                                    }
                                }
                            }
                        }
                        return Err(
                            StoreError::Corrupt {
                                seq: 0,
                                detail: join4(
                                    "run_lease holds an unparsable run id '",
                                    &k.1,
                                    "': ",
                                    fault,
                                ),
                            },
                        );
                    },
                    None => {
                        found.insert((row.expires_at, k.1.clone()), ());
                    },
                }
            } else {
                proof {
                    reveal_strlit("");
                    assert(row@.owner =~= ""@ <==> row@.owner.len() == 0);
                }
            }
            i = i + 1;
        }
        let mut out: Vec<String> = Vec::new();
        let m = found.len();
        let ghost f = found.entries();
        let mut i: usize = 0;
        while i < m && i < limit
            invariant
                i <= m,
                i <= limit,
                m == f.len(),
                f == found.entries(),
                out@.len() == i,
                forall|j: int| 0 <= j < i ==> (#[trigger] out@[j])@ == f[j].0.1,
            decreases m - i,
        {
            out.push(found.key_at(i).1.clone());
            i = i + 1;
        }
        proof {
            let names = texts(out@);
            assert forall|a: int| 0 <= a < names.len() implies stranded(
                st,
                t,
                now,
                #[trigger] names[a],
            ) && f[a].0 == (st.leases[(t, names[a])].expires_at, names[a]) by {
                assert(found@.contains_key(f[a].0));
                assert(names[a] == out@[a]@);
            }
            assert forall|a: int, b: int| 0 <= a < b < names.len() implies staler(
                st,
                t,
                #[trigger] names[a],
                #[trigger] names[b],
            ) by {
                assert(<(u64, String)>::precedes(f[a].0, f[b].0));
            }
            assert forall|run: Seq<char>| #[trigger] stranded(
                st,
                t,
                now,
                run,
            ) implies st.leases[(t, run)].fault is None && (names.contains(run) || (names.len()
                == limit && forall|a: int|
                0 <= a < names.len() ==> staler(st, t, #[trigger] names[a], run))) by {
                assert(st.leases.contains_key((t, run)));
                let j = choose|j: int| 0 <= j < e.len() && (#[trigger] e[j]).0 == (t, run);
                let k = (e[j].1.expires_at, e[j].0.1);
                assert(found@.contains_key(k));
                let a = choose|a: int| 0 <= a < f.len() && (#[trigger] f[a]).0 == k;
                if a < names.len() {
                    assert(names[a] == run);
                } else {
                    assert forall|b: int| 0 <= b < names.len() implies staler(
                        st,
                        t,
                        #[trigger] names[b],
                        run,
                    ) by {
                        assert(<(u64, String)>::precedes(f[b].0, f[a].0));
                    }
                }
            }
        }
        Ok(out)
    }

    /// Seals a run: reports the hash its chain ends in, freezes the chain
    /// there and enters it in the log.
    pub fn seal(&mut self, tenant: &str, run: &str, epoch: u64, outcome: &str, now: u64) -> (r:
        Result<Digest, StoreError>)
        ensures
            indexes_agree(old(self)@) ==> indexes_agree(final(self)@),
            chains_agree(old(self)@) ==> chains_agree(final(self)@),
            match seal_refusal(old(self)@, (tenant@, run@), epoch) {
                Some(why) => r matches Err(e) && e@ == why && final(self)@ == old(self)@,
                None => {
                    let head = head_of(old(self)@, (tenant@, run@))->Ok_0;
                    &&& r matches Ok(d) && d@ == head.hash
                    &&& final(self)@ == with_seal(
                        old(self)@,
                        (tenant@, run@),
                        outcome@,
                        head.hash,
                        now,
                    )
                },
            },
    {
        match self.fence(tenant, run, epoch) {
            Ok(()) => {},
            Err(e) => {
                return Err(e);
            },
        }
        let head = match self.head(tenant, run) {
            Ok(head) => head,
            Err(e) => {
                return Err(e);
            },
        };
        let name = (tenant.to_owned(), run.to_owned());
        proof {
            if indexes_agree(self@) && seal_refusal(self@, name@, epoch) is None {
                law_sealing_agrees(self@, name@, epoch, outcome@, head.hash@, now);
            }
            if chains_agree(self@) {
                lemma_chains_carry_over(
                    self@,
                    with_seal(self@, name@, outcome@, head.hash@, now),
                );
            }
        }
        if !self.seals.contains(&name) {
            let index: u64 = match self.next_log_index.get(&tenant.to_owned()) {
                Some(n) => *n,
                None => 0,
            };
            if index == u64::MAX {
                return Err(StoreError::Backend("log position overflow".to_owned()));
            }
            self.seals.insert(
                name,
                SealRow {
                    outcome: outcome.to_owned(),
                    head: vstd::slice::slice_to_vec(&head.hash.bytes),
                    sealed_at: now,
                },
            );
            self.seal_log.insert((tenant.to_owned(), index), run.to_owned());
            self.next_log_index.insert(tenant.to_owned(), index + 1);
        }
        Ok(head.hash)
    }

    /// The positions of a run's chain from one on.
    fn positions(&self, tenant: &str, run: &str, from: u64) -> (out: Vec<(String, u64)>)
        ensures
            exists|at: Seq<u64>| #[trigger]
                chain_from(self@, (tenant@, run@), from, at) && places(out@) == of_run(run@, at),
    {
        let ghost st = self@;
        let ghost name = (tenant@, run@);
        let n = self.journal.len();
        let ghost e = self.journal.entries();
        let ghost mut at: Seq<u64> = Seq::empty();
        let mut out: Vec<(String, u64)> = Vec::new();
        let mut i: usize = 0;
        while i < n
            invariant
                i <= n,
                n == e.len(),
                e == self.journal.entries(),
                st == self@,
                name == (tenant@, run@),
                in_order::<(String, (String, u64)), Seq<u8>>(e),
                forall|j: int| 0 <= j < n ==> st.journal.contains_key((#[trigger] e[j]).0),
                out@.len() == at.len(),
                forall|j: int| 0 <= j < at.len() ==> (#[trigger] out@[j])@ == (run@, at[j]),
                forall|j: int|
                    0 <= j < at.len() ==> st.journal.contains_key(
                        (name.0, (name.1, #[trigger] at[j])),
                    ) && at[j] >= from,
                forall|j: int, m: int|
                    0 <= j < m < at.len() ==> #[trigger] at[j] < #[trigger] at[m],
                forall|j: int, m: int|
                    0 <= j < at.len() && i <= m < n && (#[trigger] e[m]).0.0 == name.0
                        && e[m].0.1.0 == name.1 ==> #[trigger] at[j] < e[m].0.1.1,
                forall|j: int|
                    0 <= j < i && (#[trigger] e[j]).0.0 == name.0 && e[j].0.1.0 == name.1
                        && e[j].0.1.1 >= from ==> at.contains(e[j].0.1.1),
            decreases n - i,
        {
            let k = self.journal.key_at(i);
            let ghost at0 = at;
            assert(st.journal.contains_key(e[i as int].0));
            if same(&k.0, tenant) && same(&k.1.0, run) && k.1.1 >= from {
                proof {
                    at = at.push(k@.1.1);
                }
                out.push((k.1.0.clone(), k.1.1));
            }
            proof {
                String::lemma_irreflexive(name.0);
                String::lemma_irreflexive(name.1);
                assert forall|j: int, m: int|
                    0 <= j < at.len() && i + 1 <= m < n && (#[trigger] e[m]).0.0 == name.0
                        && e[m].0.1.0 == name.1 implies #[trigger] at[j] < e[m].0.1.1 by {
                    assert(<(String, (String, u64))>::precedes(e[i as int].0, e[m].0));
                    if j < at0.len() {
                        assert(at[j] == at0[j]);
                    }
                }
                assert forall|j: int|
                    0 <= j < i + 1 && (#[trigger] e[j]).0.0 == name.0 && e[j].0.1.0 == name.1
                        && e[j].0.1.1 >= from implies at.contains(e[j].0.1.1) by {
                    if j < i {
                        assert(at0.contains(e[j].0.1.1));
                        let m = at0.index_of(e[j].0.1.1);
                        assert(at[m] == e[j].0.1.1);
                    } else {
                        assert(at[at.len() - 1] == e[j].0.1.1);
                    }
                }
            }
            i = i + 1;
        }
        proof {
            assert forall|s: u64| #[trigger]
                st.journal.contains_key((name.0, (name.1, s))) && s >= from implies at.contains(
                s,
            ) by {
                assert(self.journal@.contains_key((name.0, (name.1, s))));
                let j = choose|j: int|
                    0 <= j < e.len() && (#[trigger] e[j]).0 == (name.0, (name.1, s));
                assert(e[j].0.0 == name.0);
            }
            assert(chain_from(st, name, from, at));
            assert(places(out@) =~= of_run(run@, at));
        }
        out
    }

    /// Reads the rows at these positions, up to the first that does not decode.
    fn read_rows(&self, tenant: &str, at: &Vec<(String, u64)>) -> (r: Scan)
        requires
            forall|i: int|
                0 <= i < at@.len() ==> self@.journal.contains_key((tenant@, (#[trigger] at@[i])@)),
        ensures
            scanned(bytes_at(self@, tenant@, places(at@)), r@),
    {
        let ghost stored = bytes_at(self@, tenant@, places(at@));
        let mut rows: Vec<Row> = Vec::new();
        let mut i: usize = 0;
        while i < at.len()
            invariant
                i <= at@.len(),
                stored == bytes_at(self@, tenant@, places(at@)),
                forall|j: int|
                    0 <= j < at@.len() ==> self@.journal.contains_key(
                        (tenant@, (#[trigger] at@[j])@),
                    ),
                rows@.len() == i,
                forall|j: int|
                    0 <= j < i ==> decoded(#[trigger] stored[j]) == Ok::<RowModel, Refusal>(
                        rows@[j]@,
                    ),
            decreases at@.len() - i,
        {
            assert(self@.journal.contains_key((tenant@, at@[i as int]@)));
            assert(places(at@)[i as int] == at@[i as int]@);
            match self.journal.get(&(tenant.to_owned(), (at[i].0.clone(), at[i].1))) {
                Some(bytes) => {
                    assert(stored[i as int] == bytes@);
                    match Row::decode(bytes.as_slice()) {
                        Ok(row) => {
                            rows.push(row);
                        },
                        Err(why) => {
                            return Scan { rows, damage: Some(why) };
                        },
                    }
                },
                None => {},
            }
            i = i + 1;
        }
        Scan { rows, damage: None }
    }

    /// Scans the records of a run from a position on. Whether each record's hash
    /// is that of its bytes is for [`attested`].
    pub fn scan(&self, tenant: &str, run: &str, from: u64) -> (r: Scan)
        ensures
            exists|at: Seq<u64>| #[trigger]
                chain_from(self@, (tenant@, run@), from, at) && scanned(
                    bytes_at(self@, tenant@, of_run(run@, at)),
                    r@,
                ),
    {
        let at = self.positions(tenant, run, from);
        proof {
            let seqs = choose|seqs: Seq<u64>| #[trigger]
                chain_from(self@, (tenant@, run@), from, seqs) && places(at@) == of_run(
                    run@,
                    seqs,
                );
            assert(places(at@).len() == of_run(run@, seqs).len());
            assert forall|i: int| 0 <= i < at@.len() implies self@.journal.contains_key(
                (tenant@, (#[trigger] at@[i])@),
            ) by {
                assert(places(at@)[i] == of_run(run@, seqs)[i]);
                assert(self@.journal.contains_key((tenant@, (run@, seqs[i]))));
            }
        }
        self.read_rows(tenant, &at)
    }

    /// The records of a run from a position on, as they are stored: one that was
    /// altered is told from a whole one by [`attested`].
    pub fn read(&self, tenant: &str, run: &str, from: u64) -> (r: Result<Vec<Row>, StoreError>)
        ensures
            exists|at: Seq<u64>| #[trigger]
                chain_from(self@, (tenant@, run@), from, at) && read_back(
                    bytes_at(self@, tenant@, of_run(run@, at)),
                    rows_of(r),
                ),
    {
        let scan = self.scan(tenant, run, from);
        proof {
            let at = choose|at: Seq<u64>| #[trigger]
                chain_from(self@, (tenant@, run@), from, at) && scanned(
                    bytes_at(self@, tenant@, of_run(run@, at)),
                    scan@,
                );
            lemma_scan_reads_back(bytes_at(self@, tenant@, of_run(run@, at)), scan@);
        }
        match scan.damage {
            Some(e) => Err(e),
            None => Ok(scan.rows),
        }
    }

    /// What the journal holds on a case, by run and position, as it is stored.
    pub fn case_history(&self, tenant: &str, case: &str, limit: usize) -> (r: Result<
        Vec<Row>,
        StoreError,
    >)
        ensures
            exists|at: Seq<(Seq<char>, u64)>| #[trigger]
                case_page(self@, tenant@, case@, limit, at) && read_back(
                    bytes_at(self@, tenant@, at),
                    rows_of(r),
                ),
    {
        let scan = self.scan_case(tenant, case, limit);
        proof {
            let at = choose|at: Seq<(Seq<char>, u64)>| #[trigger]
                case_page(self@, tenant@, case@, limit, at) && scanned(
                    bytes_at(self@, tenant@, at),
                    scan@,
                );
            lemma_scan_reads_back(bytes_at(self@, tenant@, at), scan@);
        }
        match scan.damage {
            Some(e) => Err(e),
            None => Ok(scan.rows),
        }
    }

    /// Scans what the journal holds on a case, by run and position. Whether each
    /// record's hash is that of its bytes is for [`attested`].
    pub fn scan_case(&self, tenant: &str, case: &str, limit: usize) -> (r: Scan)
        ensures
            exists|at: Seq<(Seq<char>, u64)>| #[trigger]
                case_page(self@, tenant@, case@, limit, at) && scanned(
                    bytes_at(self@, tenant@, at),
                    r@,
                ),
    {
        let ghost st = self@;
        let ghost t = tenant@;
        let n = self.by_case.len();
        let ghost e = self.by_case.entries();
        let mut at: Vec<(String, u64)> = Vec::new();
        let mut i: usize = 0;
        while i < n && at.len() < limit
            invariant
                i <= n,
                n == e.len(),
                e == self.by_case.entries(),
                st == self@,
                t == tenant@,
                at@.len() <= limit,
                in_order::<(String, (String, (String, u64))), ()>(e),
                forall|j: int| 0 <= j < n ==> st.by_case.contains_key((#[trigger] e[j]).0),
                forall|j: int|
                    0 <= j < at@.len() ==> in_case(st, t, case@, (#[trigger] at@[j])@),
                forall|j: int, m: int|
                    0 <= j < m < at@.len() ==> <(String, u64)>::precedes(
                        (#[trigger] at@[j])@,
                        (#[trigger] at@[m])@,
                    ),
                forall|j: int, m: int|
                    0 <= j < at@.len() && i <= m < n && (#[trigger] e[m]).0.0 == t && e[m].0.1.0
                        == case@ ==> <(String, u64)>::precedes(
                        (#[trigger] at@[j])@,
                        e[m].0.1.1,
                    ),
                forall|j: int|
                    0 <= j < i && (#[trigger] e[j]).0.0 == t && e[j].0.1.0 == case@ && in_case(
                        st,
                        t,
                        case@,
                        e[j].0.1.1,
                    ) ==> places(at@).contains(e[j].0.1.1),
            decreases n - i,
        {
            let k = self.by_case.key_at(i);
            let ghost at0 = at@;
            assert(st.by_case.contains_key(e[i as int].0));
            if same(&k.0, tenant) && same(&k.1.0, case) {
                let seen = self.journal.contains(
                    &(tenant.to_owned(), (k.1.1.0.clone(), k.1.1.1)),
                );
                if seen {
                    at.push((k.1.1.0.clone(), k.1.1.1));
                }
            }
            proof {
                String::lemma_irreflexive(t);
                String::lemma_irreflexive(case@);
                assert forall|j: int, m: int|
                    0 <= j < at@.len() && i + 1 <= m < n && (#[trigger] e[m]).0.0 == t
                        && e[m].0.1.0 == case@ implies <(String, u64)>::precedes(
                    (#[trigger] at@[j])@,
                    e[m].0.1.1,
                ) by {
                    assert(<(String, (String, (String, u64)))>::precedes(e[i as int].0, e[m].0));
                    if j < at0.len() {
                        assert(at@[j] == at0[j]);
                    }
                }
                assert forall|j: int|
                    0 <= j < i + 1 && (#[trigger] e[j]).0.0 == t && e[j].0.1.0 == case@ && in_case(
                        st,
                        t,
                        case@,
                        e[j].0.1.1,
                    ) implies places(at@).contains(e[j].0.1.1) by {
                    if j < i {
                        assert(places(at0).contains(e[j].0.1.1));
                        let m = places(at0).index_of(e[j].0.1.1);
                        assert(places(at@)[m] == e[j].0.1.1);
                    } else {
                        assert(places(at@)[at@.len() - 1] == e[j].0.1.1);
                    }
                }
            }
            i = i + 1;
        }
        proof {
            let ps = places(at@);
            assert forall|k: (Seq<char>, u64)| #[trigger] in_case(
                st,
                t,
                case@,
                k,
            ) implies ps.contains(k) || (ps.len() == limit && forall|a: int|
                0 <= a < ps.len() ==> <(String, u64)>::precedes(#[trigger] ps[a], k)) by {
                assert(self.by_case@.contains_key((t, (case@, k))));
                assert(has_key(e, (t, (case@, k))));
                let j = choose|j: int|
                    0 <= j < e.len() && (#[trigger] e[j]).0 == (t, (case@, k));
                if j >= i {
                    assert forall|a: int| 0 <= a < ps.len() implies <(String, u64)>::precedes(
                        #[trigger] ps[a],
                        k,
                    ) by {
                        assert(ps[a] == at@[a]@);
                    }
                }
            }
            assert forall|a: int, b: int| 0 <= a < b < ps.len() implies <(
                String,
                u64,
            )>::precedes(#[trigger] ps[a], #[trigger] ps[b]) by {
                assert(ps[a] == at@[a]@ && ps[b] == at@[b]@);
            }
            assert(case_page(st, t, case@, limit, ps));
        }
        self.read_rows(tenant, &at)
    }

    /// The runs that last ended this way, newest first. A stored row that does
    /// not give a run of this tenant is reported, not skipped.
    pub fn runs_by_outcome(&self, tenant: &str, outcome: &str, limit: usize) -> (r: Result<
        Vec<String>,
        StoreError,
    >)
        ensures
            exists|at: Seq<u64>| #[trigger]
                newest(self@, tenant@, outcome@, limit, at) && match r {
                    Ok(out) => out@.len() == at.len() && forall|i: int|
                        0 <= i < at.len() ==> {
                            let p = self@.by_outcome[(tenant@, (outcome@, #[trigger] at[i]))];
                            sound(tenant@, p) && out@[i]@ == p.run
                        },
                    Err(e) => exists|i: int|
                        {
                            let p = self@.by_outcome[(tenant@, (outcome@, at[i]))];
                            &&& 0 <= i < at.len()
                            &&& !sound(tenant@, #[trigger] self@.by_outcome[(
                                tenant@,
                                (outcome@, at[i]),
                            )])
                            &&& e@ == unsound_refusal(tenant@, p)
                            &&& forall|j: int|
                                0 <= j < i ==> sound(
                                    tenant@,
                                    self@.by_outcome[(tenant@, (outcome@, #[trigger] at[j]))],
                                )
                        },
                },
    {
        let at = self.newest_ordinals(tenant, outcome, limit);
        let mut out: Vec<String> = Vec::new();
        let mut i: usize = 0;
        while i < at.len()
            invariant
                i <= at@.len(),
                newest(self@, tenant@, outcome@, limit, at@),
                out@.len() == i,
                forall|j: int|
                    0 <= j < i ==> {
                        let p = self@.by_outcome[(tenant@, (outcome@, #[trigger] at@[j]))];
                        sound(tenant@, p) && out@[j]@ == p.run
                    },
            decreases at@.len() - i,
        {
            assert(self@.by_outcome.contains_key((tenant@, (outcome@, at@[i as int]))));
            match self.by_outcome.get(&(tenant.to_owned(), (outcome.to_owned(), at[i]))) {
                Some(p) => {
                    if !same(&p.tenant, tenant) {
                        let key = key_of(&p.tenant, &p.run);
                        assert(!sound(
                            tenant@,
                            self@.by_outcome[(tenant@, (outcome@, at@[i as int]))],
                        ));
                        return Err(
                            StoreError::Corrupt {
                                seq: 0,
                                detail: join5(
                                    "run_by_outcome points at '",
                                    &key,
                                    "', which is outside tenant '",
                                    tenant,
                                    "'",
                                ),
                            },
                        );
                    }
                    match &p.fault {
                        Some(fault) => {
                            assert(!sound(
                                tenant@,
                                self@.by_outcome[(tenant@, (outcome@, at@[i as int]))],
                            ));
                            return Err(
                                StoreError::Corrupt {
                                    seq: 0,
                                    detail: join4(
                                        "run_by_outcome holds an unparsable run id '",
                                        &p.run,
                                        "': ",
                                        fault,
                                    ),
                                },
                            );
                        },
                        None => {
                            out.push(p.run.clone());
                        },
                    }
                },
                None => {},
            }
            i = i + 1;
        }
        Ok(out)
    }

    /// The newest ordinals of an outcome, newest first.
    fn newest_ordinals(&self, tenant: &str, outcome: &str, limit: usize) -> (at: Vec<u64>)
        ensures
            newest(self@, tenant@, outcome@, limit, at@),
    {
        let ghost st = self@;
        let n = self.by_outcome.len();
        let ghost e = self.by_outcome.entries();
        let mut at: Vec<u64> = Vec::new();
        let mut i: usize = n;
        while i > 0 && at.len() < limit
            invariant
                i <= n,
                n == e.len(),
                e == self.by_outcome.entries(),
                st == self@,
                at@.len() <= limit,
                in_order::<(String, (String, u64)), PointerModel>(e),
                forall|j: int| 0 <= j < n ==> st.by_outcome.contains_key((#[trigger] e[j]).0),
                forall|j: int|
                    0 <= j < at@.len() ==> st.by_outcome.contains_key(
                        (tenant@, (outcome@, #[trigger] at@[j])),
                    ),
                forall|j: int, m: int|
                    0 <= j < m < at@.len() ==> #[trigger] at@[j] > #[trigger] at@[m],
                forall|j: int, m: int|
                    0 <= j < at@.len() && 0 <= m < i && (#[trigger] e[m]).0.0 == tenant@
                        && e[m].0.1.0 == outcome@ ==> #[trigger] at@[j] > e[m].0.1.1,
                forall|j: int|
                    i <= j < n && (#[trigger] e[j]).0.0 == tenant@ && e[j].0.1.0 == outcome@
                        ==> at@.contains(e[j].0.1.1),
            decreases i,
        {
            i = i - 1;
            let k = self.by_outcome.key_at(i);
            let ghost at0 = at@;
            assert(st.by_outcome.contains_key(e[i as int].0));
            if same(&k.0, tenant) && same(&k.1.0, outcome) {
                at.push(k.1.1);
            }
            proof {
                String::lemma_irreflexive(tenant@);
                String::lemma_irreflexive(outcome@);
                assert forall|j: int, m: int|
                    0 <= j < at@.len() && 0 <= m < i && (#[trigger] e[m]).0.0 == tenant@
                        && e[m].0.1.0 == outcome@ implies #[trigger] at@[j] > e[m].0.1.1 by {
                    assert(<(String, (String, u64))>::precedes(e[m].0, e[i as int].0));
                    if j < at0.len() {
                        assert(at@[j] == at0[j]);
                    }
                }
                assert forall|j: int|
                    i <= j < n && (#[trigger] e[j]).0.0 == tenant@ && e[j].0.1.0
                        == outcome@ implies at@.contains(e[j].0.1.1) by {
                    if j > i {
                        assert(at0.contains(e[j].0.1.1));
                        let m = at0.index_of(e[j].0.1.1);
                        assert(at@[m] == e[j].0.1.1);
                    } else {
                        assert(at@[at@.len() - 1] == e[j].0.1.1);
                    }
                }
            }
        }
        proof {
            assert forall|x: u64| #[trigger]
                st.by_outcome.contains_key((tenant@, (outcome@, x))) implies at@.contains(x) || (
            at@.len() == limit && forall|a: int| 0 <= a < at@.len() ==> #[trigger] at@[a] > x) by {
                assert(self.by_outcome@.contains_key((tenant@, (outcome@, x))));
                assert(has_key(e, (tenant@, (outcome@, x))));
                let j = choose|j: int|
                    0 <= j < e.len() && (#[trigger] e[j]).0 == (tenant@, (outcome@, x));
                assert(e[j].0.0 == tenant@);
            }
        }
        at
    }

    /// The runs active most lately, newest first, strictly below the cursor.
    /// Rows whose id is not a run id are passed over.
    pub fn recent_runs(&self, tenant: &str, after: &Option<(u64, String)>, limit: usize) -> (out:
        Vec<(u64, String)>)
        ensures
            recent(
                self@,
                tenant@,
                match after {
                    Some(c) => Some(c@),
                    None => None,
                },
                limit,
                moments(out@),
            ),
    {
        let ghost st = self@;
        let ghost t = tenant@;
        let ghost cursor: Option<(u64, Seq<char>)> = match after {
            Some(c) => Some(c@),
            None => None,
        };
        let n = self.activity.len();
        let ghost e = self.activity.entries();
        let mut out: Vec<(u64, String)> = Vec::new();
        let mut i: usize = n;
        while i > 0 && out.len() < limit
            invariant
                i <= n,
                n == e.len(),
                e == self.activity.entries(),
                st == self@,
                t == tenant@,
                cursor == (match after {
                    Some(c) => Some(c@),
                    None => None,
                }),
                out@.len() <= limit,
                in_order::<(String, (u64, String)), Option<Seq<char>>>(e),
                forall|j: int|
                    0 <= j < n ==> st.activity.contains_key((#[trigger] e[j]).0)
                        && st.activity[e[j].0] == e[j].1,
                forall|j: int|
                    0 <= j < out@.len() ==> shown(st, t, cursor, (#[trigger] out@[j])@),
                forall|j: int, m: int|
                    0 <= j < m < out@.len() ==> <(u64, String)>::precedes(
                        (#[trigger] out@[m])@,
                        (#[trigger] out@[j])@,
                    ),
                forall|j: int, m: int|
                    0 <= j < out@.len() && 0 <= m < i && (#[trigger] e[m]).0.0 == t ==> <(
                        u64,
                        String,
                    )>::precedes(e[m].0.1, (#[trigger] out@[j])@),
                forall|j: int|
                    i <= j < n && (#[trigger] e[j]).0.0 == t && shown(st, t, cursor, e[j].0.1)
                        ==> moments(out@).contains(e[j].0.1),
            decreases i,
        {
            i = i - 1;
            let k = self.activity.key_at(i);
            let known = self.activity.row_at(i).said.is_none();
            let ghost out0 = out@;
            assert(st.activity.contains_key(e[i as int].0));
            let below = match after {
                Some(c) => match k.1.rank(c) {
                    crate::table::Rank::Before => true,
                    _ => false,
                },
                None => true,
            };
            if same(&k.0, tenant) && known && below {
                out.push(k.1.twin());
            }
            proof {
                String::lemma_irreflexive(t);
                assert forall|j: int, m: int|
                    0 <= j < out@.len() && 0 <= m < i && (#[trigger] e[m]).0.0 == t implies <(
                    u64,
                    String,
                )>::precedes(e[m].0.1, (#[trigger] out@[j])@) by {
                    assert(<(String, (u64, String))>::precedes(e[m].0, e[i as int].0));
                    if j < out0.len() {
                        assert(out@[j] == out0[j]);
                    }
                }
                assert forall|j: int|
                    i <= j < n && (#[trigger] e[j]).0.0 == t && shown(
                        st,
                        t,
                        cursor,
                        e[j].0.1,
                    ) implies moments(out@).contains(e[j].0.1) by {
                    if j > i {
                        assert(moments(out0).contains(e[j].0.1));
                        let m = moments(out0).index_of(e[j].0.1);
                        assert(moments(out@)[m] == e[j].0.1);
                    } else {
                        assert(moments(out@)[out@.len() - 1] == e[j].0.1);
                    }
                }
            }
        }
        proof {
            let ms = moments(out@);
            assert forall|k: (u64, Seq<char>)| #[trigger] shown(
                st,
                t,
                cursor,
                k,
            ) implies ms.contains(k) || (ms.len() == limit && forall|a: int|
                0 <= a < ms.len() ==> <(u64, String)>::precedes(k, #[trigger] ms[a])) by {
                assert(self.activity@.contains_key((t, k)));
                assert(has_key(e, (t, k)));
                let j = choose|j: int| 0 <= j < e.len() && (#[trigger] e[j]).0 == (t, k);
                assert(e[j].0.0 == t);
                if j < i {
                    assert forall|a: int| 0 <= a < ms.len() implies <(u64, String)>::precedes(
                        k,
                        #[trigger] ms[a],
                    ) by {
                        assert(ms[a] == out@[a]@);
                    }
                }
            }
            assert forall|a: int, b: int| 0 <= a < b < ms.len() implies <(
                u64,
                String,
            )>::precedes(#[trigger] ms[b], #[trigger] ms[a]) by {
                assert(ms[a] == out@[a]@ && ms[b] == out@[b]@);
            }
        }
        out
    }

    /// The positions of a tenant's log that sealed runs take, in order.
    fn log_positions(&self, tenant: &str) -> (at: Vec<u64>)
        ensures
            log_order(self@, tenant@, at@),
    {
        let ghost st = self@;
        let ghost t = tenant@;
        let n = self.seal_log.len();
        let ghost e = self.seal_log.entries();
        let mut at: Vec<u64> = Vec::new();
        let mut i: usize = 0;
        while i < n
            invariant
                i <= n,
                n == e.len(),
                e == self.seal_log.entries(),
                st == self@,
                t == tenant@,
                in_order::<(String, u64), Seq<char>>(e),
                forall|j: int|
                    0 <= j < n ==> st.seal_log.contains_key((#[trigger] e[j]).0)
                        && st.seal_log[e[j].0] == e[j].1,
                forall|j: int| 0 <= j < at@.len() ==> logged(st, t, #[trigger] at@[j]),
                forall|j: int, m: int|
                    0 <= j < m < at@.len() ==> #[trigger] at@[j] < #[trigger] at@[m],
                forall|j: int, m: int|
                    0 <= j < at@.len() && i <= m < n && (#[trigger] e[m]).0.0 == t
                        ==> #[trigger] at@[j] < e[m].0.1,
                forall|j: int|
                    0 <= j < i && (#[trigger] e[j]).0.0 == t && logged(st, t, e[j].0.1)
                        ==> at@.contains(e[j].0.1),
            decreases n - i,
        {
            let k = self.seal_log.key_at(i);
            let run = self.seal_log.row_at(i);
            let ghost at0 = at@;
            assert(st.seal_log.contains_key(e[i as int].0));
            if same(&k.0, tenant) && self.seals.contains(&(tenant.to_owned(), run.clone())) {
                at.push(k.1);
            }
            proof {
                String::lemma_irreflexive(t);
                assert forall|j: int, m: int|
                    0 <= j < at@.len() && i + 1 <= m < n && (#[trigger] e[m]).0.0
                        == t implies #[trigger] at@[j] < e[m].0.1 by {
                    assert(<(String, u64)>::precedes(e[i as int].0, e[m].0));
                    if j < at0.len() {
                        assert(at@[j] == at0[j]);
                    }
                }
                assert forall|j: int|
                    0 <= j < i + 1 && (#[trigger] e[j]).0.0 == t && logged(
                        st,
                        t,
                        e[j].0.1,
                    ) implies at@.contains(e[j].0.1) by {
                    if j < i {
                        assert(at0.contains(e[j].0.1));
                        let m = at0.index_of(e[j].0.1);
                        assert(at@[m] == e[j].0.1);
                    } else {
                        assert(at@[at@.len() - 1] == e[j].0.1);
                    }
                }
            }
            i = i + 1;
        }
        proof {
            assert forall|x: u64| #[trigger] logged(st, t, x) implies at@.contains(x) by {
                assert(self.seal_log@.contains_key((t, x)));
                assert(has_key(e, (t, x)));
                let j = choose|j: int| 0 <= j < e.len() && (#[trigger] e[j]).0 == (t, x);
                assert(e[j].0.0 == t);
            }
        }
        at
    }

    /// The chain heads of a tenant's log, in the order in which the runs were
    /// sealed. The tree is built over these, so its positions are dense.
    pub fn log_leaves(&self, tenant: &str) -> (r: Result<Vec<Digest>, StoreError>)
        ensures
            exists|at: Seq<u64>| #[trigger]
                log_order(self@, tenant@, at) && match r {
                    Ok(leaves) => leaves@.len() == at.len() && forall|i: int|
                        0 <= i < at.len() ==> (#[trigger] leaves@[i])@ == leaf(
                            self@,
                            tenant@,
                            at[i],
                        ),
                    Err(e) => e@ == (Refusal::Corrupt {
                        seq: 0,
                        detail: crate::row::not_32_text(),
                    }) && exists|i: int|
                        0 <= i < at.len() && leaf(self@, tenant@, #[trigger] at[i]).len() != 32,
                },
    {
        let at = self.log_positions(tenant);
        let mut leaves: Vec<Digest> = Vec::new();
        let mut i: usize = 0;
        while i < at.len()
            invariant
                i <= at@.len(),
                log_order(self@, tenant@, at@),
                leaves@.len() == i,
                forall|j: int|
                    0 <= j < i ==> (#[trigger] leaves@[j])@ == leaf(self@, tenant@, at@[j]),
            decreases at@.len() - i,
        {
            assert(logged(self@, tenant@, at@[i as int]));
            match self.seal_log.get(&(tenant.to_owned(), at[i])) {
                Some(run) => match self.seals.get(&(tenant.to_owned(), run.clone())) {
                    Some(seal) => {
                        assert(seal@.head == leaf(self@, tenant@, at@[i as int]));
                        match digest(seal.head.as_slice()) {
                            Ok(d) => {
                                leaves.push(d);
                            },
                            Err(why) => {
                                return Err(why);
                            },
                        }
                    },
                    None => {},
                },
                None => {},
            }
            i = i + 1;
        }
        Ok(leaves)
    }

    /// Where a run stands among the leaves of its tenant's log, and its leaf.
    pub fn log_position(&self, tenant: &str, run: &str) -> (r: Result<
        Option<(usize, Digest)>,
        StoreError,
    >)
        ensures
            exists|at: Seq<u64>| #[trigger]
                log_order(self@, tenant@, at) && match r {
                    Ok(Some((rank, d))) => {
                        &&& rank < at.len()
                        &&& self@.seal_log[(tenant@, at[rank as int])] == run@
                        &&& d@ == leaf(self@, tenant@, at[rank as int])
                        &&& forall|i: int|
                            0 <= i < rank ==> self@.seal_log[(tenant@, #[trigger] at[i])] != run@
                    },
                    Ok(None) => forall|i: int|
                        0 <= i < at.len() ==> self@.seal_log[(tenant@, #[trigger] at[i])] != run@,
                    Err(e) => e@ == (Refusal::Corrupt {
                        seq: 0,
                        detail: crate::row::not_32_text(),
                    }) && exists|i: int|
                        0 <= i < at.len() && self@.seal_log[(tenant@, #[trigger] at[i])] == run@
                            && leaf(self@, tenant@, at[i]).len() != 32,
                },
    {
        let at = self.log_positions(tenant);
        let mut i: usize = 0;
        while i < at.len()
            invariant
                i <= at@.len(),
                log_order(self@, tenant@, at@),
                forall|j: int|
                    0 <= j < i ==> self@.seal_log[(tenant@, #[trigger] at@[j])] != run@,
            decreases at@.len() - i,
        {
            assert(logged(self@, tenant@, at@[i as int]));
            match self.seal_log.get(&(tenant.to_owned(), at[i])) {
                Some(found) => {
                    if same(found, run) {
                        match self.seals.get(&(tenant.to_owned(), run.to_owned())) {
                            Some(seal) => {
                                return match digest(seal.head.as_slice()) {
                                    Ok(d) => Ok(Some((i, d))),
                                    Err(why) => Err(why),
                                };
                            },
                            None => {},
                        }
                    }
                },
                None => {},
            }
            i = i + 1;
        }
        Ok(None)
    }

    /// Records an operator's request to stop a run. The first one to ask stays
    /// on the record; no epoch is needed.
    pub fn request_cancel(&mut self, tenant: &str, run: &str, actor: &str, reason: &str, now: u64)
        -> (first: bool)
        ensures
            first == (cancel_of(old(self)@, (tenant@, run@)) is None),
            indexes_agree(old(self)@) ==> indexes_agree(final(self)@),
            chains_agree(old(self)@) ==> chains_agree(final(self)@),
            final(self)@ == cancel_asked(
                old(self)@,
                (tenant@, run@),
                CancelModel { actor: actor@, reason: reason@, requested_at: now },
            ),
    {
        let name = (tenant.to_owned(), run.to_owned());
        if self.cancels.contains(&name) {
            return false;
        }
        let ghost before = self@;
        self.cancels.insert(
            name,
            Cancellation {
                actor: actor.to_owned(),
                reason: reason.to_owned(),
                requested_at: now,
            },
        );
        proof {
            if indexes_agree(before) {
                lemma_indexes_carry_over(before, self@);
            }
            if chains_agree(before) {
                lemma_chains_carry_over(before, self@);
            }
        }
        true
    }

    /// The request to stop a run, if there is one.
    pub fn cancellation(&self, tenant: &str, run: &str) -> (r: Option<Cancellation>)
        ensures
            cancel_of(self@, (tenant@, run@)) == match r {
                Some(c) => Some(c@),
                None => None,
            },
    {
        match self.cancels.get(&(tenant.to_owned(), run.to_owned())) {
            Some(c) => Some(
                Cancellation {
                    actor: c.actor.clone(),
                    reason: c.reason.clone(),
                    requested_at: c.requested_at,
                },
            ),
            None => None,
        }
    }

    /// Replaces the body of a stored record and leaves its hash, as an edit
    /// behind the journal's back would. For tests that prove such an edit is
    /// detected.
    pub fn tamper_for_test(&mut self, tenant: &str, run: &str, seq: u64, body: Vec<u8>) -> (r:
        Result<(), StoreError>)
        ensures
            indexes_agree(old(self)@) ==> indexes_agree(final(self)@),
            ({
                let k = (tenant@, (run@, seq));
                if !old(self)@.journal.contains_key(k) {
                    r is Ok && final(self)@ == old(self)@
                } else {
                    match decoded(old(self)@.journal[k]) {
                        Err(why) => r matches Err(e) && e@ == why && final(self)@ == old(self)@,
                        Ok(row) => r is Ok && final(self)@ == (JournalState {
                            journal: old(self)@.journal.insert(
                                k,
                                encoded(RowModel { body: body@, ..row }),
                            ),
                            ..old(self)@
                        }),
                    }
                }
            }),
    {
        let k = (tenant.to_owned(), (run.to_owned(), seq));
        let row = match self.journal.get(&k) {
            Some(bytes) => match Row::decode(bytes.as_slice()) {
                Ok(row) => row,
                Err(why) => {
                    return Err(why);
                },
            },
            None => {
                return Ok(());
            },
        };
        let ghost was = row@;
        let mut row = row;
        row.body = body;
        assert(row@ =~= (RowModel { body: body@, ..was }));
        let ghost before = self@;
        self.journal.insert(k, row.encode());
        proof {
            if indexes_agree(before) {
                lemma_indexes_carry_over(before, self@);
            }
        }
        Ok(())
    }

    /// Removes a run's records and its seal. Its log position keeps its gap: a
    /// freed position is never handed to another run. For tests that prove such
    /// a removal is detected.
    pub fn delete_run_for_test(&mut self, tenant: &str, run: &str)
        ensures
            final(self)@ == (JournalState {
                journal: Map::new(
                    |k: Position|
                        old(self)@.journal.contains_key(k) && !(k.0 == tenant@ && k.1.0 == run@),
                    |k: Position| old(self)@.journal[k],
                ),
                seals: old(self)@.seals.remove((tenant@, run@)),
                ..old(self)@
            }),
    {
        self.journal.drop_where(&OfRun { tenant, run });
        let _ = self.seals.remove(&(tenant.to_owned(), run.to_owned()));
        assert(self@.journal =~= Map::new(
            |k: Position|
                old(self)@.journal.contains_key(k) && !(k.0 == tenant@ && k.1.0 == run@),
            |k: Position| old(self)@.journal[k],
        ));
    }
}

// ── Checking tables that come from outside ──────────────────────────────────

/// Whether a conclusion's place gives the run that concluded there.
spec fn place_right(st: JournalState) -> spec_fn(
    ((Seq<char>, (Seq<char>, u64)), PointerModel),
) -> bool {
    |e: ((Seq<char>, (Seq<char>, u64)), PointerModel)|
        {
            &&& e.1.tenant == e.0.0
            &&& e.1.fault is None
            &&& st.outcomes.contains_key((e.0.0, e.1.run))
            &&& st.outcomes[(e.0.0, e.1.run)] == (OutcomeModel {
                outcome: e.0.1.0,
                ordinal: e.0.1.1,
            })
        }
}

/// Whether a run stands in the place of its last conclusion.
spec fn outcome_right(st: JournalState) -> spec_fn((RunName, OutcomeModel)) -> bool {
    |e: (RunName, OutcomeModel)|
        {
            let k = (e.0.0, (e.1.outcome, e.1.ordinal));
            &&& st.by_outcome.contains_key(k)
            &&& st.by_outcome[k].run == e.0.1
            &&& e.1.ordinal < upcoming(st.next_conclusion, e.0.0)
        }
}

/// Whether an activity row is that of the run's last append.
spec fn active_right(st: JournalState) -> spec_fn(
    ((Seq<char>, (u64, Seq<char>)), Option<Seq<char>>),
) -> bool {
    |e: ((Seq<char>, (u64, Seq<char>)), Option<Seq<char>>)|
        st.last_activity.contains_key((e.0.0, e.0.1.1)) && st.last_activity[(e.0.0, e.0.1.1)]
            == e.0.1.0
}

/// Whether a run's last append has its activity row.
spec fn last_right(st: JournalState) -> spec_fn((RunName, u64)) -> bool {
    |e: (RunName, u64)| st.activity.contains_key((e.0.0, (e.1, e.0.1)))
}

/// Whether a log row gives a run that is sealed, below the next position.
spec fn log_right(st: JournalState) -> spec_fn(((Seq<char>, u64), Seq<char>)) -> bool {
    |e: ((Seq<char>, u64), Seq<char>)|
        e.0.1 < upcoming(st.next_log_index, e.0.0) && st.seals.contains_key((e.0.0, e.1))
}

/// Whether a sealed run has a place in the log.
spec fn seal_right(places: Map<RunName, u64>) -> spec_fn((RunName, SealModel)) -> bool {
    |e: (RunName, SealModel)| places.contains_key(e.0)
}

/// Whether a case's history points at a record.
spec fn listed_right(st: JournalState) -> spec_fn(
    ((Seq<char>, (Seq<char>, (Seq<char>, u64))), ()),
) -> bool {
    |e: ((Seq<char>, (Seq<char>, (Seq<char>, u64))), ())|
        st.journal.contains_key((e.0.0, e.0.1.1))
}

/// Whether the start of an effect points at a record.
spec fn start_right(st: JournalState) -> spec_fn(
    ((Seq<char>, (Seq<char>, Seq<char>)), u64),
) -> bool {
    |e: ((Seq<char>, (Seq<char>, Seq<char>)), u64)|
        st.journal.contains_key((e.0.0, (e.0.1.0, e.1)))
}

/// The rows that are as they should be.
struct Right<'a> {
    book: &'a Journal,
}

/// The runs that have a place in the log.
struct Placed<'a> {
    places: &'a Table<(String, String), u64>,
}

/// The next number that a counter hands out.
fn next_of(counters: &Table<String, u64>, tenant: &String) -> (n: u64)
    ensures
        n == upcoming(counters@, tenant@),
{
    match counters.get(tenant) {
        Some(n) => *n,
        None => 0,
    }
}

impl<'a> Pick<(String, (String, u64)), Pointer> for Right<'a> {
    closed spec fn picks(&self, k: (Seq<char>, (Seq<char>, u64)), r: PointerModel) -> bool {
        place_right(self.book@)((k, r))
    }

    fn test(&self, k: &(String, (String, u64)), r: &Pointer) -> (b: bool) {
        if !same(&r.tenant, &k.0) || r.fault.is_some() {
            return false;
        }
        match self.book.outcomes.get(&(k.0.clone(), r.run.clone())) {
            Some(row) => same(&row.outcome, &k.1.0) && row.ordinal == k.1.1,
            None => false,
        }
    }
}

impl<'a> Pick<(String, String), OutcomeRow> for Right<'a> {
    closed spec fn picks(&self, k: RunName, r: OutcomeModel) -> bool {
        outcome_right(self.book@)((k, r))
    }

    fn test(&self, k: &(String, String), r: &OutcomeRow) -> (b: bool) {
        match self.book.by_outcome.get(&(k.0.clone(), (r.outcome.clone(), r.ordinal))) {
            Some(p) => same(&p.run, &k.1) && r.ordinal < next_of(&self.book.next_conclusion, &k.0),
            None => false,
        }
    }
}

impl<'a> Pick<(String, (u64, String)), Fault> for Right<'a> {
    closed spec fn picks(&self, k: (Seq<char>, (u64, Seq<char>)), r: Option<Seq<char>>) -> bool {
        active_right(self.book@)((k, r))
    }

    fn test(&self, k: &(String, (u64, String)), r: &Fault) -> (b: bool) {
        match self.book.last_activity.get(&(k.0.clone(), k.1.1.clone())) {
            Some(at) => *at == k.1.0,
            None => false,
        }
    }
}

impl<'a> Pick<(String, String), u64> for Right<'a> {
    closed spec fn picks(&self, k: RunName, r: u64) -> bool {
        last_right(self.book@)((k, r))
    }

    fn test(&self, k: &(String, String), r: &u64) -> (b: bool) {
        self.book.activity.contains(&(k.0.clone(), (*r, k.1.clone())))
    }
}

impl<'a> Pick<(String, u64), String> for Right<'a> {
    closed spec fn picks(&self, k: (Seq<char>, u64), r: Seq<char>) -> bool {
        log_right(self.book@)((k, r))
    }

    fn test(&self, k: &(String, u64), r: &String) -> (b: bool) {
        k.1 < next_of(&self.book.next_log_index, &k.0) && self.book.seals.contains(
            &(k.0.clone(), r.clone()),
        )
    }
}

impl<'a> Pick<(String, (String, (String, u64))), ()> for Right<'a> {
    closed spec fn picks(&self, k: (Seq<char>, (Seq<char>, (Seq<char>, u64))), r: ()) -> bool {
        listed_right(self.book@)((k, r))
    }

    fn test(&self, k: &(String, (String, (String, u64))), r: &()) -> (b: bool) {
        self.book.journal.contains(&(k.0.clone(), (k.1.1.0.clone(), k.1.1.1)))
    }
}

impl<'a> Pick<(String, (String, String)), u64> for Right<'a> {
    closed spec fn picks(&self, k: (Seq<char>, (Seq<char>, Seq<char>)), r: u64) -> bool {
        start_right(self.book@)((k, r))
    }

    fn test(&self, k: &(String, (String, String)), r: &u64) -> (b: bool) {
        self.book.journal.contains(&(k.0.clone(), (k.1.0.clone(), *r)))
    }
}

impl<'a> Pick<(String, String), SealRow> for Placed<'a> {
    closed spec fn picks(&self, k: RunName, r: SealModel) -> bool {
        seal_right(self.places@)((k, r))
    }

    fn test(&self, k: &(String, String), r: &SealRow) -> (b: bool) {
        self.places.contains(&(k.0.clone(), k.1.clone()))
    }
}

proof fn lemma_indexes_checked(st: JournalState)
    ensures
        outcomes_agree(st) <==> every(st.by_outcome, place_right(st)) && every(
            st.outcomes,
            outcome_right(st),
        ),
        activity_agrees(st) <==> every(st.activity, active_right(st)) && every(
            st.last_activity,
            last_right(st),
        ),
        pointers_agree(st) <==> every(st.by_case, listed_right(st)) && every(
            st.once,
            start_right(st),
        ),
{
    assert(forall|k: (Seq<char>, (Seq<char>, (Seq<char>, u64)))|
        #[trigger] st.by_case.contains_key(k) == st.by_case.dom().contains(k));
    assert(forall|k: (Seq<char>, (Seq<char>, (Seq<char>, u64)))|
        st.by_case.contains_key(k) == #[trigger] st.by_case.dom().contains(k));
    assert(forall|k: (Seq<char>, (Seq<char>, Seq<char>))|
        #[trigger] st.once.contains_key(k) == st.once.dom().contains(k));
    assert(forall|k: (Seq<char>, (Seq<char>, Seq<char>))|
        st.once.contains_key(k) == #[trigger] st.once.dom().contains(k));
    assert(forall|k: (Seq<char>, (Seq<char>, u64))|
        #[trigger] st.by_outcome.contains_key(k) == st.by_outcome.dom().contains(k));
    assert(forall|k: (Seq<char>, (Seq<char>, u64))|
        st.by_outcome.contains_key(k) == #[trigger] st.by_outcome.dom().contains(k));
    assert(forall|k: RunName|
        #[trigger] st.outcomes.contains_key(k) == st.outcomes.dom().contains(k));
    assert(forall|k: RunName|
        st.outcomes.contains_key(k) == #[trigger] st.outcomes.dom().contains(k));
    assert(forall|k: (Seq<char>, (u64, Seq<char>))|
        #[trigger] st.activity.contains_key(k) == st.activity.dom().contains(k));
    assert(forall|k: (Seq<char>, (u64, Seq<char>))|
        st.activity.contains_key(k) == #[trigger] st.activity.dom().contains(k));
    assert(forall|k: RunName|
        #[trigger] st.last_activity.contains_key(k) == st.last_activity.dom().contains(k));
    assert(forall|k: RunName|
        st.last_activity.contains_key(k) == #[trigger] st.last_activity.dom().contains(k));
}

/// Whether these are the places of the runs in the log, each run having one.
spec fn log_places(st: JournalState, places: Map<RunName, u64>) -> bool {
    &&& forall|k: (Seq<char>, u64)| #[trigger]
        st.seal_log.contains_key(k) ==> places.contains_key((k.0, st.seal_log[k])) && places[(
            k.0,
            st.seal_log[k],
        )] == k.1
    &&& forall|name: RunName| #[trigger]
        places.contains_key(name) ==> st.seal_log.contains_key((name.0, places[name]))
            && st.seal_log[(name.0, places[name])] == name.1
}

proof fn lemma_log_checked(st: JournalState, places: Map<RunName, u64>)
    requires
        log_places(st, places),
    ensures
        log_agrees(st) <==> every(st.seal_log, log_right(st)) && every(
            st.seals,
            seal_right(places),
        ),
{
    if log_agrees(st) {
        assert forall|k: (Seq<char>, u64)| #[trigger]
            st.seal_log.dom().contains(k) implies log_right(st)((k, st.seal_log[k])) by {
            assert(st.seal_log.contains_key(k));
        }
        assert forall|name: RunName| #[trigger] st.seals.dom().contains(name) implies seal_right(
            places,
        )((name, st.seals[name])) by {
            assert(st.seals.contains_key(name));
            let i = choose|i: u64| #[trigger]
                st.seal_log.contains_key((name.0, i)) && st.seal_log[(name.0, i)] == name.1;
            assert(st.seal_log.contains_key((name.0, i)));
        }
    }
    if every(st.seal_log, log_right(st)) && every(st.seals, seal_right(places)) {
        assert forall|k: (Seq<char>, u64)| #[trigger] st.seal_log.contains_key(k) implies k.1
            < upcoming(st.next_log_index, k.0) && st.seals.contains_key((k.0, st.seal_log[k])) by {
            assert(st.seal_log.dom().contains(k));
        }
        assert forall|name: RunName| #[trigger] st.seals.contains_key(name) implies exists|i: u64|
            #[trigger]
            st.seal_log.contains_key((name.0, i)) && st.seal_log[(name.0, i)] == name.1 by {
            assert(st.seals.dom().contains(name));
            assert(places.contains_key(name));
            assert(st.seal_log.contains_key((name.0, places[name])));
        }
    }
}

impl Journal {
    /// Where each run stands in the log, if none stands there twice.
    fn places_in_log(&self) -> (r: Option<Table<(String, String), u64>>)
        ensures
            match r {
                Some(places) => log_places(self@, places@),
                None => !log_agrees(self@),
            },
    {
        let ghost st = self@;
        let n = self.seal_log.len();
        let ghost e = self.seal_log.entries();
        let mut places: Table<(String, String), u64> = Table::new();
        let mut i: usize = 0;
        while i < n
            invariant
                i <= n,
                n == e.len(),
                e == self.seal_log.entries(),
                st == self@,
                in_order::<(String, u64), Seq<char>>(e),
                forall|j: int|
                    0 <= j < n ==> st.seal_log.contains_key((#[trigger] e[j]).0)
                        && st.seal_log[e[j].0] == e[j].1,
                forall|j: int|
                    0 <= j < i ==> places@.contains_key(((#[trigger] e[j]).0.0, e[j].1))
                        && places@[(e[j].0.0, e[j].1)] == e[j].0.1,
                forall|name: RunName| #[trigger]
                    places@.contains_key(name) ==> st.seal_log.contains_key(
                        (name.0, places@[name]),
                    ) && st.seal_log[(name.0, places@[name])] == name.1 && exists|j: int|
                        0 <= j < i && (#[trigger] e[j]).0 == (name.0, places@[name]),
            decreases n - i,
        {
            let k = self.seal_log.key_at(i);
            let run = self.seal_log.row_at(i);
            let name = (k.0.clone(), run.clone());
            assert(st.seal_log.contains_key(e[i as int].0));
            if places.contains(&name) {
                proof {
                    let j = choose|j: int|
                        0 <= j < i && (#[trigger] e[j]).0 == (name@.0, places@[name@]);
                    assert(<(String, u64)>::precedes(e[j].0, e[i as int].0));
                    <(String, u64)>::lemma_irreflexive(e[j].0);
                    let a = e[j].0;
                    let b = e[i as int].0;
                    assert(st.seal_log.contains_key(a) && st.seal_log.contains_key(b));
                    assert(a.0 == b.0 && st.seal_log[a] == st.seal_log[b] && a != b);
                }
                return None;
            }
            let at: u64 = k.1;
            let ghost before = places@;
            places.insert(name, at);
            proof {
                assert forall|nm: RunName| #[trigger]
                    places@.contains_key(nm) implies st.seal_log.contains_key((nm.0, places@[nm]))
                    && st.seal_log[(nm.0, places@[nm])] == nm.1 && exists|j: int|
                    0 <= j < i + 1 && (#[trigger] e[j]).0 == (nm.0, places@[nm]) by {
                    if nm == name@ {
                        assert(e[i as int].0 == (nm.0, places@[nm]));
                    } else {
                        assert(before.contains_key(nm));
                        let j = choose|j: int|
                            0 <= j < i && (#[trigger] e[j]).0 == (nm.0, before[nm]);
                        assert(e[j].0 == (nm.0, places@[nm]));
                    }
                }
            }
            i = i + 1;
        }
        proof {
            assert forall|k: (Seq<char>, u64)| #[trigger]
                st.seal_log.contains_key(k) implies places@.contains_key((k.0, st.seal_log[k]))
                && places@[(k.0, st.seal_log[k])] == k.1 by {
                assert(self.seal_log@.contains_key(k));
                assert(has_key(e, k));
                let j = choose|j: int| 0 <= j < e.len() && (#[trigger] e[j]).0 == k;
                assert(places@.contains_key((e[j].0.0, e[j].1)));
            }
        }
        Some(places)
    }

    /// Whether the indexes agree with what they derive from. Tables that were
    /// read from outside are checked before anything is asked of them.
    pub fn check(&self) -> (b: bool)
        ensures
            b == indexes_agree(self@),
    {
        let ghost st = self@;
        let right = Right { book: self };
        proof {
            lemma_indexes_checked(st);
        }
        let a = self.by_outcome.all(&right, Ghost(place_right(st)));
        let b = self.outcomes.all(&right, Ghost(outcome_right(st)));
        let c = self.activity.all(&right, Ghost(active_right(st)));
        let d = self.last_activity.all(&right, Ghost(last_right(st)));
        let p = self.by_case.all(&right, Ghost(listed_right(st)));
        let q = self.once.all(&right, Ghost(start_right(st)));
        if !(a && b && c && d && p && q) {
            return false;
        }
        match self.places_in_log() {
            None => false,
            Some(places) => {
                proof {
                    lemma_log_checked(st, places@);
                }
                let f = self.seal_log.all(&right, Ghost(log_right(st)));
                let g = self.seals.all(&Placed { places: &places }, Ghost(seal_right(places@)));
                f && g
            },
        }
    }
}

// ── Checking chains ─────────────────────────────────────────────────────────

/// Whether the record at a place of a walk follows the one before it: the first
/// of its run follows nothing, and every other the hash of the one before.
spec fn follows(e: Seq<(Position, Seq<u8>)>, i: int) -> bool {
    &&& decoded(e[i].1) is Ok
    &&& if i > 0 && e[i - 1].0.0 == e[i].0.0 && e[i - 1].0.1.0 == e[i].0.1.0 {
        &&& decoded(e[i - 1].1) is Ok
        &&& e[i].0.1.1 == e[i - 1].0.1.1 + 1
        &&& decoded(e[i].1)->Ok_0.prev_hash == decoded(e[i - 1].1)->Ok_0.hash
    } else {
        &&& e[i].0.1.1 == 1
        &&& decoded(e[i].1)->Ok_0.prev_hash == zero_digest()
    }
}

/// What comes between two records of one run is of that run.
proof fn lemma_run_is_a_stretch(e: Seq<(Position, Seq<u8>)>, j: int, m: int, i: int)
    requires
        in_order::<(String, (String, u64)), Seq<u8>>(e),
        0 <= j <= m <= i < e.len(),
        e[j].0.0 == e[i].0.0,
        e[j].0.1.0 == e[i].0.1.0,
    ensures
        e[m].0.0 == e[i].0.0,
        e[m].0.1.0 == e[i].0.1.0,
{
    let t = e[i].0.0;
    let run = e[i].0.1.0;
    if j < m && m < i {
        assert(<(String, (String, u64))>::precedes(e[j].0, e[m].0));
        assert(<(String, (String, u64))>::precedes(e[m].0, e[i].0));
        let a = e[m].0.0;
        let b = e[m].0.1.0;
        if a != t {
            String::lemma_transitive(t, a, t);
            String::lemma_irreflexive(t);
        } else if b != run {
            String::lemma_irreflexive(t);
            String::lemma_transitive(run, b, run);
            String::lemma_irreflexive(run);
        }
    }
}

/// Earlier records of a run have smaller positions.
proof fn lemma_run_rises(e: Seq<(Position, Seq<u8>)>, j: int, i: int)
    requires
        in_order::<(String, (String, u64)), Seq<u8>>(e),
        0 <= j < i < e.len(),
        e[j].0.0 == e[i].0.0,
        e[j].0.1.0 == e[i].0.1.0,
    ensures
        e[j].0.1.1 < e[i].0.1.1,
{
    assert(<(String, (String, u64))>::precedes(e[j].0, e[i].0));
    String::lemma_irreflexive(e[i].0.0);
    String::lemma_irreflexive(e[i].0.1.0);
}

/// Whether a run's positions among the first `n` records of a walk are those
/// from one to `len`.
spec fn counted(e: Seq<(Position, Seq<u8>)>, name: RunName, n: int, len: u64) -> bool {
    &&& forall|j: int|
        0 <= j < n && (#[trigger] e[j]).0.0 == name.0 && e[j].0.1.0 == name.1 ==> 1 <= e[j].0.1.1
            <= len
    &&& forall|s: u64|
        1 <= s <= len ==> exists|j: int|
            0 <= j < n && (#[trigger] e[j]).0 == #[trigger] place(name, s)
}

spec fn place(name: RunName, s: u64) -> Position {
    (name.0, (name.1, s))
}

proof fn lemma_counted(e: Seq<(Position, Seq<u8>)>, name: RunName, n: int) -> (len: u64)
    requires
        in_order::<(String, (String, u64)), Seq<u8>>(e),
        0 <= n <= e.len(),
        forall|i: int| 0 <= i < n ==> #[trigger] follows(e, i),
    ensures
        counted(e, name, n, len),
    decreases n,
{
    if n == 0 {
        0
    } else {
        let i = n - 1;
        let before = lemma_counted(e, name, i);
        if !(e[i].0.0 == name.0 && e[i].0.1.0 == name.1) {
            assert forall|s: u64| 1 <= s <= before implies exists|j: int|
                0 <= j < n && (#[trigger] e[j]).0 == #[trigger] place(name, s) by {
                let j = choose|j: int| 0 <= j < i && (#[trigger] e[j]).0 == place(name, s);
                assert(0 <= j < n && e[j].0 == place(name, s));
            }
            before
        } else {
            let s = e[i].0.1.1;
            assert(follows(e, i));
            assert(before == s - 1) by {
                if before > 0 {
                    let j = choose|j: int| 0 <= j < i && (#[trigger] e[j]).0 == place(name, before);
                    lemma_run_is_a_stretch(e, j, i - 1, i);
                    lemma_run_rises(e, j, i);
                    assert(1 <= e[i - 1].0.1.1 <= before);
                    if j < i - 1 {
                        lemma_run_rises(e, j, i - 1);
                    }
                } else if i > 0 && e[i - 1].0.0 == e[i].0.0 && e[i - 1].0.1.0 == e[i].0.1.0 {
                    assert(1 <= e[i - 1].0.1.1 <= before);
                }
            }
            assert forall|x: u64| 1 <= x <= s implies exists|j: int|
                0 <= j < n && (#[trigger] e[j]).0 == #[trigger] place(name, x) by {
                if x == s {
                    assert(e[i].0 == place(name, x));
                } else {
                    let j = choose|j: int| 0 <= j < i && (#[trigger] e[j]).0 == place(name, x);
                    assert(0 <= j < n && e[j].0 == place(name, x));
                }
            }
            s
        }
    }
}

/// Whether these are the rows of the journal, in order.
spec fn walked(st: JournalState, e: Seq<(Position, Seq<u8>)>) -> bool {
    &&& in_order::<(String, (String, u64)), Seq<u8>>(e)
    &&& forall|i: int|
        0 <= i < e.len() ==> st.journal.contains_key((#[trigger] e[i]).0) && st.journal[e[i].0]
            == e[i].1
    &&& forall|k: Position| #[trigger] st.journal.contains_key(k) ==> has_key(e, k)
}

proof fn lemma_followed_is_chained(st: JournalState, e: Seq<(Position, Seq<u8>)>)
    requires
        walked(st, e),
        forall|i: int| 0 <= i < e.len() ==> #[trigger] follows(e, i),
    ensures
        chains_agree(st),
{
    assert forall|name: RunName| #[trigger] is_chain(st, name) by {
        let len = lemma_counted(e, name, e.len() as int);
        assert forall|s: u64| #[trigger]
            st.journal.contains_key((name.0, (name.1, s))) <==> 1 <= s <= len by {
            let k = (name.0, (name.1, s));
            if st.journal.contains_key(k) {
                assert(has_key(e, k));
                let j = choose|j: int| 0 <= j < e.len() && (#[trigger] e[j]).0 == k;
                assert(e[j].0.0 == name.0 && e[j].0.1.0 == name.1);
            }
            if 1 <= s <= len {
                assert(place(name, s) == k);
                let j = choose|j: int| 0 <= j < e.len() && (#[trigger] e[j]).0 == place(name, s);
                assert(st.journal.contains_key(e[j].0));
            }
        }
        assert forall|s: u64| 1 <= s <= len implies {
            &&& decoded(#[trigger] st.journal[(name.0, (name.1, s))]) is Ok
            &&& decoded(st.journal[(name.0, (name.1, s))])->Ok_0.prev_hash == hash_before(
                st,
                name,
                s,
            )
        } by {
            let k = (name.0, (name.1, s));
            assert(st.journal.contains_key(k));
            assert(has_key(e, k));
            let i = choose|i: int| 0 <= i < e.len() && (#[trigger] e[i]).0 == k;
            assert(follows(e, i));
            if s > 1 {
                let k1 = (name.0, (name.1, (s - 1) as u64));
                assert(st.journal[k1] == e[i - 1].1);
            }
        }
        assert(chained(st, name, len));
    }
}

proof fn lemma_chained_is_followed(st: JournalState, e: Seq<(Position, Seq<u8>)>, i: int)
    requires
        walked(st, e),
        chains_agree(st),
        0 <= i < e.len(),
    ensures
        follows(e, i),
{
    let name = (e[i].0.0, e[i].0.1.0);
    let s = e[i].0.1.1;
    assert(is_chain(st, name));
    let len = choose|len: u64| chained(st, name, len);
    assert(st.journal.contains_key((name.0, (name.1, s))));
    assert(decoded(st.journal[(name.0, (name.1, s))]) is Ok);
    if s > 1 {
        let k = (name.0, (name.1, (s - 1) as u64));
        assert(st.journal.contains_key(k));
        assert(decoded(st.journal[k]) is Ok);
        assert(has_key(e, k));
        let j = choose|j: int| 0 <= j < e.len() && (#[trigger] e[j]).0 == k;
        if j > i {
            lemma_run_rises(e, i, j);
        }
        lemma_run_is_a_stretch(e, j, i - 1, i);
        if j < i - 1 {
            lemma_run_rises(e, j, i - 1);
            lemma_run_rises(e, i - 1, i);
        }
    } else if i > 0 && e[i - 1].0.0 == e[i].0.0 && e[i - 1].0.1.0 == e[i].0.1.0 {
        lemma_run_rises(e, i - 1, i);
        assert(st.journal.contains_key((name.0, (name.1, e[i - 1].0.1.1))));
    }
}

impl Journal {
    /// Whether every run's records are a chain: positions from one on without a
    /// gap, each record following the hash of the one before it. Whether each
    /// hash is that of its record's bytes is for [`attested`].
    pub fn check_chains(&self) -> (b: bool)
        ensures
            b == chains_agree(self@),
    {
        let ghost st = self@;
        let n = self.journal.len();
        let ghost e = self.journal.entries();
        assert(walked(st, e));
        let mut last: Option<Row> = None;
        let mut i: usize = 0;
        while i < n
            invariant
                i <= n,
                n == e.len(),
                e == self.journal.entries(),
                st == self@,
                walked(st, e),
                i == 0 ==> last is None,
                i > 0 ==> (last matches Some(row) && decoded(e[i - 1].1) == Ok::<RowModel, Refusal>(
                    row@,
                )),
                forall|j: int| 0 <= j < i ==> #[trigger] follows(e, j),
            decreases n - i,
        {
            let row = match Row::decode(self.journal.row_at(i).as_slice()) {
                Ok(row) => row,
                Err(_) => {
                    proof {
                        if chains_agree(st) {
                            lemma_chained_is_followed(st, e, i as int);
                        }
                    }
                    return false;
                },
            };
            let k = self.journal.key_at(i);
            let linked = i > 0 && same(&self.journal.key_at(i - 1).0, &k.0) && same(
                &self.journal.key_at(i - 1).1.0,
                &k.1.0,
            );
            let right = match &last {
                Some(before) if linked => {
                    let at: u64 = self.journal.key_at(i - 1).1.1;
                    at < k.1.1 && k.1.1 - at == 1 && row.prev_hash.same(&before.hash)
                },
                _ => k.1.1 == 1 && row.prev_hash.same(&Digest::zero()),
            };
            assert(decoded(e[i as int].1) == Ok::<RowModel, Refusal>(row@));
            assert(linked == (i > 0 && e[i - 1].0.0 == e[i as int].0.0 && e[i - 1].0.1.0
                == e[i as int].0.1.0));
            assert(right == follows(e, i as int));
            if !right {
                proof {
                    if chains_agree(st) {
                        lemma_chained_is_followed(st, e, i as int);
                    }
                }
                return false;
            }
            last = Some(row);
            i = i + 1;
        }
        proof {
            lemma_followed_is_chained(st, e);
        }
        true
    }
}

} // verus!
