//! The store of a plane: one handle over its tables, addressing one tenant.

use vstd::prelude::*;

use crate::authority::{no_authorities, AuthorityBook};
use crate::batches::{no_batches, BatchBook};
use crate::cases::{no_cases, CaseBook};
use crate::error::{Refusal, StoreError};
use crate::events::{no_events, EventBook};
use crate::journal::{
    blank_journal, leaf, lemma_log_order_is_one, log_order, run_key, Journal, JournalState,
    Position,
};
use crate::memory::{nothing_remembered, MemoryBook};
use crate::row::{decoded, encoded, Digest, RowModel};
use crate::text::{copied, dec, decimal, join3, join5, said, same};

verus! {

/// The tenant of a plane that serves only one.
pub const DEFAULT_TENANT: &'static str = "default";

/// The name a plane's log has until it is given another.
pub const DEFAULT_ORIGIN: &'static str = "agentplane";

/// Whose rows a handle addresses, under what name its log is published, and who
/// signs.
#[verifier::ext_equal]
pub struct HandleModel {
    pub origin: Seq<char>,
    pub tenant: Seq<char>,
    pub signer: Option<Seq<char>>,
}

/// A handle on a plane nobody has configured: the default tenant, unsigned.
pub open spec fn plain_handle() -> HandleModel {
    HandleModel { origin: DEFAULT_ORIGIN@, tenant: DEFAULT_TENANT@, signer: None }
}

/// A handle, for a tenant.
pub open spec fn serving(h: HandleModel, tenant: Seq<char>) -> HandleModel {
    HandleModel { tenant, ..h }
}

/// A handle, with its plane's log named.
pub open spec fn named(h: HandleModel, origin: Seq<char>) -> HandleModel {
    HandleModel { origin, ..h }
}

/// A handle that signs.
pub open spec fn signed_by(h: HandleModel, signer: Seq<char>) -> HandleModel {
    HandleModel { signer: Some(signer), ..h }
}

/// Whose rows a handle addresses, under what name its log is published, and who
/// signs.
#[derive(Debug)]
pub struct Handle {
    /// Names the plane's log in every checkpoint.
    pub origin: String,
    /// Whose rows this handle addresses.
    pub tenant: String,
    /// The key that records are signed with, if they are.
    pub signer: Option<String>,
}

impl View for Handle {
    type V = HandleModel;

    open spec fn view(&self) -> HandleModel {
        HandleModel { origin: self.origin@, tenant: self.tenant@, signer: said(self.signer) }
    }
}

impl Handle {
    /// A handle on a plane nobody has configured.
    pub fn plain() -> (h: Handle)
        ensures
            h@ == plain_handle(),
    {
        Handle { origin: DEFAULT_ORIGIN.to_owned(), tenant: DEFAULT_TENANT.to_owned(), signer: None }
    }

    /// The name this tenant's log is published under. Composed when it is
    /// read, so the order in which the handle was built does not matter.
    pub fn log_origin(&self) -> (s: String)
        ensures
            s@ == log_name(self@.origin, self@.tenant),
    {
        if same(&self.tenant, DEFAULT_TENANT) {
            self.origin.clone()
        } else {
            join3(&self.origin, "/", &self.tenant)
        }
    }
}

/// A single-node store.
///
/// The tenant is part of every key rather than a filter applied after reading:
/// a handle for one tenant cannot name another tenant's run.
pub struct RedbStore {
    pub handle: Handle,
    pub journal: Journal,
    pub cases: CaseBook,
    pub events: EventBook,
    pub batches: BatchBook,
    pub authority: AuthorityBook,
    pub memory: MemoryBook,
}

/// Whether two stores hold the same tables.
pub open spec fn same_tables(a: RedbStore, b: RedbStore) -> bool {
    &&& a.journal == b.journal
    &&& a.cases == b.cases
    &&& a.events == b.events
    &&& a.batches == b.batches
    &&& a.authority == b.authority
    &&& a.memory == b.memory
}

/// What a checkpoint is taken over.
#[derive(Debug)]
pub struct Checkpoint {
    pub origin: String,
    pub size: u64,
    /// The chain heads of the sealed runs, in log order: what the tree's root
    /// is computed from.
    pub leaves: Vec<Digest>,
}

/// Where a run stands in the log.
#[derive(Debug)]
pub struct Inclusion {
    pub index: u64,
    pub size: u64,
    pub seal: Digest,
    /// The leaves that the proof is computed from.
    pub leaves: Vec<Digest>,
}

/// The name a tenant's log is published under: the plane's own for the default
/// tenant, and qualified by the tenant for every other.
pub open spec fn log_name(origin: Seq<char>, tenant: Seq<char>) -> Seq<char> {
    if tenant == DEFAULT_TENANT@ {
        origin
    } else {
        origin + "/"@ + tenant
    }
}

pub open spec fn future_text(old_size: u64, len: nat) -> Seq<char> {
    "a checkpoint of size "@ + decimal(old_size as int) + " is larger than this log ("@ + decimal(
        len as int,
    ) + ") — either it belongs to another plane, or runs were removed"@
}

/// Whether a leaf of the log is damaged, and the refusal says so.
pub open spec fn damaged_leaf(st: JournalState, t: Seq<char>, at: Seq<u64>, e: Refusal) -> bool {
    &&& e == (Refusal::Corrupt { seq: 0, detail: crate::row::not_32_text() })
    &&& exists|i: int| 0 <= i < at.len() && leaf(st, t, #[trigger] at[i]).len() != 32
}

/// Whether these are the leaves of the log.
pub open spec fn leaves_at(
    st: JournalState,
    t: Seq<char>,
    at: Seq<u64>,
    leaves: Seq<Digest>,
) -> bool {
    &&& leaves.len() == at.len()
    &&& forall|i: int| 0 <= i < at.len() ==> (#[trigger] leaves[i])@ == leaf(st, t, at[i])
}

/// Whether a plane with this handle and journal commits to this, or says that a leaf
/// is damaged.
pub open spec fn committed(h: HandleModel, st: JournalState, r: Result<Checkpoint, StoreError>) -> bool {
    exists|at: Seq<u64>| #[trigger]
        log_order(st, h.tenant, at) && match r {
            Ok(c) => {
                &&& c.origin@ == log_name(h.origin, h.tenant)
                &&& c.size == at.len()
                &&& leaves_at(st, h.tenant, at, c.leaves@)
            },
            Err(e) => damaged_leaf(st, h.tenant, at, e@),
        }
}

/// Whether a log is answered for against an older size of it.
pub open spec fn consistent(
    st: JournalState,
    t: Seq<char>,
    old_size: u64,
    r: Result<Vec<Digest>, StoreError>,
) -> bool {
    exists|at: Seq<u64>| #[trigger]
        log_order(st, t, at) && match r {
            Ok(leaves) => old_size <= at.len() && leaves_at(st, t, at, leaves@),
            Err(e) => {
                ||| damaged_leaf(st, t, at, e@)
                ||| old_size > at.len() && e@ == Refusal::Backend(future_text(old_size, at.len()))
                    && forall|i: int|
                    0 <= i < at.len() ==> leaf(st, t, #[trigger] at[i]).len() == 32
            },
        }
}

/// Whether this is where a run stands in a log, or that it stands nowhere.
pub open spec fn included(
    st: JournalState,
    t: Seq<char>,
    run: Seq<char>,
    r: Result<Option<Inclusion>, StoreError>,
) -> bool {
    exists|at: Seq<u64>| #[trigger]
        log_order(st, t, at) && match r {
            Ok(Some(i)) => {
                &&& i.size == at.len()
                &&& i.index < at.len()
                &&& st.seal_log[(t, at[i.index as int])] == run
                &&& i.seal@ == leaf(st, t, at[i.index as int])
                &&& leaves_at(st, t, at, i.leaves@)
                &&& forall|j: int|
                    0 <= j < i.index ==> st.seal_log[(t, #[trigger] at[j])] != run
            },
            Ok(None) => {
                &&& forall|j: int|
                    0 <= j < at.len() ==> st.seal_log[(t, #[trigger] at[j])] != run
                &&& forall|j: int| 0 <= j < at.len() ==> leaf(st, t, #[trigger] at[j]).len() == 32
            },
            Err(e) => damaged_leaf(st, t, at, e@),
        }
}

impl RedbStore {
    /// An ephemeral store, for the default tenant, unsigned.
    pub fn open_in_memory() -> (r: Result<RedbStore, StoreError>)
        ensures
            r matches Ok(s) && {
                &&& s.handle@ == plain_handle()
                &&& s.journal@ == blank_journal()
                &&& s.cases@ == no_cases()
                &&& s.events@ == no_events()
                &&& s.batches@ == no_batches()
                &&& s.authority@ == no_authorities()
                &&& s.memory@ == nothing_remembered()
                &&& s.memory@.wf()
            },
    {
        Ok(
            RedbStore {
                handle: Handle::plain(),
                journal: Journal::new(),
                cases: CaseBook::new(),
                events: EventBook::new(),
                batches: BatchBook::new(),
                authority: AuthorityBook::new(),
                memory: MemoryBook::new(),
            },
        )
    }

    /// A handle addressing one tenant's rows.
    pub fn for_tenant(self, tenant: String) -> (s: RedbStore)
        ensures
            s.handle@ == serving(self.handle@, tenant@),
            same_tables(s, self),
    {
        let mut s = self;
        s.handle.tenant = tenant;
        s
    }

    /// Names the plane's log.
    pub fn origin(self, origin: String) -> (s: RedbStore)
        ensures
            s.handle@ == named(self.handle@, origin@),
            same_tables(s, self),
    {
        let mut s = self;
        s.handle.origin = origin;
        s
    }

    /// Signs records with this key from here on. Off unless asked.
    pub fn signing_as(self, signer: String) -> (s: RedbStore)
        ensures
            s.handle@ == signed_by(self.handle@, signer@),
            same_tables(s, self),
    {
        let mut s = self;
        s.handle.signer = Some(signer);
        s
    }

    /// The tenant this handle addresses.
    pub fn tenant(&self) -> (t: &str)
        ensures
            t@ == self.handle@.tenant,
    {
        self.handle.tenant.as_str()
    }

    /// The key that records are signed with, if they are.
    pub fn signer(&self) -> (s: Option<String>)
        ensures
            said(s) == self.handle@.signer,
    {
        copied(&self.handle.signer)
    }

    /// One file, one writer: this store is not shared between instances.
    pub fn is_shared(&self) -> (b: bool)
        ensures
            !b,
    {
        false
    }

    /// The name this tenant's log is published under.
    pub fn log_origin(&self) -> (s: String)
        ensures
            s@ == log_name(self.handle@.origin, self.handle@.tenant),
    {
        self.handle.log_origin()
    }

    /// The name a run of this tenant is stored under.
    pub fn run_key(&self, run: &str) -> (s: String)
        ensures
            s@ == run_key(self.handle@.tenant, run@),
    {
        crate::journal::key_of(&self.handle.tenant, run)
    }

    /// What the plane commits to now.
    pub fn checkpoint(&self) -> (r: Result<Checkpoint, StoreError>)
        ensures
            committed(self.handle@, self.journal@, r),
    {
        assert(self.handle@.tenant == self.handle.tenant@);
        match self.journal.log_leaves(&self.handle.tenant) {
            Ok(leaves) => Ok(
                Checkpoint { origin: self.log_origin(), size: leaves.len() as u64, leaves },
            ),
            Err(e) => Err(e),
        }
    }

    /// The leaves that a proof of consistency with an older checkpoint is
    /// computed from. A checkpoint from the future is refused, rather than
    /// answered with the empty proof of an unchanged log.
    pub fn consistency_proof(&self, old_size: u64) -> (r: Result<Vec<Digest>, StoreError>)
        ensures
            consistent(self.journal@, self.handle@.tenant, old_size, r),
    {
        assert(self.handle@.tenant == self.handle.tenant@);
        let leaves = match self.journal.log_leaves(&self.handle.tenant) {
            Ok(leaves) => leaves,
            Err(e) => {
                return Err(e);
            },
        };
        let len: u64 = leaves.len() as u64;
        proof {
            let at = choose|at: Seq<u64>| #[trigger]
                log_order(self.journal@, self.handle@.tenant, at) && leaves_at(
                    self.journal@,
                    self.handle@.tenant,
                    at,
                    leaves@,
                );
            assert forall|i: int| 0 <= i < at.len() implies leaf(
                self.journal@,
                self.handle@.tenant,
                #[trigger] at[i],
            ).len() == 32 by {
                assert(leaves@[i]@ == leaf(self.journal@, self.handle@.tenant, at[i]));
            }
        }
        if old_size > len {
            return Err(
                StoreError::Backend(
                    join5(
                        "a checkpoint of size ",
                        &dec(old_size),
                        " is larger than this log (",
                        &dec(len),
                        ") — either it belongs to another plane, or runs were removed",
                    ),
                ),
            );
        }
        Ok(leaves)
    }

    /// Where a run stands in the log, with the leaves that the proof of it is
    /// computed from. A run that is not sealed stands nowhere.
    pub fn inclusion_proof(&self, run: &str) -> (r: Result<Option<Inclusion>, StoreError>)
        ensures
            included(self.journal@, self.handle@.tenant, run@, r),
    {
        let ghost st = self.journal@;
        let ghost t = self.handle@.tenant;
        assert(t == self.handle.tenant@);
        let leaves = match self.journal.log_leaves(&self.handle.tenant) {
            Ok(leaves) => leaves,
            Err(e) => {
                return Err(e);
            },
        };
        let ghost at = choose|at: Seq<u64>| #[trigger]
            log_order(st, t, at) && leaves_at(st, t, at, leaves@);
        assert forall|j: int| 0 <= j < at.len() implies leaf(st, t, #[trigger] at[j]).len() == 32 by {
            assert(leaves@[j]@ == leaf(st, t, at[j]));
        }
        let found = self.journal.log_position(&self.handle.tenant, run);
        proof {
            assert forall|b: Seq<u64>| #[trigger] log_order(st, t, b) implies b == at by {
                lemma_log_order_is_one(st, t, b, at);
            }
        }
        match found {
            Err(e) => Err(e),
            Ok(None) => Ok(None),
            Ok(Some((index, seal))) => Ok(
                Some(Inclusion { index: index as u64, size: leaves.len() as u64, seal, leaves }),
            ),
        }
    }

    /// Replaces the body of a stored record and leaves its hash. For tests that
    /// prove such an edit is detected.
    pub fn tamper_for_test(&mut self, run: &str, seq: u64, body: Vec<u8>) -> (r: Result<
        (),
        StoreError,
    >)
        ensures
            ({
                let before = old(self).journal@;
                let k = (old(self).handle@.tenant, (run@, seq));
                &&& final(self).handle == old(self).handle
                &&& final(self).cases == old(self).cases
                &&& final(self).events == old(self).events
                &&& final(self).batches == old(self).batches
                &&& final(self).authority == old(self).authority
                &&& final(self).memory == old(self).memory
                &&& if !before.journal.contains_key(k) {
                    r is Ok && final(self).journal@ == before
                } else {
                    match decoded(before.journal[k]) {
                        Err(why) => r matches Err(e) && e@ == why && final(self).journal@ == before,
                        Ok(row) => r is Ok && final(self).journal@ == (JournalState {
                            journal: before.journal.insert(
                                k,
                                encoded(RowModel { body: body@, ..row }),
                            ),
                            ..before
                        }),
                    }
                }
            }),
    {
        self.journal.tamper_for_test(&self.handle.tenant, run, seq, body)
    }

    /// Removes a run's records and its seal, and leaves its log position. For
    /// tests that prove such a removal is detected.
    pub fn delete_run_for_test(&mut self, run: &str)
        ensures
            ({
                let before = old(self).journal@;
                let t = old(self).handle@.tenant;
                &&& final(self).handle == old(self).handle
                &&& final(self).cases == old(self).cases
                &&& final(self).events == old(self).events
                &&& final(self).batches == old(self).batches
                &&& final(self).authority == old(self).authority
                &&& final(self).memory == old(self).memory
                &&& final(self).journal@ == (JournalState {
                    journal: Map::new(
                        |k: Position| before.journal.contains_key(k) && !(k.0 == t && k.1.0 == run@),
                        |k: Position| before.journal[k],
                    ),
                    seals: before.seals.remove((t, run@)),
                    ..before
                })
            }),
    {
        self.journal.delete_run_for_test(&self.handle.tenant, run);
    }
}

// ── Rows that carry an operator ─────────────────────────────────────────────

/// Who asked for an act, and on what basis.
#[derive(Debug)]
pub struct Operator {
    pub actor: String,
    pub basis: String,
}

impl View for Operator {
    type V = (Seq<char>, Seq<char>);

    open spec fn view(&self) -> (Seq<char>, Seq<char>) {
        (self.actor@, self.basis@)
    }
}

impl Operator {
    /// A second copy.
    pub fn twin(&self) -> (o: Operator)
        ensures
            o@ == self@,
    {
        Operator { actor: self.actor.clone(), basis: self.basis.clone() }
    }
}

/// A stored operator, given how it was read, or damage that names its table. An
/// act that cannot be attributed is refused rather than served under a guessed
/// name.
pub fn decode_operator(read: Result<Operator, String>, table: &str) -> (r: Result<
    Operator,
    StoreError,
>)
    ensures
        match read {
            Ok(o) => r matches Ok(p) && p@ == o@,
            Err(fault) => r matches Err(e) && e@ == (Refusal::Corrupt {
                seq: 0,
                detail: table@ + " holds an act this build cannot attribute: "@ + fault@,
            }),
        },
{
    match read {
        Ok(o) => Ok(o),
        Err(fault) => Err(
            StoreError::Corrupt {
                seq: 0,
                detail: join3(table, " holds an act this build cannot attribute: ", &fault),
            },
        ),
    }
}

/// What is stored of a halt beside its key.
#[derive(Debug)]
pub struct HaltRow {
    pub reason: String,
    pub by: Operator,
    pub at: i64,
}

/// A halt: what was stopped, why, by whom and when.
#[derive(Debug)]
pub struct Halt {
    pub scope: String,
    pub reason: String,
    pub by: Operator,
    pub at: i64,
}

/// What is stored of a preservation order beside its keys.
#[derive(Debug)]
pub struct HoldRow {
    pub reason: String,
    pub by: Operator,
}

/// A preservation order.
#[derive(Debug)]
pub struct LegalHold {
    pub placed_at: i64,
    pub reason: String,
    pub by: Operator,
}

/// A halt, from its key and its row.
pub fn halt_from_row(scope: String, row: HaltRow) -> (h: Halt)
    ensures
        h.scope@ == scope@,
        h.reason@ == row.reason@,
        h.by@ == row.by@,
        h.at == row.at,
{
    Halt { scope, reason: row.reason, by: row.by, at: row.at }
}

/// What is stored of a preservation order.
pub fn hold_row(h: &LegalHold) -> (row: HoldRow)
    ensures
        row.reason@ == h.reason@,
        row.by@ == h.by@,
{
    HoldRow { reason: h.reason.clone(), by: h.by.twin() }
}

/// A preservation order, from its instant and its row.
pub fn hold_from_row(placed_at: i64, row: HoldRow) -> (h: LegalHold)
    ensures
        h.placed_at == placed_at,
        h.reason@ == row.reason@,
        h.by@ == row.by@,
{
    LegalHold { placed_at, reason: row.reason, by: row.by }
}

// ── Laws ────────────────────────────────────────────────────────────────────

/// The name of a log does not depend on the order in which its handle was
/// built; to name the tenant twice changes nothing; and to name the log after
/// the tenant does not lose the tenant.
pub proof fn law_log_name_is_order_insensitive(h: HandleModel, o: Seq<char>, t: Seq<char>)
    ensures
        serving(named(h, o), t) == named(serving(h, t), o),
        serving(serving(h, t), t) == serving(h, t),
        log_name(named(serving(h, t), o).origin, named(serving(h, t), o).tenant) == log_name(o, t),
{
}

/// Two tenants of one plane publish under two names.
pub proof fn law_log_names_differ(o: Seq<char>, a: Seq<char>, b: Seq<char>)
    requires
        a != b,
    ensures
        log_name(o, a) != log_name(o, b),
{
    reveal_strlit("/");
    let d = DEFAULT_TENANT@;
    if a != d && b != d {
        let x = o + "/"@ + a;
        let y = o + "/"@ + b;
        let n = o.len() + 1;
        assert(x.skip(n as int) =~= a);
        assert(y.skip(n as int) =~= b);
    } else if a == d {
        assert(log_name(o, b).len() > o.len());
    } else {
        assert(log_name(o, a).len() > o.len());
    }
}

/// To configure a handle is to change one thing of it.
pub proof fn law_handle_changes_one_thing(h: HandleModel, x: Seq<char>)
    ensures
        serving(h, x).tenant == x,
        serving(h, x).origin == h.origin,
        serving(h, x).signer == h.signer,
        named(h, x).origin == x,
        named(h, x).tenant == h.tenant,
        named(h, x).signer == h.signer,
        signed_by(h, x).signer == Some(x),
        signed_by(h, x).tenant == h.tenant,
        signed_by(h, x).origin == h.origin,
        plain_handle().signer is None,
        plain_handle().tenant == DEFAULT_TENANT@,
        plain_handle().origin == DEFAULT_ORIGIN@,
{
}

/// A checkpoint commits to every sealed run of its tenant's log and to nothing else:
/// it has one leaf for each, and the leaf is the head that the run was sealed with.
pub proof fn law_checkpoint_commits_to_each_seal(
    h: HandleModel,
    st: JournalState,
    c: Checkpoint,
    index: u64,
    i: int,
)
    requires
        committed(h, st, Ok::<Checkpoint, StoreError>(c)),
    ensures
        c.origin@ == log_name(h.origin, h.tenant),
        c.size == c.leaves@.len(),
        0 <= i < c.leaves@.len() ==> exists|at: u64| #[trigger]
            st.seal_log.contains_key((h.tenant, at)) && st.seals.contains_key(
                (h.tenant, st.seal_log[(h.tenant, at)]),
            ) && st.seals[(h.tenant, st.seal_log[(h.tenant, at)])].head == c.leaves@[i]@,
        st.seal_log.contains_key((h.tenant, index)) && st.seals.contains_key(
            (h.tenant, st.seal_log[(h.tenant, index)]),
        ) ==> exists|j: int|
            0 <= j < c.leaves@.len() && (#[trigger] c.leaves@[j])@ == st.seals[(
                h.tenant,
                st.seal_log[(h.tenant, index)],
            )].head,
{
    let t = h.tenant;
    let at = choose|at: Seq<u64>| #[trigger]
        log_order(st, t, at) && c.size == at.len() && leaves_at(st, t, at, c.leaves@);
    if 0 <= i < c.leaves@.len() {
        assert(crate::journal::logged(st, t, at[i]));
        assert(st.seal_log.contains_key((t, at[i])));
        assert(c.leaves@[i]@ == leaf(st, t, at[i]));
    }
    if st.seal_log.contains_key((t, index)) && st.seals.contains_key(
        (t, st.seal_log[(t, index)]),
    ) {
        assert(crate::journal::logged(st, t, index));
        let j = choose|j: int| 0 <= j < at.len() && at[j] == index;
        assert(c.leaves@[j]@ == leaf(st, t, at[j]));
    }
}

/// A log answers for no size that it has not reached: where it answers, it has as
/// many leaves at least, and where it refuses for that reason, it has fewer sealed
/// runs.
pub proof fn law_future_checkpoint_is_refused(
    st: JournalState,
    t: Seq<char>,
    old_size: u64,
    r: Result<Vec<Digest>, StoreError>,
)
    requires
        consistent(st, t, old_size, r),
    ensures
        r matches Ok(leaves) ==> leaves@.len() >= old_size,
        r matches Err(e) ==> e@ is Corrupt || e@ is Backend,
        r matches Err(e) && e@ is Backend ==> exists|at: Seq<u64>| #[trigger]
            log_order(st, t, at) && at.len() < old_size,
{
}

/// A run that is included was sealed, and its leaf stands where it is said to, among
/// all leaves of the log; a run that is sealed in the log is never said to stand
/// nowhere.
pub proof fn law_inclusion_points_at_the_seal(
    st: JournalState,
    t: Seq<char>,
    run: Seq<char>,
    r: Result<Option<Inclusion>, StoreError>,
    index: u64,
)
    requires
        included(st, t, run, r),
    ensures
        r matches Ok(Some(i)) ==> {
            &&& i.index < i.size
            &&& i.size == i.leaves@.len()
            &&& i.leaves@[i.index as int]@ == i.seal@
            &&& st.seals.contains_key((t, run))
            &&& st.seals[(t, run)].head == i.seal@
        },
        r matches Ok(None) ==> !(st.seal_log.contains_key((t, index)) && st.seal_log[(t, index)]
            == run && st.seals.contains_key((t, run))),
{
    match r {
        Ok(Some(i)) => {
            let at = choose|at: Seq<u64>| #[trigger]
                log_order(st, t, at) && i.size == at.len() && i.index < at.len() && st.seal_log[(
                    t,
                    at[i.index as int],
                )] == run && i.seal@ == leaf(st, t, at[i.index as int]) && leaves_at(
                    st,
                    t,
                    at,
                    i.leaves@,
                );
            assert(crate::journal::logged(st, t, at[i.index as int]));
            assert(i.leaves@[i.index as int]@ == leaf(st, t, at[i.index as int]));
        },
        Ok(None) => {
            let at = choose|at: Seq<u64>| #[trigger]
                log_order(st, t, at) && forall|j: int|
                    0 <= j < at.len() ==> st.seal_log[(t, #[trigger] at[j])] != run;
            if st.seal_log.contains_key((t, index)) && st.seal_log[(t, index)] == run
                && st.seals.contains_key((t, run)) {
                assert(crate::journal::logged(st, t, index));
                let j = choose|j: int| 0 <= j < at.len() && at[j] == index;
                assert(st.seal_log[(t, at[j])] != run);
            }
        },
        Err(_) => {},
    }
}

/// A store that was given another tenant, name or signer holds what it held.
pub proof fn law_tables_stay(a: RedbStore, b: RedbStore)
    requires
        same_tables(a, b),
    ensures
        a.journal@ == b.journal@,
        a.cases@ == b.cases@,
        a.events@ == b.events@,
        a.batches@ == b.batches@,
        a.authority@ == b.authority@,
        a.memory@ == b.memory@,
{
}

/// Only damage keeps a plane from committing: where it does not, a run is sealed with a
/// head that is no digest.
pub proof fn law_only_damage_stops_a_checkpoint(h: HandleModel, st: JournalState, e: StoreError)
    requires
        committed(h, st, Err::<Checkpoint, StoreError>(e)),
    ensures
        e@ is Corrupt,
        exists|at: u64| #[trigger]
            st.seal_log.contains_key((h.tenant, at)) && st.seals.contains_key(
                (h.tenant, st.seal_log[(h.tenant, at)]),
            ) && st.seals[(h.tenant, st.seal_log[(h.tenant, at)])].head.len() != 32,
{
    let t = h.tenant;
    let at = choose|at: Seq<u64>| #[trigger] log_order(st, t, at) && damaged_leaf(st, t, at, e@);
    let i = choose|i: int| 0 <= i < at.len() && leaf(st, t, #[trigger] at[i]).len() != 32;
    assert(crate::journal::logged(st, t, at[i]));
    assert(st.seal_log.contains_key((t, at[i])));
}

/// The leaves of a checkpoint stand in the order in which the runs took their places in
/// the log.
pub proof fn law_leaves_stand_in_log_order(h: HandleModel, st: JournalState, c: Checkpoint) -> (at:
    Seq<u64>)
    requires
        committed(h, st, Ok::<Checkpoint, StoreError>(c)),
    ensures
        at.len() == c.leaves@.len(),
        forall|i: int, j: int| 0 <= i < j < at.len() ==> #[trigger] at[i] < #[trigger] at[j],
        forall|i: int|
            0 <= i < at.len() ==> {
                let run = (h.tenant, st.seal_log[(h.tenant, #[trigger] at[i])]);
                &&& st.seal_log.contains_key((h.tenant, at[i]))
                &&& st.seals.contains_key(run)
                &&& st.seals[run].head == c.leaves@[i]@
            },
{
    let t = h.tenant;
    let at = choose|at: Seq<u64>| #[trigger]
        log_order(st, t, at) && c.size == at.len() && leaves_at(st, t, at, c.leaves@);
    assert forall|i: int| 0 <= i < at.len() implies {
        let run = (t, st.seal_log[(t, #[trigger] at[i])]);
        &&& st.seal_log.contains_key((t, at[i]))
        &&& st.seals.contains_key(run)
        &&& st.seals[run].head == c.leaves@[i]@
    } by {
        assert(crate::journal::logged(st, t, at[i]));
        assert(c.leaves@[i]@ == leaf(st, t, at[i]));
    }
    at
}

} // verus!
