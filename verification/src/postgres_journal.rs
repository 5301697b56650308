//! The journal in a shared database: what it answers where its answer is not the
//! one that a single node's tables give.
//!
//! A refusal names the run itself, and a displaced writer is turned away before
//! anything of its batch is looked at.

use vstd::prelude::*;

use crate::admissions::{keys_after, sealed_admission_refusal, AdmissionBook, AdmissionKey};
use crate::domain::{Fault, IdModel};
use crate::error::{Refusal, StoreError};
use crate::journal::{
    appended, batch_of, claim, expiry, fence_refusal, head_of, holds_lease, moments, prev_of,
    seal_refusal, spans_text, with_activity, with_lease, with_seal, Append, AppendModel, Head,
    HeadModel, Journal, JournalState, Lease, Pointer, PointerModel, Slot, Ttl,
};
use crate::journal_laws::{
    batch_fits, chains_agree, indexes_agree, law_touching_agrees, lemma_chains_carry_over,
};
use crate::row::Digest;
use crate::table::{chosen, page, Key, Pick, Rank};
use crate::text::{join4, join5, same, texts};

verus! {

/// A run, by when it was last active.
pub type Active = (u64, Seq<char>);

/// A refusal that speaks of a run, naming the run itself.
pub open spec fn bare(why: Refusal, run: Seq<char>) -> Refusal {
    match why {
        Refusal::Fenced { held, current, .. } => Refusal::Fenced { run, held, current },
        Refusal::RunSealed { outcome, .. } => Refusal::RunSealed { run, outcome },
        Refusal::LeaseHeld { owner, epoch, remaining_secs, .. } => Refusal::LeaseHeld {
            run,
            owner,
            epoch,
            remaining_secs,
        },
        Refusal::LeaseNotHeld { epoch, .. } => Refusal::LeaseNotHeld { run, epoch },
        other => other,
    }
}

fn name_bare(why: StoreError, run: &str) -> (e: StoreError)
    ensures
        e@ == bare(why@, run@),
{
    match why {
        StoreError::Fenced { run: _, held, current } => StoreError::Fenced {
            run: run.to_owned(),
            held,
            current,
        },
        StoreError::RunSealed { run: _, outcome } => StoreError::RunSealed {
            run: run.to_owned(),
            outcome,
        },
        StoreError::LeaseHeld { run: _, owner, epoch, remaining_secs } => StoreError::LeaseHeld {
            run: run.to_owned(),
            owner,
            epoch,
            remaining_secs,
        },
        StoreError::LeaseNotHeld { run: _, epoch } => StoreError::LeaseNotHeld {
            run: run.to_owned(),
            epoch,
        },
        other => other,
    }
}

/// Why a writer of this epoch may not write to a run, if it may not.
pub open spec fn shared_fence(st: JournalState, t: Seq<char>, run: Seq<char>, epoch: u64) -> Option<
    Refusal,
> {
    match fence_refusal(st, (t, run), epoch) {
        Some(why) => Some(bare(why, run)),
        None => None,
    }
}

/// Turns a displaced writer away.
pub fn fence_shared(journal: &Journal, tenant: &str, run: &str, epoch: u64) -> (r: Result<
    (),
    StoreError,
>)
    ensures
        shared_fence(journal@, tenant@, run@, epoch) == match r {
            Ok(_) => None::<Refusal>,
            Err(e) => Some(e@),
        },
{
    match journal.fence(tenant, run, epoch) {
        Ok(_) => Ok(()),
        Err(e) => Err(name_bare(e, run)),
    }
}

/// Why a batch that was sealed on a head is not let in, if it is not: the fence
/// comes before everything else.
pub open spec fn shared_append_refusal(
    journal: JournalState,
    keys: Map<AdmissionKey, (IdModel, i64)>,
    t: Seq<char>,
    epoch: u64,
    batch: Seq<AppendModel>,
    on: HeadModel,
) -> Option<Refusal> {
    if batch.len() == 0 {
        None
    } else {
        match shared_fence(journal, t, batch[0].run, epoch) {
            Some(why) => Some(why),
            None => match sealed_admission_refusal(journal, keys, t, epoch, batch, on) {
                Some(why) => Some(bare(why, batch[0].run)),
                None => None,
            },
        }
    }
}

/// Appends a batch whose records were sealed on the head of its run and claims
/// the admission key that it carries, or does neither.
pub fn append_shared(
    journal: &mut Journal,
    admissions: &mut AdmissionBook,
    tenant: &str,
    now: u64,
    epoch: u64,
    batch: &Vec<Append>,
    on: &Head,
) -> (r: Result<Vec<Slot>, StoreError>)
    ensures
        indexes_agree(old(journal)@) ==> indexes_agree(final(journal)@),
        chains_agree(old(journal)@) && batch_fits(batch_of(batch@)) ==> chains_agree(
            final(journal)@,
        ),
        match shared_append_refusal(
            old(journal)@,
            old(admissions)@,
            tenant@,
            epoch,
            batch_of(batch@),
            on@,
        ) {
            Some(why) => r matches Err(e) && e@ == why && final(journal)@ == old(journal)@
                && final(admissions)@ == old(admissions)@,
            None => {
                &&& final(journal)@ == appended(old(journal)@, tenant@, now, batch_of(batch@))
                &&& final(admissions)@ == keys_after(
                    old(admissions)@,
                    tenant@,
                    now,
                    batch_of(batch@),
                )
                &&& r matches Ok(slots) && slots@.len() == batch@.len() && forall|i: int|
                    0 <= i < batch@.len() ==> {
                        &&& (#[trigger] slots@[i]).seq == on.seq + i + 1
                        &&& slots@[i].prev_hash@ == prev_of(on@, batch_of(batch@), i)
                    }
            },
        },
{
    if batch.len() == 0 {
        return Ok(Vec::new());
    }
    assert(batch_of(batch@)[0] == batch@[0]@);
    match fence_shared(journal, tenant, &batch[0].run, epoch) {
        Err(e) => {
            return Err(e);
        },
        Ok(_) => {},
    }
    match admissions.append_on(journal, tenant, now, epoch, batch, on) {
        Err(e) => Err(name_bare(e, &batch[0].run)),
        Ok(slots) => Ok(slots),
    }
}

/// Whether a record is the first that is not of this run.
pub open spec fn first_other(batch: Seq<AppendModel>, run: Seq<char>, i: int) -> bool {
    &&& 0 <= i < batch.len()
    &&& batch[i].run != run
    &&& forall|j: int| 0 <= j < i ==> (#[trigger] batch[j]).run == run
}

/// Why what a member of a run's transaction wrote is not let in, if it is not.
/// The member writes for one run; where it gives no record, the run has to be
/// open all the same.
pub open spec fn atomic_refusal(
    journal: JournalState,
    keys: Map<AdmissionKey, (IdModel, i64)>,
    t: Seq<char>,
    run: Seq<char>,
    epoch: u64,
    batch: Seq<AppendModel>,
    on: HeadModel,
) -> Option<Refusal> {
    match shared_fence(journal, t, run, epoch) {
        Some(why) => Some(why),
        None => if exists|i: int| first_other(batch, run, i) {
            let i = choose|i: int| first_other(batch, run, i);
            Some(Refusal::Backend(spans_text(run, batch[i].run)))
        } else if batch.len() > 0 {
            shared_append_refusal(journal, keys, t, epoch, batch, on)
        } else if journal.seals.contains_key((t, run)) {
            Some(Refusal::RunSealed { run, outcome: journal.seals[(t, run)].outcome })
        } else {
            match head_of(journal, (t, run)) {
                Err(why) => Some(why),
                Ok(_) => None,
            }
        },
    }
}

/// The journal after it: the run was active, whatever its member wrote.
pub open spec fn atomically_appended(
    journal: JournalState,
    t: Seq<char>,
    run: Seq<char>,
    now: u64,
    batch: Seq<AppendModel>,
) -> JournalState {
    if batch.len() > 0 {
        appended(journal, t, now, batch)
    } else {
        with_activity(journal, (t, run), now)
    }
}

/// Appends what a member of a run's transaction wrote, sealed on the head of that
/// run. A displaced writer is turned away by [`fence_shared`] before its member
/// runs.
pub fn append_atomic_shared(
    journal: &mut Journal,
    admissions: &mut AdmissionBook,
    tenant: &str,
    run: &str,
    now: u64,
    epoch: u64,
    batch: &Vec<Append>,
    on: &Head,
) -> (r: Result<Vec<Slot>, StoreError>)
    ensures
        indexes_agree(old(journal)@) ==> indexes_agree(final(journal)@),
        chains_agree(old(journal)@) && batch_fits(batch_of(batch@)) ==> chains_agree(
            final(journal)@,
        ),
        match atomic_refusal(
            old(journal)@,
            old(admissions)@,
            tenant@,
            run@,
            epoch,
            batch_of(batch@),
            on@,
        ) {
            Some(why) => r matches Err(e) && e@ == why && final(journal)@ == old(journal)@
                && final(admissions)@ == old(admissions)@,
            None => {
                &&& final(journal)@ == atomically_appended(
                    old(journal)@,
                    tenant@,
                    run@,
                    now,
                    batch_of(batch@),
                )
                &&& final(admissions)@ == keys_after(
                    old(admissions)@,
                    tenant@,
                    now,
                    batch_of(batch@),
                )
                &&& r matches Ok(slots) && slots@.len() == batch@.len() && forall|i: int|
                    0 <= i < batch@.len() ==> {
                        &&& (#[trigger] slots@[i]).seq == on.seq + i + 1
                        &&& slots@[i].prev_hash@ == prev_of(on@, batch_of(batch@), i)
                    }
            },
        },
{
    let ghost b = batch_of(batch@);
    match fence_shared(journal, tenant, run, epoch) {
        Err(e) => {
            return Err(e);
        },
        Ok(_) => {},
    }
    let mut i: usize = 0;
    while i < batch.len()
        invariant
            i <= batch@.len(),
            b == batch_of(batch@),
            shared_fence(journal@, tenant@, run@, epoch) is None,
            forall|j: int| 0 <= j < i ==> (#[trigger] b[j]).run == run@,
            journal@ == old(journal)@,
            admissions@ == old(admissions)@,
        decreases batch@.len() - i,
    {
        assert(b[i as int] == batch@[i as int]@);
        if !same(&batch[i].run, run) {
            proof {
                assert(first_other(b, run@, i as int));
                let j = choose|j: int| first_other(b, run@, j);
                assert(first_other(b, run@, j));
                assert(j == i) by {
                    if j < i {
                        assert(b[j].run == run@);
                    } else if i < j {
                        assert(b[i as int].run == run@);
                    }
                }
            }
            return Err(
                StoreError::Backend(
                    join5(
                        "batch spans runs ",
                        run,
                        " and ",
                        &batch[i].run,
                        " — a batch is one run's atomic unit",
                    ),
                ),
            );
        }
        i = i + 1;
    }
    assert(forall|j: int| !first_other(b, run@, j));
    if batch.len() > 0 {
        return append_shared(journal, admissions, tenant, now, epoch, batch, on);
    }
    if let Some(seal) = journal.seals.get(&(tenant.to_owned(), run.to_owned())) {
        return Err(
            StoreError::RunSealed { run: run.to_owned(), outcome: seal.outcome.clone() },
        );
    }
    match journal.head(tenant, run) {
        Err(e) => {
            return Err(e);
        },
        Ok(_) => {},
    }
    proof {
        if indexes_agree(journal@) {
            law_touching_agrees(journal@, (tenant@, run@), now);
        }
        if chains_agree(journal@) {
            lemma_chains_carry_over(journal@, with_activity(journal@, (tenant@, run@), now));
        }
    }
    journal.touch(tenant, run, now);
    Ok(Vec::new())
}

/// Claims a run.
pub fn acquire_shared(
    journal: &mut Journal,
    tenant: &str,
    run: &str,
    owner: &str,
    now: u64,
    ttl: Ttl,
) -> (r: Result<Lease, StoreError>)
    requires
        ttl.proper(),
    ensures
        indexes_agree(old(journal)@) ==> indexes_agree(final(journal)@),
        chains_agree(old(journal)@) ==> chains_agree(final(journal)@),
        match claim(old(journal)@, (tenant@, run@), now, ttl) {
            Err(why) => r matches Err(e) && e@ == bare(why, run@) && final(journal)@
                == old(journal)@,
            Ok(epoch) => {
                &&& r matches Ok(l) && l.run@ == run@ && l.owner@ == owner@ && l.epoch == epoch
                &&& final(journal)@ == with_lease(
                    old(journal)@,
                    (tenant@, run@),
                    owner@,
                    epoch,
                    (now + ttl.secs) as u64,
                )
            },
        },
{
    match journal.acquire(tenant, run, owner, now, ttl) {
        Ok(lease) => Ok(lease),
        Err(e) => Err(name_bare(e, run)),
    }
}

/// Extends a lease that is still held by exactly this owner in this epoch.
pub fn renew_shared(
    journal: &mut Journal,
    tenant: &str,
    run: &str,
    owner: &str,
    epoch: u64,
    now: u64,
    ttl: Ttl,
) -> (r: Result<Lease, StoreError>)
    requires
        ttl.proper(),
    ensures
        indexes_agree(old(journal)@) ==> indexes_agree(final(journal)@),
        chains_agree(old(journal)@) ==> chains_agree(final(journal)@),
        match expiry(now, ttl) {
            Err(why) => r matches Err(e) && e@ == why && final(journal)@ == old(journal)@,
            Ok(at) => if holds_lease(old(journal)@, (tenant@, run@), owner@, epoch, now) {
                &&& r matches Ok(l) && l.run@ == run@ && l.owner@ == owner@ && l.epoch == epoch
                &&& final(journal)@ == with_lease(
                    old(journal)@,
                    (tenant@, run@),
                    owner@,
                    epoch,
                    at,
                )
            } else {
                r matches Err(e) && e@ == (Refusal::LeaseNotHeld { run: run@, epoch })
                    && final(journal)@ == old(journal)@
            },
        },
{
    match journal.renew(tenant, run, owner, epoch, now, ttl) {
        Ok(lease) => Ok(lease),
        Err(e) => Err(name_bare(e, run)),
    }
}

/// Seals a run: reports the hash its chain ends in, freezes the chain there and
/// enters it in the log.
pub fn seal_shared(
    journal: &mut Journal,
    tenant: &str,
    run: &str,
    epoch: u64,
    outcome: &str,
    now: u64,
) -> (r: Result<Digest, StoreError>)
    ensures
        indexes_agree(old(journal)@) ==> indexes_agree(final(journal)@),
        chains_agree(old(journal)@) ==> chains_agree(final(journal)@),
        match seal_refusal(old(journal)@, (tenant@, run@), epoch) {
            Some(why) => r matches Err(e) && e@ == bare(why, run@) && final(journal)@
                == old(journal)@,
            None => {
                let head = head_of(old(journal)@, (tenant@, run@))->Ok_0;
                &&& r matches Ok(d) && d@ == head.hash
                &&& final(journal)@ == with_seal(
                    old(journal)@,
                    (tenant@, run@),
                    outcome@,
                    head.hash,
                    now,
                )
            },
        },
{
    match journal.seal(tenant, run, epoch, outcome, now) {
        Ok(digest) => Ok(digest),
        Err(e) => Err(name_bare(e, run)),
    }
}

// ── Listings ────────────────────────────────────────────────────────────────

/// A tenant's activity, below the cursor.
pub open spec fn active_below(t: Seq<char>, after: Option<Active>) -> spec_fn(
    ((Seq<char>, Active), Option<Seq<char>>),
) -> bool {
    |e: ((Seq<char>, Active), Option<Seq<char>>)|
        e.0.0 == t && (after matches Some(cursor) ==> <(u64, String)>::precedes(e.0.1, cursor))
}

/// The activity below the cursor, the latest last.
pub open spec fn activity_rows(st: JournalState, t: Seq<char>, after: Option<Active>) -> Seq<
    ((Seq<char>, Active), Option<Seq<char>>),
> {
    chosen::<(String, (u64, String)), Option<Seq<char>>>(st.activity, active_below(t, after))
}

/// How the latest `n` of some activity read, latest first and up to the first
/// whose run id is none.
pub open spec fn shared_recent(rows: Seq<((Seq<char>, Active), Option<Seq<char>>)>, n: int) -> Result<
    Seq<Active>,
    Refusal,
>
    decreases n,
{
    if n <= 0 {
        Ok(Seq::empty())
    } else {
        match shared_recent(rows, n - 1) {
            Err(e) => Err(e),
            Ok(out) => match rows[rows.len() - n].1 {
                Some(fault) => Err(Refusal::Backend(fault)),
                None => Ok(out.push(rows[rows.len() - n].0.1)),
            },
        }
    }
}

proof fn lemma_recent_refused(
    rows: Seq<((Seq<char>, Active), Option<Seq<char>>)>,
    n: int,
    m: int,
)
    requires
        n <= m,
        shared_recent(rows, n) is Err,
    ensures
        shared_recent(rows, m) == shared_recent(rows, n),
    decreases m - n,
{
    if n < m {
        lemma_recent_refused(rows, n, m - 1);
    }
}

struct ActiveBelow<'a> {
    tenant: &'a str,
    after: &'a Option<(u64, String)>,
}

impl<'a> Pick<(String, (u64, String)), Fault> for ActiveBelow<'a> {
    closed spec fn picks(&self, k: (Seq<char>, Active), r: Option<Seq<char>>) -> bool {
        k.0 == self.tenant@ && match self.after {
            Some(c) => <(u64, String)>::precedes(k.1, c@),
            None => true,
        }
    }

    fn test(&self, k: &(String, (u64, String)), r: &Fault) -> (b: bool) {
        same(&k.0, self.tenant) && match self.after {
            Some(c) => match k.1.rank(c) {
                Rank::Before => true,
                _ => false,
            },
            None => true,
        }
    }
}

/// The runs active most lately, below the cursor and no more than `limit` of
/// them. A run id that is none is refused.
pub fn recent_runs_shared(
    journal: &Journal,
    tenant: &str,
    after: &Option<(u64, String)>,
    limit: usize,
) -> (r: Result<Vec<(u64, String)>, StoreError>)
    ensures
        ({
            let rows = activity_rows(
                journal@,
                tenant@,
                match after {
                    Some(c) => Some(c@),
                    None => None,
                },
            );
            shared_recent(rows, page(rows.len(), limit)) == match r {
                Ok(out) => Ok::<Seq<Active>, Refusal>(moments(out@)),
                Err(e) => Err::<Seq<Active>, Refusal>(e@),
            }
        }),
{
    let ghost cursor: Option<Active> = match after {
        Some(c) => Some(c@),
        None => None,
    };
    let ghost f = active_below(tenant@, cursor);
    let ghost rows = activity_rows(journal@, tenant@, cursor);
    let keys = journal.activity.select(&ActiveBelow { tenant, after }, usize::MAX, Ghost(f));
    let mut out: Vec<(u64, String)> = Vec::new();
    assert(moments(out@) =~= Seq::<Active>::empty());
    let mut i: usize = 0;
    while i < keys.len() && i < limit
        invariant
            rows == activity_rows(
                journal@,
                tenant@,
                match after {
                    Some(c) => Some(c@),
                    None => None,
                },
            ),
            keys@.len() == rows.len(),
            i <= page(rows.len(), limit),
            forall|j: int|
                0 <= j < keys@.len() ==> (#[trigger] keys@[j])@ == rows[j].0
                    && journal@.activity.contains_key(rows[j].0) && journal@.activity[rows[j].0]
                    == rows[j].1,
            shared_recent(rows, i as int) == Ok::<Seq<Active>, Refusal>(moments(out@)),
        decreases rows.len() - i,
    {
        let at: usize = keys.len() - 1 - i;
        assert(keys@[at as int]@ == rows[rows.len() - (i + 1)].0);
        match journal.activity.get(&keys[at]) {
            Some(row) => {
                if let Some(fault) = &row.said {
                    proof {
                        lemma_recent_refused(rows, i + 1, page(rows.len(), limit));
                    }
                    return Err(StoreError::Backend(fault.clone()));
                }
            },
            None => {},
        }
        let ghost so_far = moments(out@);
        out.push(keys[at].1.twin());
        assert(moments(out@) =~= so_far.push(rows[rows.len() - (i + 1)].0.1));
        i = i + 1;
    }
    Ok(out)
}

/// A tenant's conclusions of one outcome.
pub open spec fn of_outcome(t: Seq<char>, outcome: Seq<char>) -> spec_fn(
    ((Seq<char>, (Seq<char>, u64)), PointerModel),
) -> bool {
    |e: ((Seq<char>, (Seq<char>, u64)), PointerModel)| e.0.0 == t && e.0.1.0 == outcome
}

/// The conclusions of one outcome, the newest last.
pub open spec fn outcome_rows(st: JournalState, t: Seq<char>, outcome: Seq<char>) -> Seq<
    ((Seq<char>, (Seq<char>, u64)), PointerModel),
> {
    chosen::<(String, (String, u64)), PointerModel>(st.by_outcome, of_outcome(t, outcome))
}

pub open spec fn bad_outcome_run(p: PointerModel, fault: Seq<char>) -> Refusal {
    Refusal::Corrupt {
        seq: 0,
        detail: "run_outcome holds an unparsable run id '"@ + p.run + "': "@ + fault,
    }
}

/// How the newest `n` of some conclusions read, newest first and up to the first
/// whose run id is none.
pub open spec fn shared_concluded(
    rows: Seq<((Seq<char>, (Seq<char>, u64)), PointerModel)>,
    n: int,
) -> Result<Seq<Seq<char>>, Refusal>
    decreases n,
{
    if n <= 0 {
        Ok(Seq::empty())
    } else {
        match shared_concluded(rows, n - 1) {
            Err(e) => Err(e),
            Ok(out) => match rows[rows.len() - n].1.fault {
                Some(fault) => Err(bad_outcome_run(rows[rows.len() - n].1, fault)),
                None => Ok(out.push(rows[rows.len() - n].1.run)),
            },
        }
    }
}

proof fn lemma_concluded_refused(
    rows: Seq<((Seq<char>, (Seq<char>, u64)), PointerModel)>,
    n: int,
    m: int,
)
    requires
        n <= m,
        shared_concluded(rows, n) is Err,
    ensures
        shared_concluded(rows, m) == shared_concluded(rows, n),
    decreases m - n,
{
    if n < m {
        lemma_concluded_refused(rows, n, m - 1);
    }
}

struct OfOutcome<'a> {
    tenant: &'a str,
    outcome: &'a str,
}

impl<'a> Pick<(String, (String, u64)), Pointer> for OfOutcome<'a> {
    closed spec fn picks(&self, k: (Seq<char>, (Seq<char>, u64)), r: PointerModel) -> bool {
        k.0 == self.tenant@ && k.1.0 == self.outcome@
    }

    fn test(&self, k: &(String, (String, u64)), r: &Pointer) -> (b: bool) {
        same(&k.0, self.tenant) && same(&k.1.0, self.outcome)
    }
}

/// The runs that concluded this way, newest first and no more than `limit` of
/// them. A run id that is none is damage.
pub fn runs_by_outcome_shared(journal: &Journal, tenant: &str, outcome: &str, limit: usize) -> (r:
    Result<Vec<String>, StoreError>)
    ensures
        ({
            let rows = outcome_rows(journal@, tenant@, outcome@);
            shared_concluded(rows, page(rows.len(), limit)) == match r {
                Ok(out) => Ok::<Seq<Seq<char>>, Refusal>(texts(out@)),
                Err(e) => Err::<Seq<Seq<char>>, Refusal>(e@),
            }
        }),
{
    let ghost f = of_outcome(tenant@, outcome@);
    let ghost rows = outcome_rows(journal@, tenant@, outcome@);
    let keys = journal.by_outcome.select(&OfOutcome { tenant, outcome }, usize::MAX, Ghost(f));
    let mut out: Vec<String> = Vec::new();
    assert(texts(out@) =~= Seq::<Seq<char>>::empty());
    let mut i: usize = 0;
    while i < keys.len() && i < limit
        invariant
            rows == outcome_rows(journal@, tenant@, outcome@),
            keys@.len() == rows.len(),
            i <= page(rows.len(), limit),
            forall|j: int|
                0 <= j < keys@.len() ==> (#[trigger] keys@[j])@ == rows[j].0
                    && journal@.by_outcome.contains_key(rows[j].0)
                    && journal@.by_outcome[rows[j].0] == rows[j].1,
            shared_concluded(rows, i as int) == Ok::<Seq<Seq<char>>, Refusal>(texts(out@)),
        decreases rows.len() - i,
    {
        let at: usize = keys.len() - 1 - i;
        assert(keys@[at as int]@ == rows[rows.len() - (i + 1)].0);
        match journal.by_outcome.get(&keys[at]) {
            Some(p) => {
                if let Some(fault) = &p.fault {
                    proof {
                        lemma_concluded_refused(rows, i + 1, page(rows.len(), limit));
                    }
                    return Err(
                        StoreError::Corrupt {
                            seq: 0,
                            detail: join4(
                                "run_outcome holds an unparsable run id '",
                                &p.run,
                                "': ",
                                fault,
                            ),
                        },
                    );
                }
                let ghost so_far = texts(out@);
                out.push(p.run.clone());
                assert(texts(out@) =~= so_far.push(rows[rows.len() - (i + 1)].1.run));
            },
            None => {
                return Ok(out);
            },
        }
        i = i + 1;
    }
    Ok(out)
}

// ── Laws ────────────────────────────────────────────────────────────────────

/// Both stores let the same batches in.
pub proof fn law_batches_are_let_in_alike(
    journal: JournalState,
    keys: Map<AdmissionKey, (IdModel, i64)>,
    t: Seq<char>,
    epoch: u64,
    batch: Seq<AppendModel>,
    on: HeadModel,
)
    ensures
        shared_append_refusal(journal, keys, t, epoch, batch, on) is None
            <==> sealed_admission_refusal(journal, keys, t, epoch, batch, on) is None,
{
}

/// A displaced writer is told that it is fenced, whatever its batch holds.
pub proof fn law_fence_comes_first(
    journal: JournalState,
    keys: Map<AdmissionKey, (IdModel, i64)>,
    t: Seq<char>,
    epoch: u64,
    batch: Seq<AppendModel>,
    on: HeadModel,
)
    requires
        batch.len() > 0,
        journal.leases.contains_key((t, batch[0].run)),
        journal.leases[(t, batch[0].run)].epoch != epoch,
    ensures
        shared_append_refusal(journal, keys, t, epoch, batch, on) == Some(
            Refusal::Fenced {
                run: batch[0].run,
                held: epoch,
                current: journal.leases[(t, batch[0].run)].epoch,
            },
        ),
{
}

/// What a member of a transaction gives is of the run that the transaction is
/// for: a record of another run is refused, whichever run comes first.
pub proof fn law_member_writes_for_one_run(
    journal: JournalState,
    keys: Map<AdmissionKey, (IdModel, i64)>,
    t: Seq<char>,
    run: Seq<char>,
    epoch: u64,
    batch: Seq<AppendModel>,
    on: HeadModel,
    i: int,
)
    requires
        0 <= i < batch.len(),
        atomic_refusal(journal, keys, t, run, epoch, batch, on) is None,
    ensures
        batch[i].run == run,
{
    if batch[i].run != run {
        lemma_first_other(batch, run, i);
    }
}

proof fn lemma_first_other(batch: Seq<AppendModel>, run: Seq<char>, i: int)
    requires
        0 <= i < batch.len(),
        batch[i].run != run,
    ensures
        exists|j: int| first_other(batch, run, j),
    decreases i,
{
    if forall|j: int| 0 <= j < i ==> (#[trigger] batch[j]).run == run {
        assert(first_other(batch, run, i));
    } else {
        let j = choose|j: int| 0 <= j < i && (#[trigger] batch[j]).run != run;
        lemma_first_other(batch, run, j);
    }
}

/// A member of a run's transaction that gives no record is let in exactly where it is
/// not displaced and the run is open and whole; the run was active then, and nothing
/// else of the journal changes.
pub proof fn law_member_may_give_nothing(
    journal: JournalState,
    keys: Map<AdmissionKey, (IdModel, i64)>,
    t: Seq<char>,
    run: Seq<char>,
    epoch: u64,
    on: HeadModel,
    now: u64,
)
    ensures
        atomic_refusal(journal, keys, t, run, epoch, Seq::empty(), on) is None <==> {
            &&& journal.leases.contains_key((t, run)) ==> journal.leases[(t, run)].epoch == epoch
            &&& !journal.seals.contains_key((t, run))
            &&& head_of(journal, (t, run)) is Ok
        },
        atomically_appended(journal, t, run, now, Seq::empty()).journal == journal.journal,
        atomically_appended(journal, t, run, now, Seq::empty()).seals == journal.seals,
        atomically_appended(journal, t, run, now, Seq::empty()).leases == journal.leases,
{
    assert(forall|i: int| !first_other(Seq::<AppendModel>::empty(), run, i));
}

proof fn lemma_each_recent(rows: Seq<((Seq<char>, Active), Option<Seq<char>>)>, n: int)
    requires
        0 <= n <= rows.len(),
        shared_recent(rows, n) is Ok,
    ensures
        shared_recent(rows, n)->Ok_0.len() == n,
        forall|i: int|
            0 <= i < n ==> #[trigger] shared_recent(rows, n)->Ok_0[i] == rows[rows.len() - 1
                - i].0.1 && rows[rows.len() - 1 - i].1 is None,
    decreases n,
{
    if n > 0 {
        lemma_each_recent(rows, n - 1);
        let before = shared_recent(rows, n - 1)->Ok_0;
        let after = shared_recent(rows, n)->Ok_0;
        assert forall|i: int| 0 <= i < n implies #[trigger] after[i] == rows[rows.len() - 1
            - i].0.1 && rows[rows.len() - 1 - i].1 is None by {
            if i < n - 1 {
                assert(after[i] == before[i]);
            }
        }
    }
}

/// A page of runs of a shared database has those active most lately below the cursor,
/// the latest first: each is the tenant's, none comes twice, and what is left out for
/// want of room was active earlier.
pub proof fn law_shared_runs_come_latest_first(
    st: JournalState,
    t: Seq<char>,
    after: Option<Active>,
    limit: usize,
    out: Seq<Active>,
    k: Active,
    i: int,
    j: int,
)
    requires
        st.activity.dom().finite(),
        shared_recent(
            activity_rows(st, t, after),
            page(activity_rows(st, t, after).len(), limit),
        ) == Ok::<Seq<Active>, Refusal>(out),
    ensures
        out.len() <= limit,
        out.contains(k) ==> st.activity.contains_key((t, k)) && crate::journal_answers::below(
            after,
            k,
        ),
        0 <= i < j < out.len() ==> out[i].0 > out[j].0 || (out[i].0 == out[j].0
            && crate::table::text_before(out[j].1, out[i].1)),
        st.activity.contains_key((t, k)) && crate::journal_answers::below(after, k)
            && !out.contains(k) ==> out.len() == limit && (0 <= i < limit ==> out[i].0 > k.0 || (
        out[i].0 == k.0 && crate::table::text_before(k.1, out[i].1))),
{
    let f = active_below(t, after);
    let rows = activity_rows(st, t, after);
    let n = page(rows.len(), limit);
    crate::table::lemma_chosen::<(String, (u64, String)), Option<Seq<char>>>(st.activity, f);
    lemma_each_recent(rows, n);
    <String as Key>::lemma_irreflexive(t);
    let a = rows.len() - 1 - i;
    if 0 <= i < out.len() {
        assert(f(rows[a]) && st.activity.contains_key(rows[a].0));
        assert(out[i] == rows[a].0.1);
    }
    if out.contains(k) {
        let p = choose|p: int| 0 <= p < out.len() && out[p] == k;
        let b = rows.len() - 1 - p;
        assert(f(rows[b]) && st.activity.contains_key(rows[b].0));
        assert(rows[b].0 == (t, k));
    }
    if 0 <= i < j < out.len() {
        let b = rows.len() - 1 - j;
        assert(f(rows[b]));
        assert(out[j] == rows[b].0.1);
        assert(<(String, (u64, String)) as Key>::precedes(rows[b].0, rows[a].0));
    }
    let x = (t, k);
    if st.activity.contains_key(x) && crate::journal_answers::below(after, k) {
        assert(f((x, st.activity[x])));
        assert(crate::table::has_key(rows, x));
        let p = choose|p: int| 0 <= p < rows.len() && (#[trigger] rows[p]).0 == x;
        let q = rows.len() - 1 - p;
        if q < n {
            assert(out[q] == k);
        } else if 0 <= i < out.len() {
            assert(<(String, (u64, String)) as Key>::precedes(rows[p].0, rows[a].0));
        }
    }
}

proof fn lemma_each_concluded(
    rows: Seq<((Seq<char>, (Seq<char>, u64)), PointerModel)>,
    n: int,
)
    requires
        0 <= n <= rows.len(),
        shared_concluded(rows, n) is Ok,
    ensures
        shared_concluded(rows, n)->Ok_0.len() == n,
        forall|i: int|
            0 <= i < n ==> #[trigger] shared_concluded(rows, n)->Ok_0[i] == rows[rows.len() - 1
                - i].1.run,
    decreases n,
{
    if n > 0 {
        lemma_each_concluded(rows, n - 1);
        let before = shared_concluded(rows, n - 1)->Ok_0;
        let after = shared_concluded(rows, n)->Ok_0;
        assert forall|i: int| 0 <= i < n implies #[trigger] after[i] == rows[rows.len() - 1
            - i].1.run by {
            if i < n - 1 {
                assert(after[i] == before[i]);
            }
        }
    }
}

/// Whether a run is entered under an outcome at a place.
pub open spec fn concluded_at(
    st: JournalState,
    t: Seq<char>,
    outcome: Seq<char>,
    at: u64,
    run: Seq<char>,
) -> bool {
    st.by_outcome.contains_key((t, (outcome, at))) && st.by_outcome[(t, (outcome, at))].run == run
}

/// The runs given for an outcome are entered under it, the newest entry first, and an
/// entry that is left out for want of room is older than those given.
pub proof fn law_shared_conclusions_come_newest_first(
    st: JournalState,
    t: Seq<char>,
    outcome: Seq<char>,
    limit: usize,
    out: Seq<Seq<char>>,
) -> (at: Seq<u64>)
    requires
        st.by_outcome.dom().finite(),
        shared_concluded(
            outcome_rows(st, t, outcome),
            page(outcome_rows(st, t, outcome).len(), limit),
        ) == Ok::<Seq<Seq<char>>, Refusal>(out),
    ensures
        out.len() <= limit,
        at.len() == out.len(),
        forall|i: int| 0 <= i < at.len() ==> concluded_at(st, t, outcome, #[trigger] at[i], out[i]),
        forall|i: int, j: int| 0 <= i < j < at.len() ==> #[trigger] at[i] > #[trigger] at[j],
        forall|n: u64, i: int|
            #![trigger st.by_outcome.contains_key((t, (outcome, n))), at[i]]
            st.by_outcome.contains_key((t, (outcome, n))) && !at.contains(n) && 0 <= i < at.len()
                ==> at[i] > n,
        forall|n: u64| #[trigger]
            st.by_outcome.contains_key((t, (outcome, n))) && !at.contains(n) ==> out.len() == limit,
{
    let f = of_outcome(t, outcome);
    let rows = outcome_rows(st, t, outcome);
    let n = page(rows.len(), limit);
    crate::table::lemma_chosen::<(String, (String, u64)), PointerModel>(st.by_outcome, f);
    lemma_each_concluded(rows, n);
    <String as Key>::lemma_irreflexive(t);
    <String as Key>::lemma_irreflexive(outcome);
    let at = Seq::new(n as nat, |i: int| rows[rows.len() - 1 - i].0.1.1);
    assert forall|p: int| 0 <= p < rows.len() implies (#[trigger] rows[p]).0 == (
        t,
        (outcome, rows[p].0.1.1),
    ) && st.by_outcome.contains_key(rows[p].0) && st.by_outcome[rows[p].0] == rows[p].1 by {
        assert(f(rows[p]));
    }
    assert forall|p: int, q: int| 0 <= p < q < rows.len() implies (#[trigger] rows[p]).0.1.1 < (
    #[trigger] rows[q]).0.1.1 by {
        assert(<(String, (String, u64)) as Key>::precedes(rows[p].0, rows[q].0));
    }
    assert forall|i: int| 0 <= i < at.len() implies concluded_at(
        st,
        t,
        outcome,
        #[trigger] at[i],
        out[i],
    ) by {
        let p = rows.len() - 1 - i;
        assert(rows[p].0 == (t, (outcome, at[i])));
        assert(out[i] == rows[p].1.run);
    }
    assert forall|m: u64| #[trigger]
        st.by_outcome.contains_key((t, (outcome, m))) && !at.contains(m) implies out.len() == limit
        && forall|i: int| 0 <= i < at.len() ==> #[trigger] at[i] > m by {
        let x = (t, (outcome, m));
        assert(f((x, st.by_outcome[x])));
        assert(crate::table::has_key(rows, x));
        let p = choose|p: int| 0 <= p < rows.len() && (#[trigger] rows[p]).0 == x;
        let q = rows.len() - 1 - p;
        if q < n {
            assert(at[q] == m);
        }
        assert forall|i: int| 0 <= i < at.len() implies #[trigger] at[i] > m by {
            assert(rows[p].0.1.1 < rows[rows.len() - 1 - i].0.1.1);
        }
    }
    at
}

/// A refusal in a shared database names the run it is about and says otherwise what it
/// would anywhere.
pub proof fn law_refusal_names_its_run(why: Refusal, run: Seq<char>)
    ensures
        why matches Refusal::Fenced { held, current, .. } ==> bare(why, run) == (Refusal::Fenced {
            run,
            held,
            current,
        }),
        why matches Refusal::RunSealed { outcome, .. } ==> bare(why, run) == (Refusal::RunSealed {
            run,
            outcome,
        }),
        why matches Refusal::LeaseHeld { owner, epoch, remaining_secs, .. } ==> bare(why, run) == (
        Refusal::LeaseHeld { run, owner, epoch, remaining_secs }),
        why matches Refusal::LeaseNotHeld { epoch, .. } ==> bare(why, run) == (
        Refusal::LeaseNotHeld { run, epoch }),
        !(why is Fenced || why is RunSealed || why is LeaseHeld || why is LeaseNotHeld) ==> bare(
            why,
            run,
        ) == why,
{
}

/// A writer is let past the fence exactly where nobody holds the run in another epoch.
pub proof fn law_shared_fence_goes_by_the_epoch(
    st: JournalState,
    t: Seq<char>,
    run: Seq<char>,
    epoch: u64,
)
    ensures
        shared_fence(st, t, run, epoch) is None <==> (st.leases.contains_key((t, run))
            ==> st.leases[(t, run)].epoch == epoch),
{
}

} // verus!
