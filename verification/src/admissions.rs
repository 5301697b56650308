//! Admission keys: the run that a request was first admitted as.
//!
//! The key is claimed together with the record that carries it, so that the
//! claim and the run are one event: a request that is sent twice is one run.

use vstd::prelude::*;

use crate::domain::{signed, to_signed, IdModel, StoredId};
use crate::error::{Refusal, StoreError};
use crate::journal::{
    append_refusal, appended, batch_of, head_of, prev_of, sealed_append_refusal, Append,
    AppendModel, Head, HeadModel, Journal, JournalState, KindModel, RecordKind, Slot,
};
use crate::journal_laws::{batch_fits, chains_agree, indexes_agree};
use crate::table::{chosen, Pick, Table};
use crate::text::{join4, same};

verus! {

/// Which run a key was admitted as, and when.
#[derive(Debug)]
pub struct AdmissionRow {
    pub run: StoredId,
    pub admitted_at: i64,
}

impl View for AdmissionRow {
    type V = (IdModel, i64);

    open spec fn view(&self) -> (IdModel, i64) {
        (self.run@, self.admitted_at)
    }
}

/// A tenant's admission key.
pub type AdmissionKey = (Seq<char>, Seq<char>);

/// The admission keys of a plane.
pub struct AdmissionBook {
    pub rows: Table<(String, String), AdmissionRow>,
}

impl View for AdmissionBook {
    type V = Map<AdmissionKey, (IdModel, i64)>;

    open spec fn view(&self) -> Map<AdmissionKey, (IdModel, i64)> {
        self.rows@
    }
}

/// The key that a record claims, if it claims one.
pub open spec fn key_claimed(a: AppendModel) -> Option<Seq<char>> {
    match a.kind {
        KindModel::RunAdmitted { idempotency_key: Some(key) } => Some(key),
        _ => None,
    }
}

/// The key that the first `n` records of a batch claim: the last that one of
/// them names.
pub open spec fn batch_claim(batch: Seq<AppendModel>, n: int) -> Option<Seq<char>>
    decreases n,
{
    if n <= 0 {
        None
    } else {
        match key_claimed(batch[n - 1]) {
            Some(key) => Some(key),
            None => batch_claim(batch, n - 1),
        }
    }
}

/// Why a batch that was sealed on a head is not let in, if it is not.
pub open spec fn sealed_admission_refusal(
    journal: JournalState,
    keys: Map<AdmissionKey, (IdModel, i64)>,
    t: Seq<char>,
    epoch: u64,
    batch: Seq<AppendModel>,
    on: HeadModel,
) -> Option<Refusal> {
    match sealed_append_refusal(journal, t, epoch, batch, on) {
        Some(why) => Some(why),
        None => admission_refusal(journal, keys, t, epoch, batch),
    }
}

/// Why a batch cannot be appended and admitted, if it cannot. What the journal
/// refuses comes first.
pub open spec fn admission_refusal(
    st: JournalState,
    m: Map<AdmissionKey, (IdModel, i64)>,
    t: Seq<char>,
    epoch: u64,
    batch: Seq<AppendModel>,
) -> Option<Refusal> {
    match append_refusal(st, t, epoch, batch) {
        Some(why) => Some(why),
        None => match batch_claim(batch, batch.len() as int) {
            Some(key) if m.contains_key((t, key)) => Some(
                Refusal::DuplicateAdmission { key, run: m[(t, key)].0.text },
            ),
            _ => None,
        },
    }
}

/// The keys after a batch was appended and admitted.
pub open spec fn keys_after(
    m: Map<AdmissionKey, (IdModel, i64)>,
    t: Seq<char>,
    now: u64,
    batch: Seq<AppendModel>,
) -> Map<AdmissionKey, (IdModel, i64)> {
    match batch_claim(batch, batch.len() as int) {
        Some(key) => m.insert((t, key), (crate::domain::good_id(batch[0].run), signed(now))),
        None => m,
    }
}

pub open spec fn bad_admission_text(id: Seq<char>, fault: Seq<char>) -> Seq<char> {
    "run_admission holds an unparseable run id '"@ + id + "': "@ + fault
}

/// What asking for the run of a key answers.
pub open spec fn admitted_answer(
    m: Map<AdmissionKey, (IdModel, i64)>,
    t: Seq<char>,
    key: Seq<char>,
) -> Result<Option<Seq<char>>, Refusal> {
    if !m.contains_key((t, key)) {
        Ok(None)
    } else {
        match m[(t, key)].0.fault {
            Some(f) => Err(
                Refusal::Corrupt { seq: 0, detail: bad_admission_text(m[(t, key)].0.text, f) },
            ),
            None => Ok(Some(m[(t, key)].0.text)),
        }
    }
}

/// The keys of a tenant that were claimed before an instant.
pub open spec fn older(t: Seq<char>, than: i64) -> spec_fn((AdmissionKey, (IdModel, i64))) -> bool {
    |e: (AdmissionKey, (IdModel, i64))| e.0.0 == t && e.1.1 < than
}

/// How many keys of a tenant were claimed before an instant.
pub open spec fn forgotten_count(
    m: Map<AdmissionKey, (IdModel, i64)>,
    t: Seq<char>,
    than: i64,
) -> nat {
    chosen::<(String, String), (IdModel, i64)>(m, older(t, than)).len()
}

/// The keys after those of a tenant that were claimed before an instant are gone.
pub open spec fn without_older(
    m: Map<AdmissionKey, (IdModel, i64)>,
    t: Seq<char>,
    than: i64,
) -> Map<AdmissionKey, (IdModel, i64)> {
    Map::new(
        |k: AdmissionKey| m.contains_key(k) && !older(t, than)((k, m[k])),
        |k: AdmissionKey| m[k],
    )
}

struct Older<'a> {
    tenant: &'a str,
    than: i64,
}

impl<'a> Pick<(String, String), AdmissionRow> for Older<'a> {
    closed spec fn picks(&self, k: AdmissionKey, r: (IdModel, i64)) -> bool {
        k.0 == self.tenant@ && r.1 < self.than
    }

    fn test(&self, k: &(String, String), r: &AdmissionRow) -> (b: bool) {
        same(&k.0, self.tenant) && r.admitted_at < self.than
    }
}

/// The key that a batch claims.
fn claimed_key(batch: &Vec<Append>) -> (r: Option<String>)
    ensures
        batch_claim(batch_of(batch@), batch@.len() as int) == match r {
            Some(key) => Some(key@),
            None => None,
        },
{
    let ghost b = batch_of(batch@);
    let mut found: Option<String> = None;
    let mut i: usize = 0;
    while i < batch.len()
        invariant
            i <= batch@.len(),
            b == batch_of(batch@),
            batch_claim(b, i as int) == (match found {
                Some(key) => Some(key@),
                None => None,
            }),
        decreases batch@.len() - i,
    {
        assert(b[i as int] == batch@[i as int]@);
        match &batch[i].kind {
            RecordKind::RunAdmitted { idempotency_key } => match idempotency_key {
                Some(key) => {
                    found = Some(key.clone());
                },
                None => {},
            },
            _ => {},
        }
        i = i + 1;
    }
    found
}

impl AdmissionBook {
    /// No keys.
    pub fn new() -> (b: AdmissionBook)
        ensures
            b@ == Map::<AdmissionKey, (IdModel, i64)>::empty(),
    {
        AdmissionBook { rows: Table::new() }
    }

    /// Appends a batch and claims the admission key that it carries, or does
    /// neither.
    pub fn append(
        &mut self,
        journal: &mut Journal,
        tenant: &str,
        now: u64,
        epoch: u64,
        batch: &Vec<Append>,
    ) -> (r: Result<Vec<Slot>, StoreError>)
        ensures
            indexes_agree(old(journal)@) ==> indexes_agree(final(journal)@),
            chains_agree(old(journal)@) && batch_fits(batch_of(batch@)) ==> chains_agree(
                final(journal)@,
            ),
            match admission_refusal(
                old(journal)@,
                old(self)@,
                tenant@,
                epoch,
                batch_of(batch@),
            ) {
                Some(why) => r matches Err(e) && e@ == why && final(journal)@ == old(journal)@
                    && final(self)@ == old(self)@,
                None => {
                    &&& final(journal)@ == appended(
                        old(journal)@,
                        tenant@,
                        now,
                        batch_of(batch@),
                    )
                    &&& final(self)@ == keys_after(old(self)@, tenant@, now, batch_of(batch@))
                    &&& r matches Ok(slots) && slots@.len() == batch@.len() && forall|i: int|
                        0 <= i < batch@.len() ==> {
                            let head = head_of(
                                old(journal)@,
                                (tenant@, batch_of(batch@)[0].run),
                            )->Ok_0;
                            &&& (#[trigger] slots@[i]).seq == head.seq + i + 1
                            &&& slots@[i].prev_hash@ == prev_of(head, batch_of(batch@), i)
                        }
                },
            },
    {
        let ghost b = batch_of(batch@);
        match journal.check_append(tenant, epoch, batch) {
            Err(e) => {
                return Err(e);
            },
            Ok(_) => {},
        }
        let claim = claimed_key(batch);
        if let Some(key) = &claim {
            if let Some(row) = self.rows.get(&(tenant.to_owned(), key.clone())) {
                return Err(
                    StoreError::DuplicateAdmission {
                        key: key.clone(),
                        run: row.run.text.clone(),
                    },
                );
            }
        }
        match journal.append(tenant, now, epoch, batch) {
            Err(e) => Err(e),
            Ok(slots) => {
                if let Some(key) = claim {
                    assert(b.len() > 0) by {
                        assert(batch_claim(b, b.len() as int) is Some);
                    }
                    assert(b[0] == batch@[0]@);
                    let row = AdmissionRow {
                        run: StoredId { text: batch[0].run.clone(), fault: None },
                        admitted_at: to_signed(now),
                    };
                    self.rows.insert((tenant.to_owned(), key), row);
                }
                Ok(slots)
            },
        }
    }

    /// Appends a batch as [`append`](Self::append) does, where the head of its run
    /// is still the one that its records were sealed on.
    pub fn append_on(
        &mut self,
        journal: &mut Journal,
        tenant: &str,
        now: u64,
        epoch: u64,
        batch: &Vec<Append>,
        on: &Head,
    ) -> (r: Result<Vec<Slot>, StoreError>)
        ensures
            indexes_agree(old(journal)@) ==> indexes_agree(final(journal)@),
            chains_agree(old(journal)@) && batch_fits(batch_of(batch@)) ==> chains_agree(
                final(journal)@,
            ),
            match sealed_admission_refusal(
                old(journal)@,
                old(self)@,
                tenant@,
                epoch,
                batch_of(batch@),
                on@,
            ) {
                Some(why) => r matches Err(e) && e@ == why && final(journal)@ == old(journal)@
                    && final(self)@ == old(self)@,
                None => {
                    &&& final(journal)@ == appended(
                        old(journal)@,
                        tenant@,
                        now,
                        batch_of(batch@),
                    )
                    &&& final(self)@ == keys_after(old(self)@, tenant@, now, batch_of(batch@))
                    &&& r matches Ok(slots) && slots@.len() == batch@.len() && forall|i: int|
                        0 <= i < batch@.len() ==> {
                            &&& (#[trigger] slots@[i]).seq == on.seq + i + 1
                            &&& slots@[i].prev_hash@ == prev_of(on@, batch_of(batch@), i)
                        }
                },
            },
    {
        match journal.check_append(tenant, epoch, batch) {
            Err(e) => {
                return Err(e);
            },
            Ok(_) => {},
        }
        match journal.check_head(tenant, batch, on) {
            Err(e) => {
                return Err(e);
            },
            Ok(_) => {},
        }
        self.append(journal, tenant, now, epoch, batch)
    }

    /// The run that a key was admitted as.
    pub fn admitted_as(&self, tenant: &str, key: &str) -> (r: Result<Option<String>, StoreError>)
        ensures
            admitted_answer(self@, tenant@, key@) == match r {
                Ok(Some(run)) => Ok::<Option<Seq<char>>, Refusal>(Some(run@)),
                Ok(None) => Ok::<Option<Seq<char>>, Refusal>(None),
                Err(e) => Err::<Option<Seq<char>>, Refusal>(e@),
            },
    {
        match self.rows.get(&(tenant.to_owned(), key.to_owned())) {
            None => Ok(None),
            Some(row) => match &row.run.fault {
                Some(f) => Err(
                    StoreError::Corrupt {
                        seq: 0,
                        detail: join4(
                            "run_admission holds an unparseable run id '",
                            &row.run.text,
                            "': ",
                            f,
                        ),
                    },
                ),
                None => Ok(Some(row.run.text.clone())),
            },
        }
    }

    /// Forgets the keys that were claimed before an instant, and says how many
    /// those were.
    pub fn forget_admissions(&mut self, tenant: &str, older_than: i64) -> (n: usize)
        ensures
            n == forgotten_count(old(self)@, tenant@, older_than),
            final(self)@ == without_older(old(self)@, tenant@, older_than),
    {
        let n = self.rows.tally(
            &Older { tenant, than: older_than },
            Ghost(older(tenant@, older_than)),
        );
        let ghost before = self@;
        self.rows.drop_where(&Older { tenant, than: older_than });
        assert(self@ =~= without_older(before, tenant@, older_than));
        n
    }
}

// ── Laws ────────────────────────────────────────────────────────────────────

/// A request is admitted as one run: once its key is claimed, every batch that
/// carries the key again is refused with the run that has it, unless the journal
/// refuses it first, and nothing is written.
pub proof fn law_request_is_one_run(
    st: JournalState,
    m: Map<AdmissionKey, (IdModel, i64)>,
    t: Seq<char>,
    now: u64,
    batch: Seq<AppendModel>,
    key: Seq<char>,
    epoch: u64,
    again: Seq<AppendModel>,
)
    requires
        batch_claim(batch, batch.len() as int) == Some(key),
        batch_claim(again, again.len() as int) == Some(key),
    ensures
        ({
            let after = keys_after(m, t, now, batch);
            &&& admitted_answer(after, t, key) == Ok::<Option<Seq<char>>, Refusal>(
                Some(batch[0].run),
            )
            &&& admission_refusal(st, after, t, epoch, again) is Some
            &&& append_refusal(st, t, epoch, again) is None ==> admission_refusal(
                st,
                after,
                t,
                epoch,
                again,
            ) == Some(Refusal::DuplicateAdmission { key, run: batch[0].run })
        }),
{
}

/// Two tenants' keys of one name are two keys.
pub proof fn law_admission_tenants_apart(
    m: Map<AdmissionKey, (IdModel, i64)>,
    t: Seq<char>,
    other: Seq<char>,
    now: u64,
    batch: Seq<AppendModel>,
    key: Seq<char>,
)
    requires
        t != other,
    ensures
        admitted_answer(keys_after(m, t, now, batch), other, key) == admitted_answer(
            m,
            other,
            key,
        ),
{
}

proof fn lemma_claim_is_the_last(batch: Seq<AppendModel>, n: int)
    requires
        0 <= n <= batch.len(),
    ensures
        batch_claim(batch, n) matches Some(key) ==> exists|i: int|
            0 <= i < n && (#[trigger] batch[i]).kind == (KindModel::RunAdmitted {
                idempotency_key: Some(key),
            }) && forall|j: int|
                i < j < n ==> !((#[trigger] batch[j]).kind matches KindModel::RunAdmitted {
                    idempotency_key: Some(_),
                }),
        batch_claim(batch, n) is None ==> forall|j: int|
            0 <= j < n ==> !((#[trigger] batch[j]).kind matches KindModel::RunAdmitted {
                idempotency_key: Some(_),
            }),
    decreases n,
{
    if n > 0 {
        lemma_claim_is_the_last(batch, n - 1);
        if key_claimed(batch[n - 1]) is Some {
            assert(batch[n - 1].kind == (KindModel::RunAdmitted {
                idempotency_key: Some(key_claimed(batch[n - 1])->0),
            }));
        } else if batch_claim(batch, n - 1) is Some {
            let key = batch_claim(batch, n - 1)->0;
            let i = choose|i: int|
                0 <= i < n - 1 && (#[trigger] batch[i]).kind == (KindModel::RunAdmitted {
                    idempotency_key: Some(key),
                }) && forall|j: int|
                    i < j < n - 1 ==> !((#[trigger] batch[j]).kind matches KindModel::RunAdmitted {
                        idempotency_key: Some(_),
                    });
            assert(batch[i].kind == (KindModel::RunAdmitted { idempotency_key: Some(key) }));
        }
    }
}

/// A batch claims the key of the last of its records that admits a run under one,
/// and none where no record does. It is kept with the run of the batch and the
/// instant, and no other key is touched.
pub proof fn law_admitted_key_is_kept(
    m: Map<AdmissionKey, (IdModel, i64)>,
    t: Seq<char>,
    now: u64,
    batch: Seq<AppendModel>,
    k: AdmissionKey,
)
    requires
        now <= i64::MAX,
    ensures
        ({
            let n = batch.len() as int;
            let after = keys_after(m, t, now, batch);
            &&& (forall|j: int|
                0 <= j < n ==> !((#[trigger] batch[j]).kind matches KindModel::RunAdmitted {
                    idempotency_key: Some(_),
                })) ==> after == m
            &&& batch_claim(batch, n) matches Some(key) ==> {
                &&& exists|i: int|
                    0 <= i < n && (#[trigger] batch[i]).kind == (KindModel::RunAdmitted {
                        idempotency_key: Some(key),
                    }) && forall|j: int|
                        i < j < n ==> !((
                        #[trigger] batch[j]).kind matches KindModel::RunAdmitted {
                            idempotency_key: Some(_),
                        })
                &&& after.contains_key((t, key))
                &&& after[(t, key)].0.text == batch[0].run
                &&& after[(t, key)].0.fault is None
                &&& after[(t, key)].1 == now
                &&& k != (t, key) ==> after.contains_key(k) == m.contains_key(k)
                &&& k != (t, key) && m.contains_key(k) ==> after[k] == m[k]
            }
        }),
{
    lemma_claim_is_the_last(batch, batch.len() as int);
}

/// What the journal lets in is let in unless its key is taken: then it is refused,
/// naming the run that has it.
pub proof fn law_only_a_taken_key_is_refused(
    st: JournalState,
    m: Map<AdmissionKey, (IdModel, i64)>,
    t: Seq<char>,
    epoch: u64,
    batch: Seq<AppendModel>,
)
    requires
        append_refusal(st, t, epoch, batch) is None,
    ensures
        admission_refusal(st, m, t, epoch, batch) is None <==> (batch_claim(
            batch,
            batch.len() as int,
        ) matches Some(key) ==> !m.contains_key((t, key))),
        admission_refusal(st, m, t, epoch, batch) matches Some(why) ==> {
            let key = batch_claim(batch, batch.len() as int)->0;
            why == (Refusal::DuplicateAdmission { key, run: m[(t, key)].0.text })
        },
{
}

/// Exactly the keys of the tenant that were claimed before the instant are forgotten,
/// and as many are counted; a request under one of them is admitted anew.
pub proof fn law_old_keys_are_forgotten(
    m: Map<AdmissionKey, (IdModel, i64)>,
    t: Seq<char>,
    than: i64,
    k: AdmissionKey,
)
    requires
        m.dom().finite(),
    ensures
        without_older(m, t, than).contains_key(k) <==> m.contains_key(k) && (k.0 != t || m[k].1
            >= than),
        without_older(m, t, than).contains_key(k) ==> without_older(m, t, than)[k] == m[k],
        forgotten_count(m, t, than) == Set::new(
            |x: AdmissionKey| m.contains_key(x) && x.0 == t && m[x].1 < than,
        ).len(),
{
    let f = older(t, than);
    crate::table::lemma_chosen_counted::<(String, String), (IdModel, i64)>(m, f);
    assert(Set::new(|x: AdmissionKey| m.contains_key(x) && f((x, m[x]))) =~= Set::new(
        |x: AdmissionKey| m.contains_key(x) && x.0 == t && m[x].1 < than,
    ));
}

} // verus!
