//! Per-tenant quotas: the runs a tenant has executing, what it spent, and the
//! emergency stop.
//!
//! The executing runs are a set and no counter. A counter leaks a slot whenever
//! a process dies before it counts down; a set names its members, so a stranded
//! slot is somebody's, and freeing it twice frees it once.

use vstd::prelude::*;

use crate::batches::Spend;
use crate::error::{Refusal, StoreError};
use crate::table::{chosen, Pick, Table};
use crate::text::same;

verus! {

/// A refusal of an admission.
#[derive(Debug)]
pub enum QuotaError {
    /// The tenant is at its ceiling.
    TooManyRuns { tenant: String, running: u32 },
}

/// A tenant's run.
pub type Slot = (Seq<char>, Seq<char>);

/// What the quota tables hold.
#[verifier::ext_equal]
pub struct QuotaState {
    /// When each executing run was admitted.
    pub running: Map<Slot, i64>,
    /// Why a tenant is halted.
    pub halted: Map<Seq<char>, Seq<char>>,
    /// What a tenant spent in a period.
    pub spent: Map<Slot, (i64, i64)>,
}

/// The quotas of a plane.
pub struct QuotaBook {
    pub running: Table<(String, String), i64>,
    pub halted: Table<String, String>,
    pub spent: Table<(String, String), (i64, i64)>,
}

impl View for QuotaBook {
    type V = QuotaState;

    open spec fn view(&self) -> QuotaState {
        QuotaState { running: self.running@, halted: self.halted@, spent: self.spent@ }
    }
}

/// The executing runs of a tenant.
pub open spec fn running_in(t: Seq<char>) -> spec_fn((Slot, i64)) -> bool {
    |e: (Slot, i64)| e.0.0 == t
}

/// How many runs a tenant has executing.
pub open spec fn in_use(st: QuotaState, t: Seq<char>) -> nat {
    chosen::<(String, String), i64>(st.running, running_in(t)).len()
}

/// The tables after a run's slot was freed.
pub open spec fn slot_freed(st: QuotaState, t: Seq<char>, run: Seq<char>) -> QuotaState {
    QuotaState { running: st.running.remove((t, run)), ..st }
}

/// A count as it is reported.
pub open spec fn reported(n: nat) -> u32 {
    if n <= u32::MAX {
        n as u32
    } else {
        u32::MAX
    }
}

/// Whether a run may be admitted: there is no ceiling, it has its slot already,
/// or there is one left.
pub open spec fn admissible(st: QuotaState, t: Seq<char>, run: Seq<char>, limit: Option<u32>) -> bool {
    match limit {
        None => true,
        Some(n) => st.running.contains_key((t, run)) || in_use(st, t) < n,
    }
}

/// The tables after a run was admitted. A run that has its slot keeps it.
pub open spec fn admitted(st: QuotaState, t: Seq<char>, run: Seq<char>, at: i64) -> QuotaState {
    if st.running.contains_key((t, run)) {
        st
    } else {
        QuotaState { running: st.running.insert((t, run), at), ..st }
    }
}

/// An amount as the database keeps it.
pub open spec fn stored_amount(a: u64) -> i64 {
    if a <= i64::MAX {
        a as i64
    } else {
        i64::MAX
    }
}

/// An amount as it is read back. One that is less than nothing is nothing.
pub open spec fn read_amount(a: i64) -> u64 {
    if a >= 0 {
        a as u64
    } else {
        0
    }
}

/// Writes an amount as the database keeps it.
pub fn sql_amount(a: u64) -> (r: i64)
    ensures
        r == stored_amount(a),
{
    if a <= i64::MAX as u64 {
        a as i64
    } else {
        i64::MAX
    }
}

/// Reads an amount back.
pub fn amount_of(a: i64) -> (r: u64)
    ensures
        r == read_amount(a),
{
    if a >= 0 {
        a as u64
    } else {
        0
    }
}

/// What was spent before.
pub open spec fn spent_before(st: QuotaState, t: Seq<char>, period: Seq<char>) -> (i64, i64) {
    if st.spent.contains_key((t, period)) {
        st.spent[(t, period)]
    } else {
        (0, 0)
    }
}

/// Whether what is spent now can be kept on top of it.
pub open spec fn accruable(st: QuotaState, t: Seq<char>, period: Seq<char>, spend: Spend) -> bool {
    let before = spent_before(st, t, period);
    &&& i64::MIN <= before.0 + stored_amount(spend.tokens) <= i64::MAX
    &&& i64::MIN <= before.1 + stored_amount(spend.minor_units) <= i64::MAX
}

/// The tables after a spend was added to a period.
pub open spec fn accrued(st: QuotaState, t: Seq<char>, period: Seq<char>, spend: Spend) -> QuotaState {
    let before = spent_before(st, t, period);
    QuotaState {
        spent: st.spent.insert(
            (t, period),
            (
                (before.0 + stored_amount(spend.tokens)) as i64,
                (before.1 + stored_amount(spend.minor_units)) as i64,
            ),
        ),
        ..st
    }
}

/// What a tenant spent in a period, as it is read.
pub open spec fn spent_in(st: QuotaState, t: Seq<char>, period: Seq<char>) -> Spend {
    Spend {
        tokens: read_amount(spent_before(st, t, period).0),
        minor_units: read_amount(spent_before(st, t, period).1),
    }
}

/// Why a tenant is halted, if it is.
pub open spec fn halt_of(st: QuotaState, t: Seq<char>) -> Option<Seq<char>> {
    if st.halted.contains_key(t) {
        Some(st.halted[t])
    } else {
        None
    }
}

/// The tables after a tenant was halted for a reason, or let go on.
pub open spec fn halt_set(st: QuotaState, t: Seq<char>, reason: Option<Seq<char>>) -> QuotaState {
    QuotaState {
        halted: match reason {
            Some(why) => st.halted.insert(t, why),
            None => st.halted.remove(t),
        },
        ..st
    }
}

struct RunningIn<'a> {
    tenant: &'a str,
}

impl<'a> Pick<(String, String), i64> for RunningIn<'a> {
    closed spec fn picks(&self, k: Slot, r: i64) -> bool {
        k.0 == self.tenant@
    }

    fn test(&self, k: &(String, String), r: &i64) -> (b: bool) {
        same(&k.0, self.tenant)
    }
}

impl QuotaBook {
    /// No runs, no stops and nothing spent.
    pub fn new() -> (b: QuotaBook)
        ensures
            b@ == (QuotaState { running: Map::empty(), halted: Map::empty(), spent: Map::empty() }),
    {
        QuotaBook { running: Table::new(), halted: Table::new(), spent: Table::new() }
    }

    /// Admits a run, if the tenant has a slot for it. A run that has its slot is
    /// admitted again without a second one.
    pub fn reserve(&mut self, tenant: &str, run: &str, limit: Option<u32>, at: i64) -> (r: Result<
        (),
        QuotaError,
    >)
        ensures
            match r {
                Ok(_) => admissible(old(self)@, tenant@, run@, limit) && final(self)@ == admitted(
                    old(self)@,
                    tenant@,
                    run@,
                    at,
                ),
                Err(QuotaError::TooManyRuns { tenant: who, running }) => !admissible(
                    old(self)@,
                    tenant@,
                    run@,
                    limit,
                ) && who@ == tenant@ && running == reported(in_use(old(self)@, tenant@)) && final(self)@ == old(self)@,
            },
    {
        let key = (tenant.to_owned(), run.to_owned());
        if self.running.contains(&key) {
            return Ok(());
        }
        if let Some(limit) = limit {
            let n = self.running.tally(&RunningIn { tenant }, Ghost(running_in(tenant@)));
            if n as u64 >= limit as u64 {
                return Err(
                    QuotaError::TooManyRuns { tenant: tenant.to_owned(), running: report(n) },
                );
            }
        }
        self.running.insert(key, at);
        Ok(())
    }

    /// Frees a run's slot.
    pub fn release(&mut self, tenant: &str, run: &str)
        ensures
            final(self)@ == slot_freed(old(self)@, tenant@, run@),
    {
        let _ = self.running.remove(&(tenant.to_owned(), run.to_owned()));
    }

    /// How many runs a tenant has executing.
    pub fn running(&self, tenant: &str) -> (n: u32)
        ensures
            n == reported(in_use(self@, tenant@)),
    {
        report(self.running.tally(&RunningIn { tenant }, Ghost(running_in(tenant@))))
    }

    /// Halts a tenant for a reason, or lets it go on. The last reason stands.
    pub fn set_halt(&mut self, tenant: &str, reason: Option<&str>)
        ensures
            final(self)@ == halt_set(
                old(self)@,
                tenant@,
                match reason {
                    Some(why) => Some(why@),
                    None => None,
                },
            ),
    {
        match reason {
            Some(why) => {
                self.halted.insert(tenant.to_owned(), why.to_owned());
            },
            None => {
                let _ = self.halted.remove(&tenant.to_owned());
            },
        }
    }

    /// Why a tenant is halted, if it is.
    pub fn halted(&self, tenant: &str) -> (r: Option<String>)
        ensures
            halt_of(self@, tenant@) == match r {
                Some(why) => Some(why@),
                None => None,
            },
    {
        match self.halted.get(&tenant.to_owned()) {
            Some(why) => Some(why.clone()),
            None => None,
        }
    }

    /// Adds to what a tenant spent in a period.
    pub fn accrue(&mut self, tenant: &str, period: &str, spend: Spend) -> (r: Result<
        (),
        StoreError,
    >)
        ensures
            match r {
                Ok(_) => accruable(old(self)@, tenant@, period@, spend) && final(self)@ == accrued(
                    old(self)@,
                    tenant@,
                    period@,
                    spend,
                ),
                Err(e) => !accruable(old(self)@, tenant@, period@, spend) && e@
                    == Refusal::Backend("spend out of range"@) && final(self)@ == old(self)@,
            },
    {
        let key = (tenant.to_owned(), period.to_owned());
        let before: (i64, i64) = match self.spent.get(&key) {
            Some(row) => {
                assert(row@ == (row.0, row.1));
                (row.0, row.1)
            },
            None => (0, 0),
        };
        match (
            before.0.checked_add(sql_amount(spend.tokens)),
            before.1.checked_add(sql_amount(spend.minor_units)),
        ) {
            (Some(tokens), Some(minor_units)) => {
                self.spent.insert(key, (tokens, minor_units));
                Ok(())
            },
            _ => Err(StoreError::Backend("spend out of range".to_owned())),
        }
    }

    /// What a tenant spent in a period.
    pub fn spent(&self, tenant: &str, period: &str) -> (s: Spend)
        ensures
            s == spent_in(self@, tenant@, period@),
    {
        match self.spent.get(&(tenant.to_owned(), period.to_owned())) {
            Some(row) => {
                assert(row@ == (row.0, row.1));
                Spend { tokens: amount_of(row.0), minor_units: amount_of(row.1) }
            },
            None => Spend { tokens: 0, minor_units: 0 },
        }
    }
}

/// A count as it is reported.
fn report(n: usize) -> (r: u32)
    ensures
        r == reported(n as nat),
{
    if n as u64 <= u32::MAX as u64 {
        n as u32
    } else {
        u32::MAX
    }
}

// ── Laws ────────────────────────────────────────────────────────────────────

/// A retried admission takes no second slot and is not refused against a ceiling
/// that it is already counted in.
pub proof fn law_admission_is_idempotent(
    st: QuotaState,
    t: Seq<char>,
    run: Seq<char>,
    limit: Option<u32>,
    at: i64,
    again: i64,
)
    ensures
        admissible(admitted(st, t, run, at), t, run, limit),
        admitted(admitted(st, t, run, at), t, run, again) == admitted(st, t, run, at),
{
}

/// The ceiling holds: an admission under it leaves no more runs executing than
/// it allows.
pub proof fn law_ceiling_holds(st: QuotaState, t: Seq<char>, run: Seq<char>, limit: u32, at: i64)
    requires
        st.running.dom().finite(),
        in_use(st, t) <= limit,
        admissible(st, t, run, Some(limit)),
    ensures
        in_use(admitted(st, t, run, at), t) <= limit,
{
    if !st.running.contains_key((t, run)) {
        lemma_one_more(st.running, t, run, at);
    }
}

/// A slot more is one run more.
proof fn lemma_one_more(m: Map<Slot, i64>, t: Seq<char>, run: Seq<char>, at: i64)
    requires
        m.dom().finite(),
        !m.contains_key((t, run)),
    ensures
        chosen::<(String, String), i64>(m.insert((t, run), at), running_in(t)).len() == chosen::<
            (String, String),
            i64,
        >(m, running_in(t)).len() + 1,
{
    lemma_count(m, t);
    lemma_count(m.insert((t, run), at), t);
    let a = slots(m, t);
    let b = slots(m.insert((t, run), at), t);
    assert(b =~= a.insert((t, run)));
}

/// The slots of a tenant.
spec fn slots(m: Map<Slot, i64>, t: Seq<char>) -> Set<Slot> {
    m.dom().filter(|k: Slot| k.0 == t)
}

/// The executing runs of a tenant are as many as its slots.
proof fn lemma_count(m: Map<Slot, i64>, t: Seq<char>)
    requires
        m.dom().finite(),
    ensures
        chosen::<(String, String), i64>(m, running_in(t)).len() == slots(m, t).len(),
        slots(m, t).finite(),
{
    let f = running_in(t);
    let rows = chosen::<(String, String), i64>(m, f);
    crate::table::lemma_chosen::<(String, String), i64>(m, f);
    crate::table::lemma_keys_counted::<(String, String), i64>(rows);
    crate::table::lemma_keys_finite(rows);
    assert forall|k: Slot| #[trigger] slots(m, t).contains(k) <==> crate::table::as_map(
        rows,
    ).dom().contains(k) by {
        if slots(m, t).contains(k) {
            assert(m.contains_key(k) && f((k, m[k])));
            assert(crate::table::has_key(rows, k));
        }
        if crate::table::has_key(rows, k) {
            let i = choose|i: int| 0 <= i < rows.len() && (#[trigger] rows[i]).0 == k;
            assert(f(rows[i]));
        }
    }
    assert(slots(m, t) =~= crate::table::as_map(rows).dom());
}

/// Freeing a slot twice frees it once.
pub proof fn law_release_is_idempotent(st: QuotaState, t: Seq<char>, run: Seq<char>)
    ensures
        st.running.remove((t, run)).remove((t, run)) == st.running.remove((t, run)),
{
    assert(st.running.remove((t, run)).remove((t, run)) =~= st.running.remove((t, run)));
}

/// What is accrued is what is spent: two spends that can be kept are kept in
/// full, in either order.
pub proof fn law_spends_add_up(
    st: QuotaState,
    t: Seq<char>,
    period: Seq<char>,
    a: Spend,
    b: Spend,
)
    requires
        accruable(st, t, period, a),
        accruable(st, t, period, b),
        accruable(accrued(st, t, period, a), t, period, b),
        accruable(accrued(st, t, period, b), t, period, a),
    ensures
        accrued(accrued(st, t, period, a), t, period, b) == accrued(
            accrued(st, t, period, b),
            t,
            period,
            a,
        ),
{
    assert(accrued(accrued(st, t, period, a), t, period, b) =~= accrued(
        accrued(st, t, period, b),
        t,
        period,
        a,
    ));
}

/// An admission is refused exactly where the tenant has no slot left: there is a
/// ceiling, the run is not among those executing, and those are as many as the
/// ceiling allows. What is reported is how many they are.
pub proof fn law_refused_only_without_a_slot(
    st: QuotaState,
    t: Seq<char>,
    run: Seq<char>,
    limit: Option<u32>,
)
    requires
        st.running.dom().finite(),
    ensures
        !admissible(st, t, run, limit) <==> {
            &&& limit is Some
            &&& !st.running.contains_key((t, run))
            &&& st.running.dom().filter(|k: (Seq<char>, Seq<char>)| k.0 == t).len() >= limit->0
        },
        st.running.dom().filter(|k: (Seq<char>, Seq<char>)| k.0 == t).len() <= u32::MAX
            ==> reported(in_use(st, t)) == st.running.dom().filter(
            |k: (Seq<char>, Seq<char>)| k.0 == t,
        ).len(),
        in_use(st, t) == st.running.dom().filter(
            |k: (Seq<char>, Seq<char>)| k.0 == t,
        ).len(),
{
    lemma_count(st.running, t);
    assert(slots(st.running, t) =~= st.running.dom().filter(
        |k: (Seq<char>, Seq<char>)| k.0 == t,
    ));
}

/// An admission takes the run's own slot and nothing else: the run is executing,
/// since when it was first admitted, and every other run, every stop and every
/// spend is as it was.
pub proof fn law_admission_takes_one_slot(
    st: QuotaState,
    t: Seq<char>,
    run: Seq<char>,
    at: i64,
    k: Slot,
)
    ensures
        ({
            let after = admitted(st, t, run, at);
            &&& after.running.contains_key((t, run))
            &&& !st.running.contains_key((t, run)) ==> after.running[(t, run)] == at
            &&& st.running.contains_key(k) ==> after.running.contains_key(k) && after.running[k]
                == st.running[k]
            &&& k != (t, run) && !st.running.contains_key(k) ==> !after.running.contains_key(k)
            &&& after.halted == st.halted
            &&& after.spent == st.spent
        }),
{
}

/// A slot that is freed can be taken again: one run fewer is executing, and an
/// admission that was refused for want of one slot is let in.
pub proof fn law_release_frees_one_slot(
    st: QuotaState,
    t: Seq<char>,
    run: Seq<char>,
    k: Slot,
    other: Seq<char>,
    limit: u32,
)
    requires
        st.running.dom().finite(),
        st.running.contains_key((t, run)),
    ensures
        ({
            let after = slot_freed(st, t, run);
            &&& !after.running.contains_key((t, run))
            &&& k != (t, run) ==> after.running.contains_key(k) == st.running.contains_key(k)
            &&& k != (t, run) && st.running.contains_key(k) ==> after.running[k] == st.running[k]
            &&& after.halted == st.halted
            &&& after.spent == st.spent
            &&& in_use(after, t) + 1 == in_use(st, t)
            &&& in_use(st, t) <= limit ==> admissible(after, t, other, Some(limit))
        }),
{
    let after = slot_freed(st, t, run);
    lemma_one_more(after.running, t, run, st.running[(t, run)]);
    assert(after.running.insert((t, run), st.running[(t, run)]) =~= st.running);
}

/// Another tenant's runs take no slot of this one.
pub proof fn law_slots_are_a_tenants_own(
    st: QuotaState,
    t: Seq<char>,
    other: Seq<char>,
    run: Seq<char>,
    at: i64,
)
    requires
        st.running.dom().finite(),
        t != other,
    ensures
        in_use(admitted(st, other, run, at), t) == in_use(st, t),
        in_use(slot_freed(st, other, run), t) == in_use(st, t),
{
    let a = admitted(st, other, run, at);
    let b = slot_freed(st, other, run);
    lemma_count(st.running, t);
    lemma_count(a.running, t);
    lemma_count(b.running, t);
    assert(slots(a.running, t) =~= slots(st.running, t));
    assert(slots(b.running, t) =~= slots(st.running, t));
}

/// A stop is read back with its reason until it is lifted, and is one tenant's
/// own.
pub proof fn law_halt_reads_back(
    st: QuotaState,
    t: Seq<char>,
    reason: Option<Seq<char>>,
    other: Seq<char>,
)
    ensures
        halt_of(halt_set(st, t, reason), t) == reason,
        other != t ==> halt_of(halt_set(st, t, reason), other) == halt_of(st, other),
        halt_set(st, t, reason).running == st.running,
        halt_set(st, t, reason).spent == st.spent,
{
}

/// A spend adds to its own period: the tokens to the tokens and the money to the
/// money. Every other period, every run and every stop is as it was.
pub proof fn law_spend_is_read_back(
    st: QuotaState,
    t: Seq<char>,
    period: Seq<char>,
    spend: Spend,
    k: Slot,
)
    requires
        accruable(st, t, period, spend),
        spend.tokens <= i64::MAX,
        spend.minor_units <= i64::MAX,
        st.spent.contains_key((t, period)) ==> st.spent[(t, period)].0 >= 0 && st.spent[(
            t,
            period,
        )].1 >= 0,
    ensures
        ({
            let after = accrued(st, t, period, spend);
            &&& spent_in(after, t, period).tokens == spent_in(st, t, period).tokens + spend.tokens
            &&& spent_in(after, t, period).minor_units == spent_in(st, t, period).minor_units
                + spend.minor_units
            &&& !st.spent.contains_key((t, period)) ==> spent_in(st, t, period).tokens == 0
                && spent_in(st, t, period).minor_units == 0
            &&& k != (t, period) ==> spent_in(after, k.0, k.1) == spent_in(st, k.0, k.1)
            &&& after.running == st.running
            &&& after.halted == st.halted
        }),
{
}

/// A spend is refused only where the sum would not fit its column.
pub proof fn law_spend_is_kept_where_it_fits(
    st: QuotaState,
    t: Seq<char>,
    period: Seq<char>,
    spend: Spend,
)
    requires
        spend.tokens <= i64::MAX,
        spend.minor_units <= i64::MAX,
        st.spent.contains_key((t, period)) ==> st.spent[(t, period)].0 >= 0 && st.spent[(
            t,
            period,
        )].1 >= 0,
    ensures
        accruable(st, t, period, spend) <==> spent_in(st, t, period).tokens + spend.tokens
            <= i64::MAX && spent_in(st, t, period).minor_units + spend.minor_units <= i64::MAX,
{
}

/// An amount is kept as the nearest that a column holds, and one that a column
/// cannot have been given reads as nothing.
pub proof fn law_amounts_stay_in_range(a: u64, b: i64)
    ensures
        stored_amount(a) >= 0,
        a > i64::MAX ==> stored_amount(a) == i64::MAX,
        a <= i64::MAX ==> stored_amount(a) as int == a as int,
        b < 0 ==> read_amount(b) == 0,
        b >= 0 ==> read_amount(b) as int == b as int,
{
}

/// An amount that the database can keep reads back as it was.
pub proof fn law_amount_round_trip(a: u64)
    requires
        a <= i64::MAX,
    ensures
        read_amount(stored_amount(a)) == a,
{
}

} // verus!
