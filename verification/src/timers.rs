//! Timers: runs that sleep until an instant, and the claim that wakes each once.

use vstd::prelude::*;

use crate::domain::{phase_from, phase_of, phase_str, phase_word, IdModel, Phase, StoredId};
use crate::error::{Refusal, StoreError};
use crate::table::{chosen, listed, page, Pick, Stamp, Table};
use crate::text::{copied, join3, said, same};

verus! {

/// How long the claim of a timer holds before another sweep may take it, in
/// seconds.
pub const CLAIM_LEASE: i64 = 60;

/// A sleeping run, and when it wakes.
#[derive(Debug)]
pub struct Timer {
    pub run: String,
    pub case: Option<String>,
    pub effect: String,
    pub step: u32,
    pub phase: Phase,
    pub fire_at: i64,
}

/// What a [`Timer`] says.
pub struct TimerModel {
    pub run: Seq<char>,
    pub case: Option<Seq<char>>,
    pub effect: Seq<char>,
    pub step: u32,
    pub phase: Phase,
    pub fire_at: i64,
}

impl View for Timer {
    type V = TimerModel;

    open spec fn view(&self) -> TimerModel {
        TimerModel {
            run: self.run@,
            case: match self.case {
                Some(c) => Some(c@),
                None => None,
            },
            effect: self.effect@,
            step: self.step,
            phase: self.phase,
            fire_at: self.fire_at,
        }
    }
}

/// What a list of timers says.
pub open spec fn timers_of(v: Seq<Timer>) -> Seq<TimerModel> {
    Seq::new(v.len(), |i: int| v[i]@)
}

/// A timer as it is stored, under its run and effect.
#[derive(Debug)]
pub struct TimerRow {
    pub case: Option<StoredId>,
    pub step: i64,
    pub phase: String,
    pub fire_at: i64,
    pub claimed_at: Option<i64>,
    /// What is wrong with the run id the row is under, where it is none.
    pub run_fault: Option<String>,
    /// What is wrong with the effect key the row is under, where it is none.
    pub effect_fault: Option<String>,
    /// What is wrong with the instant it fires at, where it is none.
    pub fire_fault: Option<String>,
}

/// What a [`TimerRow`] says.
pub struct TimerRowModel {
    pub case: Option<IdModel>,
    pub step: i64,
    pub phase: Seq<char>,
    pub fire_at: i64,
    pub claimed_at: Option<i64>,
    pub run_fault: Option<Seq<char>>,
    pub effect_fault: Option<Seq<char>>,
    pub fire_fault: Option<Seq<char>>,
}

impl View for TimerRow {
    type V = TimerRowModel;

    open spec fn view(&self) -> TimerRowModel {
        TimerRowModel {
            case: match self.case {
                Some(c) => Some(c@),
                None => None,
            },
            step: self.step,
            phase: self.phase@,
            fire_at: self.fire_at,
            claimed_at: self.claimed_at,
            run_fault: said(self.run_fault),
            effect_fault: said(self.effect_fault),
            fire_fault: said(self.fire_fault),
        }
    }
}

impl TimerRow {
    fn claimed(&self, at: i64) -> (r: TimerRow)
        ensures
            r@ == (TimerRowModel { claimed_at: Some(at), ..self@ }),
    {
        TimerRow {
            case: match &self.case {
                Some(c) => Some(c.twin()),
                None => None,
            },
            step: self.step,
            phase: self.phase.clone(),
            fire_at: self.fire_at,
            claimed_at: Some(at),
            run_fault: copied(&self.run_fault),
            effect_fault: copied(&self.effect_fault),
            fire_fault: copied(&self.fire_fault),
        }
    }
}

/// A tenant's timer: its run and effect.
pub type TimerKey = (Seq<char>, (Seq<char>, Seq<char>));

/// The timers of a plane.
pub struct TimerBook {
    pub timers: Table<(String, (String, String)), TimerRow>,
}

impl View for TimerBook {
    type V = Map<TimerKey, TimerRowModel>;

    open spec fn view(&self) -> Map<TimerKey, TimerRowModel> {
        self.timers@
    }
}

/// The row of a timer that nobody has claimed.
pub open spec fn timer_row(t: TimerModel) -> TimerRowModel {
    TimerRowModel {
        case: match t.case {
            Some(c) => Some(crate::domain::good_id(c)),
            None => None,
        },
        step: t.step as i64,
        phase: phase_word(t.phase),
        fire_at: t.fire_at,
        claimed_at: None,
        run_fault: None,
        effect_fault: None,
        fire_fault: None,
    }
}

/// The timers after one was armed. One that is armed stays as it is.
pub open spec fn armed(m: Map<TimerKey, TimerRowModel>, t: Seq<char>, timer: TimerModel) -> Map<
    TimerKey,
    TimerRowModel,
> {
    let k = (t, (timer.run, timer.effect));
    if m.contains_key(k) {
        m
    } else {
        m.insert(k, timer_row(timer))
    }
}

/// Whether a timer may be claimed: it is due, and nobody has claimed it or the
/// claim has lapsed.
pub open spec fn ripe(row: TimerRowModel, now: i64) -> bool {
    row.fire_at <= now && match row.claimed_at {
        None => true,
        Some(at) => at + CLAIM_LEASE <= now,
    }
}

/// When each ripe timer of a tenant fires.
pub open spec fn ripe_in(t: Seq<char>, now: i64) -> spec_fn((TimerKey, TimerRowModel)) -> Option<
    i64,
> {
    |e: (TimerKey, TimerRowModel)|
        if e.0.0 == t && ripe(e.1, now) {
            Some(e.1.fire_at)
        } else {
            None
        }
}

/// When each timer of a tenant fires.
pub open spec fn fires_in(t: Seq<char>) -> spec_fn((TimerKey, TimerRowModel)) -> Option<i64> {
    |e: (TimerKey, TimerRowModel)|
        if e.0.0 == t {
            Some(e.1.fire_at)
        } else {
            None
        }
}

/// The timers of a tenant.
pub open spec fn timers_in(t: Seq<char>) -> spec_fn((TimerKey, TimerRowModel)) -> bool {
    |e: (TimerKey, TimerRowModel)| e.0.0 == t
}

/// The keys on a page of a list.
pub open spec fn paged(rows: Seq<((i64, TimerKey), ())>, limit: usize) -> Seq<TimerKey> {
    Seq::new(page(rows.len(), limit) as nat, |i: int| rows[i].0.1)
}

/// The timers after the first `n` of some were claimed.
pub open spec fn taken(m: Map<TimerKey, TimerRowModel>, keys: Seq<TimerKey>, now: i64, n: int) -> Map<
    TimerKey,
    TimerRowModel,
>
    decreases n,
{
    if n <= 0 {
        m
    } else {
        let before = taken(m, keys, now, n - 1);
        before.insert(
            keys[n - 1],
            TimerRowModel { claimed_at: Some(now), ..before[keys[n - 1]] },
        )
    }
}

pub open spec fn bad_text(what: Seq<char>, fault: Seq<char>) -> Seq<char> {
    what + ": "@ + fault
}

pub open spec fn bad(what: Seq<char>, fault: Seq<char>) -> Refusal {
    Refusal::Corrupt { seq: 0, detail: bad_text(what, fault) }
}

/// A step number as it is read: one that is none is the first.
pub open spec fn step_of(step: i64) -> u32 {
    if 0 <= step <= u32::MAX {
        step as u32
    } else {
        0
    }
}

/// How a timer reads: an id that is none is damage, the run's first, the case's
/// next and the effect's behind it. So is an instant that is none.
pub open spec fn timer_read(k: TimerKey, row: TimerRowModel) -> Result<TimerModel, Refusal> {
    match row.run_fault {
        Some(f) => Err(bad("bad run id"@, f)),
        None => match row.case {
            Some(IdModel { text: _, fault: Some(f) }) => Err(bad("bad case id"@, f)),
            _ => match row.effect_fault {
                Some(f) => Err(bad("bad effect key"@, f)),
                None => match row.fire_fault {
                    Some(f) => Err(bad("unrepresentable fire_at"@, f)),
                    None => Ok(
                        TimerModel {
                            run: k.1.0,
                            case: match row.case {
                                Some(id) => Some(id.text),
                                None => None,
                            },
                            effect: k.1.1,
                            step: step_of(row.step),
                            phase: phase_of(row.phase),
                            fire_at: row.fire_at,
                        },
                    ),
                },
            },
        },
    }
}

/// How the first `n` timers read, up to the first that does not.
pub open spec fn timers_read(m: Map<TimerKey, TimerRowModel>, keys: Seq<TimerKey>, n: int) -> Result<
    Seq<TimerModel>,
    Refusal,
>
    decreases n,
{
    if n <= 0 {
        Ok(Seq::empty())
    } else {
        match timers_read(m, keys, n - 1) {
            Err(e) => Err(e),
            Ok(out) => match timer_read(keys[n - 1], m[keys[n - 1]]) {
                Err(e) => Err(e),
                Ok(t) => Ok(out.push(t)),
            },
        }
    }
}

proof fn lemma_timers_refused(m: Map<TimerKey, TimerRowModel>, keys: Seq<TimerKey>, n: int, len: int)
    requires
        n <= len,
        timers_read(m, keys, n) is Err,
    ensures
        timers_read(m, keys, len) == timers_read(m, keys, n),
    decreases len - n,
{
    if n < len {
        lemma_timers_refused(m, keys, n, len - 1);
    }
}

/// The timers that a claim of those due takes.
pub open spec fn due_keys(m: Map<TimerKey, TimerRowModel>, t: Seq<char>, now: i64, limit: usize) -> Seq<
    TimerKey,
> {
    paged(listed::<(String, (String, String)), TimerRowModel>(m, ripe_in(t, now)), limit)
}

/// The timers after those that are due were claimed.
pub open spec fn due_claimed(m: Map<TimerKey, TimerRowModel>, t: Seq<char>, now: i64, limit: usize) -> Map<
    TimerKey,
    TimerRowModel,
> {
    let keys = due_keys(m, t, now, limit);
    taken(m, keys, now, keys.len() as int)
}

/// What claiming those that are due answers.
pub open spec fn claim_answer(m: Map<TimerKey, TimerRowModel>, t: Seq<char>, now: i64, limit: usize) -> Result<
    Seq<TimerModel>,
    Refusal,
> {
    let keys = due_keys(m, t, now, limit);
    timers_read(due_claimed(m, t, now, limit), keys, keys.len() as int)
}

/// What asking for the timers answers.
pub open spec fn pending_answer(m: Map<TimerKey, TimerRowModel>, t: Seq<char>, limit: usize) -> Result<
    Seq<TimerModel>,
    Refusal,
> {
    let keys = paged(listed::<(String, (String, String)), TimerRowModel>(m, fires_in(t)), limit);
    timers_read(m, keys, keys.len() as int)
}

/// How many timers a tenant has.
pub open spec fn timer_count(m: Map<TimerKey, TimerRowModel>, t: Seq<char>) -> nat {
    chosen::<(String, (String, String)), TimerRowModel>(m, timers_in(t)).len()
}

/// The timers after one was taken away.
pub open spec fn disarmed(m: Map<TimerKey, TimerRowModel>, k: TimerKey) -> Map<
    TimerKey,
    TimerRowModel,
> {
    m.remove(k)
}

struct RipeIn<'a> {
    tenant: &'a str,
    now: i64,
}

impl<'a> Stamp<(String, (String, String)), TimerRow> for RipeIn<'a> {
    closed spec fn stamp(&self, k: TimerKey, r: TimerRowModel) -> Option<i64> {
        if k.0 == self.tenant@ && ripe(r, self.now) {
            Some(r.fire_at)
        } else {
            None
        }
    }

    fn instant(&self, k: &(String, (String, String)), r: &TimerRow) -> (at: Option<i64>) {
        let free = match r.claimed_at {
            None => true,
            Some(at) => at as i128 + CLAIM_LEASE as i128 <= self.now as i128,
        };
        if same(&k.0, self.tenant) && r.fire_at <= self.now && free {
            Some(r.fire_at)
        } else {
            None
        }
    }
}

struct In<'a> {
    tenant: &'a str,
}

impl<'a> Stamp<(String, (String, String)), TimerRow> for In<'a> {
    closed spec fn stamp(&self, k: TimerKey, r: TimerRowModel) -> Option<i64> {
        if k.0 == self.tenant@ {
            Some(r.fire_at)
        } else {
            None
        }
    }

    fn instant(&self, k: &(String, (String, String)), r: &TimerRow) -> (at: Option<i64>) {
        if same(&k.0, self.tenant) {
            Some(r.fire_at)
        } else {
            None
        }
    }
}

impl<'a> Pick<(String, (String, String)), TimerRow> for In<'a> {
    closed spec fn picks(&self, k: TimerKey, r: TimerRowModel) -> bool {
        k.0 == self.tenant@
    }

    fn test(&self, k: &(String, (String, String)), r: &TimerRow) -> (b: bool) {
        same(&k.0, self.tenant)
    }
}

/// Says what is wrong with a stored value.
pub(crate) fn corrupt(what: &str, fault: &str) -> (e: StoreError)
    ensures
        e@ == bad(what@, fault@),
{
    StoreError::Corrupt { seq: 0, detail: join3(what, ": ", fault) }
}

/// Reads a timer.
fn timer_from(k: &(String, (String, String)), row: &TimerRow) -> (r: Result<Timer, StoreError>)
    ensures
        timer_read(k@, row@) == match r {
            Ok(t) => Ok::<TimerModel, Refusal>(t@),
            Err(e) => Err::<TimerModel, Refusal>(e@),
        },
{
    if let Some(f) = &row.run_fault {
        return Err(corrupt("bad run id", f));
    }
    let case = match &row.case {
        Some(id) => {
            if let Some(f) = &id.fault {
                return Err(corrupt("bad case id", f));
            }
            Some(id.text.clone())
        },
        None => None,
    };
    if let Some(f) = &row.effect_fault {
        return Err(corrupt("bad effect key", f));
    }
    if let Some(f) = &row.fire_fault {
        return Err(corrupt("unrepresentable fire_at", f));
    }
    let step: u32 = if 0 <= row.step && row.step <= u32::MAX as i64 {
        row.step as u32
    } else {
        0
    };
    Ok(
        Timer {
            run: k.1.0.clone(),
            case,
            effect: k.1.1.clone(),
            step,
            phase: phase_from(&row.phase),
            fire_at: row.fire_at,
        },
    )
}

impl TimerBook {
    /// No timers.
    pub fn new() -> (b: TimerBook)
        ensures
            b@ == Map::<TimerKey, TimerRowModel>::empty(),
    {
        TimerBook { timers: Table::new() }
    }

    /// Arms a timer. Arming it again changes nothing.
    pub fn arm(&mut self, tenant: &str, timer: &Timer)
        ensures
            final(self)@ == armed(old(self)@, tenant@, timer@),
    {
        let key = (tenant.to_owned(), (timer.run.clone(), timer.effect.clone()));
        if self.timers.contains(&key) {
            return ;
        }
        let row = TimerRow {
            case: match &timer.case {
                Some(c) => Some(StoredId { text: c.clone(), fault: None }),
                None => None,
            },
            step: timer.step as i64,
            phase: phase_str(timer.phase).to_owned(),
            fire_at: timer.fire_at,
            claimed_at: None,
            run_fault: None,
            effect_fault: None,
            fire_fault: None,
        };
        assert(row@ == timer_row(timer@));
        self.timers.insert(key, row);
    }

    /// Reads the timers under some keys.
    fn collect(&self, keys: &Vec<(String, (String, String))>, want: Ghost<Seq<TimerKey>>) -> (r:
        Result<Vec<Timer>, StoreError>)
        requires
            keys@.len() == want@.len(),
            forall|i: int|
                0 <= i < keys@.len() ==> (#[trigger] keys@[i])@ == want@[i] && self@.contains_key(
                    want@[i],
                ),
        ensures
            timers_read(self@, want@, want@.len() as int) == match r {
                Ok(out) => Ok::<Seq<TimerModel>, Refusal>(timers_of(out@)),
                Err(e) => Err::<Seq<TimerModel>, Refusal>(e@),
            },
    {
        let mut out: Vec<Timer> = Vec::new();
        let mut i: usize = 0;
        assert(timers_of(out@) =~= Seq::<TimerModel>::empty());
        assert forall|j: int| 0 <= j < keys@.len() implies self@.contains_key(
            #[trigger] want@[j],
        ) by {
            assert(keys@[j]@ == want@[j]);
        }
        while i < keys.len()
            invariant
                i <= keys@.len(),
                keys@.len() == want@.len(),
                forall|j: int| 0 <= j < keys@.len() ==> (#[trigger] keys@[j])@ == want@[j],
                forall|j: int| 0 <= j < keys@.len() ==> self@.contains_key(#[trigger] want@[j]),
                timers_read(self@, want@, i as int) == Ok::<Seq<TimerModel>, Refusal>(
                    timers_of(out@),
                ),
            decreases keys@.len() - i,
        {
            assert(keys@[i as int]@ == want@[i as int]);
            match self.timers.get(&keys[i]) {
                Some(row) => {
                    match timer_from(&keys[i], row) {
                        Ok(t) => {
                            let ghost so_far = timers_of(out@);
                            let ghost last = t@;
                            out.push(t);
                            assert(timers_of(out@) =~= so_far.push(last));
                        },
                        Err(e) => {
                            proof {
                                lemma_timers_refused(
                                    self@,
                                    want@,
                                    i + 1,
                                    want@.len() as int,
                                );
                            }
                            return Err(e);
                        },
                    }
                },
                None => {},
            }
            i = i + 1;
        }
        Ok(out)
    }

    /// Claims the timers that are due, the earliest first and no more than
    /// `limit` of them. A timer that somebody has claimed is passed over until
    /// the claim lapses. What was claimed stays claimed even where one of them
    /// cannot be read.
    pub fn claim_due(&mut self, tenant: &str, now: i64, limit: usize) -> (r: Result<
        Vec<Timer>,
        StoreError,
    >)
        ensures
            final(self)@ == due_claimed(old(self)@, tenant@, now, limit),
            claim_answer(old(self)@, tenant@, now, limit) == match r {
                Ok(out) => Ok::<Seq<TimerModel>, Refusal>(timers_of(out@)),
                Err(e) => Err::<Seq<TimerModel>, Refusal>(e@),
            },
    {
        let ghost before = self@;
        let ghost rows = listed::<(String, (String, String)), TimerRowModel>(
            before,
            ripe_in(tenant@, now),
        );
        let ghost want = paged(rows, limit);
        let keys = self.timers.list(
            &RipeIn { tenant, now },
            limit,
            Ghost(ripe_in(tenant@, now)),
        );
        assert forall|j: int| 0 <= j < keys@.len() implies before.contains_key(
            #[trigger] want[j],
        ) by {
            assert(keys@[j]@ == want[j]);
        }
        let mut i: usize = 0;
        while i < keys.len()
            invariant
                i <= keys@.len(),
                keys@.len() == want.len(),
                forall|j: int| 0 <= j < keys@.len() ==> (#[trigger] keys@[j])@ == want[j],
                forall|j: int| 0 <= j < keys@.len() ==> before.contains_key(#[trigger] want[j]),
                self@ == taken(before, want, now, i as int),
                forall|k: TimerKey| #[trigger] before.contains_key(k) ==> self@.contains_key(k),
            decreases keys@.len() - i,
        {
            assert(keys@[i as int]@ == want[i as int]);
            let ghost mid = self@;
            let k = &keys[i];
            let row = match self.timers.get(k) {
                Some(row) => row.claimed(now),
                None => {
                    return Ok(Vec::new());
                },
            };
            self.timers.insert((k.0.clone(), (k.1.0.clone(), k.1.1.clone())), row);
            assert forall|x: TimerKey| #[trigger] before.contains_key(x) implies self@.contains_key(
                x,
            ) by {
                assert(mid.contains_key(x));
            }
            i = i + 1;
        }
        assert forall|j: int| 0 <= j < keys@.len() implies (#[trigger] keys@[j])@ == want[j]
            && self@.contains_key(want[j]) by {
            assert(keys@[j]@ == want[j]);
            assert(before.contains_key(want[j]));
        }
        self.collect(&keys, Ghost(want))
    }

    /// How many timers there are.
    pub fn pending_count(&self, tenant: &str) -> (n: u64)
        ensures
            n == timer_count(self@, tenant@),
    {
        self.timers.tally(&In { tenant }, Ghost(timers_in(tenant@))) as u64
    }

    /// Takes a timer away.
    pub fn disarm(&mut self, tenant: &str, run: &str, effect: &str)
        ensures
            final(self)@ == disarmed(old(self)@, (tenant@, (run@, effect@))),
    {
        let _ = self.timers.remove(&(tenant.to_owned(), (run.to_owned(), effect.to_owned())));
    }

    /// The timers, the earliest first and no more than `limit` of them.
    pub fn pending(&self, tenant: &str, limit: usize) -> (r: Result<Vec<Timer>, StoreError>)
        ensures
            pending_answer(self@, tenant@, limit) == match r {
                Ok(out) => Ok::<Seq<TimerModel>, Refusal>(timers_of(out@)),
                Err(e) => Err::<Seq<TimerModel>, Refusal>(e@),
            },
    {
        let keys = self.timers.list(&In { tenant }, limit, Ghost(fires_in(tenant@)));
        self.collect(
            &keys,
            Ghost(
                paged(
                    listed::<(String, (String, String)), TimerRowModel>(self@, fires_in(tenant@)),
                    limit,
                ),
            ),
        )
    }
}

// ── Laws ────────────────────────────────────────────────────────────────────

/// What was armed reads back as it was.
pub proof fn law_timer_round_trip(t: Seq<char>, timer: TimerModel)
    ensures
        timer_read((t, (timer.run, timer.effect)), timer_row(timer)) == Ok::<TimerModel, Refusal>(
            timer,
        ),
{
    crate::domain::law_phase_round_trip(timer.phase);
}

/// A timer that was claimed is claimed by nobody else until the claim lapses,
/// and by somebody again once it has: two sweeps do not wake one run twice, and
/// a wake that died is not lost.
pub proof fn law_claim_holds_for_its_lease(row: TimerRowModel, now: i64, later: i64)
    requires
        ripe(row, now),
        now <= later,
    ensures
        ripe(TimerRowModel { claimed_at: Some(now), ..row }, later) <==> now + CLAIM_LEASE
            <= later,
{
}

/// Claiming marks exactly the timers that were given out.
pub proof fn law_claims_mark_what_they_give(
    m: Map<TimerKey, TimerRowModel>,
    keys: Seq<TimerKey>,
    now: i64,
    n: int,
    k: TimerKey,
)
    requires
        0 <= n <= keys.len(),
        m.contains_key(k),
        forall|i: int| 0 <= i < keys.len() ==> m.contains_key(#[trigger] keys[i]),
    ensures
        taken(m, keys, now, n).contains_key(k),
        taken(m, keys, now, n)[k] == if keys.take(n).contains(k) {
            TimerRowModel { claimed_at: Some(now), ..m[k] }
        } else {
            m[k]
        },
    decreases n,
{
    if n > 0 {
        law_claims_mark_what_they_give(m, keys, now, n - 1, k);
        let a = keys.take(n - 1);
        let b = keys.take(n);
        assert(b =~= a.push(keys[n - 1]));
        if a.contains(k) {
            let i = choose|i: int| 0 <= i < a.len() && a[i] == k;
            assert(b[i] == k);
        }
        if k == keys[n - 1] {
            assert(b[n - 1] == k);
        }
        if b.contains(k) {
            let i = choose|i: int| 0 <= i < b.len() && b[i] == k;
            if i < n - 1 {
                assert(a[i] == k);
            }
        }
    }
}

/// A timer that is due and free is given out, where the page has room for all.
pub proof fn law_due_timer_is_found(
    m: Map<TimerKey, TimerRowModel>,
    t: Seq<char>,
    now: i64,
    limit: usize,
    k: TimerKey,
)
    requires
        crate::table::stamped::<(String, (String, String)), TimerRowModel>(
            m,
            ripe_in(t, now),
        ).dom().finite(),
        m.contains_key(k),
        k.0 == t,
        ripe(m[k], now),
        listed::<(String, (String, String)), TimerRowModel>(m, ripe_in(t, now)).len() <= limit,
    ensures
        paged(
            listed::<(String, (String, String)), TimerRowModel>(m, ripe_in(t, now)),
            limit,
        ).contains(k),
{
    let s = crate::table::stamped::<(String, (String, String)), TimerRowModel>(m, ripe_in(t, now));
    crate::table::lemma_walk::<(i64, (String, (String, String))), ()>(s);
    let w = listed::<(String, (String, String)), TimerRowModel>(m, ripe_in(t, now));
    let e = (m[k].fire_at, k);
    assert(s.contains_key(e));
    assert(crate::table::has_key(w, e));
    let i = choose|i: int| 0 <= i < w.len() && (#[trigger] w[i]).0 == e;
    assert(paged(w, limit)[i] == k);
}

/// Arming twice is arming once, and a disarmed timer is gone.
pub proof fn law_arming_is_idempotent(
    m: Map<TimerKey, TimerRowModel>,
    t: Seq<char>,
    timer: TimerModel,
)
    ensures
        armed(armed(m, t, timer), t, timer) == armed(m, t, timer),
        !armed(m, t, timer).remove((t, (timer.run, timer.effect))).contains_key(
            (t, (timer.run, timer.effect)),
        ),
{
}


/// A timer that is armed is the tenant's own until it is taken away, as it was
/// armed first; no other timer is touched.
pub proof fn law_armed_until_taken_away(
    m: Map<TimerKey, TimerRowModel>,
    t: Seq<char>,
    timer: TimerModel,
    k: TimerKey,
)
    ensures
        ({
            let own = (t, (timer.run, timer.effect));
            let after = armed(m, t, timer);
            &&& after.contains_key(own)
            &&& !m.contains_key(own) ==> timer_read(own, after[own]) == Ok::<TimerModel, Refusal>(
                timer,
            ) && after[own].claimed_at is None
            &&& m.contains_key(k) ==> after.contains_key(k) && after[k] == m[k]
            &&& k != own && !m.contains_key(k) ==> !after.contains_key(k)
            &&& !disarmed(after, own).contains_key(own)
            &&& k != own ==> disarmed(m, own).contains_key(k) == m.contains_key(k)
            &&& k != own && m.contains_key(k) ==> disarmed(m, own)[k] == m[k]
        }),
{
    law_timer_round_trip(t, timer);
}

proof fn lemma_each_timer(m: Map<TimerKey, TimerRowModel>, keys: Seq<TimerKey>, n: int)
    requires
        0 <= n <= keys.len(),
        timers_read(m, keys, n) is Ok,
    ensures
        timers_read(m, keys, n)->Ok_0.len() == n,
        forall|i: int|
            0 <= i < n ==> timer_read(#[trigger] keys[i], m[keys[i]]) == Ok::<TimerModel, Refusal>(
                timers_read(m, keys, n)->Ok_0[i],
            ),
    decreases n,
{
    if n > 0 {
        lemma_each_timer(m, keys, n - 1);
        let before = timers_read(m, keys, n - 1)->Ok_0;
        let after = timers_read(m, keys, n)->Ok_0;
        assert forall|i: int| 0 <= i < n implies timer_read(#[trigger] keys[i], m[keys[i]]) == Ok::<
            TimerModel,
            Refusal,
        >(after[i]) by {
            if i < n - 1 {
                assert(after[i] == before[i]);
            }
        }
    }
}

/// What a page of a list of timers holds.
proof fn lemma_page(
    m: Map<TimerKey, TimerRowModel>,
    t: Seq<char>,
    f: spec_fn((TimerKey, TimerRowModel)) -> Option<i64>,
    limit: usize,
)
    requires
        m.dom().finite(),
        forall|k: TimerKey, r: TimerRowModel| #[trigger]
            f((k, r)) matches Some(at) ==> k.0 == t && at == r.fire_at,
    ensures
        ({
            let keys = paged(listed::<(String, (String, String)), TimerRowModel>(m, f), limit);
            &&& keys.len() <= limit
            &&& forall|i: int|
                0 <= i < keys.len() ==> m.contains_key(#[trigger] keys[i]) && keys[i].0 == t && f(
                    (keys[i], m[keys[i]]),
                ) is Some
            &&& forall|i: int, j: int|
                0 <= i < j < keys.len() ==> m[#[trigger] keys[i]].fire_at <= m[
                    #[trigger] keys[j]
                ].fire_at && keys[i] != keys[j]
            &&& forall|k: TimerKey| #[trigger]
                m.contains_key(k) && f((k, m[k])) is Some && !keys.contains(k) ==> keys.len()
                    == limit && forall|i: int|
                    0 <= i < keys.len() ==> m[#[trigger] keys[i]].fire_at <= m[k].fire_at
        }),
{
    let rows = listed::<(String, (String, String)), TimerRowModel>(m, f);
    let keys = paged(rows, limit);
    crate::table::lemma_listed::<(String, (String, String)), TimerRowModel>(m, f);
    crate::table::lemma_listed_counted::<(String, (String, String)), TimerRowModel>(m, f);
    assert forall|i: int| 0 <= i < keys.len() implies m.contains_key(#[trigger] keys[i])
        && keys[i].0 == t && f((keys[i], m[keys[i]])) == Some(rows[i].0.0) && m[keys[i]].fire_at
        == rows[i].0.0 by {
        let e = rows[i].0;
        assert(keys[i] == e.1);
        assert(f((e.1, m[e.1])) == Some(e.0));
    }
    assert forall|i: int, j: int| 0 <= i < j < keys.len() implies m[
        #[trigger] keys[i]
    ].fire_at <= m[#[trigger] keys[j]].fire_at && keys[i] != keys[j] by {
        assert(rows[i].0.0 <= rows[j].0.0 && rows[i].0.1 != rows[j].0.1);
    }
    assert forall|k: TimerKey| #[trigger]
        m.contains_key(k) && f((k, m[k])) is Some && !keys.contains(k) implies keys.len() == limit
        && forall|i: int| 0 <= i < keys.len() ==> m[#[trigger] keys[i]].fire_at <= m[k].fire_at by {
        let at = f((k, m[k]))->0;
        assert(f((k, m[k])) == Some(at));
        assert(crate::table::has_key(rows, (at, k)));
        let p = choose|p: int| 0 <= p < rows.len() && (#[trigger] rows[p]).0 == (at, k);
        if p < keys.len() {
            assert(keys[p] == k);
        }
        assert forall|i: int| 0 <= i < keys.len() implies m[#[trigger] keys[i]].fire_at
            <= m[k].fire_at by {
            assert(rows[i].0.0 <= rows[p].0.0);
        }
    }
}

/// A sweep is given the timers that fire by now and that nobody claimed within the
/// lease, the earliest first and each once; they are claimed from then on, and every
/// other timer is as it was. What is left for want of room fires no earlier.
pub proof fn law_claim_takes_what_is_due(
    m: Map<TimerKey, TimerRowModel>,
    t: Seq<char>,
    now: i64,
    limit: usize,
    out: Seq<TimerModel>,
    k: TimerKey,
)
    requires
        m.dom().finite(),
        claim_answer(m, t, now, limit) == Ok::<Seq<TimerModel>, Refusal>(out),
    ensures
        ({
            let after = due_claimed(m, t, now, limit);
            let due = m.contains_key(k) && k.0 == t && m[k].fire_at <= now && (
            m[k].claimed_at is None || m[k].claimed_at->0 + 60 <= now);
            let given = exists|i: int|
                0 <= i < out.len() && (#[trigger] out[i]).run == k.1.0 && out[i].effect == k.1.1;
            &&& out.len() <= limit
            &&& k.0 == t && given ==> due
            &&& due && !given ==> out.len() == limit && forall|i: int|
                0 <= i < out.len() ==> (#[trigger] out[i]).fire_at <= m[k].fire_at
            &&& k.0 == t && given ==> after[k] == (TimerRowModel { claimed_at: Some(now), ..m[k] })
            &&& m.contains_key(k) && !(k.0 == t && given) ==> after[k] == m[k]
            &&& after.contains_key(k) == m.contains_key(k)
            &&& forall|i: int|
                0 <= i < out.len() ==> timer_read(
                    (t, ((#[trigger] out[i]).run, out[i].effect)),
                    m[(t, (out[i].run, out[i].effect))],
                ) == Ok::<TimerModel, Refusal>(out[i])
            &&& forall|i: int, j: int|
                0 <= i < j < out.len() ==> (#[trigger] out[i]).fire_at <= (
                #[trigger] out[j]).fire_at
        }),
{
    let f = ripe_in(t, now);
    let keys = due_keys(m, t, now, limit);
    let after = due_claimed(m, t, now, limit);
    lemma_page(m, t, f, limit);
    lemma_each_timer(after, keys, keys.len() as int);
    let n = keys.len() as int;
    assert(keys.take(n) =~= keys);
    assert forall|x: TimerKey| #[trigger] m.contains_key(x) implies after.contains_key(x)
        && after[x] == if keys.contains(x) {
        TimerRowModel { claimed_at: Some(now), ..m[x] }
    } else {
        m[x]
    } by {
        law_claims_mark_what_they_give(m, keys, now, n, x);
    }
    assert(after.contains_key(k) ==> m.contains_key(k)) by {
        lemma_taken_dom(m, keys, now, n, k);
    }
    assert forall|i: int| 0 <= i < out.len() implies (t, ((#[trigger] out[i]).run, out[i].effect))
        == keys[i] && timer_read(keys[i], m[keys[i]]) == Ok::<TimerModel, Refusal>(out[i])
        && out[i].fire_at == m[keys[i]].fire_at by {
        assert(m.contains_key(keys[i]));
        assert(timer_read(keys[i], after[keys[i]]) == Ok::<TimerModel, Refusal>(out[i]));
    }
    let given = exists|i: int|
        0 <= i < out.len() && (#[trigger] out[i]).run == k.1.0 && out[i].effect == k.1.1;
    if k.0 == t && given {
        let i = choose|i: int|
            0 <= i < out.len() && (#[trigger] out[i]).run == k.1.0 && out[i].effect == k.1.1;
        assert(keys[i] == k);
        assert(f((k, m[k])) is Some);
    }
    if keys.contains(k) {
        let i = choose|i: int| 0 <= i < keys.len() && keys[i] == k;
        assert(out[i].run == k.1.0 && out[i].effect == k.1.1);
    } else if m.contains_key(k) && f((k, m[k])) is Some {
        assert forall|i: int| 0 <= i < out.len() implies (#[trigger] out[i]).fire_at
            <= m[k].fire_at by {
            assert(m[keys[i]].fire_at <= m[k].fire_at);
        }
    }
    assert forall|i: int, j: int| 0 <= i < j < out.len() implies (#[trigger] out[i]).fire_at <= (
    #[trigger] out[j]).fire_at by {
        assert(m[keys[i]].fire_at <= m[keys[j]].fire_at);
    }
}

proof fn lemma_taken_dom(
    m: Map<TimerKey, TimerRowModel>,
    keys: Seq<TimerKey>,
    now: i64,
    n: int,
    k: TimerKey,
)
    requires
        0 <= n <= keys.len(),
        forall|i: int| 0 <= i < keys.len() ==> m.contains_key(#[trigger] keys[i]),
    ensures
        taken(m, keys, now, n).contains_key(k) ==> m.contains_key(k),
    decreases n,
{
    if n > 0 {
        lemma_taken_dom(m, keys, now, n - 1, k);
    }
}

/// The list of timers has every timer of the tenant and no other's, the earliest
/// first; as many are counted as there are.
pub proof fn law_timers_are_listed_and_counted(
    m: Map<TimerKey, TimerRowModel>,
    t: Seq<char>,
    limit: usize,
    out: Seq<TimerModel>,
    k: TimerKey,
)
    requires
        m.dom().finite(),
        pending_answer(m, t, limit) == Ok::<Seq<TimerModel>, Refusal>(out),
    ensures
        out.len() <= limit,
        forall|i: int|
            0 <= i < out.len() ==> m.contains_key((t, ((#[trigger] out[i]).run, out[i].effect)))
                && timer_read(
                (t, (out[i].run, out[i].effect)),
                m[(t, (out[i].run, out[i].effect))],
            ) == Ok::<TimerModel, Refusal>(out[i]),
        forall|i: int, j: int|
            0 <= i < j < out.len() ==> (#[trigger] out[i]).fire_at <= (#[trigger] out[j]).fire_at,
        m.contains_key(k) && k.0 == t && !(exists|i: int|
            0 <= i < out.len() && (#[trigger] out[i]).run == k.1.0 && out[i].effect == k.1.1)
            ==> out.len() == limit && forall|i: int|
            0 <= i < out.len() ==> (#[trigger] out[i]).fire_at <= m[k].fire_at,
        timer_count(m, t) == Set::new(|x: TimerKey| m.contains_key(x) && x.0 == t).len(),
{
    let f = fires_in(t);
    let keys = paged(listed::<(String, (String, String)), TimerRowModel>(m, f), limit);
    lemma_page(m, t, f, limit);
    lemma_each_timer(m, keys, keys.len() as int);
    assert forall|i: int| 0 <= i < out.len() implies (t, ((#[trigger] out[i]).run, out[i].effect))
        == keys[i] && m.contains_key(keys[i]) && timer_read(keys[i], m[keys[i]]) == Ok::<
        TimerModel,
        Refusal,
    >(out[i]) by {
        assert(timer_read(keys[i], m[keys[i]]) == Ok::<TimerModel, Refusal>(out[i]));
    }
    assert forall|i: int, j: int| 0 <= i < j < out.len() implies (#[trigger] out[i]).fire_at <= (
    #[trigger] out[j]).fire_at by {
        assert(m[keys[i]].fire_at <= m[keys[j]].fire_at);
    }
    if m.contains_key(k) && k.0 == t {
        assert(f((k, m[k])) is Some);
        if keys.contains(k) {
            let i = choose|i: int| 0 <= i < keys.len() && keys[i] == k;
            assert(out[i].run == k.1.0);
        } else {
            assert forall|i: int| 0 <= i < out.len() implies (#[trigger] out[i]).fire_at
                <= m[k].fire_at by {
                assert(m[keys[i]].fire_at <= m[k].fire_at);
            }
        }
    }
    let g = timers_in(t);
    crate::table::lemma_chosen_counted::<(String, (String, String)), TimerRowModel>(m, g);
    assert(Set::new(|x: TimerKey| m.contains_key(x) && g((x, m[x]))) =~= Set::new(
        |x: TimerKey| m.contains_key(x) && x.0 == t,
    ));
}

/// A timer reads as it is kept.
pub proof fn law_timer_reads_as_it_is_kept(k: TimerKey, row: TimerRowModel)
    ensures
        timer_read(k, row) is Ok <==> row.run_fault is None && (row.case is Some
            ==> row.case->0.fault is None) && row.effect_fault is None && row.fire_fault is None,
        timer_read(k, row) matches Ok(x) ==> {
            &&& x.run == k.1.0
            &&& x.effect == k.1.1
            &&& x.fire_at == row.fire_at
            &&& x.case is Some <==> row.case is Some
            &&& row.case is Some ==> x.case == Some(row.case->0.text)
            &&& 0 <= row.step <= u32::MAX ==> x.step == row.step
            &&& x.phase == phase_of(row.phase)
        },
{
}

} // verus!
