//! Webhook registrations, and how far each has been delivered.

use vstd::prelude::*;

use crate::domain::{signed, to_count, to_signed, to_unsigned, unsigned, unsigned_count};
use crate::error::{Refusal, StoreError};
use crate::table::{chosen, lemma_listed, listed, page, Pick, Stamp, Table};
use crate::text::{copied, said, same};

verus! {

/// The credentials a delivery is authenticated with.
#[derive(Debug)]
pub struct PushAuthentication {
    pub scheme: String,
    pub credentials: String,
}

/// Where a task's progress is delivered.
#[derive(Debug)]
pub struct PushConfig {
    pub id: String,
    pub task: String,
    pub url: String,
    pub token: Option<String>,
    pub authentication: Option<PushAuthentication>,
}

/// What a [`PushConfig`] says.
pub struct ConfigModel {
    pub id: Seq<char>,
    pub task: Seq<char>,
    pub url: Seq<char>,
    pub token: Option<Seq<char>>,
    pub authentication: Option<(Seq<char>, Seq<char>)>,
}

impl View for PushConfig {
    type V = ConfigModel;

    open spec fn view(&self) -> ConfigModel {
        ConfigModel {
            id: self.id@,
            task: self.task@,
            url: self.url@,
            token: said(self.token),
            authentication: match self.authentication {
                Some(a) => Some((a.scheme@, a.credentials@)),
                None => None,
            },
        }
    }
}

/// A registration, and where its delivery stands.
#[derive(Debug)]
pub struct PushRegistration {
    pub config: PushConfig,
    pub next_seq: u64,
    pub attempts: u32,
    pub next_attempt_at: u64,
    pub last_error: Option<String>,
}

/// What a [`PushRegistration`] says.
pub struct RegistrationModel {
    pub config: ConfigModel,
    pub next_seq: u64,
    pub attempts: u32,
    pub next_attempt_at: u64,
    pub last_error: Option<Seq<char>>,
}

impl View for PushRegistration {
    type V = RegistrationModel;

    open spec fn view(&self) -> RegistrationModel {
        RegistrationModel {
            config: self.config@,
            next_seq: self.next_seq,
            attempts: self.attempts,
            next_attempt_at: self.next_attempt_at,
            last_error: said(self.last_error),
        }
    }
}

/// A registration as it is stored, under its task and id.
#[derive(Debug)]
pub struct PushRow {
    pub url: String,
    pub token: Option<String>,
    pub auth_scheme: Option<String>,
    pub auth_credentials: Option<String>,
    pub next_seq: i64,
    pub attempts: i32,
    pub next_attempt_at: i64,
    pub last_error: Option<String>,
    /// Whether delivery was given up until somebody looks: a row that is parked
    /// is never due.
    pub parked: bool,
    /// What is wrong with the task id the row is under, where it is none.
    pub fault: Option<String>,
}

/// What a [`PushRow`] says.
pub struct PushModel {
    pub url: Seq<char>,
    pub token: Option<Seq<char>>,
    pub auth_scheme: Option<Seq<char>>,
    pub auth_credentials: Option<Seq<char>>,
    pub next_seq: i64,
    pub attempts: i32,
    pub next_attempt_at: i64,
    pub last_error: Option<Seq<char>>,
    pub parked: bool,
    pub fault: Option<Seq<char>>,
}

impl View for PushRow {
    type V = PushModel;

    open spec fn view(&self) -> PushModel {
        PushModel {
            url: self.url@,
            token: said(self.token),
            auth_scheme: said(self.auth_scheme),
            auth_credentials: said(self.auth_credentials),
            next_seq: self.next_seq,
            attempts: self.attempts,
            next_attempt_at: self.next_attempt_at,
            last_error: said(self.last_error),
            parked: self.parked,
            fault: said(self.fault),
        }
    }
}

impl PushRow {
    fn twin(&self) -> (r: PushRow)
        ensures
            r@ == self@,
    {
        PushRow {
            url: self.url.clone(),
            token: copied(&self.token),
            auth_scheme: copied(&self.auth_scheme),
            auth_credentials: copied(&self.auth_credentials),
            next_seq: self.next_seq,
            attempts: self.attempts,
            next_attempt_at: self.next_attempt_at,
            last_error: copied(&self.last_error),
            parked: self.parked,
            fault: copied(&self.fault),
        }
    }
}

/// A tenant's registration: its task and id.
pub type PushKey = (Seq<char>, (Seq<char>, Seq<char>));

/// The webhook registrations of a plane.
pub struct PushBook {
    pub rows: Table<(String, (String, String)), PushRow>,
}

impl View for PushBook {
    type V = Map<PushKey, PushModel>;

    open spec fn view(&self) -> Map<PushKey, PushModel> {
        self.rows@
    }
}

/// The registrations after one was put. One that is there takes the new address
/// and credentials, starts its attempts over, and goes on where it was.
pub open spec fn put_row(m: Map<PushKey, PushModel>, t: Seq<char>, c: ConfigModel, next_seq: u64) -> Map<
    PushKey,
    PushModel,
> {
    let k = (t, (c.task, c.id));
    m.insert(
        k,
        PushModel {
            url: c.url,
            token: c.token,
            auth_scheme: match c.authentication {
                Some(a) => Some(a.0),
                None => None,
            },
            auth_credentials: match c.authentication {
                Some(a) => Some(a.1),
                None => None,
            },
            next_seq: if m.contains_key(k) {
                m[k].next_seq
            } else {
                signed(next_seq)
            },
            attempts: 0,
            next_attempt_at: 0,
            last_error: None,
            parked: m.contains_key(k) && m[k].parked,
            fault: if m.contains_key(k) {
                m[k].fault
            } else {
                None
            },
        },
    )
}

/// What a row says of where to deliver. Credentials are there where the scheme
/// and they both are.
pub open spec fn config_of(k: PushKey, row: PushModel) -> ConfigModel {
    ConfigModel {
        id: k.1.1,
        task: k.1.0,
        url: row.url,
        token: row.token,
        authentication: match (row.auth_scheme, row.auth_credentials) {
            (Some(s), Some(c)) => Some((s, c)),
            _ => None,
        },
    }
}

/// How a registration reads. A task id that is none is refused.
pub open spec fn registration_read(k: PushKey, row: PushModel) -> Result<
    RegistrationModel,
    Refusal,
> {
    match row.fault {
        Some(f) => Err(Refusal::Backend(f)),
        None => Ok(
            RegistrationModel {
                config: config_of(k, row),
                next_seq: unsigned(row.next_seq),
                attempts: unsigned_count(row.attempts),
                next_attempt_at: unsigned(row.next_attempt_at),
                last_error: row.last_error,
            },
        ),
    }
}

/// How the first `n` registrations read, up to the first that does not.
pub open spec fn registrations_read(m: Map<PushKey, PushModel>, keys: Seq<PushKey>, n: int) -> Result<
    Seq<RegistrationModel>,
    Refusal,
>
    decreases n,
{
    if n <= 0 {
        Ok(Seq::empty())
    } else {
        match registrations_read(m, keys, n - 1) {
            Err(e) => Err(e),
            Ok(out) => match registration_read(keys[n - 1], m[keys[n - 1]]) {
                Err(e) => Err(e),
                Ok(r) => Ok(out.push(r)),
            },
        }
    }
}

proof fn lemma_refused(m: Map<PushKey, PushModel>, keys: Seq<PushKey>, n: int, len: int)
    requires
        n <= len,
        registrations_read(m, keys, n) is Err,
    ensures
        registrations_read(m, keys, len) == registrations_read(m, keys, n),
    decreases len - n,
{
    if n < len {
        lemma_refused(m, keys, n, len - 1);
    }
}

/// A row whose delivery moved on. It never moves back.
pub open spec fn advanced(row: PushModel, next_seq: u64) -> PushModel {
    PushModel {
        next_seq: if row.next_seq < signed(next_seq) {
            signed(next_seq)
        } else {
            row.next_seq
        },
        attempts: 0,
        next_attempt_at: 0,
        last_error: None,
        ..row
    }
}

/// A row whose delivery failed, and is tried again at an instant.
pub open spec fn retried(row: PushModel, next_attempt_at: u64, error: Seq<char>) -> PushModel {
    PushModel {
        attempts: if row.attempts < i32::MAX {
            (row.attempts + 1) as i32
        } else {
            i32::MAX
        },
        next_attempt_at: signed(next_attempt_at),
        last_error: Some(error),
        ..row
    }
}

/// When each registration that is due is next tried. One that is parked is not
/// tried.
pub open spec fn due_in(t: Seq<char>, at: u64) -> spec_fn((PushKey, PushModel)) -> Option<i64> {
    |e: (PushKey, PushModel)|
        if e.0.0 == t && !e.1.parked && e.1.next_attempt_at <= signed(at) {
            Some(e.1.next_attempt_at)
        } else {
            None
        }
}

/// The registrations of a task.
pub open spec fn of_task(t: Seq<char>, task: Seq<char>) -> spec_fn((PushKey, PushModel)) -> bool {
    |e: (PushKey, PushModel)| e.0.0 == t && e.0.1.0 == task
}

/// What a list of configurations says.
pub open spec fn configs_of(v: Seq<PushConfig>) -> Seq<ConfigModel> {
    Seq::new(v.len(), |i: int| v[i]@)
}

/// What a list of registrations says.
pub open spec fn registrations_of(v: Seq<PushRegistration>) -> Seq<RegistrationModel> {
    Seq::new(v.len(), |i: int| v[i]@)
}

/// The keys on a page of a list.
pub open spec fn paged(rows: Seq<((i64, PushKey), ())>, limit: usize) -> Seq<PushKey> {
    Seq::new(page(rows.len(), limit) as nat, |i: int| rows[i].0.1)
}

/// Where a registration is delivered, if it is there.
pub open spec fn found(m: Map<PushKey, PushModel>, k: PushKey) -> Option<ConfigModel> {
    if m.contains_key(k) {
        Some(config_of(k, m[k]))
    } else {
        None
    }
}

/// The registrations of a task, by id.
pub open spec fn task_configs(m: Map<PushKey, PushModel>, t: Seq<char>, task: Seq<char>) -> Seq<
    ConfigModel,
> {
    let rows = chosen::<(String, (String, String)), PushModel>(m, of_task(t, task));
    Seq::new(rows.len(), |i: int| config_of(rows[i].0, rows[i].1))
}

/// What asking for the registrations that are due answers.
pub open spec fn due_answer(m: Map<PushKey, PushModel>, t: Seq<char>, at: u64, limit: usize) -> Result<
    Seq<RegistrationModel>,
    Refusal,
> {
    let keys = paged(listed::<(String, (String, String)), PushModel>(m, due_in(t, at)), limit);
    registrations_read(m, keys, keys.len() as int)
}

/// The registrations after one was delivered up to a place.
pub open spec fn moved_on(m: Map<PushKey, PushModel>, k: PushKey, next_seq: u64) -> Map<
    PushKey,
    PushModel,
> {
    if m.contains_key(k) {
        m.insert(k, advanced(m[k], next_seq))
    } else {
        m
    }
}

/// The registrations after the delivery of one failed.
pub open spec fn put_off(
    m: Map<PushKey, PushModel>,
    k: PushKey,
    next_attempt_at: u64,
    error: Seq<char>,
) -> Map<PushKey, PushModel> {
    if m.contains_key(k) {
        m.insert(k, retried(m[k], next_attempt_at, error))
    } else {
        m
    }
}

/// The registrations after one was taken away.
pub open spec fn taken_away(m: Map<PushKey, PushModel>, k: PushKey) -> Map<PushKey, PushModel> {
    m.remove(k)
}

struct DueIn<'a> {
    tenant: &'a str,
    at: i64,
}

impl<'a> Stamp<(String, (String, String)), PushRow> for DueIn<'a> {
    closed spec fn stamp(&self, k: PushKey, r: PushModel) -> Option<i64> {
        if k.0 == self.tenant@ && !r.parked && r.next_attempt_at <= self.at {
            Some(r.next_attempt_at)
        } else {
            None
        }
    }

    fn instant(&self, k: &(String, (String, String)), r: &PushRow) -> (at: Option<i64>) {
        if same(&k.0, self.tenant) && !r.parked && r.next_attempt_at <= self.at {
            Some(r.next_attempt_at)
        } else {
            None
        }
    }
}

struct OfTask<'a> {
    tenant: &'a str,
    task: &'a str,
}

impl<'a> Pick<(String, (String, String)), PushRow> for OfTask<'a> {
    closed spec fn picks(&self, k: PushKey, r: PushModel) -> bool {
        k.0 == self.tenant@ && k.1.0 == self.task@
    }

    fn test(&self, k: &(String, (String, String)), r: &PushRow) -> (b: bool) {
        same(&k.0, self.tenant) && same(&k.1.0, self.task)
    }
}

/// Reads where a registration is delivered.
fn config_from(task: &str, id: &str, row: &PushRow, t: Ghost<Seq<char>>) -> (c: PushConfig)
    ensures
        c@ == config_of((t@, (task@, id@)), row@),
{
    PushConfig {
        id: id.to_owned(),
        task: task.to_owned(),
        url: row.url.clone(),
        token: copied(&row.token),
        authentication: match (&row.auth_scheme, &row.auth_credentials) {
            (Some(scheme), Some(credentials)) => Some(
                PushAuthentication { scheme: scheme.clone(), credentials: credentials.clone() },
            ),
            _ => None,
        },
    }
}

impl PushBook {
    /// No registrations.
    pub fn new() -> (b: PushBook)
        ensures
            b@ == Map::<PushKey, PushModel>::empty(),
    {
        PushBook { rows: Table::new() }
    }

    /// Registers where a task's progress is delivered, from `next_seq` on. A
    /// registration that is there keeps its place.
    pub fn put(&mut self, tenant: &str, config: &PushConfig, next_seq: u64)
        ensures
            final(self)@ == put_row(old(self)@, tenant@, config@, next_seq),
    {
        let key = (tenant.to_owned(), (config.task.clone(), config.id.clone()));
        let (from, parked, fault) = match self.rows.get(&key) {
            Some(row) => (row.next_seq, row.parked, copied(&row.fault)),
            None => (to_signed(next_seq), false, None),
        };
        let row = PushRow {
            url: config.url.clone(),
            token: copied(&config.token),
            auth_scheme: match &config.authentication {
                Some(a) => Some(a.scheme.clone()),
                None => None,
            },
            auth_credentials: match &config.authentication {
                Some(a) => Some(a.credentials.clone()),
                None => None,
            },
            next_seq: from,
            attempts: 0,
            next_attempt_at: 0,
            last_error: None,
            parked,
            fault,
        };
        self.rows.insert(key, row);
    }

    /// A registration.
    pub fn get(&self, tenant: &str, task: &str, id: &str) -> (r: Option<PushConfig>)
        ensures
            found(self@, (tenant@, (task@, id@))) == match r {
                Some(c) => Some(c@),
                None => None,
            },
    {
        match self.rows.get(&(tenant.to_owned(), (task.to_owned(), id.to_owned()))) {
            Some(row) => Some(config_from(task, id, row, Ghost(tenant@))),
            None => None,
        }
    }

    /// The registrations of a task, by id.
    pub fn list(&self, tenant: &str, task: &str) -> (out: Vec<PushConfig>)
        ensures
            configs_of(out@) == task_configs(self@, tenant@, task@),
    {
        let ghost f = of_task(tenant@, task@);
        let keys = self.rows.select(&OfTask { tenant, task }, usize::MAX, Ghost(f));
        let ghost rows = chosen::<(String, (String, String)), PushModel>(self@, f);
        let mut out: Vec<PushConfig> = Vec::new();
        let mut i: usize = 0;
        while i < keys.len()
            invariant
                i <= keys@.len(),
                keys@.len() == rows.len(),
                out@.len() == i,
                forall|j: int|
                    0 <= j < keys@.len() ==> (#[trigger] keys@[j])@ == rows[j].0
                        && self@.contains_key(rows[j].0) && self@[rows[j].0] == rows[j].1,
                forall|j: int|
                    0 <= j < i ==> (#[trigger] out@[j])@ == config_of(rows[j].0, rows[j].1),
            decreases keys@.len() - i,
        {
            assert(keys@[i as int]@ == rows[i as int].0);
            match self.rows.get(&keys[i]) {
                Some(row) => {
                    out.push(
                        config_from(&keys[i].1.0, &keys[i].1.1, row, Ghost(rows[i as int].0.0)),
                    );
                },
                None => {
                    return out;
                },
            }
            i = i + 1;
        }
        assert(configs_of(out@) =~= Seq::new(
            rows.len(),
            |i: int| config_of(rows[i].0, rows[i].1),
        ));
        out
    }

    /// The registrations whose next attempt is due, the earliest first and no
    /// more than `limit` of them. One that is parked is never due; it keeps its
    /// place.
    pub fn due(&self, tenant: &str, at: u64, limit: usize) -> (r: Result<
        Vec<PushRegistration>,
        StoreError,
    >)
        ensures
            due_answer(self@, tenant@, at, limit) == match r {
                Ok(out) => Ok::<Seq<RegistrationModel>, Refusal>(registrations_of(out@)),
                Err(e) => Err::<Seq<RegistrationModel>, Refusal>(e@),
            },
    {
        let keys = self.rows.list(
            &DueIn { tenant, at: to_signed(at) },
            limit,
            Ghost(due_in(tenant@, at)),
        );
        let ghost want = paged(
            listed::<(String, (String, String)), PushModel>(self@, due_in(tenant@, at)),
            limit,
        );
        let mut out: Vec<PushRegistration> = Vec::new();
        let mut i: usize = 0;
        assert(registrations_of(out@) =~= Seq::<RegistrationModel>::empty());
        assert forall|j: int| 0 <= j < keys@.len() implies self@.contains_key(
            #[trigger] want[j],
        ) by {
            assert(keys@[j]@ == want[j]);
        }
        while i < keys.len()
            invariant
                i <= keys@.len(),
                keys@.len() == want.len(),
                want == paged(
                    listed::<(String, (String, String)), PushModel>(self@, due_in(tenant@, at)),
                    limit,
                ),
                forall|j: int| 0 <= j < keys@.len() ==> (#[trigger] keys@[j])@ == want[j],
                forall|j: int| 0 <= j < keys@.len() ==> self@.contains_key(#[trigger] want[j]),
                registrations_read(self@, want, i as int) == Ok::<
                    Seq<RegistrationModel>,
                    Refusal,
                >(registrations_of(out@)),
            decreases keys@.len() - i,
        {
            assert(keys@[i as int]@ == want[i as int]);
            match self.rows.get(&keys[i]) {
                Some(row) => {
                    if let Some(f) = &row.fault {
                        proof {
                            lemma_refused(self@, want, i + 1, want.len() as int);
                        }
                        return Err(StoreError::Backend(f.clone()));
                    }
                    let reg = PushRegistration {
                        config: config_from(
                            &keys[i].1.0,
                            &keys[i].1.1,
                            row,
                            Ghost(want[i as int].0),
                        ),
                        next_seq: to_unsigned(row.next_seq),
                        attempts: to_count(row.attempts),
                        next_attempt_at: to_unsigned(row.next_attempt_at),
                        last_error: copied(&row.last_error),
                    };
                    let ghost so_far = registrations_of(out@);
                    let ghost last = reg@;
                    out.push(reg);
                    assert(registrations_of(out@) =~= so_far.push(last));
                },
                None => {},
            }
            i = i + 1;
        }
        Ok(out)
    }

    /// Moves a delivery on. It never moves back.
    pub fn advance(&mut self, tenant: &str, task: &str, id: &str, next_seq: u64)
        ensures
            final(self)@ == moved_on(old(self)@, (tenant@, (task@, id@)), next_seq),
    {
        let key = (tenant.to_owned(), (task.to_owned(), id.to_owned()));
        let mut row = match self.rows.get(&key) {
            Some(row) => row.twin(),
            None => {
                return ;
            },
        };
        let to: i64 = to_signed(next_seq);
        if row.next_seq < to {
            row.next_seq = to;
        }
        row.attempts = 0;
        row.next_attempt_at = 0;
        row.last_error = None;
        self.rows.insert(key, row);
    }

    /// Notes that a delivery failed, and when it is tried again.
    pub fn retry(&mut self, tenant: &str, task: &str, id: &str, next_attempt_at: u64, error: &str)
        ensures
            final(self)@ == put_off(
                old(self)@,
                (tenant@, (task@, id@)),
                next_attempt_at,
                error@,
            ),
    {
        let key = (tenant.to_owned(), (task.to_owned(), id.to_owned()));
        let mut row = match self.rows.get(&key) {
            Some(row) => row.twin(),
            None => {
                return ;
            },
        };
        if row.attempts < i32::MAX {
            row.attempts = row.attempts + 1;
        }
        row.next_attempt_at = to_signed(next_attempt_at);
        row.last_error = Some(error.to_owned());
        self.rows.insert(key, row);
    }

    /// Takes a registration away.
    pub fn delete(&mut self, tenant: &str, task: &str, id: &str)
        ensures
            final(self)@ == taken_away(old(self)@, (tenant@, (task@, id@))),
    {
        let _ = self.rows.remove(&(tenant.to_owned(), (task.to_owned(), id.to_owned())));
    }
}

// ── Laws ────────────────────────────────────────────────────────────────────

/// Registering again redelivers nothing and skips nothing: the place in the
/// journal stays, and the attempts start over.
pub proof fn law_place_survives_registration(
    m: Map<PushKey, PushModel>,
    t: Seq<char>,
    c: ConfigModel,
    from: u64,
)
    requires
        m.contains_key((t, (c.task, c.id))),
    ensures
        put_row(m, t, c, from)[(t, (c.task, c.id))].next_seq == m[(t, (c.task, c.id))].next_seq,
        put_row(m, t, c, from)[(t, (c.task, c.id))].attempts == 0,
{
}

/// What was registered reads back as it was.
pub proof fn law_registration_reads_back(
    m: Map<PushKey, PushModel>,
    t: Seq<char>,
    c: ConfigModel,
    from: u64,
)
    ensures
        config_of((t, (c.task, c.id)), put_row(m, t, c, from)[(t, (c.task, c.id))]) == c,
{
}

/// A delivery never moves back, in whatever order its acknowledgements come.
pub proof fn law_delivery_never_moves_back(row: PushModel, a: u64, b: u64)
    ensures
        advanced(row, a).next_seq >= row.next_seq,
        advanced(row, a).next_seq >= signed(a),
        advanced(advanced(row, a), b) == advanced(advanced(row, b), a),
{
}

/// A failed attempt is counted and keeps the place; a delivery that gets through
/// clears the count.
pub proof fn law_retry_keeps_the_place(row: PushModel, at: u64, error: Seq<char>, next: u64)
    ensures
        retried(row, at, error).next_seq == row.next_seq,
        row.attempts < i32::MAX ==> retried(row, at, error).attempts == row.attempts + 1,
        advanced(retried(row, at, error), next).attempts == 0,
        advanced(retried(row, at, error), next) == advanced(row, next),
{
}

/// A registration that is parked is never due, and nothing that happens to its
/// delivery unparks it or loses its place.
pub proof fn law_parked_is_never_due(
    m: Map<PushKey, PushModel>,
    k: PushKey,
    at: u64,
    limit: usize,
    c: ConfigModel,
    from: u64,
    next: u64,
    error: Seq<char>,
)
    requires
        m.dom().finite(),
        m.contains_key(k),
        m[k].parked,
        k == (k.0, (c.task, c.id)),
    ensures
        !paged(
            listed::<(String, (String, String)), PushModel>(m, due_in(k.0, at)),
            limit,
        ).contains(k),
        put_row(m, k.0, c, from)[k].parked,
        put_row(m, k.0, c, from)[k].next_seq == m[k].next_seq,
        advanced(m[k], next).parked,
        retried(m[k], at, error).parked,
{
    let f = due_in(k.0, at);
    lemma_listed::<(String, (String, String)), PushModel>(m, f);
    let rows = listed::<(String, (String, String)), PushModel>(m, f);
    let keys = paged(rows, limit);
    if keys.contains(k) {
        let i = choose|i: int| 0 <= i < keys.len() && keys[i] == k;
        assert(rows[i].0.1 == k);
        assert(f((k, m[k])) is None);
    }
}


/// A registration is there as it was put until it is taken away, and starts where
/// it was told to; every other registration is as it was.
pub proof fn law_registration_stays_until_taken(
    m: Map<PushKey, PushModel>,
    t: Seq<char>,
    c: ConfigModel,
    from: u64,
    k: PushKey,
)
    ensures
        ({
            let own = (t, (c.task, c.id));
            let after = put_row(m, t, c, from);
            &&& found(after, own) == Some(c)
            &&& !m.contains_key(own) && from <= i64::MAX ==> after[own].next_seq == from
                && !after[own].parked
            &&& m.contains_key(own) ==> after[own].next_seq == m[own].next_seq && after[own].parked
                == m[own].parked
            &&& after[own].attempts == 0
            &&& after[own].next_attempt_at == 0
            &&& after[own].last_error is None
            &&& found(taken_away(after, own), own) is None
            &&& k != own ==> after.contains_key(k) == m.contains_key(k) && taken_away(
                m,
                own,
            ).contains_key(k) == m.contains_key(k)
            &&& k != own && m.contains_key(k) ==> after[k] == m[k] && taken_away(m, own)[k] == m[k]
        }),
{
}

/// A delivery that got through moves its own registration on and clears what went
/// wrong; one that failed is counted, says why and is tried again when it was put
/// off to. Neither touches where it is delivered, nor any other registration.
pub proof fn law_delivery_is_accounted_for(
    m: Map<PushKey, PushModel>,
    own: PushKey,
    next_seq: u64,
    at: u64,
    error: Seq<char>,
    k: PushKey,
)
    requires
        m.contains_key(own),
        next_seq <= i64::MAX,
        at <= i64::MAX,
    ensures
        ({
            let through = moved_on(m, own, next_seq);
            let failed = put_off(m, own, at, error);
            &&& through[own].next_seq == if m[own].next_seq < next_seq {
                next_seq as i64
            } else {
                m[own].next_seq
            }
            &&& through[own].attempts == 0
            &&& through[own].next_attempt_at == 0
            &&& through[own].last_error is None
            &&& failed[own].next_seq == m[own].next_seq
            &&& m[own].attempts < i32::MAX ==> failed[own].attempts == m[own].attempts + 1
            &&& m[own].attempts == i32::MAX ==> failed[own].attempts == i32::MAX
            &&& through[own].parked == m[own].parked
            &&& failed[own].parked == m[own].parked
            &&& failed[own].next_attempt_at == at
            &&& failed[own].last_error == Some(error)
            &&& found(through, own) == found(m, own)
            &&& found(failed, own) == found(m, own)
            &&& through.contains_key(k) == m.contains_key(k)
            &&& failed.contains_key(k) == m.contains_key(k)
            &&& k != own && m.contains_key(k) ==> through[k] == m[k] && failed[k] == m[k]
        }),
{
}

/// The registrations of a task are its own, each once and by id, and all of them.
pub proof fn law_registrations_of_a_task(
    m: Map<PushKey, PushModel>,
    t: Seq<char>,
    task: Seq<char>,
    id: Seq<char>,
)
    requires
        m.dom().finite(),
    ensures
        ({
            let all = task_configs(m, t, task);
            &&& forall|i: int|
                0 <= i < all.len() ==> found(m, (t, (task, (#[trigger] all[i]).id))) == Some(
                    all[i],
                )
            &&& forall|i: int, j: int|
                0 <= i < j < all.len() ==> crate::table::text_before(
                    (#[trigger] all[i]).id,
                    (#[trigger] all[j]).id,
                )
            &&& m.contains_key((t, (task, id))) ==> exists|i: int|
                0 <= i < all.len() && (#[trigger] all[i]).id == id
        }),
{
    let f = of_task(t, task);
    let rows = chosen::<(String, (String, String)), PushModel>(m, f);
    crate::table::lemma_chosen::<(String, (String, String)), PushModel>(m, f);
    let all = task_configs(m, t, task);
    assert forall|i: int| 0 <= i < all.len() implies found(
        m,
        (t, (task, (#[trigger] all[i]).id)),
    ) == Some(all[i]) by {
        assert(f(rows[i]) && m.contains_key(rows[i].0) && m[rows[i].0] == rows[i].1);
        assert(rows[i].0 == (t, (task, all[i].id)));
    }
    assert forall|i: int, j: int| 0 <= i < j < all.len() implies crate::table::text_before(
        (#[trigger] all[i]).id,
        (#[trigger] all[j]).id,
    ) by {
        assert(f(rows[i]) && f(rows[j]));
        assert(<(String, (String, String)) as crate::table::Key>::precedes(rows[i].0, rows[j].0));
        <String as crate::table::Key>::lemma_irreflexive(t);
        <String as crate::table::Key>::lemma_irreflexive(task);
    }
    let k = (t, (task, id));
    if m.contains_key(k) {
        assert(f((k, m[k])));
        assert(crate::table::has_key(rows, k));
        let i = choose|i: int| 0 <= i < rows.len() && (#[trigger] rows[i]).0 == k;
        assert(all[i].id == id);
    }
}

proof fn lemma_each_registration(m: Map<PushKey, PushModel>, keys: Seq<PushKey>, n: int)
    requires
        0 <= n <= keys.len(),
        registrations_read(m, keys, n) is Ok,
    ensures
        registrations_read(m, keys, n)->Ok_0.len() == n,
        forall|i: int|
            0 <= i < n ==> registration_read(#[trigger] keys[i], m[keys[i]]) == Ok::<
                RegistrationModel,
                Refusal,
            >(registrations_read(m, keys, n)->Ok_0[i]),
    decreases n,
{
    if n > 0 {
        lemma_each_registration(m, keys, n - 1);
        let before = registrations_read(m, keys, n - 1)->Ok_0;
        let after = registrations_read(m, keys, n)->Ok_0;
        assert forall|i: int| 0 <= i < n implies registration_read(
            #[trigger] keys[i],
            m[keys[i]],
        ) == Ok::<RegistrationModel, Refusal>(after[i]) by {
            if i < n - 1 {
                assert(after[i] == before[i]);
            }
        }
    }
}

/// What is due is what is tried by now and not parked, the earliest first and each
/// once; what is left out for want of room is tried no earlier.
pub proof fn law_due_is_what_is_tried_by_now(
    m: Map<PushKey, PushModel>,
    t: Seq<char>,
    at: u64,
    limit: usize,
    out: Seq<RegistrationModel>,
    k: PushKey,
)
    requires
        m.dom().finite(),
        at <= i64::MAX,
        due_answer(m, t, at, limit) == Ok::<Seq<RegistrationModel>, Refusal>(out),
    ensures
        out.len() <= limit,
        forall|i: int|
            0 <= i < out.len() ==> {
                let x = (t, ((#[trigger] out[i]).config.task, out[i].config.id));
                &&& m.contains_key(x)
                &&& !m[x].parked
                &&& m[x].next_attempt_at <= at
                &&& out[i].config == config_of(x, m[x])
                &&& m[x].next_seq >= 0 ==> out[i].next_seq == m[x].next_seq
                &&& m[x].attempts >= 0 ==> out[i].attempts == m[x].attempts
                &&& out[i].last_error == m[x].last_error
            },
        forall|i: int, j: int|
            0 <= i < j < out.len() ==> m[(
                t,
                ((#[trigger] out[i]).config.task, out[i].config.id),
            )].next_attempt_at <= m[(
                t,
                ((#[trigger] out[j]).config.task, out[j].config.id),
            )].next_attempt_at,
        m.contains_key(k) && k.0 == t && !m[k].parked && m[k].next_attempt_at <= at && !(exists|
            i: int,
        |
            0 <= i < out.len() && (#[trigger] out[i]).config.task == k.1.0 && out[i].config.id
                == k.1.1) ==> out.len() == limit && forall|i: int|
            0 <= i < out.len() ==> m[(
                t,
                ((#[trigger] out[i]).config.task, out[i].config.id),
            )].next_attempt_at <= m[k].next_attempt_at,
{
    let f = due_in(t, at);
    let rows = listed::<(String, (String, String)), PushModel>(m, f);
    let keys = paged(rows, limit);
    lemma_listed::<(String, (String, String)), PushModel>(m, f);
    crate::table::lemma_listed_counted::<(String, (String, String)), PushModel>(m, f);
    lemma_each_registration(m, keys, keys.len() as int);
    assert forall|i: int| 0 <= i < out.len() implies {
        let x = (t, ((#[trigger] out[i]).config.task, out[i].config.id));
        &&& x == keys[i]
        &&& x == rows[i].0.1
        &&& m.contains_key(x)
        &&& f((x, m[x])) == Some(rows[i].0.0)
        &&& registration_read(x, m[x]) == Ok::<RegistrationModel, Refusal>(out[i])
    } by {
        let e = rows[i].0;
        assert(keys[i] == e.1);
        assert(f((e.1, m[e.1])) == Some(e.0));
        assert(registration_read(keys[i], m[keys[i]]) == Ok::<RegistrationModel, Refusal>(out[i]));
    }
    assert forall|i: int, j: int| 0 <= i < j < out.len() implies m[(
        t,
        ((#[trigger] out[i]).config.task, out[i].config.id),
    )].next_attempt_at <= m[(
        t,
        ((#[trigger] out[j]).config.task, out[j].config.id),
    )].next_attempt_at by {
        assert(rows[i].0.0 <= rows[j].0.0);
    }
    if m.contains_key(k) && k.0 == t && !m[k].parked && m[k].next_attempt_at <= at {
        let when = m[k].next_attempt_at;
        assert(f((k, m[k])) == Some(when));
        assert(crate::table::has_key(rows, (when, k)));
        let p = choose|p: int| 0 <= p < rows.len() && (#[trigger] rows[p]).0 == (when, k);
        if p < out.len() {
            assert(keys[p] == k);
            assert(out[p].config.task == k.1.0);
        } else {
            assert forall|i: int| 0 <= i < out.len() implies m[(
                t,
                ((#[trigger] out[i]).config.task, out[i].config.id),
            )].next_attempt_at <= when by {
                assert(rows[i].0.0 <= rows[p].0.0);
            }
        }
    }
}

} // verus!
