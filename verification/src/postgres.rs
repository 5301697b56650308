//! What a plane decides about its shared database: where to connect, what a
//! refusal means, and which statements may not be run.

use tokio_postgres::config::{Config, Host, SslMode};
use vstd::prelude::*;
use vstd::string::StrSliceExecFns;

use crate::error::{Refusal, StoreError};
use crate::row::{digest, Digest};
use crate::store::{log_name, named, plain_handle, serving, signed_by, Handle};
use crate::text::{dec, dec_signed, join, join3, join5, said, same, texts};

verus! {

// ── Connecting ──────────────────────────────────────────────────────────────

/// How a connection URL asks for TLS.
#[derive(Debug)]
pub enum TlsMode {
    Disable,
    Prefer,
    Require,
    /// In some other way, by the name it prints.
    Other(String),
}

/// What a [`TlsMode`] says.
pub enum TlsModel {
    Disable,
    Prefer,
    Require,
    Other(Seq<char>),
}

impl View for TlsMode {
    type V = TlsModel;

    open spec fn view(&self) -> TlsModel {
        match self {
            TlsMode::Disable => TlsModel::Disable,
            TlsMode::Prefer => TlsModel::Prefer,
            TlsMode::Require => TlsModel::Require,
            TlsMode::Other(name) => TlsModel::Other(name@),
        }
    }
}

/// What a connection URL says.
#[derive(Debug)]
pub struct UrlParts {
    pub hosts: Vec<String>,
    pub ports: Vec<u16>,
    pub user: Option<String>,
    pub password: Option<String>,
    pub dbname: Option<String>,
    pub tls: TlsMode,
}

/// What [`UrlParts`] say.
pub struct UrlModel {
    pub hosts: Seq<Seq<char>>,
    pub ports: Seq<u16>,
    pub user: Option<Seq<char>>,
    pub password: Option<Seq<char>>,
    pub dbname: Option<Seq<char>>,
    pub tls: TlsModel,
}

impl View for UrlParts {
    type V = UrlModel;

    open spec fn view(&self) -> UrlModel {
        UrlModel {
            hosts: texts(self.hosts@),
            ports: self.ports@,
            user: said(self.user),
            password: said(self.password),
            dbname: said(self.dbname),
            tls: self.tls@,
        }
    }
}

/// Where to connect.
#[derive(Debug)]
pub struct Endpoint {
    pub host: Option<String>,
    pub port: Option<u16>,
    pub user: Option<String>,
    pub password: Option<String>,
    pub dbname: Option<String>,
}

/// What an [`Endpoint`] says.
pub struct EndpointModel {
    pub host: Option<Seq<char>>,
    pub port: Option<u16>,
    pub user: Option<Seq<char>>,
    pub password: Option<Seq<char>>,
    pub dbname: Option<Seq<char>>,
}

impl View for Endpoint {
    type V = EndpointModel;

    open spec fn view(&self) -> EndpointModel {
        EndpointModel {
            host: said(self.host),
            port: self.port,
            user: said(self.user),
            password: said(self.password),
            dbname: said(self.dbname),
        }
    }
}

/// What `tokio_postgres` makes of a connection URL: what it says, or what is
/// wrong with it.
pub uninterp spec fn url_read(url: Seq<char>) -> Result<UrlModel, Seq<char>>;

/// What is said of a URL that was read, or not.
pub open spec fn parts_of(r: Result<UrlParts, String>) -> Result<UrlModel, Seq<char>> {
    match r {
        Ok(p) => Ok(p@),
        Err(f) => Err(f@),
    }
}

/// `tokio_postgres::Config::from_str`, and the getters of what it gives: all
/// hosts and ports in their order, the user, the password and database, and the
/// TLS mode. All depend on the URL alone; nothing more is claimed of them.
#[verifier::external_body]
fn parse_url(url: &str) -> (r: Result<UrlParts, String>)
    ensures
        parts_of(r) == url_read(url@),
{
    url.parse().map(|pg: Config| UrlParts {
        hosts: pg.get_hosts().iter().map(|h| match h {
            Host::Tcp(s) => s.clone(),
            Host::Unix(p) => p.to_string_lossy().into_owned(),
        }).collect(),
        ports: pg.get_ports().to_vec(),
        user: pg.get_user().map(str::to_owned), dbname: pg.get_dbname().map(str::to_owned),
        password: pg.get_password().map(|p| String::from_utf8_lossy(p).into_owned()),
        tls: match pg.get_ssl_mode() {
            SslMode::Disable => TlsMode::Disable,
            SslMode::Prefer => TlsMode::Prefer,
            SslMode::Require => TlsMode::Require,
            other => TlsMode::Other(format!("{other:?}"))
        }
    }).map_err(|e| e.to_string())
}

/// The name of a TLS mode that this store does not connect with: any but to do
/// without TLS, and to prefer it.
pub open spec fn demanded(mode: TlsModel) -> Option<Seq<char>> {
    match mode {
        TlsModel::Disable | TlsModel::Prefer => None,
        TlsModel::Require => Some("Require"@),
        TlsModel::Other(name) => Some(name),
    }
}

pub open spec fn tls_text(mode: Seq<char>) -> Seq<char> {
    "the connection URL demands TLS (sslmode "@ + mode
        + ") and this build connects without it — connecting anyway would silently send the journal in plaintext. Use sslmode=disable (or prefer) against a trusted network, or terminate TLS in a proxy this store connects to locally"@
}

/// Where to connect, given what the URL was read as: at the first host and port
/// that it names. A URL that demands TLS is refused: to connect without it would
/// send in the clear what was to be encrypted.
pub open spec fn plan(read: Result<UrlModel, Seq<char>>) -> Result<EndpointModel, Refusal> {
    match read {
        Err(f) => Err(Refusal::Backend(f)),
        Ok(p) => match demanded(p.tls) {
            Some(mode) => Err(Refusal::Backend(tls_text(mode))),
            None => Ok(
                EndpointModel {
                    host: if p.hosts.len() > 0 {
                        Some(p.hosts[0])
                    } else {
                        None
                    },
                    port: if p.ports.len() > 0 {
                        Some(p.ports[0])
                    } else {
                        None
                    },
                    user: p.user,
                    password: p.password,
                    dbname: p.dbname,
                },
            ),
        },
    }
}

/// Decides where to connect, given what the URL was read as.
pub fn plan_from(read: Result<UrlParts, String>) -> (r: Result<Endpoint, StoreError>)
    ensures
        plan(parts_of(read)) == match r {
            Ok(e) => Ok::<EndpointModel, Refusal>(e@),
            Err(e) => Err::<EndpointModel, Refusal>(e@),
        },
{
    let parts = match read {
        Err(f) => {
            return Err(StoreError::Backend(f));
        },
        Ok(parts) => parts,
    };
    let demanded = match &parts.tls {
        TlsMode::Disable | TlsMode::Prefer => None,
        TlsMode::Require => Some("Require"),
        TlsMode::Other(name) => Some(name.as_str()),
    };
    if let Some(mode) = demanded {
        return Err(
            StoreError::Backend(
                join3(
                    "the connection URL demands TLS (sslmode ",
                    mode,
                    ") and this build connects without it — connecting anyway would silently send the journal in plaintext. Use sslmode=disable (or prefer) against a trusted network, or terminate TLS in a proxy this store connects to locally",
                ),
            ),
        );
    }
    let host = if parts.hosts.len() > 0 {
        Some(parts.hosts[0].clone())
    } else {
        None
    };
    let port = if parts.ports.len() > 0 {
        Some(parts.ports[0])
    } else {
        None
    };
    Ok(Endpoint { host, port, user: parts.user, password: parts.password, dbname: parts.dbname })
}

/// Decides where a connection URL leads.
pub fn connection_plan(url: &str) -> (r: Result<Endpoint, StoreError>)
    ensures
        plan(url_read(url@)) == match r {
            Ok(e) => Ok::<EndpointModel, Refusal>(e@),
            Err(e) => Err::<EndpointModel, Refusal>(e@),
        },
{
    plan_from(parse_url(url))
}

/// A handle on a plane's shared database: where it is, how many connections it
/// may have, and what the handle addresses.
#[derive(Debug)]
pub struct PostgresStore {
    pub endpoint: Endpoint,
    /// The connection ceiling, if it is not the pool's own.
    pub max_connections: Option<usize>,
    pub handle: Handle,
}

impl PostgresStore {
    /// A handle for the default tenant, unsigned, with the pool's own ceiling.
    pub fn connect(url: &str) -> (r: Result<PostgresStore, StoreError>)
        ensures
            connected(plan(url_read(url@)), None, r),
    {
        PostgresStore::connect_sized(url, None)
    }

    /// A handle with an explicit connection ceiling.
    pub fn connect_sized(url: &str, max_connections: Option<usize>) -> (r: Result<
        PostgresStore,
        StoreError,
    >)
        ensures
            connected(plan(url_read(url@)), max_connections, r),
    {
        match connection_plan(url) {
            Ok(endpoint) => Ok(PostgresStore { endpoint, max_connections, handle: Handle::plain() }),
            Err(e) => Err(e),
        }
    }

    /// A handle addressing one tenant's rows.
    pub fn for_tenant(self, tenant: String) -> (s: PostgresStore)
        ensures
            s.handle@ == serving(self.handle@, tenant@),
            s.endpoint == self.endpoint,
            s.max_connections == self.max_connections,
    {
        let mut s = self;
        s.handle.tenant = tenant;
        s
    }

    /// Names the plane's log.
    pub fn origin(self, origin: String) -> (s: PostgresStore)
        ensures
            s.handle@ == named(self.handle@, origin@),
            s.endpoint == self.endpoint,
            s.max_connections == self.max_connections,
    {
        let mut s = self;
        s.handle.origin = origin;
        s
    }

    /// Signs records with this key from here on. Off unless asked.
    pub fn signing_as(self, signer: String) -> (s: PostgresStore)
        ensures
            s.handle@ == signed_by(self.handle@, signer@),
            s.endpoint == self.endpoint,
            s.max_connections == self.max_connections,
    {
        let mut s = self;
        s.handle.signer = Some(signer);
        s
    }

    /// The tenant this handle addresses.
    pub fn tenant(&self) -> (t: &str)
        ensures
            t@ == self.handle@.tenant,
    {
        self.handle.tenant.as_str()
    }

    /// The name this tenant's log is published under.
    pub fn log_origin(&self) -> (s: String)
        ensures
            s@ == log_name(self.handle@.origin, self.handle@.tenant),
    {
        self.handle.log_origin()
    }

    /// Every instance of the plane uses this store.
    pub fn is_shared(&self) -> (b: bool)
        ensures
            b,
    {
        true
    }
}

/// Whether a handle was made as planned, or refused as planned.
pub open spec fn connected(
    planned: Result<EndpointModel, Refusal>,
    max: Option<usize>,
    r: Result<PostgresStore, StoreError>,
) -> bool {
    match planned {
        Ok(e) => r matches Ok(s) && s.endpoint@ == e && s.max_connections == max && s.handle@
            == plain_handle(),
        Err(why) => r matches Err(e) && e@ == why,
    }
}

// ── What a refusal means ────────────────────────────────────────────────────

/// What a failed commit is answered with. Where the server answered, the
/// transaction was rolled back. Where it did not, the commit may be standing,
/// and must not be taken for taken back.
pub open spec fn commit_failure(answered: bool, detail: Seq<char>) -> Refusal {
    if answered {
        Refusal::Backend(detail)
    } else {
        Refusal::CommitUnknown { detail }
    }
}

/// Classifies a failed commit.
pub fn commit_refused_or_in_doubt(answered: bool, detail: String) -> (e: StoreError)
    ensures
        e@ == commit_failure(answered, detail@),
{
    if answered {
        StoreError::Backend(detail)
    } else {
        StoreError::CommitUnknown { detail }
    }
}

pub open spec fn raced_text(run: Seq<char>, seq: u64, constraint: Seq<char>) -> Seq<char> {
    "append raced another writer on run "@ + run + " at seq "@ + crate::text::decimal(seq as int)
        + " (unique violation on '"@ + constraint
        + "') — two connections extended one chain concurrently, which the lease fence should have serialised"@
}

/// What a refused insert of a record means. A unique violation is one of two
/// very different things: the index on started effects refusing a second start
/// is exactly-once holding, and anything else is two writers on one chain.
pub open spec fn insert_refusal(
    violated: Option<Seq<char>>,
    effect: Option<Seq<char>>,
    run: Seq<char>,
    seq: u64,
    detail: Seq<char>,
) -> Refusal {
    match violated {
        Some(constraint) => match effect {
            Some(e) if constraint == "journal_effect_started"@ => Refusal::DuplicateEffect(e),
            _ => Refusal::Backend(raced_text(run, seq, constraint)),
        },
        None => Refusal::Backend(detail),
    }
}

/// Names what the database refused. `violated` is the unique constraint that
/// was, where one was.
pub fn refused_insert(
    violated: Option<&str>,
    effect: Option<&str>,
    run: &str,
    seq: u64,
    detail: &str,
) -> (e: StoreError)
    ensures
        e@ == insert_refusal(
            match violated {
                Some(c) => Some(c@),
                None => None,
            },
            match effect {
                Some(k) => Some(k@),
                None => None,
            },
            run@,
            seq,
            detail@,
        ),
{
    match violated {
        None => StoreError::Backend(detail.to_owned()),
        Some(constraint) => {
            if same(constraint, "journal_effect_started") {
                if let Some(effect) = effect {
                    return StoreError::DuplicateEffect(effect.to_owned());
                }
            }
            StoreError::Backend(
                join3(
                    &join5(
                        "append raced another writer on run ",
                        run,
                        " at seq ",
                        &dec(seq),
                        " (unique violation on '",
                    ),
                    constraint,
                    "') — two connections extended one chain concurrently, which the lease fence should have serialised",
                ),
            )
        },
    }
}

// ── Columns ─────────────────────────────────────────────────────────────────

pub open spec fn hash_text(n: nat) -> Seq<char> {
    "a hash column holds "@ + crate::text::decimal(n as int) + " bytes, not 32"@
}

/// Reads a hash column.
pub fn digest_from(bytes: &[u8]) -> (r: Result<Digest, StoreError>)
    ensures
        match r {
            Ok(d) => bytes@.len() == 32 && d@ == bytes@,
            Err(e) => bytes@.len() != 32 && e@ == (Refusal::Corrupt {
                seq: 0,
                detail: hash_text(bytes@.len()),
            }),
        },
{
    let n = bytes.len();
    match digest(bytes) {
        Ok(d) => Ok(d),
        Err(_) => Err(
            StoreError::Corrupt {
                seq: 0,
                detail: join3("a hash column holds ", &dec(n as u64), " bytes, not 32"),
            },
        ),
    }
}

/// Reads a memory version from its column.
pub fn version_u64(version: i64) -> (r: Result<u64, StoreError>)
    ensures
        match r {
            Ok(v) => version >= 0 && v == version,
            Err(e) => version < 0 && e@ == Refusal::Backend(
                "invalid memory version "@ + crate::text::signed_decimal(version as int),
            ),
        },
{
    if version >= 0 {
        Ok(version as u64)
    } else {
        Err(StoreError::Backend(join("invalid memory version ", &dec_signed(version))))
    }
}

/// Writes a memory version for its column.
pub fn version_i64(version: u64) -> (r: Result<i64, StoreError>)
    ensures
        match r {
            Ok(v) => version <= i64::MAX && v == version,
            Err(e) => version > i64::MAX && e@ == Refusal::Backend(
                "memory version "@ + crate::text::decimal(version as int)
                    + " exceeds PostgreSQL BIGINT"@,
            ),
        },
{
    if version <= i64::MAX as u64 {
        Ok(version as i64)
    } else {
        Err(
            StoreError::Backend(
                join3("memory version ", &dec(version), " exceeds PostgreSQL BIGINT"),
            ),
        )
    }
}

/// Writes the limit of a recall for its query.
pub fn recall_limit(limit: usize) -> (r: Result<i64, StoreError>)
    ensures
        match r {
            Ok(n) => limit <= i64::MAX && n == limit,
            Err(e) => limit > i64::MAX && e@ == Refusal::Backend(
                "memory recall limit exceeds BIGINT"@,
            ),
        },
{
    let wide: u64 = limit as u64;
    if wide <= i64::MAX as u64 {
        Ok(wide as i64)
    } else {
        Err(StoreError::Backend("memory recall limit exceeds BIGINT".to_owned()))
    }
}

// ── Statements ──────────────────────────────────────────────────────────────

/// Whether a character is part of a word of a statement.
pub open spec fn word_char(c: char) -> bool {
    ||| '0' <= c <= '9'
    ||| 'a' <= c <= 'z'
    ||| 'A' <= c <= 'Z'
    ||| c == '_'
}

fn is_word_char(c: char) -> (b: bool)
    ensures
        b == word_char(c),
{
    ('0' <= c && c <= '9') || ('a' <= c && c <= 'z') || ('A' <= c && c <= 'Z') || c == '_'
}

/// Whether a comment opens at a place.
pub open spec fn comment_opens(s: Seq<char>, i: int) -> bool {
    i + 1 < s.len() && (s[i] == '/' && s[i + 1] == '*' || s[i] == '-' && s[i + 1] == '-')
}

/// Where the word that a statement leads with starts, from a place on. A
/// statement that opens with a comment leads with no word.
pub open spec fn lead_start(s: Seq<char>, i: int) -> int
    decreases s.len() - i,
{
    if i >= s.len() {
        s.len() as int
    } else if word_char(s[i]) {
        i
    } else if comment_opens(s, i) {
        s.len() as int
    } else {
        lead_start(s, i + 1)
    }
}

/// Where the next word starts, from a place on.
pub open spec fn word_start(s: Seq<char>, i: int) -> int
    decreases s.len() - i,
{
    if i >= s.len() || word_char(s[i]) {
        i
    } else {
        word_start(s, i + 1)
    }
}

/// Where the word at a place ends.
pub open spec fn word_end(s: Seq<char>, i: int) -> int
    decreases s.len() - i,
{
    if i >= s.len() || !word_char(s[i]) {
        i
    } else {
        word_end(s, i + 1)
    }
}

/// A letter in upper case.
pub open spec fn upper(c: char) -> char {
    if c == 'a' {
        'A'
    } else if c == 'b' {
        'B'
    } else if c == 'c' {
        'C'
    } else if c == 'd' {
        'D'
    } else if c == 'e' {
        'E'
    } else if c == 'f' {
        'F'
    } else if c == 'g' {
        'G'
    } else if c == 'h' {
        'H'
    } else if c == 'i' {
        'I'
    } else if c == 'j' {
        'J'
    } else if c == 'k' {
        'K'
    } else if c == 'l' {
        'L'
    } else if c == 'm' {
        'M'
    } else if c == 'n' {
        'N'
    } else if c == 'o' {
        'O'
    } else if c == 'p' {
        'P'
    } else if c == 'q' {
        'Q'
    } else if c == 'r' {
        'R'
    } else if c == 's' {
        'S'
    } else if c == 't' {
        'T'
    } else if c == 'u' {
        'U'
    } else if c == 'v' {
        'V'
    } else if c == 'w' {
        'W'
    } else if c == 'x' {
        'X'
    } else if c == 'y' {
        'Y'
    } else if c == 'z' {
        'Z'
    } else {
        c
    }
}

fn to_upper(c: char) -> (u: char)
    ensures
        u == upper(c),
{
    if c == 'a' {
        'A'
    } else if c == 'b' {
        'B'
    } else if c == 'c' {
        'C'
    } else if c == 'd' {
        'D'
    } else if c == 'e' {
        'E'
    } else if c == 'f' {
        'F'
    } else if c == 'g' {
        'G'
    } else if c == 'h' {
        'H'
    } else if c == 'i' {
        'I'
    } else if c == 'j' {
        'J'
    } else if c == 'k' {
        'K'
    } else if c == 'l' {
        'L'
    } else if c == 'm' {
        'M'
    } else if c == 'n' {
        'N'
    } else if c == 'o' {
        'O'
    } else if c == 'p' {
        'P'
    } else if c == 'q' {
        'Q'
    } else if c == 'r' {
        'R'
    } else if c == 's' {
        'S'
    } else if c == 't' {
        'T'
    } else if c == 'u' {
        'U'
    } else if c == 'v' {
        'V'
    } else if c == 'w' {
        'W'
    } else if c == 'x' {
        'X'
    } else if c == 'y' {
        'Y'
    } else if c == 'z' {
        'Z'
    } else {
        c
    }
}

/// The next word from a place on, in upper case.
pub open spec fn word_from(s: Seq<char>, i: int) -> Seq<char> {
    let a = word_start(s, i);
    s.subrange(a, word_end(s, a)).map_values(|c: char| upper(c))
}

/// The word that a statement leads with, in upper case.
pub open spec fn lead_word(s: Seq<char>) -> Seq<char> {
    let a = lead_start(s, 0);
    s.subrange(a, word_end(s, a)).map_values(|c: char| upper(c))
}

/// Where the word that a statement leads with ends.
pub open spec fn first_end(s: Seq<char>) -> int {
    word_end(s, lead_start(s, 0))
}

/// Whether a statement that leads with these two words would end or control the
/// transaction it is in.
pub open spec fn controls(first: Seq<char>, second: Seq<char>) -> bool {
    ||| first == "COMMIT"@
    ||| first == "END"@
    ||| first == "ROLLBACK"@
    ||| first == "ABORT"@
    ||| first == "BEGIN"@
    ||| first == "START"@
    ||| first == "SAVEPOINT"@
    ||| first == "RELEASE"@
    ||| (first == "PREPARE"@ || first == "SET"@) && second == "TRANSACTION"@
}

pub open spec fn control_text(first: Seq<char>) -> Seq<char> {
    "the statement '"@ + first
        + "' would end or control the journal's transaction — a co-located resource writes *inside* the transaction that records it; it does not own that transaction, and dissolving it from within would break the atomicity the seam exists to provide"@
}

proof fn lemma_word_end(s: Seq<char>, i: int)
    requires
        0 <= i <= s.len(),
    ensures
        i <= word_end(s, i) <= s.len(),
    decreases s.len() - i,
{
    if !(i >= s.len() || !word_char(s[i])) {
        lemma_word_end(s, i + 1);
    }
}

proof fn lemma_lead_start(s: Seq<char>, i: int)
    requires
        0 <= i <= s.len(),
    ensures
        i <= lead_start(s, i) <= s.len(),
    decreases s.len() - i,
{
    if i < s.len() && !word_char(s[i]) && !comment_opens(s, i) {
        lemma_lead_start(s, i + 1);
    }
}

fn opens_comment(s: &str, n: usize, i: usize) -> (b: bool)
    requires
        n == s@.len(),
        i < n,
    ensures
        b == comment_opens(s@, i as int),
{
    if n - i < 2 {
        return false;
    }
    let a = s.get_char(i);
    let b = s.get_char(i + 1);
    (a == '/' && b == '*') || (a == '-' && b == '-')
}

/// The place of the word that a statement leads with.
fn leading_word(s: &str, n: usize) -> (r: (usize, usize))
    requires
        n == s@.len(),
    ensures
        r.0 == lead_start(s@, 0),
        r.1 == word_end(s@, r.0 as int),
        r.0 <= r.1 <= n,
{
    let mut a: usize = 0;
    while a < n
        invariant
            n == s@.len(),
            a <= n,
            lead_start(s@, 0) == lead_start(s@, a as int),
        decreases n - a,
    {
        if is_word_char(s.get_char(a)) {
            return next_word(s, n, a);
        }
        if opens_comment(s, n, a) {
            return (n, n);
        }
        a = a + 1;
    }
    (n, n)
}

/// The place of the next word: where it starts and where it ends.
fn next_word(s: &str, n: usize, from: usize) -> (r: (usize, usize))
    requires
        n == s@.len(),
        from <= n,
    ensures
        r.0 == word_start(s@, from as int),
        r.1 == word_end(s@, r.0 as int),
        from <= r.0 <= r.1 <= n,
{
    let mut a: usize = from;
    while a < n && !is_word_char(s.get_char(a))
        invariant
            n == s@.len(),
            from <= a <= n,
            word_start(s@, from as int) == word_start(s@, a as int),
        decreases n - a,
    {
        a = a + 1;
    }
    let mut b: usize = a;
    while b < n && is_word_char(s.get_char(b))
        invariant
            n == s@.len(),
            a <= b <= n,
            word_end(s@, a as int) == word_end(s@, b as int),
        decreases n - b,
    {
        b = b + 1;
    }
    (a, b)
}

/// Whether the word at a place is this one, whatever its case.
fn word_is(s: &str, a: usize, b: usize, word: &str) -> (r: bool)
    requires
        a <= b <= s@.len(),
    ensures
        r == (s@.subrange(a as int, b as int).map_values(|c: char| upper(c)) == word@),
{
    let ghost w = s@.subrange(a as int, b as int).map_values(|c: char| upper(c));
    let n = word.unicode_len();
    if n != b - a {
        assert(w.len() == b - a);
        return false;
    }
    let mut i: usize = 0;
    while i < n
        invariant
            n == word@.len(),
            n == b - a,
            a <= b <= s@.len(),
            i <= n,
            w == s@.subrange(a as int, b as int).map_values(|c: char| upper(c)),
            forall|j: int| 0 <= j < i ==> w[j] == #[trigger] word@[j],
        decreases n - i,
    {
        assert(w[i as int] == upper(s@[a + i]));
        if to_upper(s.get_char(a + i)) != word.get_char(i) {
            return false;
        }
        i = i + 1;
    }
    assert(w =~= word@);
    true
}

/// Refuses a statement that would end or control the transaction it is in.
///
/// It goes by the words that the statement leads with, and is a guard against
/// the honest mistake. What hides the verb passes: a comment before it, a `DO`
/// block, a function or procedure that does it.
pub fn refuse_transaction_control(sql: &str) -> (r: Result<(), StoreError>)
    ensures
        ({
            let first = lead_word(sql@);
            let second = word_from(sql@, first_end(sql@));
            match r {
                Ok(_) => !controls(first, second),
                Err(e) => controls(first, second) && e@ == Refusal::Backend(control_text(first)),
            }
        }),
{
    let n = sql.unicode_len();
    let (a, b) = leading_word(sql, n);
    let (c, d) = next_word(sql, n, b);
    let word = if word_is(sql, a, b, "COMMIT") {
        Some("COMMIT")
    } else if word_is(sql, a, b, "END") {
        Some("END")
    } else if word_is(sql, a, b, "ROLLBACK") {
        Some("ROLLBACK")
    } else if word_is(sql, a, b, "ABORT") {
        Some("ABORT")
    } else if word_is(sql, a, b, "BEGIN") {
        Some("BEGIN")
    } else if word_is(sql, a, b, "START") {
        Some("START")
    } else if word_is(sql, a, b, "SAVEPOINT") {
        Some("SAVEPOINT")
    } else if word_is(sql, a, b, "RELEASE") {
        Some("RELEASE")
    } else if word_is(sql, a, b, "PREPARE") && word_is(sql, c, d, "TRANSACTION") {
        Some("PREPARE")
    } else if word_is(sql, a, b, "SET") && word_is(sql, c, d, "TRANSACTION") {
        Some("SET")
    } else {
        None
    };
    match word {
        None => Ok(()),
        Some(word) => Err(
            StoreError::Backend(
                join3(
                    "the statement '",
                    word,
                    "' would end or control the journal's transaction — a co-located resource writes *inside* the transaction that records it; it does not own that transaction, and dissolving it from within would break the atomicity the seam exists to provide",
                ),
            ),
        ),
    }
}

/// White space before a statement does not hide the word it leads with, nor does
/// any other sign that opens no comment.
pub proof fn law_leading_blanks_hide_nothing(s: Seq<char>, blank: char)
    requires
        !word_char(blank),
        blank != '/',
        blank != '-',
    ensures
        lead_word(seq![blank] + s) == lead_word(s),
{
    let t = seq![blank] + s;
    lemma_shift_start(s, t, 0);
    lemma_lead_start(s, 0);
    lemma_shift_end(s, t, lead_start(s, 0));
    lemma_word_end(s, lead_start(s, 0));
    let a = lead_start(s, 0);
    assert(lead_start(t, 0) == lead_start(t, 1));
    assert(t.subrange(a + 1, word_end(s, a) + 1) =~= s.subrange(a, word_end(s, a)));
}

/// A comment before a statement hides whatever the statement is.
pub proof fn law_leading_comment_passes(s: Seq<char>)
    requires
        comment_opens(s, 0),
    ensures
        !controls(lead_word(s), word_from(s, first_end(s))),
{
    let first = lead_word(s);
    assert(first.len() == 0);
    reveal_strlit("COMMIT");
    reveal_strlit("END");
    reveal_strlit("ROLLBACK");
    reveal_strlit("ABORT");
    reveal_strlit("BEGIN");
    reveal_strlit("START");
    reveal_strlit("SAVEPOINT");
    reveal_strlit("RELEASE");
    reveal_strlit("PREPARE");
    reveal_strlit("SET");
}

proof fn lemma_shift_start(s: Seq<char>, t: Seq<char>, i: int)
    requires
        0 <= i <= s.len(),
        t.len() == s.len() + 1,
        forall|j: int| 0 <= j < s.len() ==> t[j + 1] == #[trigger] s[j],
    ensures
        lead_start(t, i + 1) == lead_start(s, i) + 1,
    decreases s.len() - i,
{
    if i < s.len() {
        assert(t[i + 1] == s[i]);
        if i + 1 < s.len() {
            assert(t[i + 2] == s[i + 1]);
        }
        if !word_char(s[i]) && !comment_opens(s, i) {
            lemma_shift_start(s, t, i + 1);
        }
    }
}

proof fn lemma_shift_end(s: Seq<char>, t: Seq<char>, i: int)
    requires
        0 <= i <= s.len(),
        t.len() == s.len() + 1,
        forall|j: int| 0 <= j < s.len() ==> t[j + 1] == #[trigger] s[j],
    ensures
        word_end(t, i + 1) == word_end(s, i) + 1,
    decreases s.len() - i,
{
    if i < s.len() {
        assert(t[i + 1] == s[i]);
        if word_char(s[i]) {
            lemma_shift_end(s, t, i + 1);
        }
    }
}

proof fn lemma_word_ends(w: Seq<char>, rest: Seq<char>, i: int)
    requires
        0 <= i <= w.len(),
        forall|j: int| 0 <= j < w.len() ==> word_char(#[trigger] w[j]),
        rest.len() == 0 || !word_char(rest[0]),
    ensures
        word_end(w + rest, i) == w.len(),
    decreases w.len() - i,
{
    let s = w + rest;
    if i < w.len() {
        assert(s[i] == w[i]);
        lemma_word_ends(w, rest, i + 1);
    } else if rest.len() > 0 {
        assert(s[i] == rest[0]);
    }
}

/// A statement leads with the word that it begins with, whatever follows, and the
/// case of its letters makes no difference.
pub proof fn law_leading_word_is_read_in_any_case(w: Seq<char>, rest: Seq<char>, i: int)
    requires
        w.len() > 0,
        forall|j: int| 0 <= j < w.len() ==> word_char(#[trigger] w[j]),
        rest.len() == 0 || !word_char(rest[0]),
        0 <= i < w.len(),
    ensures
        lead_word(w + rest).len() == w.len(),
        'a' <= w[i] <= 'z' ==> lead_word(w + rest)[i] as int == w[i] as int - 32,
        !('a' <= w[i] <= 'z') ==> lead_word(w + rest)[i] == w[i],
{
    let s = w + rest;
    assert(s[0] == w[0]);
    assert(lead_start(s, 0) == 0);
    lemma_word_ends(w, rest, 0);
    assert(s.subrange(0, w.len() as int) =~= w);
    let c = w[i];
    assert(lead_word(s)[i] == upper(c));
    assert('a' <= c <= 'z' ==> upper(c) as int == c as int - 32);
}

/// A connection is planned exactly for a URL that reads and does not demand TLS: at
/// the first host and the first port that it names, as the user, with the password
/// and to the database that it names.
pub proof fn law_plan_follows_the_url(read: Result<UrlModel, Seq<char>>)
    ensures
        plan(read) is Ok <==> read is Ok && (read->Ok_0.tls is Disable || read->Ok_0.tls is Prefer),
        plan(read) matches Ok(e) ==> {
            let p = read->Ok_0;
            &&& e.host is Some <==> p.hosts.len() > 0
            &&& p.hosts.len() > 0 ==> e.host->0 == p.hosts.first()
            &&& e.port is Some <==> p.ports.len() > 0
            &&& p.ports.len() > 0 ==> e.port->0 == p.ports.first()
            &&& e.user == p.user
            &&& e.password == p.password
            &&& e.dbname == p.dbname
        },
        read matches Err(fault) ==> plan(read) == Err::<EndpointModel, Refusal>(
            Refusal::Backend(fault),
        ),
{
}

/// A commit that the server did not answer is in doubt, and no other is.
pub proof fn law_unanswered_commit_is_in_doubt(answered: bool, detail: Seq<char>)
    ensures
        commit_failure(answered, detail) is CommitUnknown <==> !answered,
        commit_failure(answered, detail) is Backend <==> answered,
{
}

/// An insert is told to be a duplicate exactly where the record starts an effect and
/// the index on started effects refused it; the effect is named.
pub proof fn law_duplicate_is_told_from_a_race(
    violated: Option<Seq<char>>,
    effect: Option<Seq<char>>,
    run: Seq<char>,
    seq: u64,
    detail: Seq<char>,
)
    ensures
        insert_refusal(violated, effect, run, seq, detail) is DuplicateEffect <==> effect is Some
            && violated == Some("journal_effect_started"@),
        insert_refusal(violated, effect, run, seq, detail) matches Refusal::DuplicateEffect(e)
            ==> effect == Some(e),
        violated is None ==> insert_refusal(violated, effect, run, seq, detail)
            == Refusal::Backend(detail),
{
}

} // verus!
